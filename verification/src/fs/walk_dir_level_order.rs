//! The walker: a breadth-first traversal of a directory tree, one entry at a
//! time.
//!
//! The traversal itself reads nothing. It holds the queue of entries that are
//! still to be yielded; whoever drives it reads the directory that was yielded
//! last and hands the listing in. Every level is yielded before the next, and
//! the entries of one directory come in the order of their paths, those that
//! could not be read last.

use vstd::prelude::*;
use vstd::seq_lib::group_to_multiset_ensures;
use std::collections::VecDeque;
use crate::fs::entity::{item_view, item_views, Error, FileKind, FsEntity, FsEntityView, FsMetadata};
use crate::fs::path::{
    is_file_name, is_name, join_path, joined, lemma_ordered_total, lemma_ordered_transitive,
    ordered, path_ordered,
};

verus! {

/// One entry of a directory listing: its file name, and its metadata if they
/// could be read.
#[derive(Debug)]
pub struct DirEntryData {
    pub file_name: String,
    pub metadata: Result<FsMetadata, Error>,
}

/// What an entry of a listing of the directory `dir` becomes at `depth`: an
/// entity under the joined path, or an error where the entry or its metadata
/// could not be read, or where its name is no file name.
pub open spec fn entity_of(dir: Seq<char>, entry: Result<DirEntryData, Error>, depth: u16) -> Result<
    FsEntityView,
    Error,
> {
    match entry {
        Ok(data) => match data.metadata {
            Ok(metadata) => if is_name(data.file_name@) {
                Ok(FsEntityView { path: joined(dir, data.file_name@), metadata, depth })
            } else {
                Err(Error {  })
            },
            Err(_) => Err(Error {  }),
        },
        Err(_) => Err(Error {  }),
    }
}

/// What a whole listing becomes, entry by entry.
pub open spec fn entities_of(
    dir: Seq<char>,
    listing: Seq<Result<DirEntryData, Error>>,
    depth: u16,
) -> Seq<Result<FsEntityView, Error>> {
    listing.map_values(|entry: Result<DirEntryData, Error>| entity_of(dir, entry, depth))
}

/// `a` may stand before `b` among the entries of one directory: entities by
/// their paths, every entity before every error.
pub open spec fn entry_ordered(a: Result<FsEntityView, Error>, b: Result<FsEntityView, Error>) -> bool {
    match (a, b) {
        (Ok(x), Ok(y)) => ordered(x.path, y.path),
        (Ok(_), Err(_)) => true,
        (Err(_), Ok(_)) => false,
        (Err(_), Err(_)) => true,
    }
}

/// The entries stand in walking order.
pub open spec fn entries_sorted(entries: Seq<Result<FsEntityView, Error>>) -> bool {
    forall|i: int, j: int|
        0 <= i < j < entries.len() ==> entry_ordered(#[trigger] entries[i], #[trigger] entries[j])
}

pub proof fn lemma_entry_ordered_transitive(
    a: Result<FsEntityView, Error>,
    b: Result<FsEntityView, Error>,
    c: Result<FsEntityView, Error>,
)
    requires
        entry_ordered(a, b),
        entry_ordered(b, c),
    ensures
        entry_ordered(a, c),
{
    if a is Ok && b is Ok && c is Ok {
        lemma_ordered_transitive(a->Ok_0.path, b->Ok_0.path, c->Ok_0.path);
    }
}

pub proof fn lemma_entry_ordered_total(a: Result<FsEntityView, Error>, b: Result<FsEntityView, Error>)
    ensures
        entry_ordered(a, b) || entry_ordered(b, a),
{
    if a is Ok && b is Ok {
        lemma_ordered_total(a->Ok_0.path, b->Ok_0.path);
    }
}

/// Turns one entry of a listing of the directory `dir` into what the walker
/// yields for it.
pub fn dir_entry_to_fs_entity(dir: &str, entry: Result<DirEntryData, Error>, depth: u16) -> (item:
    Result<FsEntity, Error>)
    ensures
        item_view(item) == entity_of(dir@, entry, depth),
{
    match entry {
        Ok(data) => match data.metadata {
            Ok(metadata) => {
                if is_file_name(data.file_name.as_str()) {
                    let path = join_path(dir, data.file_name.as_str());
                    Ok(FsEntity { path, metadata, depth })
                } else {
                    Err(Error {  })
                }
            },
            Err(_) => Err(Error {  }),
        },
        Err(_) => Err(Error {  }),
    }
}

/// Whether `a` may stand before `b` among the entries of one directory.
pub fn entry_is_ordered(a: &Result<FsEntity, Error>, b: &Result<FsEntity, Error>) -> (result: bool)
    ensures
        result == entry_ordered(item_view(*a), item_view(*b)),
{
    match a {
        Ok(x) => match b {
            Ok(y) => path_ordered(x.path.as_str(), y.path.as_str()),
            Err(_) => true,
        },
        Err(_) => match b {
            Ok(_) => false,
            Err(_) => true,
        },
    }
}

/// Inserting into a sequence adds one occurrence of the element to its
/// multiset.
pub proof fn lemma_insert_to_multiset<A>(s: Seq<A>, i: int, a: A)
    requires
        0 <= i <= s.len(),
    ensures
        s.insert(i, a).to_multiset() == s.to_multiset().insert(a),
{
    broadcast use group_to_multiset_ensures;
}

/// Puts the entries of one directory in walking order: entities by their
/// paths, errors after all entities. Nothing is added or lost.
pub fn sort_entries(entries: Vec<Result<FsEntity, Error>>) -> (sorted: Vec<Result<FsEntity, Error>>)
    ensures
        entries_sorted(item_views(sorted@)),
        item_views(sorted@).to_multiset() == item_views(entries@).to_multiset(),
        sorted@.len() == entries@.len(),
{
    broadcast use group_to_multiset_ensures;

    let ghost input = item_views(entries@);
    let mut sorted: Vec<Result<FsEntity, Error>> = Vec::new();
    for item in it: entries.into_iter()
        invariant
            it.seq() == entries@,
            input == item_views(entries@),
            entries_sorted(item_views(sorted@)),
            sorted@.len() == it.index(),
            item_views(sorted@).to_multiset() == input.take(it.index() as int).to_multiset(),
    {
        let ghost before = item_views(sorted@);
        let ghost new = item_view(item);
        let mut at: usize = 0;
        while at < sorted.len() && entry_is_ordered(&sorted[at], &item)
            invariant
                at <= sorted@.len(),
                before == item_views(sorted@),
                new == item_view(item),
                forall|j: int| 0 <= j < at ==> entry_ordered(#[trigger] before[j], new),
            decreases sorted@.len() - at,
        {
            at += 1;
        }
        sorted.insert(at, item);
        proof {
            let after = item_views(sorted@);
            assert(after =~= before.insert(at as int, new));
            lemma_insert_to_multiset(before, at as int, new);
            let k = it.index() as int;
            assert(input.take(k + 1) =~= input.take(k).push(new));
            vstd::seq_lib::to_multiset_build(input.take(k), new);
            assert forall|i: int, j: int| 0 <= i < j < after.len() implies entry_ordered(
                #[trigger] after[i],
                #[trigger] after[j],
            ) by {
                if i == at {
                    lemma_entry_ordered_total(before[at as int], new);
                    if j - 1 > at {
                        lemma_entry_ordered_transitive(new, before[at as int], before[j - 1]);
                    }
                }
            }
        }
    }
    assert(input.take(entries@.len() as int) =~= input);
    sorted
}

/// `child` is an entry of the directory `parent`, one level below it.
pub open spec fn is_child_of(child: FsEntityView, parent: FsEntityView) -> bool {
    &&& parent.metadata.kind == FileKind::Dir
    &&& child.depth == parent.depth + 1
    &&& exists|name: Seq<char>| is_name(name) && child.path == #[trigger] joined(parent.path, name)
}

/// Along the items the depth never falls.
pub open spec fn level_ordered(items: Seq<Result<FsEntityView, Error>>) -> bool {
    forall|i: int, j: int|
        0 <= i < j < items.len() && (#[trigger] items[i]) is Ok && (#[trigger] items[j]) is Ok
            ==> items[i]->Ok_0.depth <= items[j]->Ok_0.depth
}

/// Item `k`, if it is an entity below the root, has its parent before it and
/// among the first `limit` items.
pub open spec fn parent_precedes(
    items: Seq<Result<FsEntityView, Error>>,
    limit: int,
    k: int,
) -> bool {
    items[k] is Ok ==> items[k]->Ok_0.depth == 0 || exists|j: int|
        0 <= j < k && j < limit && (#[trigger] items[j]) is Ok && is_child_of(
            items[k]->Ok_0,
            items[j]->Ok_0,
        )
}

/// Every item has its parent before it and among the first `limit` items.
pub open spec fn parents_first(items: Seq<Result<FsEntityView, Error>>, limit: int) -> bool {
    forall|k: int| 0 <= k < items.len() ==> #[trigger] parent_precedes(items, limit, k)
}

/// Every entity at depth zero among the items is the root.
pub open spec fn rooted(items: Seq<Result<FsEntityView, Error>>, root: Seq<char>) -> bool {
    forall|k: int|
        0 <= k < items.len() && (#[trigger] items[k]) is Ok && items[k]->Ok_0.depth == 0
            ==> items[k]->Ok_0.path == root
}

/// Every entity among the items lies at `depth` or one level below.
pub open spec fn within_levels(items: Seq<Result<FsEntityView, Error>>, depth: int) -> bool {
    forall|j: int|
        0 <= j < items.len() && (#[trigger] items[j]) is Ok ==> depth <= items[j]->Ok_0.depth
            <= depth + 1
}

/// The entities among the items lie on at most two neighbouring levels, the
/// upper one first.
pub open spec fn spans_two_levels(items: Seq<Result<FsEntityView, Error>>) -> bool {
    forall|i: int, j: int|
        0 <= i < j < items.len() && (#[trigger] items[i]) is Ok && (#[trigger] items[j]) is Ok
            ==> items[j]->Ok_0.depth <= items[i]->Ok_0.depth + 1
}

/// A breadth-first traversal in progress.
pub struct LevelOrderDirTraversal {
    root_path: String,
    queue: VecDeque<Result<FsEntity, Error>>,
    pending: Option<FsEntity>,
    emitted: Ghost<Seq<Result<FsEntityView, Error>>>,
}

impl LevelOrderDirTraversal {
    /// Absolute path of the scan root.
    pub closed spec fn spec_root_path(&self) -> Seq<char> {
        self.root_path@
    }

    /// Absolute path of the scan root.
    pub fn root_path(&self) -> (path: &String)
        ensures
            path@ == self.spec_root_path(),
    {
        &self.root_path
    }

    /// What is still to be yielded, next first.
    pub closed spec fn queue(&self) -> Seq<Result<FsEntityView, Error>> {
        item_views(self.queue@)
    }

    /// What was yielded so far, first first.
    pub closed spec fn emitted(&self) -> Seq<Result<FsEntityView, Error>> {
        self.emitted@
    }

    /// The directory that was yielded last, as long as its listing is awaited.
    pub closed spec fn pending(&self) -> Option<FsEntityView> {
        match self.pending {
            Some(entity) => Some(entity@),
            None => None,
        }
    }

    /// The traversal is valid: over what was yielded and what is queued the
    /// depth never falls, every entity below the root has its parent among
    /// what was yielded before it, the only entity at depth zero is the root,
    /// and the queue holds nothing deeper than the children of the directory
    /// that is awaited.
    pub open spec fn wf(&self) -> bool {
        &&& level_ordered(self.emitted() + self.queue())
        &&& parents_first(self.emitted() + self.queue(), self.emitted().len() as int)
        &&& rooted(self.emitted() + self.queue(), self.spec_root_path())
        &&& spans_two_levels(self.queue())
        &&& self.pending() matches Some(d) ==> {
            &&& self.emitted().len() > 0
            &&& self.emitted().last() == Ok::<FsEntityView, Error>(d)
            &&& d.metadata.kind == FileKind::Dir
            &&& within_levels(self.queue(), d.depth as int)
        }
    }

    /// The directory whose listing the traversal awaits, if any.
    pub fn awaits_listing(&self) -> (dir: Option<&FsEntity>)
        ensures
            match dir {
                Some(d) => self.pending() == Some(d@),
                None => self.pending() is None,
            },
    {
        self.pending.as_ref()
    }

    /// Whether nothing is left to yield.
    pub fn is_finished(&self) -> (finished: bool)
        ensures
            finished == (self.queue().len() == 0),
    {
        self.queue.len() == 0
    }

    /// Yields the next entry, or `None` when the queue is empty. A directory
    /// that is yielded is awaited from then on: its listing belongs to
    /// `enque_children_of` before the next call.
    pub fn next(&mut self) -> (item: Option<Result<FsEntity, Error>>)
        requires
            old(self).wf(),
        ensures
            final(self).wf(),
            final(self).spec_root_path() == old(self).spec_root_path(),
            match item {
                None => {
                    &&& old(self).queue().len() == 0
                    &&& final(self).queue() == old(self).queue()
                    &&& final(self).emitted() == old(self).emitted()
                    &&& final(self).pending() is None
                },
                Some(x) => {
                    &&& old(self).queue().len() > 0
                    &&& item_view(x) == old(self).queue()[0]
                    &&& final(self).queue() == old(self).queue().skip(1)
                    &&& final(self).emitted() == old(self).emitted().push(item_view(x))
                    &&& final(self).pending() == match item_view(x) {
                        Ok(e) => if e.metadata.kind == FileKind::Dir {
                            Some(e)
                        } else {
                            None
                        },
                        Err(_) => None,
                    }
                },
            },
    {
        let ghost all = self.emitted() + self.queue();
        let ghost queued = self.queue();
        let ghost yielded = self.emitted();
        let item = self.queue.pop_front();
        match item {
            None => {
                self.pending = None;
                None
            },
            Some(x) => {
                let ghost view = item_view(x);
                self.pending = match &x {
                    Ok(e) => if e.is_dir() {
                        Some(FsEntity { path: e.path.clone(), metadata: e.metadata, depth: e.depth })
                    } else {
                        None
                    },
                    Err(_) => None,
                };
                proof {
                    self.emitted@ = yielded.push(view);
                    assert(self.queue() =~= queued.skip(1));
                    assert(self.emitted() + self.queue() =~= all);
                    assert forall|k: int| 0 <= k < all.len() implies #[trigger] parent_precedes(
                        all,
                        self.emitted().len() as int,
                        k,
                    ) by {
                        assert(parent_precedes(all, yielded.len() as int, k));
                    }
                    let rest = self.queue();
                    assert forall|i: int, j: int|
                        0 <= i < j < rest.len() && (#[trigger] rest[i]) is Ok && (
                        #[trigger] rest[j]) is Ok implies rest[j]->Ok_0.depth
                        <= rest[i]->Ok_0.depth + 1 by {}
                    if view is Ok {
                        let d = view->Ok_0;
                        assert forall|j: int| 0 <= j < rest.len() && (#[trigger] rest[j]) is Ok implies d.depth
                            <= rest[j]->Ok_0.depth <= d.depth + 1 by {
                            assert(all[yielded.len() as int] == queued[0]);
                            assert(all[yielded.len() + j + 1] == queued[j + 1]);
                        }
                    }
                }
                Some(x)
            },
        }
    }
}

/// An entity that a listing of `dir` gave at the next level is a child of
/// `dir`.
pub proof fn lemma_listed_is_child(
    dir: FsEntityView,
    listing: Seq<Result<DirEntryData, Error>>,
    item: Result<FsEntityView, Error>,
)
    requires
        dir.metadata.kind == FileKind::Dir,
        dir.depth < u16::MAX,
        entities_of(dir.path, listing, (dir.depth + 1) as u16).to_multiset().count(item) > 0,
        item is Ok,
    ensures
        is_child_of(item->Ok_0, dir),
{
    broadcast use group_to_multiset_ensures;

    let children = entities_of(dir.path, listing, (dir.depth + 1) as u16);
    let i = choose|i: int| 0 <= i < children.len() && children[i] == item;
    assert(item == entity_of(dir.path, listing[i], (dir.depth + 1) as u16));
}

impl LevelOrderDirTraversal {
    /// Takes the listing of the directory that is awaited.
    ///
    /// A listing that could be read is turned, entry by entry, into entities
    /// one level below the directory and into errors, put in walking order
    /// and appended to the queue. A listing that could not be read appends one
    /// error. Without an awaited directory nothing happens. No directory is
    /// awaited afterwards.
    pub fn enque_children_of(&mut self, listing: Result<Vec<Result<DirEntryData, Error>>, Error>)
        requires
            old(self).wf(),
            old(self).pending() matches Some(d) ==> d.depth < u16::MAX,
        ensures
            final(self).wf(),
            final(self).spec_root_path() == old(self).spec_root_path(),
            final(self).emitted() == old(self).emitted(),
            final(self).pending() is None,
            old(self).queue().is_prefix_of(final(self).queue()),
            match old(self).pending() {
                None => final(self).queue() == old(self).queue(),
                Some(d) => match listing {
                    Err(_) => final(self).queue() == old(self).queue().push(
                        Err::<FsEntityView, Error>(Error {  }),
                    ),
                    Ok(entries) => {
                        let appended = final(self).queue().skip(old(self).queue().len() as int);
                        &&& entries_sorted(appended)
                        &&& appended.to_multiset() == entities_of(
                            d.path,
                            entries@,
                            (d.depth + 1) as u16,
                        ).to_multiset()
                    },
                },
            },
    {
        broadcast use group_to_multiset_ensures;

        let ghost queued = self.queue();
        let ghost yielded = self.emitted();
        let ghost all = yielded + queued;
        let pending = self.pending.take();
        let dir: FsEntity = match pending {
            None => {
                return ;
            },
            Some(dir) => dir,
        };
        let ghost d = dir@;
        match listing {
            Err(_) => {
                self.queue.push_back(Err(Error {  }));
                proof {
                    let now = self.queue();
                    assert(now =~= queued.push(Err::<FsEntityView, Error>(Error {  })));
                    let all_now = yielded + now;
                    assert(all_now =~= all.push(Err::<FsEntityView, Error>(Error {  })));
                    assert forall|k: int| 0 <= k < all_now.len() implies #[trigger] parent_precedes(
                        all_now,
                        yielded.len() as int,
                        k,
                    ) by {
                        if k < all.len() {
                            assert(parent_precedes(all, yielded.len() as int, k));
                            if all[k] is Ok && all[k]->Ok_0.depth != 0 {
                                let j = choose|j: int|
                                    0 <= j < k && j < yielded.len() && (#[trigger] all[j]) is Ok
                                        && is_child_of(all[k]->Ok_0, all[j]->Ok_0);
                                assert(all_now[j] == all[j]);
                            }
                        }
                    }
                    assert forall|i: int, j: int|
                        0 <= i < j < now.len() && (#[trigger] now[i]) is Ok && (
                        #[trigger] now[j]) is Ok implies now[j]->Ok_0.depth <= now[i]->Ok_0.depth
                        + 1 by {
                        assert(now[j] == queued[j]);
                    }
                }
            },
            Ok(entries) => {
                let depth: u16 = dir.depth + 1;
                let ghost listed = entities_of(d.path, entries@, depth);
                let mut children: Vec<Result<FsEntity, Error>> = Vec::new();
                for entry in it: entries.into_iter()
                    invariant
                        it.seq() == entries@,
                        d == dir@,
                        listed == entities_of(d.path, entries@, depth),
                        children@.len() == it.index(),
                        item_views(children@) == listed.take(it.index() as int),
                {
                    let ghost before = item_views(children@);
                    let child = dir_entry_to_fs_entity(dir.path.as_str(), entry, depth);
                    children.push(child);
                    proof {
                        let k = it.index() as int;
                    }
                }
                assert(listed.take(entries@.len() as int) =~= listed);
                let sorted = sort_entries(children);
                let ghost appended = item_views(sorted@);
                for item in it: sorted.into_iter()
                    invariant
                        it.seq() == sorted@,
                        appended == item_views(sorted@),
                        self.emitted() == yielded,
                        self.pending() is None,
                        self.spec_root_path() == old(self).spec_root_path(),
                        self.queue() == queued + appended.take(it.index() as int),
                {
                    let ghost before = self.queue();
                    self.queue.push_back(item);
                    proof {
                        let k = it.index() as int;
                        assert(queued + appended.take(k + 1) =~= (queued + appended.take(k)).push(
                            appended[k],
                        ));
                    }
                }
                proof {
                    let now = self.queue();
                    assert(now.skip(queued.len() as int) =~= appended);
                    let all_now = yielded + now;
                    assert(all_now =~= all + appended);
                    assert forall|m: int| 0 <= m < appended.len() && (
                    #[trigger] appended[m]) is Ok implies is_child_of(appended[m]->Ok_0, d) by {
                        lemma_listed_is_child(d, entries@, appended[m]);
                    }
                    assert forall|k: int| 0 <= k < all_now.len() implies #[trigger] parent_precedes(
                        all_now,
                        yielded.len() as int,
                        k,
                    ) by {
                        if k < all.len() {
                            assert(parent_precedes(all, yielded.len() as int, k));
                            if all[k] is Ok && all[k]->Ok_0.depth != 0 {
                                let j = choose|j: int|
                                    0 <= j < k && j < yielded.len() && (#[trigger] all[j]) is Ok
                                        && is_child_of(all[k]->Ok_0, all[j]->Ok_0);
                                assert(all_now[j] == all[j]);
                            }
                        } else {
                            if all_now[k] is Ok {
                                let j = yielded.len() - 1;
                                assert(all_now[j] == Ok::<FsEntityView, Error>(d));
                            }
                        }
                    }
                }
            },
        }
    }
}

/// No entity is yielded before its parent: every entity below the root that
/// was yielded has its parent directory among what was yielded before it.
pub proof fn lemma_parent_comes_first(traversal: LevelOrderDirTraversal, k: int)
    requires
        traversal.wf(),
        0 <= k < traversal.emitted().len(),
        traversal.emitted()[k] is Ok,
        traversal.emitted()[k]->Ok_0.depth > 0,
    ensures
        exists|j: int|
            0 <= j < k && (#[trigger] traversal.emitted()[j]) is Ok && is_child_of(
                traversal.emitted()[k]->Ok_0,
                traversal.emitted()[j]->Ok_0,
            ),
{
    let yielded = traversal.emitted();
    let all = yielded + traversal.queue();
    assert(parent_precedes(all, yielded.len() as int, k));
    let j = choose|j: int|
        0 <= j < k && j < yielded.len() && (#[trigger] all[j]) is Ok && is_child_of(
            all[k]->Ok_0,
            all[j]->Ok_0,
        );
}

/// Levels are yielded one after the other: along what was yielded the depth
/// never falls.
pub proof fn lemma_levels_in_order(traversal: LevelOrderDirTraversal, i: int, j: int)
    requires
        traversal.wf(),
        0 <= i < j < traversal.emitted().len(),
        traversal.emitted()[i] is Ok,
        traversal.emitted()[j] is Ok,
    ensures
        traversal.emitted()[i]->Ok_0.depth <= traversal.emitted()[j]->Ok_0.depth,
{
    let yielded = traversal.emitted();
    let all = yielded + traversal.queue();
    assert(all[i] == yielded[i]);
    assert(all[j] == yielded[j]);
}

/// Starts a traversal at `root_path`, whose metadata were read or could not
/// be read: the root is the first and, so far, the only entry in the queue.
pub fn walk_dir(root_path: String, root_metadata: Result<FsMetadata, Error>) -> (traversal:
    LevelOrderDirTraversal)
    ensures
        traversal.wf(),
        traversal.spec_root_path() == root_path@,
        traversal.emitted().len() == 0,
        traversal.pending() is None,
        traversal.queue() == seq![
            match root_metadata {
                Ok(metadata) => Ok::<FsEntityView, Error>(
                    FsEntityView { path: root_path@, metadata, depth: 0 },
                ),
                Err(_) => Err::<FsEntityView, Error>(Error {  }),
            },
        ],
{
    let root: Result<FsEntity, Error> = match root_metadata {
        Ok(metadata) => Ok(FsEntity { path: root_path.clone(), metadata, depth: 0 }),
        Err(_) => Err(Error {  }),
    };
    let mut queue: VecDeque<Result<FsEntity, Error>> = VecDeque::new();
    queue.push_back(root);
    let traversal = LevelOrderDirTraversal {
        root_path,
        queue,
        pending: None,
        emitted: Ghost(Seq::empty()),
    };
    traversal
}

} // verus!

//! Layout of a whole tree: every node's place inside its parent's span, its
//! visibility and its hue band.
//!
//! The root takes the whole available width. A directory that is shown and
//! lies above the maximum depth partitions its own width among its children;
//! everything below a node that is hidden, or that is not partitioned, is
//! hidden as well.

use vstd::prelude::*;
use crate::fs::du_tree::{
    children_bytes, children_bytes_upto, linked_down, linked_up, parent_index, settled_except,
    well_linked, DiskUsageTree, TreeNode,
};
use crate::ui::layout::{
    layout_children, lemma_gaps_fit, lemma_partition_total, lemma_shown_iff_wide,
    lemma_shown_in_order, lemma_span_fits, shares_of, span_offset, span_width, total_bytes,
    ChildrenLayout, Frame,
};
use crate::ui::tree_view_theme::{lemma_scaled_parts_fit, DescendentColorRange};

verus! {

/// The policy of a layout pass.
#[derive(Clone, Copy, Debug, PartialEq, Eq, Structural)]
pub struct DiskUsageTreeOptions {
    /// Nodes at this depth are shown, but their children are not laid out.
    pub max_depth: u16,
    /// The least width at which a child is worth showing, without its gap.
    pub min_visible_width: u32,
    /// The width between two neighbours.
    pub gap_width: u32,
}

impl Default for DiskUsageTreeOptions {
    fn default() -> (options: Self)
        ensures
            options.max_depth == 6,
            options.min_visible_width == 1,
            options.gap_width == 1,
    {
        DiskUsageTreeOptions { max_depth: 6, min_visible_width: 1, gap_width: 1 }
    }
}

/// The place of one node in a layout pass.
///
/// `offset / span` and `width / span` are the fractions of the parent's span
/// at which the node starts and which it covers.
#[derive(Clone, Copy, Debug)]
pub struct LayoutNode {
    /// Whether the node is shown on its own.
    pub visible: bool,
    /// Distance from the parent's left edge.
    pub offset: u32,
    /// Width on screen.
    pub width: u32,
    /// Width of the parent's span.
    pub span: u32,
    /// The hue band of a shown directory; `None` for everything else.
    pub color_range: Option<DescendentColorRange>,
}

/// The layout of a whole tree, node by node.
#[derive(Debug)]
pub struct TreeLayout {
    /// The place of every node, by its index in the tree.
    pub nodes: Vec<LayoutNode>,
    /// For every node, whether its hidden children together are wide enough
    /// for one grouped placeholder. Whether one is drawn is up to the caller;
    /// the layout has reserved the gap for it.
    pub hidden_groups: Vec<bool>,
}

/// A node that is not shown carries no place and no band.
pub open spec fn is_hidden(node: LayoutNode) -> bool {
    &&& !node.visible
    &&& node.offset == 0
    &&& node.width == 0
    &&& node.span == 0
    &&& node.color_range is None
}

/// The root takes the whole width and, as a directory, the whole hue circle.
pub open spec fn is_root_layout(node: LayoutNode, entry: TreeNode, available_width: u32) -> bool {
    &&& node.visible
    &&& node.offset == 0
    &&& node.width == available_width
    &&& node.span == available_width
    &&& if entry.is_dir {
        node.color_range matches Some(r) && r.spec_start() == 0 && r.spec_end()
            == crate::ui::tree_view_theme::HUE_SCALE
    } else {
        node.color_range is None
    }
}

/// Whether the children of an entry are laid out: it is a shown directory
/// above the maximum depth.
pub open spec fn expands(entry: TreeNode, node: LayoutNode, options: DiskUsageTreeOptions) -> bool {
    node.visible && entry.is_dir && entry.depth < options.max_depth
}

/// Aggregate sizes of the children of `p`, in sibling order.
pub open spec fn child_sizes(nodes: Seq<TreeNode>, p: int) -> Seq<u64> {
    Seq::new(
        nodes[p].children@.len(),
        |j: int| nodes[nodes[p].children@[j] as int].aggregate_size_bytes,
    )
}

/// What `p`, laid out with `width`, offers to its children.
pub open spec fn frame_of(entry: TreeNode, width: u32, options: DiskUsageTreeOptions) -> Frame {
    Frame {
        parent_bytes: entry.aggregate_size_bytes,
        parent_width: width,
        min_visible_width: options.min_visible_width,
        gap_width: options.gap_width,
    }
}

/// The `k`-th shown child of `p` has its place from the partition of `p`'s
/// width and, as a directory, the matching part of `p`'s band.
pub open spec fn placed_at(
    nodes: Seq<TreeNode>,
    options: DiskUsageTreeOptions,
    out: Seq<LayoutNode>,
    p: int,
    k: int,
) -> bool {
    let frame = frame_of(nodes[p], out[p].width, options);
    let shares = shares_of(child_sizes(nodes, p));
    let shown = frame.shown(shares);
    let c = nodes[p].children@[shown[k].index as int] as int;
    let offset = span_offset(
        shown,
        k,
        frame.available(shares),
        frame.parent_bytes as int,
        frame.gap_width as int,
    );
    let width = span_width(shown, k, frame.available(shares), frame.parent_bytes as int);
    &&& out[c].visible
    &&& out[c].offset == offset
    &&& out[c].width == width
    &&& out[c].span == out[p].width
    &&& if nodes[c].is_dir {
        &&& out[p].color_range matches Some(r)
        &&& out[c].color_range matches Some(cr)
        &&& cr.wf()
        &&& cr.spec_start() == r.sub_start(offset, out[p].width as int)
        &&& cr.spec_end() == r.sub_end(offset, width, out[p].width as int)
    } else {
        out[c].color_range is None
    }
}

/// The `k`-th hidden child of `p` is hidden.
pub open spec fn hidden_at(
    nodes: Seq<TreeNode>,
    options: DiskUsageTreeOptions,
    out: Seq<LayoutNode>,
    p: int,
    k: int,
) -> bool {
    let frame = frame_of(nodes[p], out[p].width, options);
    let hidden = frame.hidden(shares_of(child_sizes(nodes, p)));
    is_hidden(out[nodes[p].children@[hidden[k].index as int] as int])
}

/// The children of `p` are laid out as `p`'s own layout demands: partitioned
/// where `p` expands, hidden where it does not.
pub open spec fn children_laid_out(
    nodes: Seq<TreeNode>,
    options: DiskUsageTreeOptions,
    out: Seq<LayoutNode>,
    p: int,
) -> bool {
    let frame = frame_of(nodes[p], out[p].width, options);
    let shares = shares_of(child_sizes(nodes, p));
    if expands(nodes[p], out[p], options) {
        &&& forall|k: int|
            0 <= k < frame.shown(shares).len() ==> #[trigger] placed_at(nodes, options, out, p, k)
        &&& forall|k: int|
            0 <= k < frame.hidden(shares).len() ==> #[trigger] hidden_at(nodes, options, out, p, k)
    } else {
        forall|j: int|
            0 <= j < nodes[p].children@.len() ==> is_hidden(
                out[(#[trigger] nodes[p].children@[j]) as int],
            )
    }
}

/// Whether the hidden children of `p` qualify for a grouped placeholder: `p`
/// expands, and their combined exact width exceeds the threshold.
pub open spec fn groups_hidden_at(
    nodes: Seq<TreeNode>,
    options: DiskUsageTreeOptions,
    out: Seq<LayoutNode>,
    p: int,
) -> bool {
    expands(nodes[p], out[p], options) && frame_of(nodes[p], out[p].width, options).groups_hidden(
        shares_of(child_sizes(nodes, p)),
    )
}

/// `out` is the layout of the tree `nodes` in `available_width` units.
pub open spec fn is_layout_of(
    nodes: Seq<TreeNode>,
    available_width: u32,
    options: DiskUsageTreeOptions,
    out: Seq<LayoutNode>,
) -> bool {
    &&& out.len() == nodes.len()
    &&& nodes.len() > 0 ==> is_root_layout(out[0], nodes[0], available_width)
    &&& forall|p: int|
        0 <= p < nodes.len() ==> #[trigger] children_laid_out(nodes, options, out, p)
}

/// The children of a settled node hold no more than the node does.
pub proof fn lemma_children_within_parent(nodes: Seq<TreeNode>, p: int)
    requires
        0 <= p < nodes.len(),
        settled_except(nodes, -1, 0),
        nodes[p].children@.len() <= usize::MAX,
    ensures
        total_bytes(shares_of(child_sizes(nodes, p))) == children_bytes(nodes, p),
        total_bytes(shares_of(child_sizes(nodes, p))) <= nodes[p].aggregate_size_bytes,
{
    lemma_child_sizes_total(nodes, p, nodes[p].children@.len() as int);
    assert(shares_of(child_sizes(nodes, p)).take(nodes[p].children@.len() as int) =~= shares_of(
        child_sizes(nodes, p),
    ));
}

proof fn lemma_child_sizes_total(nodes: Seq<TreeNode>, p: int, m: int)
    requires
        0 <= p < nodes.len(),
        0 <= m <= nodes[p].children@.len(),
    ensures
        total_bytes(shares_of(child_sizes(nodes, p)).take(m)) == children_bytes_upto(
            nodes,
            nodes[p].children@,
            m,
        ),
    decreases m,
{
    let shares = shares_of(child_sizes(nodes, p));
    if m > 0 {
        lemma_child_sizes_total(nodes, p, m - 1);
        assert(shares.take(m).drop_last() =~= shares.take(m - 1));
    }
}

/// Every shown directory has a valid band, and nothing else has one that is
/// not valid.
pub open spec fn bands_ok(nodes: Seq<TreeNode>, out: Seq<LayoutNode>) -> bool {
    forall|i: int|
        0 <= i < out.len() ==> {
            &&& (#[trigger] out[i]).visible && nodes[i].is_dir ==> out[i].color_range is Some
            &&& out[i].color_range matches Some(r) ==> r.wf()
        }
}

/// The two layouts agree on every node that is not a child of `p`.
pub open spec fn same_outside(
    nodes: Seq<TreeNode>,
    before: Seq<LayoutNode>,
    after: Seq<LayoutNode>,
    p: int,
) -> bool {
    &&& before.len() == after.len()
    &&& forall|i: int|
        0 <= i < before.len() && parent_index(nodes[i]) != p ==> (#[trigger] after[i])
            == before[i]
}

/// What is laid out under `q` stays so when only the children of another
/// node are laid out anew.
pub proof fn lemma_laid_out_stable(
    nodes: Seq<TreeNode>,
    options: DiskUsageTreeOptions,
    before: Seq<LayoutNode>,
    after: Seq<LayoutNode>,
    q: int,
    p: int,
)
    requires
        well_linked(nodes),
        before.len() == nodes.len(),
        0 <= q < nodes.len(),
        q != p,
        parent_index(nodes[q]) != p,
        nodes[q].children@.len() <= usize::MAX,
        same_outside(nodes, before, after, p),
        children_laid_out(nodes, options, before, q),
    ensures
        children_laid_out(nodes, options, after, q),
{
    let frame = frame_of(nodes[q], before[q].width, options);
    let sizes = child_sizes(nodes, q);
    let shares = shares_of(sizes);
    lemma_shown_in_order(frame, sizes);
    assert forall|j: int| 0 <= j < nodes[q].children@.len() implies after[(
    #[trigger] nodes[q].children@[j]) as int] == before[nodes[q].children@[j] as int] by {
        assert(linked_down(nodes, q, j));
    }
    if expands(nodes[q], before[q], options) {
        assert forall|k: int| 0 <= k < frame.shown(shares).len() implies #[trigger] placed_at(
            nodes,
            options,
            after,
            q,
            k,
        ) by {
            assert(placed_at(nodes, options, before, q, k));
            let j = frame.shown(shares)[k].index as int;
            let c = nodes[q].children@[j];
        }
        assert forall|k: int| 0 <= k < frame.hidden(shares).len() implies #[trigger] hidden_at(
            nodes,
            options,
            after,
            q,
            k,
        ) by {
            assert(hidden_at(nodes, options, before, q, k));
            let j = frame.hidden(shares)[k].index as int;
            let c = nodes[q].children@[j];
        }
    }
}

/// A node that is not shown.
fn hidden_layout() -> (node: LayoutNode)
    ensures
        is_hidden(node),
{
    LayoutNode { visible: false, offset: 0, width: 0, span: 0, color_range: None }
}

/// Aggregate sizes of the children of `p`, in sibling order.
fn collect_child_sizes(nodes: &Vec<TreeNode>, p: usize) -> (sizes: Vec<u64>)
    requires
        p < nodes@.len(),
        well_linked(nodes@),
    ensures
        sizes@ == child_sizes(nodes@, p as int),
{
    let mut sizes: Vec<u64> = Vec::new();
    let mut j: usize = 0;
    while j < nodes[p].children.len()
        invariant
            p < nodes@.len(),
            well_linked(nodes@),
            j <= nodes@[p as int].children@.len(),
            sizes@.len() == j,
            forall|i: int| 0 <= i < j ==> sizes@[i] == child_sizes(nodes@, p as int)[i],
        decreases nodes@[p as int].children@.len() - j,
    {
        assert(linked_down(nodes@, p as int, j as int));
        let c: usize = nodes[p].children[j];
        sizes.push(nodes[c].aggregate_size_bytes);
        j += 1;
    }
    sizes
}

/// Lays out the children of `p`, which expands, inside `p`'s own width.
fn place_children(
    nodes: &Vec<TreeNode>,
    options: DiskUsageTreeOptions,
    out: &mut Vec<LayoutNode>,
    p: usize,
) -> (hidden_group: bool)
    requires
        well_linked(nodes@),
        settled_except(nodes@, -1, 0),
        old(out)@.len() == nodes@.len(),
        p < nodes@.len(),
        expands(nodes@[p as int], old(out)@[p as int], options),
        bands_ok(nodes@, old(out)@),
        forall|j: int|
            0 <= j < nodes@[p as int].children@.len() ==> is_hidden(
                old(out)@[(#[trigger] nodes@[p as int].children@[j]) as int],
            ),
    ensures
        same_outside(nodes@, old(out)@, final(out)@, p as int),
        children_laid_out(nodes@, options, final(out)@, p as int),
        bands_ok(nodes@, final(out)@),
        hidden_group == groups_hidden_at(nodes@, options, old(out)@, p as int),
{
    let ghost start = out@;
    let ghost frame_spec = frame_of(nodes@[p as int], start[p as int].width, options);
    let ghost sizes_spec = child_sizes(nodes@, p as int);
    let ghost shares = shares_of(sizes_spec);
    let ghost shown = frame_spec.shown(shares);
    let ghost hidden = frame_spec.hidden(shares);
    let sizes = collect_child_sizes(nodes, p);
    let parent_width: u32 = out[p].width;
    let parent_range: Option<DescendentColorRange> = out[p].color_range;
    let frame = Frame {
        parent_bytes: nodes[p].aggregate_size_bytes,
        parent_width,
        min_visible_width: options.min_visible_width,
        gap_width: options.gap_width,
    };
    proof {
        assert(nodes@[p as int].children@.len() == nodes@[p as int].children.len());
        lemma_children_within_parent(nodes@, p as int);
        lemma_shown_in_order(frame_spec, sizes_spec);
        if p > 0 {
            assert(linked_up(nodes@, p as int));
        }
        assert forall|k: int| 0 <= k < hidden.len() implies #[trigger] hidden_at(
            nodes@,
            options,
            out@,
            p as int,
            k,
        ) by {
            let j = hidden[k].index as int;
        }
    }
    let partition: ChildrenLayout = layout_children(&sizes, frame);
    let mut k: usize = 0;
    while k < partition.visible.len()
        invariant
            well_linked(nodes@),
            p < nodes@.len(),
            out@.len() == nodes@.len(),
            start.len() == nodes@.len(),
            parent_index(nodes@[p as int]) < p,
            out@[p as int] == start[p as int],
            parent_width == start[p as int].width,
            parent_range == start[p as int].color_range,
            expands(nodes@[p as int], start[p as int], options),
            bands_ok(nodes@, start),
            bands_ok(nodes@, out@),
            frame == frame_spec,
            frame_spec == frame_of(nodes@[p as int], start[p as int].width, options),
            sizes_spec == child_sizes(nodes@, p as int),
            sizes_spec.len() == nodes@[p as int].children@.len(),
            sizes_spec.len() <= usize::MAX,
            shares == shares_of(sizes_spec),
            shown == frame_spec.shown(shares),
            hidden == frame_spec.hidden(shares),
            k <= partition.visible@.len(),
            partition.visible@.len() == shown.len(),
            forall|i: int|
                0 <= i < partition.visible@.len() ==> {
                    &&& (#[trigger] partition.visible@[i]).index == shown[i].index
                    &&& partition.visible@[i].index < sizes_spec.len()
                    &&& partition.visible@[i].offset == span_offset(
                        shown,
                        i,
                        frame_spec.available(shares),
                        frame_spec.parent_bytes as int,
                        frame_spec.gap_width as int,
                    )
                    &&& partition.visible@[i].width == span_width(
                        shown,
                        i,
                        frame_spec.available(shares),
                        frame_spec.parent_bytes as int,
                    )
                    &&& partition.visible@[i].offset + partition.visible@[i].width
                        <= frame_spec.parent_width
                },
            forall|i: int, l: int|
                0 <= i < l < partition.visible@.len() ==> (#[trigger] partition.visible@[i]).index
                    < (#[trigger] partition.visible@[l]).index,
            same_outside(nodes@, start, out@, p as int),
            forall|i: int| 0 <= i < k ==> #[trigger] placed_at(nodes@, options, out@, p as int, i),
            forall|i: int|
                0 <= i < hidden.len() ==> #[trigger] hidden_at(nodes@, options, out@, p as int, i),
        decreases partition.visible@.len() - k,
    {
        let span = partition.visible[k];
        let ghost j = span.index as int;
        proof {
            assert(linked_down(nodes@, p as int, j));
        }
        let c: usize = nodes[p].children[span.index];
        let color_range: Option<DescendentColorRange> = if nodes[c].is_dir {
            match parent_range {
                Some(r) => Some(r.sub_range(span.offset as u64, span.width as u64, parent_width as u64)),
                None => None,
            }
        } else {
            None
        };
        let ghost previous = out@;
        out.set(
            c,
            LayoutNode {
                visible: true,
                offset: span.offset,
                width: span.width,
                span: parent_width,
                color_range,
            },
        );
        proof {
            let now = out@;
            lemma_shown_in_order(frame_spec, sizes_spec);
            assert forall|i: int| 0 <= i < k + 1 implies #[trigger] placed_at(
                nodes@,
                options,
                now,
                p as int,
                i,
            ) by {
                if i < k {
                    assert(placed_at(nodes@, options, previous, p as int, i));
                    let ji = shown[i].index as int;
                    assert(linked_down(nodes@, p as int, ji));
                }
            }
            assert forall|i: int| 0 <= i < hidden.len() implies #[trigger] hidden_at(
                nodes@,
                options,
                now,
                p as int,
                i,
            ) by {
                assert(hidden_at(nodes@, options, previous, p as int, i));
                let ji = hidden[i].index as int;
                lemma_shown_iff_wide(frame_spec, sizes_spec, j);
                assert(linked_down(nodes@, p as int, ji));
            }
        }
        k += 1;
    }
    partition.hidden_group
}

/// Lays out the whole tree in `available_width` units.
///
/// The root is shown over the whole width. Below it, every shown directory
/// above `options.max_depth` partitions its width among its children as
/// `layout_children` says, and hands each shown child directory the part of
/// its own hue band that the child's place cuts out. Every other node is
/// hidden, with no place and no band. For every node the result also says
/// whether its hidden children qualify for a grouped placeholder.
pub fn layout_tree(tree: &DiskUsageTree, available_width: u32, options: DiskUsageTreeOptions) -> (out:
    TreeLayout)
    requires
        tree.wf(),
    ensures
        is_layout_of(tree@, available_width, options, out.nodes@),
        bands_ok(tree@, out.nodes@),
        out.hidden_groups@.len() == tree@.len(),
        forall|p: int|
            0 <= p < tree@.len() ==> (#[trigger] out.hidden_groups@[p]) == groups_hidden_at(
                tree@,
                options,
                out.nodes@,
                p,
            ),
{
    let nodes = tree.nodes();
    let n: usize = nodes.len();
    let mut out: Vec<LayoutNode> = Vec::new();
    let mut hidden_groups: Vec<bool> = Vec::new();
    let mut i: usize = 0;
    while i < n
        invariant
            i <= n,
            out@.len() == i,
            forall|j: int| 0 <= j < i ==> is_hidden(#[trigger] out@[j]),
        decreases n - i,
    {
        out.push(hidden_layout());
        i += 1;
    }
    if n == 0 {
        return TreeLayout { nodes: out, hidden_groups };
    }
    let root_range: Option<DescendentColorRange> = if nodes[0].is_dir {
        Some(DescendentColorRange::full())
    } else {
        None
    };
    out.set(
        0,
        LayoutNode {
            visible: true,
            offset: 0,
            width: available_width,
            span: available_width,
            color_range: root_range,
        },
    );
    let mut p: usize = 0;
    while p < n
        invariant
            p <= n,
            n == nodes@.len(),
            n > 0,
            nodes@ == tree@,
            well_linked(nodes@),
            settled_except(nodes@, -1, 0),
            out@.len() == n,
            is_root_layout(out@[0], nodes@[0], available_width),
            bands_ok(nodes@, out@),
            forall|q: int| 0 <= q < p ==> #[trigger] children_laid_out(nodes@, options, out@, q),
            forall|c: int|
                0 <= c < n && parent_index(nodes@[c]) >= p ==> is_hidden(#[trigger] out@[c]),
            hidden_groups@.len() == p,
            forall|q: int|
                0 <= q < p ==> (#[trigger] hidden_groups@[q]) == groups_hidden_at(
                    nodes@,
                    options,
                    out@,
                    q,
                ),
        decreases n - p,
    {
        let ghost previous = out@;
        let hidden_group: bool = if out[p].visible && nodes[p].is_dir && nodes[p].depth
            < options.max_depth {
            proof {
                assert forall|j: int| 0 <= j < nodes@[p as int].children@.len() implies is_hidden(
                    previous[(#[trigger] nodes@[p as int].children@[j]) as int],
                ) by {
                    assert(linked_down(nodes@, p as int, j));
                }
            }
            place_children(nodes, options, &mut out, p)
        } else {
            proof {
                assert forall|j: int| 0 <= j < nodes@[p as int].children@.len() implies is_hidden(
                    out@[(#[trigger] nodes@[p as int].children@[j]) as int],
                ) by {
                    assert(linked_down(nodes@, p as int, j));
                }
            }
            false
        };
        hidden_groups.push(hidden_group);
        proof {
            assert forall|q: int| 0 <= q < p implies #[trigger] children_laid_out(
                nodes@,
                options,
                out@,
                q,
            ) by {
                if q > 0 {
                    assert(linked_up(nodes@, q));
                }
                assert(nodes@[q].children@.len() == nodes@[q].children.len());
                lemma_laid_out_stable(nodes@, options, previous, out@, q, p as int);
            }
            assert forall|q: int| 0 <= q < p + 1 implies (#[trigger] hidden_groups@[q])
                == groups_hidden_at(nodes@, options, out@, q) by {
                if q > 0 {
                    assert(linked_up(nodes@, q));
                }
            }
        }
        p += 1;
    }
    TreeLayout { nodes: out, hidden_groups }
}

/// In a layout, a node other than the root is shown exactly when its parent
/// expands and the node's exact share of the parent's width reaches
/// `min_visible_width + gap_width`.
pub proof fn lemma_visible_iff_wide(
    nodes: Seq<TreeNode>,
    available_width: u32,
    options: DiskUsageTreeOptions,
    out: Seq<LayoutNode>,
    c: int,
)
    requires
        well_linked(nodes),
        is_layout_of(nodes, available_width, options, out),
        0 < c < nodes.len(),
    ensures
        out[c].visible <==> {
            let p = parent_index(nodes[c]);
            expands(nodes[p], out[p], options) && frame_of(
                nodes[p],
                out[p].width,
                options,
            ).shows_bytes(nodes[c].aggregate_size_bytes as int)
        },
{
    assert(linked_up(nodes, c));
    let p = parent_index(nodes[c]);
    let j = nodes[c].sibling_index as int;
    let frame = frame_of(nodes[p], out[p].width, options);
    let sizes = child_sizes(nodes, p);
    let shares = shares_of(sizes);
    assert(children_laid_out(nodes, options, out, p));
    assert(nodes[p].children@.len() == nodes[p].children.len());
    if expands(nodes[p], out[p], options) {
        lemma_shown_iff_wide(frame, sizes, j);
        if frame.shows_bytes(sizes[j] as int) {
            let k = choose|k: int|
                0 <= k < frame.shown(shares).len() && (#[trigger] frame.shown(shares)[k]).index
                    == j;
            assert(placed_at(nodes, options, out, p, k));
        } else {
            let k = choose|k: int|
                0 <= k < frame.hidden(shares).len() && (#[trigger] frame.hidden(shares)[k]).index
                    == j;
            assert(hidden_at(nodes, options, out, p, k));
        }
    }
}

/// In a layout, the band of every node that has one lies inside the band of
/// its parent.
pub proof fn lemma_band_inside_parent(
    nodes: Seq<TreeNode>,
    available_width: u32,
    options: DiskUsageTreeOptions,
    out: Seq<LayoutNode>,
    c: int,
)
    requires
        well_linked(nodes),
        settled_except(nodes, -1, 0),
        is_layout_of(nodes, available_width, options, out),
        bands_ok(nodes, out),
        0 < c < nodes.len(),
        out[c].color_range is Some,
    ensures
        out[parent_index(nodes[c])].color_range matches Some(r) && r.contains_range(
            out[c].color_range->0,
        ),
{
    assert(linked_up(nodes, c));
    let p = parent_index(nodes[c]);
    let j = nodes[c].sibling_index as int;
    let frame = frame_of(nodes[p], out[p].width, options);
    let sizes = child_sizes(nodes, p);
    let shares = shares_of(sizes);
    let shown = frame.shown(shares);
    assert(children_laid_out(nodes, options, out, p));
    assert(nodes[p].children@.len() == nodes[p].children.len());
    if expands(nodes[p], out[p], options) {
        lemma_shown_iff_wide(frame, sizes, j);
        if frame.shows_bytes(sizes[j] as int) {
            let k = choose|k: int| 0 <= k < shown.len() && (#[trigger] shown[k]).index == j;
            assert(placed_at(nodes, options, out, p, k));
            let r = out[p].color_range->0;
            let available = frame.available(shares);
            let offset = span_offset(
                shown,
                k,
                available,
                frame.parent_bytes as int,
                frame.gap_width as int,
            );
            let width = span_width(shown, k, available, frame.parent_bytes as int);
            lemma_children_within_parent(nodes, p);
            lemma_partition_total(frame, shares);
            lemma_gaps_fit(frame, shares);
            lemma_span_fits(
                shown,
                k,
                available,
                frame.parent_bytes as int,
                frame.gap_width as int,
            );
            assert(k * frame.gap_width <= frame.gaps(shares) * frame.gap_width)
                by (nonlinear_arith)
                requires
                    0 <= k <= frame.gaps(shares),
                    0 <= frame.gap_width,
            ;
            lemma_scaled_parts_fit(r.spec_len(), offset, width, out[p].width as int);
        } else {
            let k = choose|k: int|
                0 <= k < frame.hidden(shares).len() && (#[trigger] frame.hidden(shares)[k]).index
                    == j;
            assert(hidden_at(nodes, options, out, p, k));
        }
    }
}

} // verus!

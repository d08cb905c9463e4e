//! Proportional partition of one parent's span among its children.
//!
//! Widths are whole layout units. A child is shown on its own when its exact
//! share of the parent's width reaches `min_visible_width + gap_width`; the
//! others are hidden and, together, may qualify for one grouped placeholder.
//! Shown children divide the width that is left after the gaps: each gets its
//! share rounded down, and the last one also takes the whole units that the
//! roundings left over.

use vstd::prelude::*;
use grouping_by::GroupingBy;
use crate::ui::tree_view_theme::scaled;

verus! {

/// What a parent offers to its children: its aggregate size, the width of its
/// own span, and the two widths that decide visibility and spacing.
#[derive(Clone, Copy, Debug, PartialEq, Eq, Structural)]
pub struct Frame {
    pub parent_bytes: u64,
    pub parent_width: u32,
    pub min_visible_width: u32,
    pub gap_width: u32,
}

/// A child as the partition sees it: its place among its siblings and its
/// aggregate size.
#[derive(Clone, Copy, Debug, PartialEq, Eq, Structural)]
pub struct ChildShare {
    pub index: usize,
    pub bytes: u64,
}

/// The place of a shown child inside its parent's span.
#[derive(Clone, Copy, Debug, PartialEq, Eq, Structural)]
pub struct ChildSpan {
    /// Place of the child among its siblings.
    pub index: usize,
    /// Distance from the parent's left edge.
    pub offset: u32,
    /// Width on screen.
    pub width: u32,
}

/// The partition of one parent's span.
#[derive(Debug)]
pub struct ChildrenLayout {
    /// The shown children, in sibling order.
    pub visible: Vec<ChildSpan>,
    /// Sibling indices of the hidden children, in sibling order.
    pub hidden: Vec<usize>,
    /// Combined aggregate size of the hidden children.
    pub hidden_bytes: u64,
    /// Whether the hidden children together are wide enough for a placeholder.
    pub hidden_group: bool,
    /// Gaps between the shown children (and the placeholder, if it qualifies).
    pub number_of_gaps: usize,
    /// The parent's width without the gaps.
    pub available_width: u32,
}

/// The children of a parent, numbered in sibling order.
pub open spec fn shares_of(sizes: Seq<u64>) -> Seq<ChildShare> {
    Seq::new(sizes.len(), |i: int| ChildShare { index: i as usize, bytes: sizes[i] })
}

/// Combined aggregate size of some children.
pub open spec fn total_bytes(shares: Seq<ChildShare>) -> int
    decreases shares.len(),
{
    if shares.len() == 0 {
        0
    } else {
        total_bytes(shares.drop_last()) + shares.last().bytes
    }
}

/// The sibling indices of some children.
pub open spec fn indices_of(shares: Seq<ChildShare>) -> Seq<usize> {
    Seq::new(shares.len(), |k: int| shares[k].index)
}

/// What is left of a child's exact share of `available` after rounding down,
/// counted in `parent_bytes`-ths of a unit.
pub open spec fn share_remainder(bytes: int, available: int, parent_bytes: int) -> int {
    if parent_bytes > 0 {
        (available * bytes) % parent_bytes
    } else {
        0
    }
}

/// Sum of the rounded-down shares of `available`.
pub open spec fn total_floor(shares: Seq<ChildShare>, available: int, parent_bytes: int) -> int
    decreases shares.len(),
{
    if shares.len() == 0 {
        0
    } else {
        total_floor(shares.drop_last(), available, parent_bytes) + scaled(
            available,
            shares.last().bytes as int,
            parent_bytes,
        )
    }
}

/// Sum of what the roundings left over, in `parent_bytes`-ths of a unit.
pub open spec fn total_remainder(shares: Seq<ChildShare>, available: int, parent_bytes: int) -> int
    decreases shares.len(),
{
    if shares.len() == 0 {
        0
    } else {
        total_remainder(shares.drop_last(), available, parent_bytes) + share_remainder(
            shares.last().bytes as int,
            available,
            parent_bytes,
        )
    }
}

/// The whole units that the roundings left over: what the last shown child
/// takes on top of its own share.
pub open spec fn carried(shares: Seq<ChildShare>, available: int, parent_bytes: int) -> int {
    if parent_bytes > 0 {
        total_remainder(shares, available, parent_bytes) / parent_bytes
    } else {
        0
    }
}

/// Offset of the `k`-th shown child: the widths of those before it, each
/// followed by one gap.
pub open spec fn span_offset(
    shown: Seq<ChildShare>,
    k: int,
    available: int,
    parent_bytes: int,
    gap_width: int,
) -> int {
    total_floor(shown.take(k), available, parent_bytes) + k * gap_width
}

/// Width of the `k`-th shown child: its share rounded down, and for the last
/// one also what was carried.
pub open spec fn span_width(shown: Seq<ChildShare>, k: int, available: int, parent_bytes: int) -> int {
    scaled(available, shown[k].bytes as int, parent_bytes) + if k + 1 == shown.len() {
        carried(shown, available, parent_bytes)
    } else {
        0
    }
}

/// Combined width of all shown children.
pub open spec fn total_width(shown: Seq<ChildShare>, available: int, parent_bytes: int) -> int {
    total_floor(shown, available, parent_bytes) + if shown.len() > 0 {
        carried(shown, available, parent_bytes)
    } else {
        0
    }
}

/// Combined width of some placed children.
pub open spec fn spans_width(spans: Seq<ChildSpan>) -> int
    decreases spans.len(),
{
    if spans.len() == 0 {
        0
    } else {
        spans_width(spans.drop_last()) + spans.last().width
    }
}

/// Number of gaps among `shown` children and, if it qualifies, the placeholder
/// of the hidden ones: one less than the number of slots, and none for no slot.
pub open spec fn gap_count(shown: int, hidden_group: bool) -> int {
    let slots = shown + if hidden_group {
        1int
    } else {
        0int
    };
    if slots >= 1 {
        slots - 1
    } else {
        0
    }
}

impl Frame {
    /// The least exact width at which a child is shown on its own.
    pub open spec fn threshold(self) -> int {
        self.min_visible_width + self.gap_width
    }

    /// Whether a child of `bytes` is shown: its exact share
    /// `bytes / parent_bytes` of the parent's width reaches the threshold. A
    /// parent of size zero shows nothing.
    pub open spec fn shows_bytes(self, bytes: int) -> bool {
        self.parent_bytes > 0 && bytes * self.parent_width >= self.threshold() * self.parent_bytes
    }

    pub open spec fn shows(self, child: ChildShare) -> bool {
        self.shows_bytes(child.bytes as int)
    }

    /// The shown children, in sibling order.
    pub open spec fn shown(self, shares: Seq<ChildShare>) -> Seq<ChildShare> {
        shares.filter(|c: ChildShare| self.shows(c))
    }

    /// The hidden children, in sibling order.
    pub open spec fn hidden(self, shares: Seq<ChildShare>) -> Seq<ChildShare> {
        shares.filter(|c: ChildShare| !self.shows(c))
    }

    /// Whether hidden children of `hidden_bytes` in all qualify for a
    /// placeholder: their combined exact width exceeds the threshold.
    pub open spec fn groups_bytes(self, hidden_bytes: int) -> bool {
        self.parent_bytes > 0 && hidden_bytes * self.parent_width > self.threshold()
            * self.parent_bytes
    }

    pub open spec fn groups_hidden(self, shares: Seq<ChildShare>) -> bool {
        self.groups_bytes(total_bytes(self.hidden(shares)))
    }

    pub open spec fn gaps(self, shares: Seq<ChildShare>) -> int {
        gap_count(self.shown(shares).len() as int, self.groups_hidden(shares))
    }

    /// The parent's width without the gaps.
    pub open spec fn available(self, shares: Seq<ChildShare>) -> int {
        self.parent_width - self.gaps(shares) * self.gap_width
    }
}

/// Shown and hidden children together are all the children.
pub proof fn lemma_partition_total(frame: Frame, shares: Seq<ChildShare>)
    ensures
        total_bytes(frame.shown(shares)) + total_bytes(frame.hidden(shares)) == total_bytes(shares),
        0 <= total_bytes(frame.shown(shares)),
        0 <= total_bytes(frame.hidden(shares)),
        frame.shown(shares).len() + frame.hidden(shares).len() == shares.len(),
    decreases shares.len(),
{
    reveal(Seq::filter);
    if shares.len() > 0 {
        lemma_partition_total(frame, shares.drop_last());
        let shown_before = frame.shown(shares.drop_last());
        let hidden_before = frame.hidden(shares.drop_last());
        if frame.shows(shares.last()) {
            assert(shown_before.push(shares.last()).drop_last() =~= shown_before);
        } else {
            assert(hidden_before.push(shares.last()).drop_last() =~= hidden_before);
        }
    }
}

/// A prefix of some children holds no more than all of them.
pub proof fn lemma_total_bytes_take(shares: Seq<ChildShare>, k: int)
    requires
        0 <= k <= shares.len(),
    ensures
        0 <= total_bytes(shares.take(k)) <= total_bytes(shares),
    decreases shares.len() - k,
{
    if k == shares.len() {
        assert(shares.take(k) =~= shares);
        lemma_total_bytes_nonnegative(shares);
    } else {
        lemma_total_bytes_take(shares, k + 1);
        assert(shares.take(k + 1).drop_last() =~= shares.take(k));
        lemma_total_bytes_nonnegative(shares.take(k));
    }
}

proof fn lemma_total_bytes_nonnegative(shares: Seq<ChildShare>)
    ensures
        0 <= total_bytes(shares),
    decreases shares.len(),
{
    if shares.len() > 0 {
        lemma_total_bytes_nonnegative(shares.drop_last());
    }
}

/// Rounding loses nothing: the rounded-down shares and what the roundings left
/// over add up to the exact shares.
pub proof fn lemma_floor_remainder(shares: Seq<ChildShare>, available: int, parent_bytes: int)
    requires
        parent_bytes > 0,
        0 <= available,
    ensures
        total_floor(shares, available, parent_bytes) * parent_bytes + total_remainder(
            shares,
            available,
            parent_bytes,
        ) == available * total_bytes(shares),
        0 <= total_floor(shares, available, parent_bytes),
        0 <= total_remainder(shares, available, parent_bytes),
    decreases shares.len(),
{
    if shares.len() > 0 {
        let rest = shares.drop_last();
        lemma_floor_remainder(rest, available, parent_bytes);
        let b = shares.last().bytes as int;
        let f = total_floor(rest, available, parent_bytes);
        let r = total_remainder(rest, available, parent_bytes);
        let t = total_bytes(rest);
        let q = (available * b) / parent_bytes;
        let m = (available * b) % parent_bytes;
        assert(0 <= available * b) by (nonlinear_arith)
            requires
                0 <= available,
                0 <= b,
        ;
        vstd::arithmetic::div_mod::lemma_fundamental_div_mod(available * b, parent_bytes);
        assert((f + q) * parent_bytes + (r + m) == available * (t + b)) by (nonlinear_arith)
            requires
                f * parent_bytes + r == available * t,
                available * b == parent_bytes * q + m,
        ;
    }
}

/// The rounded-down shares of a prefix are no more than those of the whole.
pub proof fn lemma_total_floor_take(
    shares: Seq<ChildShare>,
    k: int,
    available: int,
    parent_bytes: int,
)
    requires
        parent_bytes > 0,
        0 <= available,
        0 <= k <= shares.len(),
    ensures
        0 <= total_floor(shares.take(k), available, parent_bytes) <= total_floor(
            shares,
            available,
            parent_bytes,
        ),
    decreases shares.len() - k,
{
    lemma_floor_remainder(shares.take(k), available, parent_bytes);
    if k == shares.len() {
        assert(shares.take(k) =~= shares);
    } else {
        lemma_total_floor_take(shares, k + 1, available, parent_bytes);
        assert(shares.take(k + 1).drop_last() =~= shares.take(k));
        let b = shares[k].bytes as int;
        assert(0 <= available * b) by (nonlinear_arith)
            requires
                0 <= available,
                0 <= b,
        ;
    }
}

/// The shown children never take more than the width that is left after the
/// gaps.
pub proof fn lemma_total_width_fits(shown: Seq<ChildShare>, available: int, parent_bytes: int)
    requires
        parent_bytes > 0,
        0 <= available,
        total_bytes(shown) <= parent_bytes,
    ensures
        0 <= total_floor(shown, available, parent_bytes),
        0 <= carried(shown, available, parent_bytes),
        total_floor(shown, available, parent_bytes) + carried(shown, available, parent_bytes)
            <= available,
        0 <= total_width(shown, available, parent_bytes) <= available,
{
    lemma_floor_remainder(shown, available, parent_bytes);
    let f = total_floor(shown, available, parent_bytes);
    let r = total_remainder(shown, available, parent_bytes);
    let c = r / parent_bytes;
    let t = total_bytes(shown);
    vstd::arithmetic::div_mod::lemma_fundamental_div_mod(r, parent_bytes);
    assert(available * t <= available * parent_bytes) by (nonlinear_arith)
        requires
            0 <= available,
            t <= parent_bytes,
    ;
    assert(f + c <= available) by (nonlinear_arith)
        requires
            parent_bytes > 0,
            f * parent_bytes + r == available * t,
            available * t <= available * parent_bytes,
            r == parent_bytes * c + r % parent_bytes,
            0 <= r % parent_bytes,
    ;
}

/// No drift: when the shown children hold all of the parent's bytes, their
/// widths add up to exactly the width that is left after the gaps.
pub proof fn lemma_total_width_exact(shown: Seq<ChildShare>, available: int, parent_bytes: int)
    requires
        parent_bytes > 0,
        0 <= available,
        total_bytes(shown) == parent_bytes,
    ensures
        total_width(shown, available, parent_bytes) == available,
{
    lemma_floor_remainder(shown, available, parent_bytes);
    let f = total_floor(shown, available, parent_bytes);
    let r = total_remainder(shown, available, parent_bytes);
    assert(r == parent_bytes * (available - f)) by (nonlinear_arith)
        requires
            f * parent_bytes + r == available * parent_bytes,
    ;
    vstd::arithmetic::div_mod::lemma_div_multiples_vanish(available - f, parent_bytes);
}

/// Drift, and where it comes from: when the shown children hold less than the
/// parent and some width is left after the gaps, their widths add up to less
/// than that width.
pub proof fn lemma_total_width_short(shown: Seq<ChildShare>, available: int, parent_bytes: int)
    requires
        parent_bytes > 0,
        0 < available,
        total_bytes(shown) < parent_bytes,
    ensures
        total_width(shown, available, parent_bytes) < available,
{
    lemma_floor_remainder(shown, available, parent_bytes);
    let f = total_floor(shown, available, parent_bytes);
    let r = total_remainder(shown, available, parent_bytes);
    let c = r / parent_bytes;
    let t = total_bytes(shown);
    vstd::arithmetic::div_mod::lemma_fundamental_div_mod(r, parent_bytes);
    assert(available * t < available * parent_bytes) by (nonlinear_arith)
        requires
            0 < available,
            t < parent_bytes,
    ;
    assert(f + c < available) by (nonlinear_arith)
        requires
            parent_bytes > 0,
            f * parent_bytes + r == available * t,
            available * t < available * parent_bytes,
            r == parent_bytes * c + r % parent_bytes,
            0 <= r % parent_bytes,
    ;
}

/// Children that are all shown hold, together, at least the threshold each.
pub proof fn lemma_shown_bytes(frame: Frame, shown: Seq<ChildShare>)
    requires
        forall|k: int| 0 <= k < shown.len() ==> frame.shows(#[trigger] shown[k]),
    ensures
        total_bytes(shown) * frame.parent_width >= shown.len() * (frame.threshold()
            * frame.parent_bytes),
    decreases shown.len(),
{
    if shown.len() > 0 {
        let rest = shown.drop_last();
        lemma_shown_bytes(frame, rest);
        let b = shown.last().bytes as int;
        let t = total_bytes(rest);
        let w = frame.parent_width as int;
        let unit = frame.threshold() * frame.parent_bytes;
        let n = rest.len() as int;
        assert((t + b) * w >= (n + 1) * unit) by (nonlinear_arith)
            requires
                t * w >= n * unit,
                b * w >= unit,
        ;
    }
}

/// The gaps fit in the parent's width, as long as the children hold no more
/// than the parent does.
pub proof fn lemma_gaps_fit(frame: Frame, shares: Seq<ChildShare>)
    requires
        total_bytes(shares) <= frame.parent_bytes,
    ensures
        0 <= frame.gaps(shares) * frame.gap_width <= frame.parent_width,
        0 <= frame.available(shares) <= frame.parent_width,
        frame.parent_bytes == 0 ==> frame.shown(shares).len() == 0 && !frame.groups_hidden(shares),
{
    let shown = frame.shown(shares);
    let hidden = frame.hidden(shares);
    let n = shown.len() as int;
    let gaps = frame.gaps(shares);
    let gap = frame.gap_width as int;
    let w = frame.parent_width as int;
    let s = frame.parent_bytes as int;
    let t = frame.threshold();
    lemma_partition_total(frame, shares);
    if s > 0 {
        lemma_shown_bytes(frame, shown);
        let vb = total_bytes(shown);
        let hb = total_bytes(hidden);
        let slots = n + if frame.groups_hidden(shares) {
            1int
        } else {
            0int
        };
        assert(hb * w >= 0) by (nonlinear_arith)
            requires
                hb >= 0,
                w >= 0,
        ;
        assert(0 <= t * s) by (nonlinear_arith)
            requires
                0 <= t,
                0 <= s,
        ;
        assert((vb + hb) * w >= slots * (t * s)) by (nonlinear_arith)
            requires
                vb * w >= n * (t * s),
                hb * w >= 0,
                frame.groups_hidden(shares) ==> hb * w > t * s,
                slots == n + if frame.groups_hidden(shares) {
                    1int
                } else {
                    0int
                },
        ;
        assert(s * w >= (vb + hb) * w) by (nonlinear_arith)
            requires
                vb + hb <= s,
                w >= 0,
        ;
        assert(w >= slots * t) by (nonlinear_arith)
            requires
                s > 0,
                s * w >= slots * (t * s),
        ;
        assert(0 <= gaps * gap <= slots * t) by (nonlinear_arith)
            requires
                0 <= gaps <= slots,
                0 <= gap <= t,
        ;
    }
}

/// Every shown child ends inside the parent's span.
pub proof fn lemma_span_fits(
    shown: Seq<ChildShare>,
    k: int,
    available: int,
    parent_bytes: int,
    gap_width: int,
)
    requires
        parent_bytes > 0,
        0 <= available,
        0 <= gap_width,
        0 <= k < shown.len(),
        total_bytes(shown) <= parent_bytes,
    ensures
        0 <= span_offset(shown, k, available, parent_bytes, gap_width),
        0 <= span_width(shown, k, available, parent_bytes),
        span_offset(shown, k, available, parent_bytes, gap_width) + span_width(
            shown,
            k,
            available,
            parent_bytes,
        ) <= available + k * gap_width,
{
    lemma_total_width_fits(shown, available, parent_bytes);
    lemma_total_floor_take(shown, k, available, parent_bytes);
    lemma_total_floor_take(shown, k + 1, available, parent_bytes);
    assert(shown.take(k + 1).drop_last() =~= shown.take(k));
    assert(0 <= k * gap_width) by (nonlinear_arith)
        requires
            0 <= k,
            0 <= gap_width,
    ;
    let b = shown[k].bytes as int;
    assert(0 <= available * b) by (nonlinear_arith)
        requires
            0 <= available,
            0 <= b,
    ;
}

/// Placed children whose widths are those of the partition take, together, the
/// partition's total width.
pub proof fn lemma_spans_width(
    spans: Seq<ChildSpan>,
    shown: Seq<ChildShare>,
    available: int,
    parent_bytes: int,
)
    requires
        spans.len() == shown.len(),
        forall|k: int|
            0 <= k < spans.len() ==> (#[trigger] spans[k]).width == span_width(
                shown,
                k,
                available,
                parent_bytes,
            ),
    ensures
        spans_width(spans) == total_width(shown, available, parent_bytes),
{
    let n = spans.len() as int;
    if n > 0 {
        lemma_spans_width_prefix(spans, shown, available, parent_bytes, n - 1);
    }
}

proof fn lemma_spans_width_prefix(
    spans: Seq<ChildSpan>,
    shown: Seq<ChildShare>,
    available: int,
    parent_bytes: int,
    j: int,
)
    requires
        spans.len() == shown.len(),
        0 <= j < spans.len(),
        forall|k: int|
            0 <= k < spans.len() ==> (#[trigger] spans[k]).width == span_width(
                shown,
                k,
                available,
                parent_bytes,
            ),
    ensures
        spans_width(spans.take(j)) == total_floor(shown.take(j), available, parent_bytes),
    decreases j,
{
    if j > 0 {
        lemma_spans_width_prefix(spans, shown, available, parent_bytes, j - 1);
        assert(spans.take(j).drop_last() =~= spans.take(j - 1));
        assert(shown.take(j).drop_last() =~= shown.take(j - 1));
    }
}

/// A child is among the shown ones exactly when its exact width reaches the
/// threshold, and among the hidden ones exactly when it does not.
pub proof fn lemma_shown_iff_wide(frame: Frame, sizes: Seq<u64>, i: int)
    requires
        0 <= i < sizes.len(),
        sizes.len() <= usize::MAX,
    ensures
        (exists|k: int|
            0 <= k < frame.shown(shares_of(sizes)).len() && (#[trigger] frame.shown(
                shares_of(sizes),
            )[k]).index == i) <==> frame.shows_bytes(sizes[i] as int),
        (exists|k: int|
            0 <= k < frame.hidden(shares_of(sizes)).len() && (#[trigger] frame.hidden(
                shares_of(sizes),
            )[k]).index == i) <==> !frame.shows_bytes(sizes[i] as int),
{
    let shares = shares_of(sizes);
    let shown = frame.shown(shares);
    let hidden = frame.hidden(shares);
    let p = |c: ChildShare| frame.shows(c);
    let q = |c: ChildShare| !frame.shows(c);
    if frame.shows(shares[i]) {
        shares.lemma_filter_contains(p, i);
        let k = choose|k: int| 0 <= k < shown.len() && shown[k] == shares[i];
    } else {
        shares.lemma_filter_contains(q, i);
        let k = choose|k: int| 0 <= k < hidden.len() && hidden[k] == shares[i];
    }
    assert forall|k: int| 0 <= k < shown.len() && (#[trigger] shown[k]).index == i implies frame.shows(
        shares[i],
    ) by {
        shares.lemma_filter_contains_rev(p, shown[k]);
        let j = choose|j: int| 0 <= j < shares.len() && shares[j] == shown[k];
    }
    assert forall|k: int|
        0 <= k < hidden.len() && (#[trigger] hidden[k]).index == i implies !frame.shows(
        shares[i],
    ) by {
        shares.lemma_filter_contains_rev(q, hidden[k]);
        let j = choose|j: int| 0 <= j < shares.len() && shares[j] == hidden[k];
    }
}

/// Filtering keeps the children in sibling order: the sibling indices of the
/// kept ones rise strictly and stay below the number of children.
pub proof fn lemma_kept_in_order(sizes: Seq<u64>, keep: spec_fn(ChildShare) -> bool, m: int)
    requires
        0 <= m <= sizes.len(),
        sizes.len() <= usize::MAX,
    ensures
        forall|k: int|
            0 <= k < shares_of(sizes).take(m).filter(keep).len() ==> (#[trigger] shares_of(
                sizes,
            ).take(m).filter(keep)[k]).index < m,
        forall|k: int, l: int|
            0 <= k < l < shares_of(sizes).take(m).filter(keep).len() ==> (#[trigger] shares_of(
                sizes,
            ).take(m).filter(keep)[k]).index < (#[trigger] shares_of(sizes).take(m).filter(
                keep,
            )[l]).index,
    decreases m,
{
    reveal(Seq::filter);
    let all = shares_of(sizes);
    let kept = all.take(m).filter(keep);
    if m > 0 {
        lemma_kept_in_order(sizes, keep, m - 1);
        let kept_before = all.take(m - 1).filter(keep);
        assert(all.take(m).drop_last() =~= all.take(m - 1));
        assert(kept == if keep(all[m - 1]) {
            kept_before.push(all[m - 1])
        } else {
            kept_before
        });
    }
}

/// The shown children stand in sibling order, and so do the hidden ones.
pub proof fn lemma_shown_in_order(frame: Frame, sizes: Seq<u64>)
    requires
        sizes.len() <= usize::MAX,
    ensures
        forall|k: int|
            0 <= k < frame.shown(shares_of(sizes)).len() ==> (#[trigger] frame.shown(
                shares_of(sizes),
            )[k]).index < sizes.len(),
        forall|k: int, l: int|
            0 <= k < l < frame.shown(shares_of(sizes)).len() ==> (#[trigger] frame.shown(
                shares_of(sizes),
            )[k]).index < (#[trigger] frame.shown(shares_of(sizes))[l]).index,
        forall|k: int|
            0 <= k < frame.hidden(shares_of(sizes)).len() ==> (#[trigger] frame.hidden(
                shares_of(sizes),
            )[k]).index < sizes.len(),
{
    let all = shares_of(sizes);
    assert(all.take(sizes.len() as int) =~= all);
    lemma_kept_in_order(sizes, |c: ChildShare| frame.shows(c), sizes.len() as int);
    lemma_kept_in_order(sizes, |c: ChildShare| !frame.shows(c), sizes.len() as int);
}

impl Frame {
    /// Whether a child of `bytes` is shown on its own.
    pub fn is_shown(&self, bytes: u64) -> (shown: bool)
        ensures
            shown == self.shows_bytes(bytes as int),
    {
        if self.parent_bytes == 0 {
            return false;
        }
        let threshold: u128 = self.min_visible_width as u128 + self.gap_width as u128;
        assert((bytes as u128) * (self.parent_width as u128) <= 0xffff_ffff_ffff_ffff * 0xffff_ffff)
            by (nonlinear_arith)
            requires
                bytes <= 0xffff_ffff_ffff_ffff,
                self.parent_width <= 0xffff_ffff,
        ;
        assert(threshold * (self.parent_bytes as u128) <= 0x1_ffff_fffe * 0xffff_ffff_ffff_ffff)
            by (nonlinear_arith)
            requires
                threshold <= 0x1_ffff_fffe,
                self.parent_bytes <= 0xffff_ffff_ffff_ffff,
        ;
        (bytes as u128) * (self.parent_width as u128) >= threshold * (self.parent_bytes as u128)
    }

    /// Whether hidden children of `hidden_bytes` in all qualify for a
    /// placeholder.
    pub fn is_grouped(&self, hidden_bytes: u64) -> (grouped: bool)
        ensures
            grouped == self.groups_bytes(hidden_bytes as int),
    {
        if self.parent_bytes == 0 {
            return false;
        }
        let threshold: u128 = self.min_visible_width as u128 + self.gap_width as u128;
        assert((hidden_bytes as u128) * (self.parent_width as u128) <= 0xffff_ffff_ffff_ffff
            * 0xffff_ffff) by (nonlinear_arith)
            requires
                hidden_bytes <= 0xffff_ffff_ffff_ffff,
                self.parent_width <= 0xffff_ffff,
        ;
        assert(threshold * (self.parent_bytes as u128) <= 0x1_ffff_fffe * 0xffff_ffff_ffff_ffff)
            by (nonlinear_arith)
            requires
                threshold <= 0x1_ffff_fffe,
                self.parent_bytes <= 0xffff_ffff_ffff_ffff,
        ;
        (hidden_bytes as u128) * (self.parent_width as u128) > threshold * (
        self.parent_bytes as u128)
    }
}

/// Calls `grouping_by::GroupingBy::grouping_by` on the children, keyed by
/// whether the frame shows them. That function walks the iterator once and
/// appends each item to the `Vec` stored under its key, so each group holds
/// its items in the order of iteration; a key that no item has is absent from
/// the map, and stands here for an empty group.
#[verifier::external_body]
fn partition_by_visibility(shares: Vec<ChildShare>, frame: Frame) -> (groups: (
    Vec<ChildShare>,
    Vec<ChildShare>,
))
    ensures
        groups.0@ == frame.shown(shares@),
        groups.1@ == frame.hidden(shares@),
{
    let mut by_visibility = shares.into_iter().grouping_by(|c| frame.is_shown(c.bytes));
    let shown = by_visibility.remove(&true).unwrap_or_default();
    let hidden = by_visibility.remove(&false).unwrap_or_default();
    (shown, hidden)
}

/// Numbers the children in sibling order.
fn number_children(sizes: &Vec<u64>) -> (shares: Vec<ChildShare>)
    ensures
        shares@ == shares_of(sizes@),
{
    let mut shares: Vec<ChildShare> = Vec::new();
    let mut i: usize = 0;
    while i < sizes.len()
        invariant
            i <= sizes.len(),
            shares@.len() == i,
            forall|j: int| 0 <= j < i ==> shares@[j] == shares_of(sizes@)[j],
        decreases sizes.len() - i,
    {
        shares.push(ChildShare { index: i, bytes: sizes[i] });
        i += 1;
    }
    shares
}

/// Adds up the aggregate sizes of some children.
fn sum_bytes(shares: &Vec<ChildShare>) -> (sum: u64)
    requires
        total_bytes(shares@) <= u64::MAX,
    ensures
        sum == total_bytes(shares@),
{
    let mut sum: u64 = 0;
    let mut k: usize = 0;
    while k < shares.len()
        invariant
            k <= shares.len(),
            sum == total_bytes(shares@.take(k as int)),
            total_bytes(shares@) <= u64::MAX,
        decreases shares.len() - k,
    {
        proof {
            lemma_total_bytes_take(shares@, k + 1);
            assert(shares@.take(k + 1).drop_last() =~= shares@.take(k as int));
        }
        sum = sum + shares[k].bytes;
        k += 1;
    }
    assert(shares@.take(k as int) =~= shares@);
    sum
}

/// Places the shown children side by side in `available` units, one gap
/// between neighbours.
fn place_shown(shown: &Vec<ChildShare>, frame: Frame, available: u32) -> (visible: Vec<ChildSpan>)
    requires
        total_bytes(shown@) <= frame.parent_bytes,
        shown@.len() > 0 ==> frame.parent_bytes > 0,
        shown@.len() > 0 ==> available + (shown@.len() - 1) * frame.gap_width
            <= frame.parent_width,
    ensures
        visible@.len() == shown@.len(),
        forall|k: int|
            0 <= k < visible@.len() ==> {
                &&& (#[trigger] visible@[k]).index == shown@[k].index
                &&& visible@[k].offset == span_offset(
                    shown@,
                    k,
                    available as int,
                    frame.parent_bytes as int,
                    frame.gap_width as int,
                )
                &&& visible@[k].width == span_width(
                    shown@,
                    k,
                    available as int,
                    frame.parent_bytes as int,
                )
                &&& visible@[k].offset + visible@[k].width <= frame.parent_width
            },
{
    let ghost parent_bytes = frame.parent_bytes as int;
    let ghost gap = frame.gap_width as int;
    let ghost avail = available as int;
    let mut visible: Vec<ChildSpan> = Vec::new();
    let mut floor_sum: u32 = 0;
    let mut gap_sum: u32 = 0;
    let mut remainder_sum: u128 = 0;
    let mut k: usize = 0;
    while k < shown.len()
        invariant
            k <= shown.len(),
            parent_bytes == frame.parent_bytes,
            gap == frame.gap_width,
            avail == available,
            total_bytes(shown@) <= parent_bytes,
            shown@.len() > 0 ==> parent_bytes > 0,
            shown@.len() > 0 ==> avail + (shown@.len() - 1) * gap <= frame.parent_width,
            visible@.len() == k,
            floor_sum == total_floor(shown@.take(k as int), avail, parent_bytes),
            remainder_sum == total_remainder(shown@.take(k as int), avail, parent_bytes),
            k > 0 ==> gap_sum == (k - 1) * gap,
            k == 0 ==> gap_sum == 0,
            forall|j: int|
                0 <= j < k ==> {
                    &&& (#[trigger] visible@[j]).index == shown@[j].index
                    &&& visible@[j].offset == span_offset(shown@, j, avail, parent_bytes, gap)
                    &&& visible@[j].width == span_width(shown@, j, avail, parent_bytes)
                    &&& visible@[j].offset + visible@[j].width <= frame.parent_width
                },
        decreases shown.len() - k,
    {
        let child: ChildShare = shown[k];
        let ghost kk = k as int;
        proof {
            lemma_span_fits(shown@, kk, avail, parent_bytes, gap);
            lemma_total_bytes_take(shown@, kk + 1);
            lemma_floor_remainder(shown@.take(kk + 1), avail, parent_bytes);
            assert(shown@.take(kk + 1).drop_last() =~= shown@.take(kk));
            assert(0 <= kk * gap <= (shown@.len() - 1) * gap) by (nonlinear_arith)
                requires
                    0 <= kk <= shown@.len() - 1,
                    0 <= gap,
            ;
            assert(kk * gap == (kk - 1) * gap + gap) by (nonlinear_arith);
            assert(avail * total_bytes(shown@.take(kk + 1)) <= 0xffff_ffff * 0xffff_ffff_ffff_ffff)
                by (nonlinear_arith)
                requires
                    0 <= avail <= 0xffff_ffff,
                    0 <= total_bytes(shown@.take(kk + 1)) <= 0xffff_ffff_ffff_ffff,
            ;
            assert(0 <= avail * (child.bytes as int) <= 0xffff_ffff * 0xffff_ffff_ffff_ffff)
                by (nonlinear_arith)
                requires
                    0 <= avail <= 0xffff_ffff,
                    0 <= child.bytes <= 0xffff_ffff_ffff_ffff,
            ;
        }
        if k > 0 {
            gap_sum = gap_sum + frame.gap_width;
        }
        let exact: u128 = (available as u128) * (child.bytes as u128);
        let floor: u128 = exact / (frame.parent_bytes as u128);
        let remainder: u128 = exact % (frame.parent_bytes as u128);
        remainder_sum = remainder_sum + remainder;
        let offset: u32 = floor_sum + gap_sum;
        let is_last: bool = k + 1 == shown.len();
        let carry: u128 = if is_last {
            remainder_sum / (frame.parent_bytes as u128)
        } else {
            0
        };
        let width: u32 = (floor + carry) as u32;
        visible.push(ChildSpan { index: child.index, offset, width });
        floor_sum = floor_sum + (floor as u32);
        k += 1;
    }
    visible
}

/// The sibling indices of the hidden children.
fn collect_indices(hidden: &Vec<ChildShare>) -> (indices: Vec<usize>)
    ensures
        indices@ == indices_of(hidden@),
{
    let mut indices: Vec<usize> = Vec::new();
    let mut h: usize = 0;
    while h < hidden.len()
        invariant
            h <= hidden.len(),
            indices@.len() == h,
            forall|j: int| 0 <= j < h ==> indices@[j] == hidden@[j].index,
        decreases hidden.len() - h,
    {
        indices.push(hidden[h].index);
        h += 1;
    }
    indices
}

/// Each child is placed or listed as hidden, according to its exact width.
proof fn lemma_every_child_sorted(
    frame: Frame,
    sizes: Seq<u64>,
    visible: Seq<ChildSpan>,
    hidden: Seq<usize>,
)
    requires
        sizes.len() <= usize::MAX,
        visible.len() == frame.shown(shares_of(sizes)).len(),
        forall|k: int|
            0 <= k < visible.len() ==> (#[trigger] visible[k]).index == frame.shown(
                shares_of(sizes),
            )[k].index,
        hidden == indices_of(frame.hidden(shares_of(sizes))),
    ensures
        forall|i: int|
            #![trigger sizes[i]]
            0 <= i < sizes.len() ==> ((exists|k: int|
                0 <= k < visible.len() && (#[trigger] visible[k]).index == i)
                <==> frame.shows_bytes(sizes[i] as int)),
        forall|i: int|
            #![trigger sizes[i]]
            0 <= i < sizes.len() ==> ((exists|k: int|
                0 <= k < hidden.len() && (#[trigger] hidden[k]) == i) <==> !frame.shows_bytes(
                sizes[i] as int,
            )),
{
    let shown_spec = frame.shown(shares_of(sizes));
    let hidden_spec = frame.hidden(shares_of(sizes));
    assert forall|i: int| #![trigger sizes[i]] 0 <= i < sizes.len() implies ((exists|k: int|
        0 <= k < visible.len() && (#[trigger] visible[k]).index == i) <==> frame.shows_bytes(
        sizes[i] as int,
    )) by {
        lemma_shown_iff_wide(frame, sizes, i);
        if frame.shows_bytes(sizes[i] as int) {
            let w = choose|w: int|
                0 <= w < shown_spec.len() && (#[trigger] shown_spec[w]).index == i;
            assert(visible[w].index == i);
        }
    }
    assert forall|i: int| #![trigger sizes[i]] 0 <= i < sizes.len() implies ((exists|k: int|
        0 <= k < hidden.len() && (#[trigger] hidden[k]) == i) <==> !frame.shows_bytes(
        sizes[i] as int,
    )) by {
        lemma_shown_iff_wide(frame, sizes, i);
        if !frame.shows_bytes(sizes[i] as int) {
            let w = choose|w: int|
                0 <= w < hidden_spec.len() && (#[trigger] hidden_spec[w]).index == i;
            assert(hidden[w] == i);
        }
    }
}

/// Partitions a parent's span among its children.
///
/// `sizes` holds the aggregate size of each child in sibling order; `frame`
/// holds the parent's aggregate size and width and the two widths of the
/// policy. The children must hold no more than the parent does.
///
/// A child is shown exactly when its exact width reaches
/// `min_visible_width + gap_width`. The shown children get, in sibling order,
/// their share of the width that is left after the gaps, rounded down, the
/// last one also what the roundings left over; each starts one gap after the
/// one before it ends. With a parent of size zero nothing is shown.
///
/// Widths and gaps never exceed the parent's width. They fill it exactly, to
/// the unit, when the shown children hold all of the parent's bytes (or when
/// the gaps alone take the whole width), and only then.
pub fn layout_children(sizes: &Vec<u64>, frame: Frame) -> (out: ChildrenLayout)
    requires
        total_bytes(shares_of(sizes@)) <= frame.parent_bytes,
    ensures
        out.hidden_bytes == total_bytes(frame.hidden(shares_of(sizes@))),
        out.hidden_group == frame.groups_hidden(shares_of(sizes@)),
        out.number_of_gaps == frame.gaps(shares_of(sizes@)),
        out.available_width == frame.available(shares_of(sizes@)),
        out.visible@.len() == frame.shown(shares_of(sizes@)).len(),
        forall|k: int|
            0 <= k < out.visible@.len() ==> {
                &&& (#[trigger] out.visible@[k]).index == frame.shown(shares_of(sizes@))[k].index
                &&& out.visible@[k].offset == span_offset(
                    frame.shown(shares_of(sizes@)),
                    k,
                    frame.available(shares_of(sizes@)),
                    frame.parent_bytes as int,
                    frame.gap_width as int,
                )
                &&& out.visible@[k].width == span_width(
                    frame.shown(shares_of(sizes@)),
                    k,
                    frame.available(shares_of(sizes@)),
                    frame.parent_bytes as int,
                )
                &&& out.visible@[k].offset + out.visible@[k].width <= frame.parent_width
            },
        out.hidden@ == indices_of(frame.hidden(shares_of(sizes@))),
        forall|k: int| 0 <= k < out.visible@.len() ==> (#[trigger] out.visible@[k]).index < sizes@.len(),
        forall|k: int, l: int|
            0 <= k < l < out.visible@.len() ==> (#[trigger] out.visible@[k]).index < (
            #[trigger] out.visible@[l]).index,
        forall|k: int| 0 <= k < out.hidden@.len() ==> (#[trigger] out.hidden@[k]) < sizes@.len(),
        forall|i: int|
            #![trigger sizes@[i]]
            0 <= i < sizes@.len() ==> ((exists|k: int|
                0 <= k < out.visible@.len() && (#[trigger] out.visible@[k]).index == i)
                <==> frame.shows_bytes(sizes@[i] as int)),
        forall|i: int|
            #![trigger sizes@[i]]
            0 <= i < sizes@.len() ==> ((exists|k: int|
                0 <= k < out.hidden@.len() && (#[trigger] out.hidden@[k]) == i)
                <==> !frame.shows_bytes(sizes@[i] as int)),
        spans_width(out.visible@) + out.number_of_gaps * frame.gap_width <= frame.parent_width,
        frame.parent_bytes > 0 ==> (spans_width(out.visible@) + out.number_of_gaps
            * frame.gap_width == frame.parent_width <==> total_bytes(
            frame.shown(shares_of(sizes@)),
        ) == frame.parent_bytes || out.available_width == 0),
{
    let ghost all = shares_of(sizes@);
    let ghost gap = frame.gap_width as int;
    proof {
        lemma_partition_total(frame, all);
        lemma_gaps_fit(frame, all);
    }
    let shares = number_children(sizes);
    let (shown, hidden) = partition_by_visibility(shares, frame);
    let hidden_bytes: u64 = sum_bytes(&hidden);
    let hidden_group: bool = frame.is_grouped(hidden_bytes);
    let number_of_gaps: usize = if hidden_group {
        shown.len()
    } else if shown.len() >= 1 {
        shown.len() - 1
    } else {
        0
    };
    assert((number_of_gaps as u128) * (frame.gap_width as u128) == frame.gaps(all) * gap)
        by (nonlinear_arith)
        requires
            number_of_gaps == frame.gaps(all),
            gap == frame.gap_width,
            0 <= frame.gaps(all) * gap <= 0xffff_ffff,
    ;
    let gaps_width: u128 = (number_of_gaps as u128) * (frame.gap_width as u128);
    let available: u32 = frame.parent_width - (gaps_width as u32);
    proof {
        if shown@.len() > 0 {
            assert((shown@.len() - 1) * gap <= frame.gaps(all) * gap) by (nonlinear_arith)
                requires
                    0 <= shown@.len() - 1 <= frame.gaps(all),
                    0 <= gap,
            ;
        }
    }
    let visible = place_shown(&shown, frame, available);
    let hidden_indices = collect_indices(&hidden);
    proof {
        assert(sizes@.len() == sizes.len());
        lemma_every_child_sorted(frame, sizes@, visible@, hidden_indices@);
        lemma_shown_in_order(frame, sizes@);
        lemma_spans_width(visible@, shown@, available as int, frame.parent_bytes as int);
        if frame.parent_bytes > 0 {
            lemma_total_width_fits(shown@, available as int, frame.parent_bytes as int);
            if total_bytes(shown@) == frame.parent_bytes {
                lemma_total_width_exact(shown@, available as int, frame.parent_bytes as int);
            } else if available > 0 {
                lemma_total_width_short(shown@, available as int, frame.parent_bytes as int);
            }
        }
    }
    ChildrenLayout {
        visible,
        hidden: hidden_indices,
        hidden_bytes,
        hidden_group,
        number_of_gaps,
        available_width: available,
    }
}

} // verus!

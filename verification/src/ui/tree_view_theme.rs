//! Hue bands: the part of the cyclic hue space that a subtree may use.
//!
//! Positions are fixed-point fractions of the hue circle: `HUE_SCALE` stands for
//! one full turn. A band is subdivided among the children of a directory in
//! proportion to the place each child takes inside its parent's span.

use vstd::prelude::*;

verus! {

/// One full turn of the hue circle, in fixed-point steps.
pub const HUE_SCALE: u32 = 16_777_216;

/// A colour as three eight-bit channels.
#[derive(Clone, Copy, Debug, PartialEq, Eq, Structural)]
pub struct Rgb {
    pub r: u8,
    pub g: u8,
    pub b: u8,
}

/// The half-open band `[start, end)` of hue positions that a directory hands
/// down to its descendants.
#[derive(Clone, Copy, Debug, PartialEq, Eq, Structural)]
pub struct DescendentColorRange {
    start: u32,
    end: u32,
}

/// `part / whole` of `len`, rounded down; zero where `whole` is zero.
pub open spec fn scaled(len: int, part: int, whole: int) -> int {
    if whole > 0 {
        (len * part) / whole
    } else {
        0
    }
}

/// Two shares of one length that together do not exceed the whole fit in the
/// length, also after each was rounded down.
pub proof fn lemma_scaled_parts_fit(len: int, a: int, b: int, whole: int)
    requires
        0 <= len,
        0 <= a,
        0 <= b,
        a + b <= whole,
    ensures
        0 <= scaled(len, a, whole),
        0 <= scaled(len, b, whole),
        scaled(len, a, whole) + scaled(len, b, whole) <= len,
{
    if whole > 0 {
        let qa = (len * a) / whole;
        let qb = (len * b) / whole;
        assert(0 <= len * a && 0 <= len * b) by (nonlinear_arith)
            requires
                0 <= len,
                0 <= a,
                0 <= b,
        ;
        assert(len * a + len * b <= len * whole) by (nonlinear_arith)
            requires
                0 <= len,
                a + b <= whole,
        ;
        vstd::arithmetic::div_mod::lemma_fundamental_div_mod(len * a, whole);
        vstd::arithmetic::div_mod::lemma_fundamental_div_mod(len * b, whole);
        assert(whole * (qa + qb) == whole * qa + whole * qb) by (nonlinear_arith);
        assert(whole * (qa + qb) <= whole * len) by (nonlinear_arith)
            requires
                whole * (qa + qb) == whole * qa + whole * qb,
                whole * qa <= len * a,
                whole * qb <= len * b,
                len * a + len * b <= len * whole,
        ;
        assert(qa + qb <= len) by (nonlinear_arith)
            requires
                whole > 0,
                whole * (qa + qb) <= whole * len,
        ;
    }
}

impl DescendentColorRange {
    /// First hue position of the band.
    pub closed spec fn spec_start(self) -> int {
        self.start as int
    }

    /// The position just past the band.
    pub closed spec fn spec_end(self) -> int {
        self.end as int
    }

    /// Number of hue positions in the band.
    pub open spec fn spec_len(self) -> int {
        self.spec_end() - self.spec_start()
    }

    /// A band is valid when it lies inside one turn of the hue circle.
    pub open spec fn wf(self) -> bool {
        0 <= self.spec_start() <= self.spec_end() <= HUE_SCALE
    }

    /// `inner` uses no hue position outside `self`.
    pub open spec fn contains_range(self, inner: Self) -> bool {
        self.spec_start() <= inner.spec_start() && inner.spec_end() <= self.spec_end()
    }

    /// Start of the band that the part `[offset, offset + width)` of a span of
    /// `span` units receives.
    pub open spec fn sub_start(self, offset: int, span: int) -> int {
        self.spec_start() + scaled(self.spec_len(), offset, span)
    }

    /// End of the band that the part `[offset, offset + width)` of a span of
    /// `span` units receives.
    pub open spec fn sub_end(self, offset: int, width: int, span: int) -> int {
        self.sub_start(offset, span) + scaled(self.spec_len(), width, span)
    }

    /// The whole hue circle.
    pub fn full() -> (range: Self)
        ensures
            range.wf(),
            range.spec_start() == 0,
            range.spec_end() == HUE_SCALE,
    {
        DescendentColorRange { start: 0, end: HUE_SCALE }
    }

    /// A band from its two ends, if they describe one: `None` unless
    /// `start <= end <= HUE_SCALE`.
    pub fn new(start: u32, end: u32) -> (range: Option<Self>)
        ensures
            range is Some <==> start <= end <= HUE_SCALE,
            range matches Some(r) ==> r.wf() && r.spec_start() == start && r.spec_end() == end,
    {
        if start <= end && end <= HUE_SCALE {
            Some(DescendentColorRange { start, end })
        } else {
            None
        }
    }

    pub fn start(&self) -> (start: u32)
        ensures
            start == self.spec_start(),
    {
        self.start
    }

    pub fn end(&self) -> (end: u32)
        ensures
            end == self.spec_end(),
    {
        self.end
    }

    /// Number of hue positions in the band.
    pub fn len(&self) -> (len: u32)
        requires
            self.wf(),
        ensures
            len == self.spec_len(),
    {
        self.end - self.start
    }

    /// The band of a child that occupies `[offset, offset + width)` of its
    /// parent's span of `span` units: the parent's band cut in the same
    /// proportions, each cut rounded down to a whole hue position. The result
    /// never leaves the parent's band.
    pub fn sub_range(&self, offset: u64, width: u64, span: u64) -> (child: Self)
        requires
            self.wf(),
            offset + width <= span,
        ensures
            child.wf(),
            child.spec_start() == self.sub_start(offset as int, span as int),
            child.spec_end() == self.sub_end(offset as int, width as int, span as int),
            self.contains_range(child),
    {
        proof {
            lemma_scaled_parts_fit(self.spec_len(), offset as int, width as int, span as int);
        }
        if span == 0 {
            return DescendentColorRange { start: self.start, end: self.start };
        }
        let len: u128 = (self.end - self.start) as u128;
        assert(len * (offset as u128) <= 0x100_0000 * 0xffff_ffff_ffff_ffff) by (nonlinear_arith)
            requires
                len <= 0x100_0000,
                offset <= 0xffff_ffff_ffff_ffff,
        ;
        assert(len * (width as u128) <= 0x100_0000 * 0xffff_ffff_ffff_ffff) by (nonlinear_arith)
            requires
                len <= 0x100_0000,
                width <= 0xffff_ffff_ffff_ffff,
        ;
        let lead: u128 = len * (offset as u128) / (span as u128);
        let body: u128 = len * (width as u128) / (span as u128);
        let start: u32 = self.start + (lead as u32);
        let end: u32 = start + (body as u32);
        DescendentColorRange { start, end }
    }

    /// The hue position `t_num / t_den` of the way through the band, rounded
    /// down and wrapped onto the circle, so that the end of the full circle is
    /// its start again.
    pub fn hue_at(&self, t_num: u64, t_den: u64) -> (position: u32)
        requires
            self.wf(),
            t_num <= t_den,
        ensures
            position == (self.spec_start() + scaled(self.spec_len(), t_num as int, t_den as int))
                % (HUE_SCALE as int),
            position < HUE_SCALE,
    {
        proof {
            lemma_scaled_parts_fit(self.spec_len(), t_num as int, 0, t_den as int);
        }
        if t_den == 0 {
            return self.start % HUE_SCALE;
        }
        let len: u128 = (self.end - self.start) as u128;
        assert(len * (t_num as u128) <= 0x100_0000 * 0xffff_ffff_ffff_ffff) by (nonlinear_arith)
            requires
                len <= 0x100_0000,
                t_num <= 0xffff_ffff_ffff_ffff,
        ;
        let lead: u128 = len * (t_num as u128) / (t_den as u128);
        (self.start + (lead as u32)) % HUE_SCALE
    }

    /// The rainbow colour at the position `t_num / t_den` of the way through
    /// the band. Which colour stands at a hue position is the gradient's
    /// business; this function fixes the position that is looked up.
    pub fn get_color(&self, t_num: u64, t_den: u64) -> (color: Rgb)
        requires
            self.wf(),
            t_num <= t_den,
    {
        let position: u32 = self.hue_at(t_num, t_den);
        rainbow_at(position)
    }
}

impl Default for DescendentColorRange {
    fn default() -> (range: Self)
        ensures
            range.wf(),
            range.spec_start() == 0,
            range.spec_end() == HUE_SCALE,
    {
        DescendentColorRange::full()
    }
}

/// Calls `colorous::RAINBOW.eval_rational(i, n)` with `n = HUE_SCALE`, which
/// samples the cyclic rainbow gradient at `i / n`. The gradient is evaluated
/// in floating point, so nothing is claimed of the colour that comes back.
/// `eval_rational` panics only for `n == 0`, which is never passed.
#[verifier::external_body]
fn rainbow_at(position: u32) -> (color: Rgb)
    requires
        position < HUE_SCALE,
{
    let c = colorous::RAINBOW.eval_rational(position as usize, HUE_SCALE as usize);
    Rgb { r: c.r, g: c.g, b: c.b }
}

} // verus!

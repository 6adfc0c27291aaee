use vstd::prelude::*;

use crate::color::{Color, ColorBox};

verus! {

/// How many units a tube holds when full.
pub const MAX_SIZE: u32 = 4;

/// Total number of units in a bottom-to-top sequence of segments.
pub open spec fn sum_counts(s: Seq<ColorBox>) -> nat
    decreases s.len(),
{
    if s.len() == 0 {
        0
    } else {
        sum_counts(s.drop_last()) + s.last().count as nat
    }
}

/// The segment at `i` and the one above it have different colors.
pub open spec fn differs_from_next(s: Seq<ColorBox>, i: int) -> bool {
    s[i].color != s[i + 1].color
}

/// Segments are non-empty runs and no two neighbours share a color.
pub open spec fn compressed(s: Seq<ColorBox>) -> bool {
    &&& forall|i: int| 0 <= i < s.len() ==> #[trigger] s[i].count >= 1
    &&& forall|i: int| 0 <= i < s.len() - 1 ==> #[trigger] differs_from_next(s, i)
}

/// A valid tube content: compressed and within capacity.
pub open spec fn segs_wf(s: Seq<ColorBox>) -> bool {
    compressed(s) && sum_counts(s) <= MAX_SIZE
}

/// The segments after pouring `cb` on top: it merges with a top run of the same
/// color, and otherwise becomes the new top.
pub open spec fn push_seg(s: Seq<ColorBox>, cb: ColorBox) -> Seq<ColorBox> {
    if s.len() > 0 && s.last().color == cb.color {
        s.drop_last().push(ColorBox { color: cb.color, count: (s.last().count + cb.count) as u32 })
    } else {
        s.push(cb)
    }
}

/// The segments of a tube filled from units listed top to bottom.
pub open spec fn stack_of(units: Seq<Color>) -> Seq<ColorBox>
    decreases units.len(),
{
    if units.len() == 0 {
        Seq::empty()
    } else {
        push_seg(stack_of(units.drop_first()), ColorBox { color: units[0], count: 1 })
    }
}

/// Whether a segment may be poured onto these segments.
pub open spec fn fits_spec(s: Seq<ColorBox>, cb: ColorBox) -> bool {
    if sum_counts(s) == MAX_SIZE {
        false
    } else if s.len() == 0 {
        true
    } else {
        s.last().color == cb.color && sum_counts(s) + cb.count <= MAX_SIZE
    }
}

/// A solved tube is empty, or full with every segment of one color.
pub open spec fn solved_spec(s: Seq<ColorBox>) -> bool {
    s.len() == 0 || (sum_counts(s) == MAX_SIZE && forall|i: int|
        0 <= i < s.len() ==> #[trigger] s[i].color == s[0].color)
}

pub proof fn lemma_sum_push(s: Seq<ColorBox>, x: ColorBox)
    ensures
        sum_counts(s.push(x)) == sum_counts(s) + x.count,
{
    assert(s.push(x).drop_last() =~= s);
}

pub proof fn lemma_sum_prefix(s: Seq<ColorBox>, i: int)
    requires
        0 <= i <= s.len(),
    ensures
        sum_counts(s.subrange(0, i)) <= sum_counts(s),
    decreases s.len(),
{
    if i < s.len() {
        assert(s.drop_last().subrange(0, i) =~= s.subrange(0, i));
        lemma_sum_prefix(s.drop_last(), i);
    } else {
        assert(s.subrange(0, i) =~= s);
    }
}

/// Pouring a segment keeps the content compressed and adds its units.
pub proof fn lemma_push_seg(s: Seq<ColorBox>, cb: ColorBox)
    requires
        compressed(s),
        cb.count >= 1,
        sum_counts(s) + cb.count <= u32::MAX,
    ensures
        compressed(push_seg(s, cb)),
        sum_counts(push_seg(s, cb)) == sum_counts(s) + cb.count,
        push_seg(s, cb).len() > 0,
        push_seg(s, cb).last().color == cb.color,
{
    if s.len() > 0 && s.last().color == cb.color {
        let m = ColorBox { color: cb.color, count: (s.last().count + cb.count) as u32 };
        lemma_sum_push(s.drop_last(), m);
        let r = s.drop_last().push(m);
        assert forall|i: int| 0 <= i < r.len() - 1 implies #[trigger] differs_from_next(r, i) by {
            assert(r[i] == s[i]);
            assert(differs_from_next(s, i));
            if i + 1 < r.len() - 1 {
                assert(r[i + 1] == s[i + 1]);
            }
        }
        assert forall|i: int| 0 <= i < r.len() implies #[trigger] r[i].count >= 1 by {
            if i < r.len() - 1 {
                assert(r[i] == s[i]);
            }
        }
    } else {
        lemma_sum_push(s, cb);
        let r = s.push(cb);
        assert forall|i: int| 0 <= i < r.len() - 1 implies #[trigger] differs_from_next(r, i) by {
            assert(r[i] == s[i]);
            if i + 1 < s.len() {
                assert(r[i + 1] == s[i + 1]);
                assert(differs_from_next(s, i));
            }
        }
        assert forall|i: int| 0 <= i < r.len() implies #[trigger] r[i].count >= 1 by {
            if i < s.len() {
                assert(r[i] == s[i]);
            }
        }
    }
}

/// Putting back the top segment just taken off restores the content.
pub proof fn lemma_push_back_top(s: Seq<ColorBox>)
    requires
        compressed(s),
        s.len() > 0,
    ensures
        push_seg(s.drop_last(), s.last()) == s,
{
    let d = s.drop_last();
    if d.len() > 0 {
        assert(differs_from_next(s, s.len() - 2));
    }
    assert(d.push(s.last()) =~= s);
}

pub proof fn lemma_drop_last_wf(s: Seq<ColorBox>)
    requires
        segs_wf(s),
        s.len() > 0,
    ensures
        segs_wf(s.drop_last()),
        s.last().count <= sum_counts(s),
{
    let d = s.drop_last();
    assert forall|i: int| 0 <= i < d.len() implies #[trigger] d[i].count >= 1 by {
        assert(d[i] == s[i]);
    }
    assert forall|i: int| 0 <= i < d.len() - 1 implies #[trigger] differs_from_next(d, i) by {
        assert(differs_from_next(s, i));
        assert(d[i] == s[i]);
        assert(d[i + 1] == s[i + 1]);
    }
}

/// A tube filled from `n` units is compressed and holds `n` units.
pub proof fn lemma_stack_of(units: Seq<Color>)
    requires
        units.len() < u32::MAX,
    ensures
        compressed(stack_of(units)),
        sum_counts(stack_of(units)) == units.len(),
    decreases units.len(),
{
    if units.len() > 0 {
        lemma_stack_of(units.drop_first());
        lemma_push_seg(stack_of(units.drop_first()), ColorBox { color: units[0], count: 1 });
    }
}

/// The units held, bottom to top, one per unit of each segment.
pub open spec fn units_of(s: Seq<ColorBox>) -> Seq<Color>
    decreases s.len(),
{
    if s.len() == 0 {
        Seq::empty()
    } else {
        units_of(s.drop_last()) + Seq::new(s.last().count as nat, |k: int| s.last().color)
    }
}

proof fn lemma_units_push_seg(s: Seq<ColorBox>, cb: ColorBox)
    requires
        s.len() > 0 && s.last().color == cb.color ==> s.last().count + cb.count <= u32::MAX,
    ensures
        units_of(push_seg(s, cb)) == units_of(s) + Seq::new(cb.count as nat, |k: int| cb.color),
{
    let run = Seq::new(cb.count as nat, |k: int| cb.color);
    if s.len() > 0 && s.last().color == cb.color {
        let m = ColorBox { color: cb.color, count: (s.last().count + cb.count) as u32 };
        let r = s.drop_last().push(m);
        assert(r.drop_last() =~= s.drop_last());
        assert(Seq::new(m.count as nat, |k: int| m.color) =~= Seq::new(
            s.last().count as nat,
            |k: int| s.last().color,
        ) + run);
        assert(units_of(r) =~= units_of(s) + run);
    } else {
        assert(s.push(cb).drop_last() =~= s);
    }
}

/// Compression: a tube built from units listed top to bottom holds exactly
/// those units, bottom to top, and no two neighbouring segments share a color,
/// so every run of equal colors became a single segment.
pub proof fn lemma_compression(units: Seq<Color>)
    requires
        units.len() < u32::MAX,
    ensures
        compressed(stack_of(units)),
        units_of(stack_of(units)) == units.reverse(),
    decreases units.len(),
{
    lemma_stack_of(units);
    if units.len() > 0 {
        let rest = units.drop_first();
        lemma_compression(rest);
        lemma_stack_of(rest);
        let cb = ColorBox { color: units[0], count: 1 };
        let st = stack_of(rest);
        lemma_units_push_seg(st, cb);
        assert(units.reverse() =~= rest.reverse() + Seq::new(1, |k: int| units[0]));
    } else {
        assert(units.reverse() =~= Seq::<Color>::empty());
    }
}

/// Capacity invariant: on valid content, a segment that `fits` and comes from
/// a valid tube (at most a tube's worth of units) can be pushed, and the
/// result is valid again, so it stays within capacity.
pub proof fn lemma_capacity_kept(s: Seq<ColorBox>, cb: ColorBox)
    requires
        segs_wf(s),
        1 <= cb.count <= MAX_SIZE,
        fits_spec(s, cb),
    ensures
        sum_counts(s) + cb.count <= MAX_SIZE,
        segs_wf(push_seg(s, cb)),
        sum_counts(push_seg(s, cb)) == sum_counts(s) + cb.count,
{
    if s.len() == 0 {
        assert(sum_counts(s) == 0);
    }
    lemma_push_seg(s, cb);
}

/// On compressed content, a non-empty tube is solved exactly when it is full
/// and holds a single segment.
pub proof fn lemma_solved_single_segment(s: Seq<ColorBox>)
    requires
        compressed(s),
        s.len() > 0,
    ensures
        solved_spec(s) <==> (sum_counts(s) == MAX_SIZE && s.len() == 1),
{
    if s.len() > 1 {
        assert(differs_from_next(s, 0));
        assert(s[1].color != s[0].color);
    }
}

/// A capacity-bounded stack of color segments, stored bottom to top.
#[derive(Debug, Clone, PartialEq, Eq)]
pub struct Tube {
    pub colors: Vec<ColorBox>,
    pub tid: u32,
}

impl Tube {
    /// The tube's content is compressed and within capacity.
    pub open spec fn wf(&self) -> bool {
        segs_wf(self.colors@)
    }

    /// Builds a tube from units listed top to bottom, merging equal neighbours.
    pub fn new(init_colors: Vec<Color>, tid: u32) -> (r: Tube)
        requires
            init_colors@.len() <= MAX_SIZE,
        ensures
            r.colors@ == stack_of(init_colors@),
            r.tid == tid,
            r.wf(),
    {
        let mut colors: Vec<ColorBox> = Vec::new();
        let n = init_colors.len();
        let mut i: usize = n;
        proof {
            assert(init_colors@.subrange(n as int, n as int) =~= Seq::<Color>::empty());
        }
        while i > 0
            invariant
                n == init_colors@.len(),
                n <= MAX_SIZE,
                i <= n,
                colors@ == stack_of(init_colors@.subrange(i as int, n as int)),
            decreases i,
        {
            let ghost rest = init_colors@.subrange(i as int, n as int);
            let ghost next = init_colors@.subrange(i - 1, n as int);
            proof {
                assert(next.drop_first() =~= rest);
                lemma_stack_of(rest);
            }
            let c = init_colors[i - 1];
            let len = colors.len();
            if len > 0 && colors[len - 1].color == c {
                let top = colors.pop().unwrap();
                colors.push(ColorBox::new(c, top.count + 1));
            } else {
                colors.push(ColorBox::new(c, 1));
            }
            proof {
                assert(colors@ =~= stack_of(next));
            }
            i = i - 1;
        }
        proof {
            assert(init_colors@.subrange(0, n as int) =~= init_colors@);
            lemma_stack_of(init_colors@);
        }
        Tube { colors, tid }
    }

    pub fn is_empty(&self) -> (r: bool)
        ensures
            r == (self.colors@.len() == 0),
    {
        self.colors.len() == 0
    }

    /// Takes off the whole top segment, if there is one.
    pub fn pop(&mut self) -> (r: Option<ColorBox>)
        ensures
            final(self).tid == old(self).tid,
            old(self).colors@.len() == 0 ==> r.is_none() && final(self).colors@ == old(self).colors@,
            old(self).colors@.len() > 0 ==> r == Some(old(self).colors@.last())
                && final(self).colors@ == old(self).colors@.drop_last(),
            old(self).wf() ==> final(self).wf(),
    {
        proof {
            if old(self).colors@.len() > 0 && old(self).wf() {
                lemma_drop_last_wf(old(self).colors@);
            }
        }
        self.colors.pop()
    }

    /// Number of units held.
    pub fn size(&self) -> (r: u32)
        requires
            self.wf(),
        ensures
            r == sum_counts(self.colors@),
    {
        let s = &self.colors;
        let mut total: u32 = 0;
        let mut i: usize = 0;
        while i < s.len()
            invariant
                i <= s@.len(),
                segs_wf(s@),
                total == sum_counts(s@.subrange(0, i as int)),
            decreases s@.len() - i,
        {
            proof {
                assert(s@.subrange(0, i + 1).drop_last() =~= s@.subrange(0, i as int));
                lemma_sum_prefix(s@, i + 1);
            }
            total = total + s[i].count;
            i = i + 1;
        }
        proof {
            assert(s@.subrange(0, i as int) =~= s@);
        }
        total
    }

    pub fn is_full(&self) -> (r: bool)
        requires
            self.wf(),
        ensures
            r == (sum_counts(self.colors@) == MAX_SIZE),
    {
        self.size() == MAX_SIZE
    }

    /// Pours a segment on top, merging it with a top run of the same color.
    /// Unlike a plain append, an empty tube is held to the capacity too.
    pub fn push(&mut self, cb: ColorBox)
        requires
            old(self).wf(),
            cb.count >= 1,
            sum_counts(old(self).colors@) + cb.count <= MAX_SIZE,
        ensures
            final(self).colors@ == push_seg(old(self).colors@, cb),
            final(self).tid == old(self).tid,
            final(self).wf(),
    {
        proof {
            lemma_push_seg(self.colors@, cb);
        }
        let len = self.colors.len();
        if len > 0 && self.colors[len - 1].color == cb.color {
            proof {
                lemma_drop_last_wf(self.colors@);
            }
            let top = self.colors.pop().unwrap();
            self.colors.push(ColorBox::new(cb.color, top.count + cb.count));
        } else {
            self.colors.push(cb);
        }
        proof {
            assert(self.colors@ =~= push_seg(old(self).colors@, cb));
        }
    }

    /// Whether the tube is empty, or full with a single color.
    pub fn solved(&self) -> (r: bool)
        requires
            self.wf(),
        ensures
            r == solved_spec(self.colors@),
    {
        if self.is_empty() {
            return true;
        }
        if !self.is_full() {
            return false;
        }
        let s = &self.colors;
        let mut i: usize = 0;
        while i < s.len() - 1
            invariant
                s@ == self.colors@,
                s@.len() > 0,
                i < s@.len(),
                forall|k: int| 0 <= k <= i ==> #[trigger] s@[k].color == s@[0].color,
            decreases s@.len() - i,
        {
            if !(s[i].color == s[i + 1].color) {
                proof {
                    assert(s@[i + 1].color != s@[0].color);
                }
                return false;
            }
            i = i + 1;
        }
        true
    }

    /// Replaces the whole content, as when a snapshot is restored.
    pub fn set_colors(&mut self, colors: Vec<ColorBox>)
        ensures
            final(self).colors@ == colors@,
            final(self).tid == old(self).tid,
    {
        self.colors = colors;
    }

    /// Whether `other` may be poured onto this tube.
    pub fn fits(&self, other: &ColorBox) -> (r: bool)
        requires
            self.wf(),
        ensures
            r == fits_spec(self.colors@, *other),
    {
        if self.is_full() {
            return false;
        }
        if self.is_empty() {
            return true;
        }
        let size = self.size();
        let last = self.colors[self.colors.len() - 1];
        if last.color == other.color {
            return size as u64 + other.count as u64 <= MAX_SIZE as u64;
        }
        false
    }
}

} // verus!

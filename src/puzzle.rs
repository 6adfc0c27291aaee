use vstd::prelude::*;
use vstd::pervasive::VecAdditionalExecFns;

use crate::color::{color_index, Color, ColorBox, NUM_COLORS};
use crate::tube::{segs_wf, solved_spec, Tube, MAX_SIZE};

verus! {

/// Units of color `c` in a sequence of segments.
pub open spec fn seg_total(s: Seq<ColorBox>, c: Color) -> int
    decreases s.len(),
{
    if s.len() == 0 {
        0
    } else {
        seg_total(s.drop_last(), c) + if s.last().color == c {
            s.last().count as int
        } else {
            0
        }
    }
}

/// Units of color `c` over all tubes.
pub open spec fn color_total(ts: Seq<Tube>, c: Color) -> int
    decreases ts.len(),
{
    if ts.len() == 0 {
        0
    } else {
        color_total(ts.drop_last(), c) + seg_total(ts.last().colors@, c)
    }
}

/// Every color's total is a whole number of full tubes.
pub open spec fn colors_balanced(ts: Seq<Tube>) -> bool {
    forall|c: Color| #[trigger] color_total(ts, c) % (MAX_SIZE as int) == 0
}

/// The tubes that hold something, in their order.
pub open spec fn occupied(ts: Seq<Tube>) -> Seq<Tube>
    decreases ts.len(),
{
    if ts.len() == 0 {
        Seq::empty()
    } else if ts.last().colors@.len() > 0 {
        occupied(ts.drop_last()).push(ts.last())
    } else {
        occupied(ts.drop_last())
    }
}

/// The empty tubes, in their order.
pub open spec fn vacant(ts: Seq<Tube>) -> Seq<Tube>
    decreases ts.len(),
{
    if ts.len() == 0 {
        Seq::empty()
    } else if ts.last().colors@.len() == 0 {
        vacant(ts.drop_last()).push(ts.last())
    } else {
        vacant(ts.drop_last())
    }
}

/// Every tube is well formed.
pub open spec fn all_wf(ts: Seq<Tube>) -> bool {
    forall|i: int| 0 <= i < ts.len() ==> #[trigger] ts[i].wf()
}

/// Every tube is solved.
pub open spec fn all_solved(ts: Seq<Tube>) -> bool {
    forall|i: int| 0 <= i < ts.len() ==> solved_spec(#[trigger] ts[i].colors@)
}

/// Why a layout cannot be a puzzle.
#[derive(Debug, Clone, Copy, PartialEq, Eq, Structural)]
pub enum PuzzleError {
    /// The units of this color do not fill a whole number of tubes.
    MismatchedColors(Color),
}

/// The set of tubes of one game.
#[derive(Debug, Clone)]
pub struct Puzzle {
    pub tubes: Vec<Tube>,
}

impl Puzzle {
    /// Validates the color totals and orders the tubes: those that hold
    /// something first, then the empty ones, each group in its given order.
    pub fn init(init_tubes: Vec<Tube>) -> (r: Result<Puzzle, PuzzleError>)
        ensures
            r is Ok <==> colors_balanced(init_tubes@),
            r matches Ok(p) ==> p.tubes@ == occupied(init_tubes@) + vacant(init_tubes@),
            r matches Err(PuzzleError::MismatchedColors(c)) ==> color_total(init_tubes@, c)
                % (MAX_SIZE as int) != 0,
    {
        let ghost orig = init_tubes@;
        let n = init_tubes.len();
        // Residues modulo the capacity of each color's running total.
        let mut counts: Vec<u32> = Vec::new();
        while counts.len() < NUM_COLORS
            invariant
                counts@.len() <= NUM_COLORS,
                forall|k: int| 0 <= k < counts@.len() ==> counts@[k] == 0,
            decreases NUM_COLORS - counts@.len(),
        {
            counts.push(0);
        }
        let mut i: usize = 0;
        while i < n
            invariant
                n == init_tubes@.len(),
                init_tubes@ == orig,
                i <= n,
                counts@.len() == NUM_COLORS,
                forall|c: Color| #[trigger] counts@[color_index(c)] as int == color_total(
                    orig.subrange(0, i as int),
                    c,
                ) % (MAX_SIZE as int),
            decreases n - i,
        {
            let segs = &init_tubes[i].colors;
            let ghost base = orig.subrange(0, i as int);
            let mut j: usize = 0;
            while j < segs.len()
                invariant
                    i < orig.len(),
                    segs@ == orig[i as int].colors@,
                    base == orig.subrange(0, i as int),
                    j <= segs@.len(),
                    counts@.len() == NUM_COLORS,
                    forall|c: Color| #[trigger] counts@[color_index(c)] as int == (color_total(
                        base,
                        c,
                    ) + seg_total(segs@.subrange(0, j as int), c)) % (MAX_SIZE as int),
                decreases segs@.len() - j,
            {
                let cb = segs[j];
                let k = cb.color.index();
                let old_count = counts[k];
                counts.set(k, (old_count + cb.count % MAX_SIZE) % MAX_SIZE);
                proof {
                    assert(segs@.subrange(0, j + 1).drop_last() =~= segs@.subrange(0, j as int));
                    assert forall|c: Color| #[trigger]
                        counts@[color_index(c)] as int == (color_total(base, c) + seg_total(
                            segs@.subrange(0, j + 1),
                            c,
                        )) % (MAX_SIZE as int) by {
                        let a = color_total(base, c) + seg_total(segs@.subrange(0, j as int), c);
                        if c == cb.color {
                            assert((a % 4 + cb.count as int % 4) % 4 == (a + cb.count as int) % 4)
                                by (nonlinear_arith);
                        }
                    }
                }
                j = j + 1;
            }
            proof {
                assert(orig.subrange(0, i + 1).drop_last() =~= base);
                assert(segs@.subrange(0, j as int) =~= segs@);
            }
            i = i + 1;
        }
        proof {
            assert(orig.subrange(0, n as int) =~= orig);
        }
        let mut k: usize = 0;
        while k < NUM_COLORS
            invariant
                init_tubes@ == orig,
                counts@.len() == NUM_COLORS,
                forall|c: Color| #[trigger] counts@[color_index(c)] as int == color_total(orig, c)
                    % (MAX_SIZE as int),
                forall|c: Color|
                    color_index(c) < k ==> #[trigger] color_total(orig, c) % (MAX_SIZE as int)
                        == 0,
            decreases NUM_COLORS - k,
        {
            let c = Color::from_index(k);
            if counts[k] != 0 {
                proof {
                    assert(counts@[color_index(c)] == counts@[k as int]);
                }
                return Err(PuzzleError::MismatchedColors(c));
            }
            k = k + 1;
        }
        proof {
            assert forall|c: Color| #[trigger] color_total(orig, c) % (MAX_SIZE as int) == 0 by {
                assert(color_index(c) < NUM_COLORS);
            }
        }
        let mut rest = init_tubes;
        let mut tubes: Vec<Tube> = Vec::new();
        let mut empty: Vec<Tube> = Vec::new();
        let mut m: usize = 0;
        while m < n
            invariant
                n == orig.len(),
                m <= n,
                rest@ == orig.subrange(m as int, n as int),
                tubes@ == occupied(orig.subrange(0, m as int)),
                empty@ == vacant(orig.subrange(0, m as int)),
            decreases n - m,
        {
            let t = rest.remove(0);
            proof {
                assert(orig.subrange(0, m + 1).drop_last() =~= orig.subrange(0, m as int));
                assert(rest@ =~= orig.subrange(m + 1, n as int));
            }
            if t.is_empty() {
                empty.push(t);
            } else {
                tubes.push(t);
            }
            m = m + 1;
        }
        proof {
            assert(orig.subrange(0, n as int) =~= orig);
        }
        tubes.append(&mut empty);
        Ok(Puzzle { tubes })
    }

    /// Whether the puzzle has no tubes at all.
    pub fn is_empty(&self) -> (r: bool)
        ensures
            r == (self.tubes@.len() == 0),
    {
        self.tubes.len() == 0
    }

    /// Whether every tube is solved.
    pub fn solved(&self) -> (r: bool)
        requires
            all_wf(self.tubes@),
        ensures
            r == all_solved(self.tubes@),
    {
        let ts = &self.tubes;
        let mut i: usize = 0;
        while i < ts.len()
            invariant
                ts@ == self.tubes@,
                all_wf(ts@),
                i <= ts@.len(),
                forall|k: int| 0 <= k < i ==> solved_spec(#[trigger] ts@[k].colors@),
            decreases ts@.len() - i,
        {
            if !ts[i].solved() {
                return false;
            }
            i = i + 1;
        }
        true
    }
}

} // verus!

use vstd::prelude::*;

use crate::color::ColorBox;
use crate::puzzle::{all_solved, all_wf, Puzzle};
use crate::tube::{fits_spec, push_seg, solved_spec, lemma_drop_last_wf, lemma_push_back_top, sum_counts, Tube};

verus! {

/// The contents of each tube, in order.
pub open spec fn contents(ts: Seq<Tube>) -> Seq<Seq<ColorBox>> {
    Seq::new(ts.len(), |i: int| ts[i].colors@)
}

/// The id of each tube, in order.
pub open spec fn ids(ts: Seq<Tube>) -> Seq<u32> {
    Seq::new(ts.len(), |i: int| ts[i].tid)
}

/// No two tubes share an id.
pub open spec fn distinct_ids(ids: Seq<u32>) -> bool {
    forall|i: int, j: int|
        0 <= i < ids.len() && 0 <= j < ids.len() && #[trigger] ids[i] == #[trigger] ids[j] ==> i
            == j
}

/// The position of the tube with id `id`.
pub open spec fn index_of(ids: Seq<u32>, id: u32) -> int {
    choose|k: int| 0 <= k < ids.len() && ids[k] == id
}

/// Pours the top segment of tube `m.0` onto tube `m.1`.
pub open spec fn apply_move(st: Seq<Seq<ColorBox>>, ids: Seq<u32>, m: (u32, u32)) -> Seq<
    Seq<ColorBox>,
> {
    let f = index_of(ids, m.0);
    let t = index_of(ids, m.1);
    st.update(f, st[f].drop_last()).update(t, push_seg(st[t], st[f].last()))
}

/// Applies the moves in order.
pub open spec fn replay(st: Seq<Seq<ColorBox>>, ids: Seq<u32>, moves: Seq<(u32, u32)>) -> Seq<
    Seq<ColorBox>,
>
    decreases moves.len(),
{
    if moves.len() == 0 {
        st
    } else {
        replay(apply_move(st, ids, moves[0]), ids, moves.drop_first())
    }
}

/// Every tube content is solved.
pub open spec fn contents_solved(st: Seq<Seq<ColorBox>>) -> bool {
    forall|i: int| 0 <= i < st.len() ==> solved_spec(#[trigger] st[i])
}

/// How a search ends: out of budget, with no solution, or with the moves found.
pub enum Outcome {
    Exhausted,
    Failed,
    Found(Seq<(u32, u32)>),
}

/// The search from contents `st` with `c` moves of budget.
pub open spec fn dfs(st: Seq<Seq<ColorBox>>, ids: Seq<u32>, c: nat) -> Outcome
    decreases c, 2int, 0int,
{
    if c == 0 {
        Outcome::Exhausted
    } else if st.len() == 0 {
        Outcome::Failed
    } else if contents_solved(st) {
        Outcome::Found(Seq::empty())
    } else {
        try_sources(st, ids, c, 0)
    }
}

/// The search over sources `i` and on, in order.
pub open spec fn try_sources(st: Seq<Seq<ColorBox>>, ids: Seq<u32>, c: nat, i: int) -> Outcome
    decreases c, 1int, st.len() - i,
{
    if i < 0 || i >= st.len() {
        Outcome::Failed
    } else if st[i].len() == 0 {
        try_sources(st, ids, c, i + 1)
    } else {
        match try_targets(st, ids, c, i, 0) {
            Outcome::Failed => try_sources(st, ids, c, i + 1),
            r => r,
        }
    }
}

/// The search over destinations `j` and on, for the top segment of source `i`.
pub open spec fn try_targets(st: Seq<Seq<ColorBox>>, ids: Seq<u32>, c: nat, i: int, j: int) -> Outcome
    decreases c, 0int, st.len() - j,
{
    if c == 0 || i < 0 || i >= st.len() || st[i].len() == 0 || j < 0 || j >= st.len() {
        Outcome::Failed
    } else {
        let popped = st.update(i, st[i].drop_last());
        let seg = st[i].last();
        if ids[j] == ids[i] || (popped[j].len() == 0 && popped[i].len() == 0) || !fits_spec(
            popped[j],
            seg,
        ) {
            try_targets(st, ids, c, i, j + 1)
        } else {
            match dfs(popped.update(j, push_seg(popped[j], seg)), ids, (c - 1) as nat) {
                Outcome::Failed => try_targets(st, ids, c, i, j + 1),
                Outcome::Exhausted => Outcome::Exhausted,
                Outcome::Found(p) => Outcome::Found(seq![(ids[i], ids[j])] + p),
            }
        }
    }
}

/// The search ran out of budget.
#[derive(Debug, Clone, Copy, PartialEq, Eq, Structural)]
pub enum SearchError {
    Exhausted,
}

/// The state of one search: the puzzle, whether it was solved, the moves
/// that may still be applied, and the moves applied so far.
#[derive(Debug)]
pub struct SolveInput {
    pub puz: Puzzle,
    pub solved: bool,
    pub c: u32,
    pub path: Vec<(u32, u32)>,
}

impl SolveInput {
    /// Records a move at the end of the path.
    pub fn push(&mut self, val: (u32, u32))
        ensures
            final(self).path@ == old(self).path@.push(val),
            final(self).puz == old(self).puz,
            final(self).solved == old(self).solved,
            final(self).c == old(self).c,
    {
        self.path.push(val)
    }

    /// Forgets the last move of the path.
    pub fn pop(&mut self)
        ensures
            old(self).path@.len() > 0 ==> final(self).path@ == old(self).path@.drop_last(),
            old(self).path@.len() == 0 ==> final(self).path@ == old(self).path@,
            final(self).puz == old(self).puz,
            final(self).solved == old(self).solved,
            final(self).c == old(self).c,
    {
        self.path.pop();
    }

    /// Gives one move back to the budget.
    pub fn inc(&mut self)
        requires
            old(self).c < u32::MAX,
        ensures
            final(self).c == old(self).c + 1,
            final(self).puz == old(self).puz,
            final(self).solved == old(self).solved,
            final(self).path == old(self).path,
    {
        self.c = self.c + 1;
    }

    /// Spends one move of the budget.
    pub fn dec(&mut self)
        requires
            old(self).c > 0,
        ensures
            final(self).c == old(self).c - 1,
            final(self).puz == old(self).puz,
            final(self).solved == old(self).solved,
            final(self).path == old(self).path,
    {
        self.c = self.c - 1;
    }

    pub fn set_solved(&mut self, val: bool)
        ensures
            final(self).solved == val,
            final(self).puz == old(self).puz,
            final(self).c == old(self).c,
            final(self).path == old(self).path,
    {
        self.solved = val;
    }

    pub fn solved(&self) -> (r: bool)
        ensures
            r == self.solved,
    {
        self.solved
    }
}

proof fn lemma_update_tube(ts: Seq<Tube>, k: int, t: Tube)
    requires
        0 <= k < ts.len(),
        t.tid == ts[k].tid,
    ensures
        contents(ts.update(k, t)) == contents(ts).update(k, t.colors@),
        ids(ts.update(k, t)) == ids(ts),
        all_wf(ts) && t.wf() ==> all_wf(ts.update(k, t)),
{
    assert(contents(ts.update(k, t)) =~= contents(ts).update(k, t.colors@));
    assert(ids(ts.update(k, t)) =~= ids(ts));
}

proof fn lemma_index_of(ids: Seq<u32>, k: int)
    requires
        distinct_ids(ids),
        0 <= k < ids.len(),
    ensures
        index_of(ids, ids[k]) == k,
{
    let j = index_of(ids, ids[k]);
    assert(0 <= j < ids.len() && ids[j] == ids[k]);
}

/// What a successful search leaves: the path extends the old one, replaying
/// the new moves on the old contents gives the final contents, in which every
/// tube is solved, and one unit of budget was spent per new move.
pub open spec fn solved_outcome(old_si: SolveInput, new_si: SolveInput) -> bool {
    let n0 = old_si.path@.len();
    let moves = new_si.path@.skip(n0 as int);
    &&& new_si.path@.len() >= n0
    &&& new_si.path@.subrange(0, n0 as int) == old_si.path@
    &&& replay(contents(old_si.puz.tubes@), ids(old_si.puz.tubes@), moves) == contents(
        new_si.puz.tubes@,
    )
    &&& contents_solved(replay(contents(old_si.puz.tubes@), ids(old_si.puz.tubes@), moves))
    &&& all_solved(new_si.puz.tubes@)
    &&& new_si.c + moves.len() == old_si.c
}

/// What a failed search leaves: everything as it found it.
pub open spec fn restored(old_si: SolveInput, new_si: SolveInput) -> bool {
    &&& contents(new_si.puz.tubes@) == contents(old_si.puz.tubes@)
    &&& new_si.path@ == old_si.path@
    &&& new_si.c == old_si.c
}

/// Depth-first search for a sequence of pours that solves the puzzle.
///
/// Sources and destinations are tried in the stored tube order; each applied
/// move spends one unit of the budget `c`, given back when the move is undone.
/// On success `solved` is set and `path` ends with the moves found; otherwise
/// every tube, the path and the budget are as before. Running out of budget
/// aborts the search with an error.
pub fn solve(si: &mut SolveInput) -> (r: Result<(), SearchError>)
    requires
        all_wf(old(si).puz.tubes@),
        distinct_ids(ids(old(si).puz.tubes@)),
        !old(si).solved,
    ensures
        final(si).puz.tubes@.len() == old(si).puz.tubes@.len(),
        ids(final(si).puz.tubes@) == ids(old(si).puz.tubes@),
        all_wf(final(si).puz.tubes@),
        old(si).c == 0 ==> r is Err,
        old(si).c > 0 && old(si).puz.tubes@.len() == 0 ==> r is Ok && !final(si).solved,
        old(si).c > 0 && old(si).puz.tubes@.len() > 0 && all_solved(old(si).puz.tubes@) ==> r is Ok
            && final(si).solved && final(si).path@ == old(si).path@,
        r is Err <==> dfs(contents(old(si).puz.tubes@), ids(old(si).puz.tubes@), old(si).c as nat) is Exhausted,
        r is Ok ==> (final(si).solved <==> dfs(
            contents(old(si).puz.tubes@),
            ids(old(si).puz.tubes@),
            old(si).c as nat,
        ) is Found),
        dfs(contents(old(si).puz.tubes@), ids(old(si).puz.tubes@), old(si).c as nat) matches Outcome::Found(p) ==> final(si).path@ == old(si).path@ + p,
        r is Ok && final(si).solved ==> solved_outcome(*old(si), *final(si)),
        r is Ok && !final(si).solved ==> restored(*old(si), *final(si)),
    decreases old(si).c,
{
    if si.c == 0 {
        return Err(SearchError::Exhausted);
    }
    if si.puz.is_empty() {
        si.set_solved(false);
        return Ok(());
    }
    if si.puz.solved() {
        si.set_solved(true);
        proof {
            let n0 = si.path@.len();
            assert(si.path@.skip(n0 as int) =~= Seq::<(u32, u32)>::empty());
            assert(si.path@.subrange(0, n0 as int) =~= si.path@);
            assert(si.path@ =~= si.path@ + Seq::<(u32, u32)>::empty());
            assert forall|k: int| 0 <= k < contents(si.puz.tubes@).len() implies solved_spec(
                #[trigger] contents(si.puz.tubes@)[k],
            ) by {
                assert(solved_spec(si.puz.tubes@[k].colors@));
            }
        }
        return Ok(());
    }
    let n = si.puz.tubes.len();
    let ghost s0 = contents(si.puz.tubes@);
    let ghost ids0 = ids(si.puz.tubes@);
    let ghost path0 = si.path@;
    let ghost c0 = si.c;
    proof {
        assert(!contents_solved(s0)) by {
            if contents_solved(s0) {
                assert forall|k: int| 0 <= k < n implies solved_spec(
                    #[trigger] si.puz.tubes@[k].colors@,
                ) by {
                    assert(solved_spec(s0[k]));
                }
            }
        }
        assert(dfs(s0, ids0, c0 as nat) == try_sources(s0, ids0, c0 as nat, 0));
    }
    let mut i: usize = 0;
    while i < n
        invariant
            n == si.puz.tubes@.len(),
            i <= n,
            contents(si.puz.tubes@) == s0,
            ids(si.puz.tubes@) == ids0,
            all_wf(si.puz.tubes@),
            distinct_ids(ids0),
            si.path@ == path0,
            si.c == c0,
            c0 > 0,
            !si.solved,
            s0.len() == n,
            ids0.len() == n,
            s0 == contents(old(si).puz.tubes@),
            ids0 == ids(old(si).puz.tubes@),
            path0 == old(si).path@,
            c0 == old(si).c,
            !all_solved(old(si).puz.tubes@),
            dfs(s0, ids0, c0 as nat) == try_sources(s0, ids0, c0 as nat, i as int),
        decreases n - i,
    {
        proof {
            assert(contents(si.puz.tubes@)[i as int] == si.puz.tubes@[i as int].colors@);
        }
        if si.puz.tubes[i].is_empty() {
            i = i + 1;
            continue;
        }
        let ghost t0 = si.puz.tubes@[i as int];
        proof {
            assert(t0.wf());
            assert(s0[i as int] == t0.colors@);
            lemma_drop_last_wf(t0.colors@);
        }
        let ghost before = si.puz.tubes@;
        let curr_color = si.puz.tubes[i].pop().unwrap();
        let curr_id = si.puz.tubes[i].tid;
        let ghost popped = s0.update(i as int, s0[i as int].drop_last());
        proof {
            lemma_update_tube(before, i as int, si.puz.tubes@[i as int]);
            assert(si.puz.tubes@ == before.update(i as int, si.puz.tubes@[i as int]));
            assert(curr_id == ids0[i as int]);
        }
        let mut j: usize = 0;
        while j < n
            invariant
                n == si.puz.tubes@.len(),
                i < n,
                j <= n,
                contents(si.puz.tubes@) == popped,
                popped == s0.update(i as int, s0[i as int].drop_last()),
                s0[i as int].len() > 0,
                curr_color == s0[i as int].last(),
                curr_color.count >= 1,
                curr_color.count <= sum_counts(s0[i as int]),
                sum_counts(s0[i as int]) <= 4,
                curr_id == ids0[i as int],
                ids(si.puz.tubes@) == ids0,
                all_wf(si.puz.tubes@),
                distinct_ids(ids0),
                si.path@ == path0,
                si.c == c0,
                c0 > 0,
                !si.solved,
                s0.len() == n,
                ids0.len() == n,
                s0 == contents(old(si).puz.tubes@),
                ids0 == ids(old(si).puz.tubes@),
                path0 == old(si).path@,
                c0 == old(si).c,
                !all_solved(old(si).puz.tubes@),
                dfs(s0, ids0, c0 as nat) == (match try_targets(s0, ids0, c0 as nat, i as int, 0) {
                    Outcome::Failed => try_sources(s0, ids0, c0 as nat, i + 1),
                    r => r,
                }),
                try_targets(s0, ids0, c0 as nat, i as int, 0) == try_targets(
                    s0,
                    ids0,
                    c0 as nat,
                    i as int,
                    j as int,
                ),
            decreases n - j,
        {
            proof {
                assert(ids(si.puz.tubes@)[j as int] == si.puz.tubes@[j as int].tid);
                assert(contents(si.puz.tubes@)[j as int] == si.puz.tubes@[j as int].colors@);
                assert(contents(si.puz.tubes@)[i as int] == si.puz.tubes@[i as int].colors@);
                assert(si.puz.tubes@[j as int].wf());
            }
            if si.puz.tubes[j].tid == curr_id {
                j = j + 1;
                continue;
            }
            if si.puz.tubes[j].is_empty() && si.puz.tubes[i].is_empty() {
                j = j + 1;
                continue;
            }
            if si.puz.tubes[j].fits(&curr_color) {
                let ghost mid = si.puz.tubes@;
                let ghost m = (curr_id, ids0[j as int]);
                let snapshot = copy_segments(&si.puz.tubes[j].colors);
                si.puz.tubes[j].push(curr_color);
                let to_id = si.puz.tubes[j].tid;
                proof {
                    lemma_update_tube(mid, j as int, si.puz.tubes@[j as int]);
                    assert(si.puz.tubes@ == mid.update(j as int, si.puz.tubes@[j as int]));
                    assert(j != i);
                    lemma_index_of(ids0, i as int);
                    lemma_index_of(ids0, j as int);
                    assert(apply_move(s0, ids0, m) =~= contents(si.puz.tubes@));
                }
                si.push((curr_id, to_id));
                si.dec();
                let ghost at_call = *si;
                let res = solve(si);
                proof {
                    assert(contents(at_call.puz.tubes@) =~= popped.update(
                        j as int,
                        push_seg(popped[j as int], curr_color),
                    ));
                    assert(at_call.c as nat == (c0 as nat - 1) as nat);
                }
                if res.is_err() {
                    return res;
                }
                if si.solved() {
                    proof {
                        let n0 = path0.len() as int;
                        let full = si.path@;
                        assert(at_call.path@ == path0.push(m));
                        assert(full.subrange(0, n0 + 1) == path0.push(m));
                        assert(full.subrange(0, n0) =~= path0) by {
                            assert(full.subrange(0, n0) =~= full.subrange(0, n0 + 1).subrange(0, n0 as int));
                        }
                        let moves = full.skip(n0);
                        assert(moves[0] == full.subrange(0, n0 + 1)[n0]);
                        assert(moves[0] == m);
                        assert(moves.drop_first() =~= full.skip(n0 + 1));
                        let child = dfs(contents(at_call.puz.tubes@), ids0, at_call.c as nat);
                        if let Outcome::Found(p) = child {
                            assert(full == path0.push(m) + p);
                            assert(full =~= path0 + (seq![m] + p));
                        }
                    }
                    return Ok(());
                }
                si.inc();
                si.puz.tubes[j].set_colors(snapshot);
                si.pop();
                proof {
                    let after = si.puz.tubes@;
                    assert(contents(after) =~= popped) by {
                        assert forall|k: int| 0 <= k < n implies #[trigger] contents(after)[k]
                            == popped[k] by {
                            assert(contents(after)[k] == after[k].colors@);
                            if k != j {
                                assert(contents(at_call.puz.tubes@)[k] == at_call.puz.tubes@[k].colors@);
                            }
                        }
                    }
                    assert(ids(after) =~= ids0) by {
                        assert forall|k: int| 0 <= k < n implies #[trigger] ids(after)[k] == ids0[k] by {
                            assert(ids(after)[k] == after[k].tid);
                            assert(ids(at_call.puz.tubes@)[k] == at_call.puz.tubes@[k].tid);
                        }
                    }
                    assert(si.path@ =~= path0);
                    assert(all_wf(after)) by {
                        assert forall|k: int| 0 <= k < n implies #[trigger] after[k].wf() by {
                            if k == j {
                                assert(after[k].colors@ == mid[k].colors@);
                            } else {
                                assert(at_call.puz.tubes@[k].wf());
                            }
                        }
                    }
                }
            }
            j = j + 1;
        }
        let ghost restoring = si.puz.tubes@;
        proof {
            assert(contents(si.puz.tubes@)[i as int] == si.puz.tubes@[i as int].colors@);
            assert(si.puz.tubes@[i as int].wf());
            lemma_push_back_top(s0[i as int]);
        }
        si.puz.tubes[i].push(curr_color);
        proof {
            lemma_update_tube(restoring, i as int, si.puz.tubes@[i as int]);
            assert(si.puz.tubes@ == restoring.update(i as int, si.puz.tubes@[i as int]));
            assert(contents(si.puz.tubes@) =~= s0);
        }
        i = i + 1;
    }
    Ok(())
}

/// A copy of a tube's segments, taken before a move so it can be undone.
fn copy_segments(v: &Vec<ColorBox>) -> (r: Vec<ColorBox>)
    ensures
        r@ == v@,
{
    let mut r: Vec<ColorBox> = Vec::new();
    let mut i: usize = 0;
    while i < v.len()
        invariant
            i <= v@.len(),
            r@ == v@.subrange(0, i as int),
        decreases v@.len() - i,
    {
        r.push(v[i]);
        proof {
            assert(r@ =~= v@.subrange(0, i + 1));
        }
        i = i + 1;
    }
    proof {
        assert(r@ =~= v@);
    }
    r
}

} // verus!

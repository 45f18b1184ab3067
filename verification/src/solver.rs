use vstd::prelude::*;

use crate::ops::PuzzleEquation;
use crate::pool::lemma_insert_sorted_len;
use crate::replay::eq_applicable;
use crate::replay::eq_apply;
use crate::replay::lemma_replay_prefix;
use crate::replay::lemma_replay_push;
use crate::replay::replay;
use crate::replay::replay_ok;
use crate::state::Puzzle;
use crate::state::PuzzleV;
use crate::state::child_of;
use crate::state::child_state;
use crate::state::expand_from;
use crate::state::expand_spec;
use crate::state::lemma_expand_children;
use crate::state::lemma_expand_complete;
use crate::state::pair_children;
use crate::state::solved;
use crate::state::views_of;
use crate::state::wf;
use std::collections::VecDeque;

verus! {

/// An upper bound on how many states a search starting from one state with a
/// pool of `k` numbers can ever visit: a state has fewer than `4 * k * k`
/// children, each over a pool of fewer than `k` numbers.
pub open spec fn pot(k: nat) -> nat
    decreases k,
{
    if k == 0 {
        1
    } else {
        1 + 4 * k * k * pot((k - 1) as nat)
    }
}

/// The search potential of a frontier: the sum of its states' potentials.
pub open spec fn q_pot(q: Seq<PuzzleV>) -> nat
    decreases q.len(),
{
    if q.len() == 0 {
        0
    } else {
        pot(q[0].pool.len()) + q_pot(q.drop_first())
    }
}

proof fn lemma_pot_pos(k: nat)
    ensures
        pot(k) >= 1,
    decreases k,
{
}

proof fn lemma_pot_mono(m: nat, n: nat)
    requires
        m <= n,
    ensures
        pot(m) <= pot(n),
    decreases n,
{
    if m < n {
        lemma_pot_mono(m, (n - 1) as nat);
        lemma_pot_pos((n - 1) as nat);
        assert(pot((n - 1) as nat) <= 4 * n * n * pot((n - 1) as nat)) by (nonlinear_arith)
            requires
                n >= 1,
                pot((n - 1) as nat) >= 0,
        ;
    }
}

/// Potential adds up over concatenation.
proof fn lemma_q_pot_concat(a: Seq<PuzzleV>, b: Seq<PuzzleV>)
    ensures
        q_pot(a + b) == q_pot(a) + q_pot(b),
    decreases a.len(),
{
    if a.len() == 0 {
        assert(a + b =~= b);
    } else {
        assert((a + b).drop_first() =~= a.drop_first() + b);
        assert((a + b)[0] == a[0]);
        lemma_q_pot_concat(a.drop_first(), b);
    }
}

/// A frontier of states with small pools has small potential.
proof fn lemma_q_pot_bound(q: Seq<PuzzleV>, l: nat)
    requires
        forall|k: int| 0 <= k < q.len() ==> (#[trigger] q[k]).pool.len() <= l,
    ensures
        q_pot(q) <= q.len() * pot(l),
    decreases q.len(),
{
    if q.len() == 0 {
    } else {
        assert(q[0].pool.len() <= l);
        lemma_pot_mono(q[0].pool.len(), l);
        let t = q.drop_first();
        assert(forall|k: int| 0 <= k < t.len() ==> (#[trigger] t[k]).pool.len() <= l) by {
            assert(forall|k: int| 0 <= k < t.len() ==> t[k] == q[k + 1]);
        }
        lemma_q_pot_bound(t, l);
        assert(pot(l) + (q.len() - 1) * pot(l) == q.len() * pot(l)) by (nonlinear_arith);
    }
}

/// How many pairs the expansion still has to visit from position `(i, j)` on.
pub open spec fn pair_count(l: int, i: int, j: int) -> nat
    decreases l - i, l - j,
{
    if j < l {
        1 + pair_count(l, i, j + 1)
    } else if i + 1 < l {
        pair_count(l, i + 1, i + 2)
    } else {
        0
    }
}

/// Each pair contributes at most four children.
proof fn lemma_expand_from_count(s: PuzzleV, i: int, j: int)
    requires
        0 <= i < j,
    ensures
        expand_from(s, i, j).len() <= 4 * pair_count(s.pool.len() as int, i, j),
    decreases s.pool.len() - i, s.pool.len() - j,
{
    let l = s.pool.len() as int;
    if j < l {
        lemma_expand_from_count(s, i, j + 1);
        assert(pair_children(s, i, j).len() <= 4);
    } else if i + 1 < l {
        lemma_expand_from_count(s, i + 1, i + 2);
    }
}

/// The number of pairs still to visit is bounded by the square of the pool.
proof fn lemma_pair_count_bound(l: int, i: int, j: int)
    requires
        0 <= i < j <= l,
    ensures
        pair_count(l, i, j) <= (l - i) * l - (j - i) + 1,
    decreases l - i, l - j,
{
    if j < l {
        lemma_pair_count_bound(l, i, j + 1);
    } else if i + 1 < l {
        lemma_pair_count_bound(l, i + 1, i + 2);
        assert((l - i) * l - (l - i - 1) * l == l) by (nonlinear_arith);
    } else {
        assert((l - i) * l - (j - i) + 1 >= 0) by (nonlinear_arith)
            requires
                0 <= i < j <= l,
        ;
    }
}

/// Every child has a strictly smaller pool than its parent, whether or not
/// the parent's pool is well formed.
proof fn lemma_expand_from_size(s: PuzzleV, i: int, j: int)
    requires
        0 <= i < j,
    ensures
        forall|k: int|
            0 <= k < expand_from(s, i, j).len() ==> (#[trigger] expand_from(s, i, j)[k]).pool.len()
                < s.pool.len(),
    decreases s.pool.len() - i, s.pool.len() - j,
{
    let ef = expand_from(s, i, j);
    let l = s.pool.len() as int;
    if j < l {
        let pc = pair_children(s, i, j);
        assert forall|op: crate::ops::Operations, r: u32|
            (#[trigger] child_state(s, i, j, op, r)).pool.len() < s.pool.len() by {
            lemma_insert_sorted_len(s.pool.remove(j).remove(i), r);
            assert(s.pool.remove(j).len() == l - 1);
            assert(s.pool.remove(j).remove(i).len() == l - 2);
        }
        lemma_expand_from_size(s, i, j + 1);
        assert forall|k: int| 0 <= k < ef.len() implies (#[trigger] ef[k]).pool.len()
            < s.pool.len() by {
            if k < pc.len() {
                assert(ef[k] == pc[k]);
            } else {
                assert(ef[k] == expand_from(s, i, j + 1)[k - pc.len()]);
            }
        }
    } else if i + 1 < l {
        lemma_expand_from_size(s, i + 1, i + 2);
        assert(ef == expand_from(s, i + 1, i + 2));
    }
}

/// Expanding a state costs potential: all children together weigh strictly
/// less than the state itself.
proof fn lemma_expand_pot(s: PuzzleV)
    ensures
        q_pot(expand_spec(s)) < pot(s.pool.len()),
{
    let l = s.pool.len();
    let cs = expand_spec(s);
    if l < 2 {
        assert(cs == Seq::<PuzzleV>::empty());
        lemma_pot_pos(l);
    } else {
        lemma_expand_from_size(s, 0, 1);
        lemma_q_pot_bound(cs, (l - 1) as nat);
        lemma_expand_from_count(s, 0, 1);
        lemma_pair_count_bound(l as int, 0, 1);
        assert(cs.len() <= 4 * (l * l));
        lemma_pot_pos((l - 1) as nat);
        assert(cs.len() * pot((l - 1) as nat) <= 4 * l * l * pot((l - 1) as nat))
            by (nonlinear_arith)
            requires
                cs.len() <= 4 * (l * l),
                pot((l - 1) as nat) >= 0,
        ;
        assert(pot(l) == 1 + 4 * l * l * pot((l - 1) as nat));
    }
}

/// The breadth-first search itself: take the front state of the frontier;
/// return it if it is solved, otherwise append its children at the back and
/// go on. `None` means the frontier was exhausted.
pub open spec fn bfs(q: Seq<PuzzleV>) -> Option<PuzzleV>
    decreases q_pot(q),
    via bfs_decreases
{
    if q.len() == 0 {
        None
    } else if solved(q[0]) {
        Some(q[0])
    } else {
        bfs(q.drop_first() + expand_spec(q[0]))
    }
}

#[via_fn]
proof fn bfs_decreases(q: Seq<PuzzleV>) {
    if q.len() > 0 && !solved(q[0]) {
        lemma_expand_pot(q[0]);
        lemma_q_pot_concat(q.drop_first(), expand_spec(q[0]));
        assert(q_pot(q) == pot(q[0].pool.len()) + q_pot(q.drop_first()));
    }
}

/// `s` is a descendant of `root`: same target, the root's history is a prefix
/// of its history, and the equations added after that prefix replay from the
/// root's pool exactly to its pool.
pub open spec fn reaches(root: PuzzleV, s: PuzzleV) -> bool {
    &&& s.solution == root.solution
    &&& root.history.len() <= s.history.len()
    &&& s.history.take(root.history.len() as int) == root.history
    &&& replay_ok(root.pool, s.history.skip(root.history.len() as int))
    &&& s.pool == replay(root.pool, s.history.skip(root.history.len() as int))
}

/// Every state is a descendant of itself, through no equations at all.
pub proof fn lemma_reaches_self(root: PuzzleV)
    ensures
        reaches(root, root),
{
    assert(root.history.take(root.history.len() as int) =~= root.history);
    assert(root.history.skip(root.history.len() as int) =~= Seq::<PuzzleEquation>::empty());
}

/// One more reduction keeps a state a descendant of the root.
proof fn lemma_reaches_child(root: PuzzleV, s: PuzzleV, c: PuzzleV)
    requires
        reaches(root, s),
        child_of(s, c),
    ensures
        reaches(root, c),
{
    let rlen = root.history.len() as int;
    let e = c.history.last();
    assert(c.history =~= s.history.push(e)) by {
        assert(forall|k: int|
            0 <= k < s.history.len() ==> c.history[k] == c.history.take(
                s.history.len() as int,
            )[k]);
    }
    assert(c.history.take(rlen) =~= root.history) by {
        assert(forall|k: int| 0 <= k < rlen ==> s.history[k] == s.history.take(rlen)[k]);
    }
    assert(c.history.skip(rlen) =~= s.history.skip(rlen).push(e));
    lemma_replay_push(root.pool, s.history.skip(rlen), e);
}

/// Solving is deterministic: the outcome of the search is a function of the
/// root state alone, so equal root states give equal outcomes.
pub proof fn lemma_solve_deterministic(a: PuzzleV, b: PuzzleV)
    requires
        a == b,
    ensures
        bfs(seq![a]) == bfs(seq![b]),
{
}

/// A state that already holds its target is found at once, with nothing added
/// to its history.
pub proof fn lemma_solved_immediate(s: PuzzleV)
    requires
        solved(s),
    ensures
        bfs(seq![s]) == Some(s),
{
    assert(seq![s][0] == s);
}

/// A state whose pool is down to a single number it cannot use has no
/// children, so the search exhausts its frontier and reports failure.
pub proof fn lemma_single_unsolvable(s: PuzzleV)
    requires
        s.pool.len() <= 1,
        !solved(s),
    ensures
        bfs(seq![s]) == None::<PuzzleV>,
{
    let q = seq![s];
    assert(q[0] == s);
    assert(expand_spec(s) == Seq::<PuzzleV>::empty());
    assert(q.drop_first() + expand_spec(s) =~= Seq::<PuzzleV>::empty());
    assert(bfs(q) == bfs(Seq::<PuzzleV>::empty()));
}

/// `h` is a solution path from `s`: its equations replay validly from the
/// pool of `s` and end in a pool that holds the target.
pub open spec fn solution_path(s: PuzzleV, h: Seq<PuzzleEquation>) -> bool {
    &&& replay_ok(s.pool, h)
    &&& replay(s.pool, h).contains(s.solution)
}

/// Cuts a solution path down to one none of whose proper prefixes already
/// solves the puzzle.
proof fn lemma_shrink_to_minimal(s: PuzzleV, h: Seq<PuzzleEquation>) -> (h2: Seq<PuzzleEquation>)
    requires
        solution_path(s, h),
    ensures
        solution_path(s, h2),
        h2.len() <= h.len(),
        forall|m: int|
            0 <= m < h2.len() ==> !(#[trigger] replay(s.pool, h2.take(m))).contains(s.solution),
    decreases h.len(),
{
    if exists|m: int|
        0 <= m < h.len() && (#[trigger] replay(s.pool, h.take(m))).contains(s.solution) {
        let m = choose|m: int|
            0 <= m < h.len() && (#[trigger] replay(s.pool, h.take(m))).contains(s.solution);
        lemma_replay_prefix(s.pool, h, m);
        lemma_shrink_to_minimal(s, h.take(m))
    } else {
        h
    }
}

/// From a frontier ordered by history length and spanning at most two search
/// depths, the search succeeds whenever some member `q[i]` has a solution
/// path `h` none of whose proper prefixes already solves, and the result adds
/// at most `h.len()` equations beyond the history of `q[i]`.
proof fn lemma_bfs_finds_minimal(q: Seq<PuzzleV>, i: int, h: Seq<PuzzleEquation>)
    requires
        forall|k: int| 0 <= k < q.len() ==> wf(#[trigger] q[k]),
        forall|x: int, y: int| 0 <= x <= y < q.len() ==> q[x].history.len() <= q[y].history.len(),
        forall|k: int|
            0 <= k < q.len() ==> (#[trigger] q[k]).history.len() <= q[0].history.len() + 1,
        0 <= i < q.len(),
        solution_path(q[i], h),
        forall|m: int|
            0 <= m < h.len() ==> !(#[trigger] replay(q[i].pool, h.take(m))).contains(
                q[i].solution,
            ),
    ensures
        bfs(q).is_some(),
        bfs(q).unwrap().history.len() <= q[i].history.len() + h.len(),
    decreases q_pot(q),
{
    if solved(q[0]) {
        assert(bfs(q) == Some(q[0]));
        assert(q[0].history.len() <= q[i].history.len());
    } else {
        let s0 = q[0];
        let cs = expand_spec(s0);
        let q2 = q.drop_first() + cs;
        lemma_expand_children(s0);
        assert(forall|k: int| 0 <= k < q.len() - 1 ==> q2[k] == q[k + 1]);
        assert(forall|k: int|
            q.len() - 1 <= k < q2.len() ==> q2[k] == cs[k - (q.len() - 1)] && child_of(
                s0,
                #[trigger] q2[k],
            ));
        assert forall|k: int| 0 <= k < q2.len() implies wf(#[trigger] q2[k]) by {
            if k >= q.len() - 1 {
                assert(q2[k] == cs[k - (q.len() - 1)]);
            }
        }
        assert forall|x: int, y: int| 0 <= x <= y < q2.len() implies q2[x].history.len()
            <= q2[y].history.len() by {
            if y >= q.len() - 1 {
                assert(q2[y].history.len() == s0.history.len() + 1);
            }
            if x >= q.len() - 1 {
                assert(q2[x].history.len() == s0.history.len() + 1);
            }
        }
        assert forall|k: int| 0 <= k < q2.len() implies (#[trigger] q2[k]).history.len()
            <= q2[0].history.len() + 1 by {
            if q.len() > 1 {
                assert(q2[0] == q[1]);
                assert(q[0].history.len() <= q[1].history.len());
            } else {
                assert(q2[0] == cs[0]);
            }
        }
        lemma_expand_pot(s0);
        lemma_q_pot_concat(q.drop_first(), cs);
        assert(q_pot(q) == pot(s0.pool.len()) + q_pot(q.drop_first()));
        if i > 0 {
            assert(q2[i - 1] == q[i]);
            lemma_bfs_finds_minimal(q2, i - 1, h);
        } else {
            // the front state itself lies on the path; it is not solved, so
            // the path is not empty and its first equation leads to a child
            assert(h.len() > 0) by {
                if h.len() == 0 {
                    assert(replay(s0.pool, h) == s0.pool);
                }
            }
            let e = h[0];
            assert(eq_applicable(s0.pool, e));
            let c = PuzzleV {
                pool: eq_apply(s0.pool, e),
                solution: s0.solution,
                history: s0.history.push(e),
            };
            lemma_expand_complete(s0, e);
            let ci = choose|ci: int| 0 <= ci < cs.len() && cs[ci] == c;
            let i2 = q.len() - 1 + ci;
            assert(q2[i2] == c);
            let h2 = h.drop_first();
            assert(replay(c.pool, h2) == replay(s0.pool, h));
            assert(replay_ok(c.pool, h2));
            assert forall|m: int| 0 <= m < h2.len() implies !(#[trigger] replay(
                c.pool,
                h2.take(m),
            )).contains(c.solution) by {
                assert(h.take(m + 1)[0] == e);
                assert(h.take(m + 1).drop_first() =~= h2.take(m));
                assert(replay(s0.pool, h.take(m + 1)) == replay(c.pool, h2.take(m)));
                assert(!replay(s0.pool, h.take(m + 1)).contains(s0.solution));
            }
            lemma_bfs_finds_minimal(q2, i2, h2);
            assert(bfs(q2).unwrap().history.len() <= c.history.len() + h2.len());
        }
        assert(bfs(q) == bfs(q2));
    }
}

/// Breadth-first minimality: wherever some sequence of equations solves the
/// puzzle, the search succeeds, and what it returns adds no more equations
/// to the root's history than that sequence holds.
pub proof fn lemma_bfs_minimal(root: PuzzleV, h: Seq<PuzzleEquation>)
    requires
        wf(root),
        solution_path(root, h),
    ensures
        bfs(seq![root]).is_some(),
        bfs(seq![root]).unwrap().history.len() <= root.history.len() + h.len(),
{
    let h2 = lemma_shrink_to_minimal(root, h);
    let q = seq![root];
    assert(q[0] == root);
    lemma_bfs_finds_minimal(q, 0, h2);
}

/// A solved descendant of the root carries a solution path: the equations it
/// added to the root's history. With `lemma_bfs_minimal`, what the search
/// returns is therefore a shortest solution.
pub proof fn lemma_result_is_solution(root: PuzzleV, p: PuzzleV)
    requires
        reaches(root, p),
        solved(p),
    ensures
        solution_path(root, p.history.skip(root.history.len() as int)),
{
}

impl Puzzle {
    /// Solve a puzzle: breadth-first search over the states reachable from
    /// this one, returning the first solved state found — which adds as few
    /// equations as any solution — or `None` exactly when no sequence of
    /// equations can reach the target.
    pub fn solve(&self) -> (r: Option<Puzzle>)
        requires
            wf(self@),
        ensures
            match r {
                Some(p) => {
                    &&& Some(p@) == bfs(seq![self@])
                    &&& wf(p@)
                    &&& solved(p@)
                    &&& reaches(self@, p@)
                    &&& forall|h: Seq<PuzzleEquation>|
                        solution_path(self@, h) ==> p@.history.len() <= self@.history.len()
                            + h.len()
                },
                None => {
                    &&& bfs(seq![self@]) == None::<PuzzleV>
                    &&& forall|h: Seq<PuzzleEquation>| !solution_path(self@, h)
                },
            },
    {
        let mut queue: VecDeque<Puzzle> = VecDeque::new();
        queue.push_back(self.duplicate());
        proof {
            lemma_reaches_self(self@);
            assert(views_of(queue@) =~= seq![self@]);
        }
        while queue.len() > 0
            invariant
                wf(self@),
                forall|k: int|
                    0 <= k < queue@.len() ==> wf(#[trigger] queue@[k]@) && reaches(
                        self@,
                        queue@[k]@,
                    ),
                bfs(views_of(queue@)) == bfs(seq![self@]),
            decreases q_pot(views_of(queue@)),
        {
            let ghost qv0 = views_of(queue@);
            let p = queue.pop_front().unwrap();
            proof {
                assert(qv0[0] == p@);
                assert(views_of(queue@) =~= qv0.drop_first());
            }
            if p.is_solved() {
                proof {
                    assert(bfs(qv0) == Some(p@));
                    assert forall|h: Seq<PuzzleEquation>| solution_path(self@, h) implies p@
                        .history.len() <= self@.history.len() + h.len() by {
                        lemma_bfs_minimal(self@, h);
                    }
                }
                return Some(p);
            }
            let mut cs = p.expand();
            proof {
                assert(bfs(qv0) == bfs(qv0.drop_first() + expand_spec(p@)));
                lemma_expand_children(p@);
                assert forall|k: int| 0 <= k < cs@.len() implies wf(#[trigger] cs@[k]@) && reaches(
                    self@,
                    cs@[k]@,
                ) by {
                    assert(cs@[k]@ == expand_spec(p@)[k]);
                    assert(child_of(p@, cs@[k]@));
                    lemma_reaches_child(self@, p@, cs@[k]@);
                }
            }
            let ghost target = views_of(queue@) + views_of(cs@);
            while cs.len() > 0
                invariant
                    wf(self@),
                    views_of(queue@) + views_of(cs@) == target,
                    forall|k: int|
                        0 <= k < queue@.len() ==> wf(#[trigger] queue@[k]@) && reaches(
                            self@,
                            queue@[k]@,
                        ),
                    forall|k: int|
                        0 <= k < cs@.len() ==> wf(#[trigger] cs@[k]@) && reaches(self@, cs@[k]@),
                decreases cs@.len(),
            {
                let ghost qb = queue@;
                let ghost cb = cs@;
                let c = cs.remove(0);
                queue.push_back(c);
                proof {
                    assert(views_of(queue@) =~= views_of(qb).push(c@));
                    assert(views_of(cs@) =~= views_of(cb).drop_first());
                    assert(views_of(qb).push(c@) + views_of(cb).drop_first() =~= views_of(qb)
                        + views_of(cb));
                    assert forall|k: int| 0 <= k < queue@.len() implies wf(#[trigger] queue@[k]@)
                        && reaches(self@, queue@[k]@) by {
                        if k < qb.len() {
                            assert(queue@[k] == qb[k]);
                        } else {
                            assert(queue@[k] == c);
                            assert(c@ == cb[0]@);
                        }
                    }
                    assert forall|k: int| 0 <= k < cs@.len() implies wf(#[trigger] cs@[k]@)
                        && reaches(self@, cs@[k]@) by {
                        assert(cs@[k] == cb[k + 1]);
                    }
                }
            }
            proof {
                assert(views_of(cs@) =~= Seq::<PuzzleV>::empty());
                assert(views_of(queue@) =~= target);
                assert(target =~= qv0.drop_first() + expand_spec(p@));
                lemma_expand_pot(p@);
                lemma_q_pot_concat(qv0.drop_first(), expand_spec(p@));
                assert(q_pot(qv0) == pot(p@.pool.len()) + q_pot(qv0.drop_first()));
            }
        }
        proof {
            assert(views_of(queue@) =~= Seq::<PuzzleV>::empty());
            assert forall|h: Seq<PuzzleEquation>| !solution_path(self@, h) by {
                if solution_path(self@, h) {
                    lemma_bfs_minimal(self@, h);
                }
            }
        }
        None
    }
}

} // verus!

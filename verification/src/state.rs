use vstd::prelude::*;

use crate::ops::Operations;
use crate::ops::PuzzleEquation;
use crate::ops::op_result;
use crate::pool::copy_numbers;
use crate::pool::insert_sorted;
use crate::pool::lemma_insert_sorted;
use crate::pool::lemma_remove_sorted;
use crate::pool::lemma_remove_val_index;
use crate::pool::pool_insert;
use crate::pool::sorted_distinct;
use crate::replay::eq_applicable;
use crate::replay::eq_apply;
use crate::replay::lemma_eq_apply;

verus! {

/// The mathematical content of a puzzle state: the pool of available numbers
/// in ascending order, the target solution, and the equations applied so far.
#[verifier::ext_equal]
pub struct PuzzleV {
    pub pool: Seq<u32>,
    pub solution: u32,
    pub history: Seq<PuzzleEquation>,
}

/// A puzzle state is well formed when its pool is sorted and duplicate-free.
pub open spec fn wf(s: PuzzleV) -> bool {
    sorted_distinct(s.pool)
}

/// A state is solved when its pool holds the target.
pub open spec fn solved(s: PuzzleV) -> bool {
    s.pool.contains(s.solution)
}

/// Digits puzzle state: a pool of numbers, the target solution, and the
/// history of equations that produced this pool from the original numbers.
pub struct Puzzle {
    /// Pool of numbers available to reach the target, kept in ascending order.
    numbers: Vec<u32>,
    /// Target solution.
    solution: u32,
    /// History of equations used to get to the current puzzle state.
    history: Vec<PuzzleEquation>,
}

impl View for Puzzle {
    type V = PuzzleV;

    closed spec fn view(&self) -> PuzzleV {
        PuzzleV { pool: self.numbers@, solution: self.solution, history: self.history@ }
    }
}

/// The states a sequence of puzzles stands for.
pub open spec fn views_of(ps: Seq<Puzzle>) -> Seq<PuzzleV> {
    ps.map_values(|p: Puzzle| p@)
}

/// The state reached from `s` by combining the pool elements at positions
/// `i < j` with `operation`, yielding `r`.
pub open spec fn child_state(s: PuzzleV, i: int, j: int, operation: Operations, r: u32) -> PuzzleV {
    PuzzleV {
        pool: insert_sorted(s.pool.remove(j).remove(i), r),
        solution: s.solution,
        history: s.history.push(
            PuzzleEquation { n0: s.pool[i], n1: s.pool[j], operation, result: r },
        ),
    }
}

/// The child for one pair and one operation: none when the operation is
/// inapplicable to that pair.
pub open spec fn op_child(s: PuzzleV, i: int, j: int, operation: Operations) -> Seq<PuzzleV> {
    match op_result(operation, s.pool[i], s.pool[j]) {
        Some(r) => seq![child_state(s, i, j, operation, r)],
        None => Seq::empty(),
    }
}

/// The children for one pair, in the fixed operation order: add, subtract,
/// multiply, divide.
pub open spec fn pair_children(s: PuzzleV, i: int, j: int) -> Seq<PuzzleV> {
    op_child(s, i, j, Operations::Add) + op_child(s, i, j, Operations::Subtract) + op_child(
        s,
        i,
        j,
        Operations::Multiply,
    ) + op_child(s, i, j, Operations::Divide)
}

/// All children of `s` from pair position `(i, j)` onward, in enumeration
/// order: `j` advances through the pool first, then `i`.
pub open spec fn expand_from(s: PuzzleV, i: int, j: int) -> Seq<PuzzleV>
    decreases s.pool.len() - i, s.pool.len() - j,
{
    if j < s.pool.len() {
        pair_children(s, i, j) + expand_from(s, i, j + 1)
    } else if i + 1 < s.pool.len() {
        expand_from(s, i + 1, i + 2)
    } else {
        Seq::empty()
    }
}

/// Every state one reduction away from `s`, in enumeration order.
pub open spec fn expand_spec(s: PuzzleV) -> Seq<PuzzleV> {
    expand_from(s, 0, 1)
}

/// `c` is a state produced from `s` by a single applicable reduction.
pub open spec fn child_of(s: PuzzleV, c: PuzzleV) -> bool {
    &&& c.solution == s.solution
    &&& c.history.len() == s.history.len() + 1
    &&& c.history.take(s.history.len() as int) == s.history
    &&& eq_applicable(s.pool, c.history.last())
    &&& c.pool == eq_apply(s.pool, c.history.last())
}

/// Appending a puzzle appends its state.
proof fn lemma_views_push(ps: Seq<Puzzle>, p: Puzzle)
    ensures
        views_of(ps.push(p)) == views_of(ps).push(p@),
{
    assert(views_of(ps.push(p)) =~= views_of(ps).push(p@));
}

/// A child built from a valid pair position is a one-step reduction of its
/// parent, well formed, and strictly smaller.
proof fn lemma_pair_child(s: PuzzleV, i: int, j: int, operation: Operations, r: u32)
    requires
        wf(s),
        0 <= i < j < s.pool.len(),
        op_result(operation, s.pool[i], s.pool[j]) == Some(r),
    ensures
        child_of(s, child_state(s, i, j, operation, r)),
        wf(child_state(s, i, j, operation, r)),
        child_state(s, i, j, operation, r).pool.len() < s.pool.len(),
{
    let c = child_state(s, i, j, operation, r);
    let e = PuzzleEquation { n0: s.pool[i], n1: s.pool[j], operation, result: r };
    assert(c.history.last() == e);
    assert(c.history.take(s.history.len() as int) =~= s.history);
    assert(s.pool.contains(e.n0));
    assert(s.pool.contains(e.n1));
    assert(eq_applicable(s.pool, e));
    lemma_remove_val_index(s.pool, j);
    lemma_remove_sorted(s.pool, j);
    let pj = s.pool.remove(j);
    assert(pj[i] == s.pool[i]);
    lemma_remove_val_index(pj, i);
    assert(c.pool == eq_apply(s.pool, e));
    lemma_eq_apply(s.pool, e);
}

/// Every child listed from pair position `(i, j)` onward is a one-step
/// reduction of `s`, well formed, and has a strictly smaller pool.
proof fn lemma_expand_from_children(s: PuzzleV, i: int, j: int)
    requires
        wf(s),
        0 <= i < j,
    ensures
        forall|k: int|
            0 <= k < expand_from(s, i, j).len() ==> {
                let c = #[trigger] expand_from(s, i, j)[k];
                child_of(s, c) && wf(c) && c.pool.len() < s.pool.len()
            },
    decreases s.pool.len() - i, s.pool.len() - j,
{
    let ef = expand_from(s, i, j);
    if j < s.pool.len() {
        let pc = pair_children(s, i, j);
        let oa = op_child(s, i, j, Operations::Add);
        let os = op_child(s, i, j, Operations::Subtract);
        let om = op_child(s, i, j, Operations::Multiply);
        let od = op_child(s, i, j, Operations::Divide);
        lemma_op_child(s, i, j, Operations::Add);
        lemma_op_child(s, i, j, Operations::Subtract);
        lemma_op_child(s, i, j, Operations::Multiply);
        lemma_op_child(s, i, j, Operations::Divide);
        lemma_expand_from_children(s, i, j + 1);
        assert(ef == pc + expand_from(s, i, j + 1));
        assert forall|k: int| 0 <= k < ef.len() implies {
            let c = #[trigger] ef[k];
            child_of(s, c) && wf(c) && c.pool.len() < s.pool.len()
        } by {
            if k < pc.len() {
                assert(ef[k] == pc[k]);
                if k < oa.len() {
                    assert(pc[k] == oa[k]);
                } else if k < oa.len() + os.len() {
                    assert(pc[k] == os[k - oa.len()]);
                } else if k < oa.len() + os.len() + om.len() {
                    assert(pc[k] == om[k - oa.len() - os.len()]);
                } else {
                    assert(pc[k] == od[k - oa.len() - os.len() - om.len()]);
                }
            } else {
                assert(ef[k] == expand_from(s, i, j + 1)[k - pc.len()]);
            }
        }
    } else if i + 1 < s.pool.len() {
        lemma_expand_from_children(s, i + 1, i + 2);
        assert(ef == expand_from(s, i + 1, i + 2));
    } else {
        assert(ef == Seq::<PuzzleV>::empty());
    }
}

/// Every child listed for one pair and one operation is a one-step reduction
/// of `s`, well formed, and strictly smaller.
proof fn lemma_op_child(s: PuzzleV, i: int, j: int, operation: Operations)
    requires
        wf(s),
        0 <= i < j < s.pool.len(),
    ensures
        forall|k: int|
            0 <= k < op_child(s, i, j, operation).len() ==> {
                let c = #[trigger] op_child(s, i, j, operation)[k];
                child_of(s, c) && wf(c) && c.pool.len() < s.pool.len()
            },
{
    let ro = op_result(operation, s.pool[i], s.pool[j]);
    if ro.is_some() {
        lemma_pair_child(s, i, j, operation, ro.unwrap());
        assert(op_child(s, i, j, operation) == seq![
            child_state(s, i, j, operation, ro.unwrap()),
        ]);
        assert(op_child(s, i, j, operation)[0] == child_state(s, i, j, operation, ro.unwrap()));
    } else {
        assert(op_child(s, i, j, operation).len() == 0);
    }
}

/// Every child of a well-formed state is a one-step reduction of it, well
/// formed, and has a strictly smaller pool.
pub proof fn lemma_expand_children(s: PuzzleV)
    requires
        wf(s),
    ensures
        forall|k: int|
            0 <= k < expand_spec(s).len() ==> {
                let c = #[trigger] expand_spec(s)[k];
                child_of(s, c) && wf(c) && c.pool.len() < s.pool.len()
            },
{
    lemma_expand_from_children(s, 0, 1);
}

/// The child for one applicable operation is among the children of its pair.
proof fn lemma_pair_children_has(s: PuzzleV, i: int, j: int, operation: Operations)
    requires
        op_result(operation, s.pool[i], s.pool[j]).is_some(),
    ensures
        pair_children(s, i, j).contains(
            child_state(s, i, j, operation, op_result(operation, s.pool[i], s.pool[j]).unwrap()),
        ),
{
    let oa = op_child(s, i, j, Operations::Add);
    let os = op_child(s, i, j, Operations::Subtract);
    let om = op_child(s, i, j, Operations::Multiply);
    let od = op_child(s, i, j, Operations::Divide);
    let pc = pair_children(s, i, j);
    let c = child_state(s, i, j, operation, op_result(operation, s.pool[i], s.pool[j]).unwrap());
    match operation {
        Operations::Add => {
            assert(oa[0] == c);
            assert(pc[0] == c);
        },
        Operations::Subtract => {
            assert(os[0] == c);
            assert(pc[oa.len() as int] == c);
        },
        Operations::Multiply => {
            assert(om[0] == c);
            assert(pc[oa.len() + os.len() as int] == c);
        },
        Operations::Divide => {
            assert(od[0] == c);
            assert(pc[oa.len() + os.len() + om.len() as int] == c);
        },
    }
}

/// The child for every applicable pair position and operation at or after
/// `(i, j)` in enumeration order is among the children listed from there on.
proof fn lemma_expand_from_has(s: PuzzleV, i: int, j: int, x: int, y: int, operation: Operations)
    requires
        0 <= i < j <= s.pool.len(),
        i <= x < y < s.pool.len(),
        x == i ==> j <= y,
        op_result(operation, s.pool[x], s.pool[y]).is_some(),
    ensures
        expand_from(s, i, j).contains(
            child_state(s, x, y, operation, op_result(operation, s.pool[x], s.pool[y]).unwrap()),
        ),
    decreases s.pool.len() - i, s.pool.len() - j,
{
    let l = s.pool.len() as int;
    let c = child_state(s, x, y, operation, op_result(operation, s.pool[x], s.pool[y]).unwrap());
    let ef = expand_from(s, i, j);
    if j < l {
        let pc = pair_children(s, i, j);
        assert(ef == pc + expand_from(s, i, j + 1));
        if x == i && y == j {
            lemma_pair_children_has(s, i, j, operation);
            let k = choose|k: int| 0 <= k < pc.len() && pc[k] == c;
            assert(ef[k] == c);
        } else {
            lemma_expand_from_has(s, i, j + 1, x, y, operation);
            let rest = expand_from(s, i, j + 1);
            let k = choose|k: int| 0 <= k < rest.len() && rest[k] == c;
            assert(ef[pc.len() + k] == c);
        }
    } else {
        assert(x > i);
        assert(ef == expand_from(s, i + 1, i + 2));
        lemma_expand_from_has(s, i + 1, i + 2, x, y, operation);
    }
}

/// Expansion is complete: every equation applicable to a well-formed state is
/// tried, so the corresponding child is among the state's children.
pub proof fn lemma_expand_complete(s: PuzzleV, e: PuzzleEquation)
    requires
        wf(s),
        eq_applicable(s.pool, e),
    ensures
        expand_spec(s).contains(
            PuzzleV {
                pool: eq_apply(s.pool, e),
                solution: s.solution,
                history: s.history.push(e),
            },
        ),
{
    let x = choose|x: int| 0 <= x < s.pool.len() && s.pool[x] == e.n0;
    let y = choose|y: int| 0 <= y < s.pool.len() && s.pool[y] == e.n1;
    assert(x < y) by {
        if y < x {
            assert(s.pool[y] < s.pool[x]);
        }
    }
    assert(op_result(e.operation, s.pool[x], s.pool[y]) == Some(e.result));
    lemma_expand_from_has(s, 0, 1, x, y, e.operation);
    let c = child_state(s, x, y, e.operation, e.result);
    assert(c.history == s.history.push(e)) by {
        assert(PuzzleEquation {
            n0: s.pool[x],
            n1: s.pool[y],
            operation: e.operation,
            result: e.result,
        } == e);
    }
    lemma_remove_val_index(s.pool, y);
    lemma_remove_sorted(s.pool, y);
    assert(s.pool.remove(y)[x] == s.pool[x]);
    lemma_remove_val_index(s.pool.remove(y), x);
    assert(c.pool == eq_apply(s.pool, e));
    assert(c =~= PuzzleV {
        pool: eq_apply(s.pool, e),
        solution: s.solution,
        history: s.history.push(e),
    });
}

/// Expansion never produces a pool holding a negative number, and never
/// records a division whose divisor is zero.
pub proof fn lemma_expand_safe(s: PuzzleV)
    requires
        wf(s),
    ensures
        forall|k: int|
            0 <= k < expand_spec(s).len() ==> {
                let c = #[trigger] expand_spec(s)[k];
                (forall|m: int| 0 <= m < c.pool.len() ==> c.pool[m] >= 0) && (
                c.history.last().operation == Operations::Divide ==> c.history.last().n0 != 0)
            },
{
    lemma_expand_children(s);
}

/// Makes an independent copy of a history vector.
fn copy_history(v: &Vec<PuzzleEquation>) -> (r: Vec<PuzzleEquation>)
    ensures
        r@ == v@,
{
    let mut r: Vec<PuzzleEquation> = Vec::new();
    let mut i: usize = 0;
    while i < v.len()
        invariant
            0 <= i <= v@.len(),
            r@ == v@.take(i as int),
        decreases v@.len() - i,
    {
        r.push(v[i]);
        proof {
            assert(v@.take(i as int).push(v@[i as int]) =~= v@.take(i as int + 1));
        }
        i = i + 1;
    }
    proof {
        assert(v@.take(v@.len() as int) =~= v@);
    }
    r
}

impl Puzzle {
    /// Create a new root puzzle state.
    ///
    /// # Arguments
    ///
    /// * `solution` - the target number
    /// * `nums` - an array of 6 numbers used to create the solution
    pub fn new(solution: u32, nums: &[u32; 6]) -> (r: Self)
        ensures
            r@.solution == solution,
            r@.history == Seq::<PuzzleEquation>::empty(),
            wf(r@),
            forall|v: u32| r@.pool.contains(v) <==> nums@.contains(v),
    {
        let mut numbers: Vec<u32> = Vec::new();
        let mut i: usize = 0;
        while i < 6
            invariant
                0 <= i <= 6,
                nums@.len() == 6,
                sorted_distinct(numbers@),
                forall|v: u32| numbers@.contains(v) <==> nums@.take(i as int).contains(v),
            decreases 6 - i,
        {
            let ghost before = numbers@;
            let ghost t0 = nums@.take(i as int);
            let nv = nums[i];
            pool_insert(&mut numbers, nv);
            proof {
                lemma_insert_sorted(before, nv);
                let t1 = nums@.take(i as int + 1);
                assert(t1 =~= t0.push(nv));
                assert forall|v: u32| t1.contains(v) implies (t0.contains(v) || v == nv) by {
                    let k = choose|k: int| 0 <= k < t1.len() && t1[k] == v;
                    if k < t0.len() {
                        assert(t0[k] == v);
                    }
                }
                assert forall|v: u32| t0.contains(v) || v == nv implies t1.contains(v) by {
                    if t0.contains(v) {
                        let k = choose|k: int| 0 <= k < t0.len() && t0[k] == v;
                        assert(t1[k] == v);
                    } else {
                        assert(t1[t0.len() as int] == v);
                    }
                }
                assert forall|v: u32| numbers@.contains(v) <==> t1.contains(v) by {
                    assert(numbers@.contains(v) <==> (before.contains(v) || v == nv));
                    assert(before.contains(v) <==> t0.contains(v));
                    assert(t1.contains(v) <==> (t0.contains(v) || v == nv));
                }
            }
            i = i + 1;
        }
        proof {
            assert(nums@.take(6) =~= nums@);
        }
        Puzzle { numbers, solution, history: Vec::new() }
    }

    /// True exactly when the target is a member of the pool.
    pub fn is_solved(&self) -> (r: bool)
        ensures
            r == solved(self@),
    {
        let mut i: usize = 0;
        while i < self.numbers.len()
            invariant
                0 <= i <= self.numbers@.len(),
                forall|k: int| 0 <= k < i ==> self.numbers@[k] != self@.solution,
            decreases self.numbers@.len() - i,
        {
            if self.numbers[i] == self.solution {
                return true;
            }
            i = i + 1;
        }
        proof {
            if self@.pool.contains(self@.solution) {
                let k = choose|k: int|
                    0 <= k < self@.pool.len() && self@.pool[k] == self@.solution;
                assert(self.numbers@[k] != self@.solution);
            }
        }
        false
    }

    /// The pool of numbers, in ascending order.
    pub fn numbers(&self) -> (r: &Vec<u32>)
        ensures
            r@ == self@.pool,
    {
        &self.numbers
    }

    /// The target solution.
    pub fn solution(&self) -> (r: u32)
        ensures
            r == self@.solution,
    {
        self.solution
    }

    /// The equations applied so far, oldest first.
    pub fn history(&self) -> (r: &Vec<PuzzleEquation>)
        ensures
            r@ == self@.history,
    {
        &self.history
    }

    /// Makes an independent copy of this state.
    pub fn duplicate(&self) -> (r: Puzzle)
        ensures
            r@ == self@,
    {
        Puzzle {
            numbers: copy_numbers(&self.numbers),
            solution: self.solution,
            history: copy_history(&self.history),
        }
    }

    /// Builds the child state that records `n1 operation n0 = result` over the
    /// reduced pool `base`.
    fn make_child(
        &self,
        base: &Vec<u32>,
        n0: u32,
        n1: u32,
        operation: Operations,
        result: u32,
    ) -> (c: Puzzle)
        requires
            sorted_distinct(base@),
        ensures
            c@.pool == insert_sorted(base@, result),
            c@.solution == self@.solution,
            c@.history == self@.history.push(PuzzleEquation { n0, n1, operation, result }),
    {
        let mut numbers = copy_numbers(base);
        pool_insert(&mut numbers, result);
        let mut history = copy_history(&self.history);
        history.push(PuzzleEquation { n0, n1, operation, result });
        Puzzle { numbers, solution: self.solution, history }
    }

    /// Every state one reduction away: for each pair of pool numbers in
    /// ascending enumeration order and each applicable operation, the state
    /// with the pair replaced by the operation's result.
    pub fn expand(&self) -> (children: Vec<Puzzle>)
        requires
            wf(self@),
        ensures
            views_of(children@) == expand_spec(self@),
    {
        let ghost s = self@;
        let n = self.numbers.len();
        let mut children: Vec<Puzzle> = Vec::new();
        proof {
            assert(views_of(children@) =~= Seq::<PuzzleV>::empty());
            assert(views_of(children@) + expand_from(s, 0, 1) =~= expand_spec(s));
        }
        let mut i: usize = 0;
        while i < n
            invariant
                wf(s),
                s == self@,
                n == self.numbers@.len(),
                0 <= i <= n,
                views_of(children@) + expand_from(s, i as int, i as int + 1) == expand_spec(s),
            decreases n - i,
        {
            let mut j: usize = i + 1;
            while j < n
                invariant
                    wf(s),
                    s == self@,
                    n == self.numbers@.len(),
                    0 <= i < n,
                    i + 1 <= j <= n,
                    views_of(children@) + expand_from(s, i as int, j as int) == expand_spec(s),
                decreases n - j,
            {
                let ghost ii = i as int;
                let ghost jj = j as int;
                let a = self.numbers[i];
                let b = self.numbers[j];
                let mut base = copy_numbers(&self.numbers);
                base.remove(j);
                base.remove(i);
                proof {
                    assert(base@ == s.pool.remove(jj).remove(ii));
                    lemma_remove_sorted(s.pool, jj);
                    lemma_remove_sorted(s.pool.remove(jj), ii);
                    assert(a < b);
                }
                let ghost d0 = views_of(children@);
                // add
                if let Some(r) = a.checked_add(b) {
                    let ghost before = children@;
                    let c = self.make_child(&base, a, b, Operations::Add, r);
                    proof {
                        assert(c@ =~= child_state(s, ii, jj, Operations::Add, r));
                    }
                    children.push(c);
                    proof {
                        lemma_views_push(before, c);
                    }
                }
                proof {
                    assert(views_of(children@) =~= d0 + op_child(s, ii, jj, Operations::Add));
                }
                let ghost d1 = views_of(children@);
                // subtract: the smaller number always comes first, so the
                // difference is never negative
                {
                    let r = b - a;
                    let ghost before = children@;
                    let c = self.make_child(&base, a, b, Operations::Subtract, r);
                    proof {
                        assert(c@ =~= child_state(s, ii, jj, Operations::Subtract, r));
                    }
                    children.push(c);
                    proof {
                        lemma_views_push(before, c);
                    }
                }
                proof {
                    assert(views_of(children@) =~= d1 + op_child(s, ii, jj, Operations::Subtract));
                }
                let ghost d2 = views_of(children@);
                // multiply
                if let Some(r) = a.checked_mul(b) {
                    let ghost before = children@;
                    let c = self.make_child(&base, a, b, Operations::Multiply, r);
                    proof {
                        assert(c@ =~= child_state(s, ii, jj, Operations::Multiply, r));
                    }
                    children.push(c);
                    proof {
                        lemma_views_push(before, c);
                    }
                }
                proof {
                    assert(views_of(children@) =~= d2 + op_child(s, ii, jj, Operations::Multiply));
                }
                let ghost d3 = views_of(children@);
                // divide: only when the divisor is not zero and divides evenly
                if a != 0 && b % a == 0 {
                    let r = b / a;
                    let ghost before = children@;
                    let c = self.make_child(&base, a, b, Operations::Divide, r);
                    proof {
                        assert(c@ =~= child_state(s, ii, jj, Operations::Divide, r));
                    }
                    children.push(c);
                    proof {
                        lemma_views_push(before, c);
                    }
                }
                proof {
                    assert(views_of(children@) =~= d3 + op_child(s, ii, jj, Operations::Divide));
                    assert(views_of(children@) =~= d0 + pair_children(s, ii, jj));
                    assert(expand_from(s, ii, jj) == pair_children(s, ii, jj) + expand_from(
                        s,
                        ii,
                        jj + 1,
                    ));
                    assert(views_of(children@) + expand_from(s, ii, jj + 1) =~= d0 + expand_from(
                        s,
                        ii,
                        jj,
                    ));
                }
                j = j + 1;
            }
            proof {
                let ii = i as int;
                assert(expand_from(s, ii, n as int) == if ii + 1 < s.pool.len() {
                    expand_from(s, ii + 1, ii + 2)
                } else {
                    Seq::<PuzzleV>::empty()
                });
                if ii + 1 >= s.pool.len() {
                    assert(expand_from(s, ii + 1, ii + 2) == Seq::<PuzzleV>::empty());
                    assert(views_of(children@) + expand_from(s, ii + 1, ii + 2) =~= views_of(
                        children@,
                    ) + expand_from(s, ii, n as int));
                }
            }
            i = i + 1;
        }
        proof {
            assert(expand_from(s, n as int, n as int + 1) == Seq::<PuzzleV>::empty());
            assert(views_of(children@) =~= views_of(children@) + expand_from(
                s,
                n as int,
                n as int + 1,
            ));
        }
        children
    }
}

} // verus!

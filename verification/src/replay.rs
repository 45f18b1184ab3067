use vstd::prelude::*;

use crate::ops::PuzzleEquation;
use crate::ops::op_result;
use crate::pool::insert_sorted;
use crate::pool::lemma_insert_sorted;
use crate::pool::lemma_remove_val;
use crate::pool::remove_val;
use crate::pool::sorted_distinct;

verus! {

/// An equation can be applied to a pool when both consumed numbers are
/// members, the earlier-enumerated one is the smaller, and its operation
/// yields exactly its recorded result.
pub open spec fn eq_applicable(pool: Seq<u32>, e: PuzzleEquation) -> bool {
    &&& pool.contains(e.n0)
    &&& pool.contains(e.n1)
    &&& e.n0 < e.n1
    &&& op_result(e.operation, e.n0, e.n1) == Some(e.result)
}

/// The pool after one equation: both consumed numbers are taken out and the
/// result is put in at its sorted position.
pub open spec fn eq_apply(pool: Seq<u32>, e: PuzzleEquation) -> Seq<u32> {
    insert_sorted(remove_val(remove_val(pool, e.n1), e.n0), e.result)
}

/// The pool reached by applying a history of equations in order.
pub open spec fn replay(pool: Seq<u32>, hist: Seq<PuzzleEquation>) -> Seq<u32>
    decreases hist.len(),
{
    if hist.len() == 0 {
        pool
    } else {
        replay(eq_apply(pool, hist[0]), hist.drop_first())
    }
}

/// Whether every equation of the history is applicable to the pool it meets.
pub open spec fn replay_ok(pool: Seq<u32>, hist: Seq<PuzzleEquation>) -> bool
    decreases hist.len(),
{
    if hist.len() == 0 {
        true
    } else {
        eq_applicable(pool, hist[0]) && replay_ok(eq_apply(pool, hist[0]), hist.drop_first())
    }
}

/// Every prefix of a replayable history is replayable.
pub proof fn lemma_replay_prefix(pool: Seq<u32>, hist: Seq<PuzzleEquation>, m: int)
    requires
        replay_ok(pool, hist),
        0 <= m <= hist.len(),
    ensures
        replay_ok(pool, hist.take(m)),
    decreases m,
{
    if m == 0 {
        assert(hist.take(0) =~= Seq::<PuzzleEquation>::empty());
    } else {
        assert(hist.take(m)[0] == hist[0]);
        assert(hist.take(m).drop_first() =~= hist.drop_first().take(m - 1));
        lemma_replay_prefix(eq_apply(pool, hist[0]), hist.drop_first(), m - 1);
    }
}

/// Applying one applicable equation keeps the pool sorted and distinct and
/// shrinks it by at least one element.
pub proof fn lemma_eq_apply(pool: Seq<u32>, e: PuzzleEquation)
    requires
        sorted_distinct(pool),
        eq_applicable(pool, e),
    ensures
        sorted_distinct(eq_apply(pool, e)),
        eq_apply(pool, e).len() < pool.len(),
        eq_apply(pool, e).contains(e.result),
{
    lemma_remove_val(pool, e.n1);
    let p1 = remove_val(pool, e.n1);
    lemma_remove_val(p1, e.n0);
    let p2 = remove_val(p1, e.n0);
    lemma_insert_sorted(p2, e.result);
    assert(insert_sorted(p2, e.result).contains(e.result));
}

/// A history extended by one equation replays to the one-step extension of
/// the replayed pool, and is well formed exactly when the old history is and
/// the new equation applies at its end.
pub proof fn lemma_replay_push(pool: Seq<u32>, hist: Seq<PuzzleEquation>, e: PuzzleEquation)
    ensures
        replay(pool, hist.push(e)) == eq_apply(replay(pool, hist), e),
        replay_ok(pool, hist.push(e)) <==> (replay_ok(pool, hist) && eq_applicable(
            replay(pool, hist),
            e,
        )),
    decreases hist.len(),
{
    let h1 = hist.push(e);
    if hist.len() == 0 {
        assert(h1[0] == e);
        assert(h1.drop_first() =~= hist);
        assert(replay(pool, h1) == replay(eq_apply(pool, e), hist));
        assert(replay(eq_apply(pool, e), hist) == eq_apply(pool, e));
        assert(replay(pool, hist) == pool);
        assert(replay_ok(pool, h1) <==> (eq_applicable(pool, e) && replay_ok(
            eq_apply(pool, e),
            hist,
        )));
        assert(replay_ok(eq_apply(pool, e), hist));
        assert(replay_ok(pool, hist));
    } else {
        assert(h1[0] == hist[0]);
        assert(h1.drop_first() =~= hist.drop_first().push(e));
        let inner = eq_apply(pool, hist[0]);
        lemma_replay_push(inner, hist.drop_first(), e);
        assert(replay(pool, h1) == replay(inner, hist.drop_first().push(e)));
        assert(replay(pool, hist) == replay(inner, hist.drop_first()));
        assert(replay_ok(pool, h1) <==> (eq_applicable(pool, hist[0]) && replay_ok(
            inner,
            hist.drop_first().push(e),
        )));
        assert(replay_ok(pool, hist) <==> (eq_applicable(pool, hist[0]) && replay_ok(
            inner,
            hist.drop_first(),
        )));
    }
}

} // verus!

use vstd::prelude::*;

verus! {

/// A pool is kept as a strictly increasing sequence of numbers: sorted and
/// free of duplicates, so that a set of values has exactly one representation
/// and the enumeration order of pairs is fixed.
pub open spec fn sorted_distinct(s: Seq<u32>) -> bool {
    forall|x: int, y: int| 0 <= x < y < s.len() ==> s[x] < s[y]
}

/// The pool `s` with `v` placed before the first element not below it; a pool
/// already holding `v` is returned unchanged.
pub open spec fn insert_sorted(s: Seq<u32>, v: u32) -> Seq<u32>
    decreases s.len(),
{
    if s.len() == 0 {
        seq![v]
    } else if v < s[0] {
        seq![v] + s
    } else if v == s[0] {
        s
    } else {
        seq![s[0]] + insert_sorted(s.drop_first(), v)
    }
}

/// The pool `s` with the first occurrence of `v` taken out; a pool without
/// `v` is returned unchanged.
pub open spec fn remove_val(s: Seq<u32>, v: u32) -> Seq<u32>
    decreases s.len(),
{
    if s.len() == 0 {
        s
    } else if s[0] == v {
        s.drop_first()
    } else {
        seq![s[0]] + remove_val(s.drop_first(), v)
    }
}

/// Inserting preserves order and distinctness, adds exactly the value `v` to
/// the members, and grows the pool by at most one element.
pub proof fn lemma_insert_sorted(s: Seq<u32>, v: u32)
    requires
        sorted_distinct(s),
    ensures
        sorted_distinct(insert_sorted(s, v)),
        forall|x: u32| insert_sorted(s, v).contains(x) <==> (s.contains(x) || x == v),
        s.len() <= insert_sorted(s, v).len() <= s.len() + 1,
        insert_sorted(s, v).len() == s.len() <==> s.contains(v),
    decreases s.len(),
{
    let r = insert_sorted(s, v);
    if s.len() == 0 {
        assert(r == seq![v]);
        assert(r.contains(v)) by {
            assert(r[0] == v);
        }
        assert(forall|x: u32| s.contains(x) ==> false);
    } else if v < s[0] {
        assert(r == seq![v] + s);
        assert(forall|x: u32| r.contains(x) <==> (s.contains(x) || x == v)) by {
            assert(forall|i: int| 0 <= i < s.len() ==> r[i + 1] == s[i]);
            assert(r[0] == v);
            assert forall|x: u32| r.contains(x) implies (s.contains(x) || x == v) by {
                let i = choose|i: int| 0 <= i < r.len() && r[i] == x;
                if i > 0 {
                    assert(s[i - 1] == x);
                }
            }
            assert forall|x: u32| s.contains(x) implies r.contains(x) by {
                let i = choose|i: int| 0 <= i < s.len() && s[i] == x;
                assert(r[i + 1] == x);
            }
        }
        assert(!s.contains(v)) by {
            if s.contains(v) {
                let i = choose|i: int| 0 <= i < s.len() && s[i] == v;
                assert(i > 0 ==> s[0] < s[i]);
            }
        }
    } else if v == s[0] {
        assert(s.contains(v)) by {
            assert(s[0] == v);
        }
    } else {
        let t = s.drop_first();
        assert(sorted_distinct(t)) by {
            assert(forall|i: int| 0 <= i < t.len() ==> t[i] == s[i + 1]);
        }
        lemma_insert_sorted(t, v);
        let rt = insert_sorted(t, v);
        assert(r == seq![s[0]] + rt);
        assert(r[0] == s[0]);
        assert(forall|i: int| 0 <= i < rt.len() ==> r[i + 1] == rt[i]);
        // every element of the recursive result is above the head
        assert forall|i: int| 1 <= i < r.len() implies s[0] < r[i] by {
            assert(rt.contains(rt[i - 1])) by {
                assert(rt[i - 1] == rt[i - 1]);
            }
            assert(t.contains(rt[i - 1]) || rt[i - 1] == v);
            if t.contains(rt[i - 1]) {
                let k = choose|k: int| 0 <= k < t.len() && t[k] == rt[i - 1];
                assert(s[k + 1] == rt[i - 1]);
            }
        }
        assert(sorted_distinct(r)) by {
            assert(forall|x: int, y: int| 1 <= x < y < r.len() ==> r[x] < r[y]) by {
                assert(forall|x: int, y: int|
                    1 <= x < y < r.len() ==> r[x] == rt[x - 1] && r[y] == rt[y - 1]);
            }
        }
        assert forall|x: u32| r.contains(x) implies (s.contains(x) || x == v) by {
            let i = choose|i: int| 0 <= i < r.len() && r[i] == x;
            if i == 0 {
                assert(s[0] == x);
            } else {
                assert(rt.contains(rt[i - 1])) by {
                    assert(rt[i - 1] == rt[i - 1]);
                }
                assert(t.contains(x) || x == v);
                if t.contains(x) {
                    let k = choose|k: int| 0 <= k < t.len() && t[k] == x;
                    assert(s[k + 1] == x);
                }
            }
        }
        assert forall|x: u32| s.contains(x) || x == v implies r.contains(x) by {
            if x == v || t.contains(x) {
                assert(rt.contains(x));
                let k = choose|k: int| 0 <= k < rt.len() && rt[k] == x;
                assert(r[k + 1] == x);
            } else {
                let i = choose|i: int| 0 <= i < s.len() && s[i] == x;
                if i == 0 {
                    assert(r[0] == x);
                } else {
                    assert(t[i - 1] == x);
                }
            }
        }
        assert(s.contains(v) <==> t.contains(v)) by {
            assert forall|i: int| 0 <= i < s.len() && s[i] == v implies t.contains(v) by {
                assert(i != 0);
                assert(t[i - 1] == v);
            }
            if t.contains(v) {
                let k = choose|k: int| 0 <= k < t.len() && t[k] == v;
                assert(s[k + 1] == v);
            }
        }
    }
}

/// A sorted distinct pool is determined by its members alone: two pools with
/// the same members are equal, whatever order the members arrived in.
pub proof fn lemma_sorted_distinct_unique(a: Seq<u32>, b: Seq<u32>)
    requires
        sorted_distinct(a),
        sorted_distinct(b),
        forall|v: u32| a.contains(v) <==> b.contains(v),
    ensures
        a == b,
    decreases a.len(),
{
    if a.len() == 0 {
        if b.len() > 0 {
            assert(b.contains(b[0]));
        }
        assert(a =~= b);
    } else {
        assert(a.contains(a[0]));
        assert(b.len() > 0);
        // each head is a member of the other pool, and heads are minimal,
        // so the heads agree
        let ka = choose|ka: int| 0 <= ka < b.len() && b[ka] == a[0];
        assert(b.contains(b[0]));
        assert(a.contains(b[0]));
        let kb = choose|kb: int| 0 <= kb < a.len() && a[kb] == b[0];
        assert(b[0] <= b[ka]);
        assert(a[0] <= a[kb]);
        assert(a[0] == b[0]);
        let ta = a.drop_first();
        let tb = b.drop_first();
        assert(sorted_distinct(ta) && sorted_distinct(tb)) by {
            assert(forall|k: int| 0 <= k < ta.len() ==> ta[k] == a[k + 1]);
            assert(forall|k: int| 0 <= k < tb.len() ==> tb[k] == b[k + 1]);
        }
        assert forall|v: u32| ta.contains(v) <==> tb.contains(v) by {
            lemma_tail_contains(a, v);
            lemma_tail_contains(b, v);
        }
        lemma_sorted_distinct_unique(ta, tb);
        assert(a =~= seq![a[0]] + ta);
        assert(b =~= seq![b[0]] + tb);
    }
}

/// In a sorted distinct pool, the tail holds exactly the members above the
/// head.
proof fn lemma_tail_contains(s: Seq<u32>, v: u32)
    requires
        sorted_distinct(s),
        s.len() > 0,
    ensures
        s.drop_first().contains(v) <==> (s.contains(v) && v != s[0]),
{
    let t = s.drop_first();
    if t.contains(v) {
        let k = choose|k: int| 0 <= k < t.len() && t[k] == v;
        assert(s[k + 1] == v);
        assert(s[0] < s[k + 1]);
    }
    if s.contains(v) && v != s[0] {
        let k = choose|k: int| 0 <= k < s.len() && s[k] == v;
        assert(k > 0);
        assert(t[k - 1] == v);
    }
}

/// An insertion grows a pool by at most one element, sorted or not.
pub proof fn lemma_insert_sorted_len(s: Seq<u32>, v: u32)
    ensures
        s.len() <= insert_sorted(s, v).len() <= s.len() + 1,
    decreases s.len(),
{
    if s.len() == 0 {
    } else if v < s[0] {
    } else if v == s[0] {
    } else {
        lemma_insert_sorted_len(s.drop_first(), v);
    }
}

/// Removing the element at a valid index keeps the pool sorted and distinct.
pub proof fn lemma_remove_sorted(s: Seq<u32>, i: int)
    requires
        sorted_distinct(s),
        0 <= i < s.len(),
    ensures
        sorted_distinct(s.remove(i)),
        forall|k: int| 0 <= k < i ==> s.remove(i)[k] == s[k],
        forall|k: int| i <= k < s.len() - 1 ==> s.remove(i)[k] == s[k + 1],
{
    let r = s.remove(i);
    assert(forall|k: int| 0 <= k < i ==> r[k] == s[k]);
    assert(forall|k: int| i <= k < s.len() - 1 ==> r[k] == s[k + 1]);
}

/// On a sorted distinct pool, removing by value agrees with removing by index.
pub proof fn lemma_remove_val_index(s: Seq<u32>, i: int)
    requires
        sorted_distinct(s),
        0 <= i < s.len(),
    ensures
        remove_val(s, s[i]) == s.remove(i),
    decreases i,
{
    if i == 0 {
        assert(remove_val(s, s[0]) == s.drop_first());
        assert(s.drop_first() =~= s.remove(0));
    } else {
        let t = s.drop_first();
        assert(sorted_distinct(t)) by {
            assert(forall|k: int| 0 <= k < t.len() ==> t[k] == s[k + 1]);
        }
        assert(s[0] != s[i]);
        assert(t[i - 1] == s[i]);
        lemma_remove_val_index(t, i - 1);
        assert(remove_val(s, s[i]) == seq![s[0]] + t.remove(i - 1));
        assert(seq![s[0]] + t.remove(i - 1) =~= s.remove(i));
    }
}

/// Membership and length of a removal by value: exactly one occurrence of a
/// present value disappears, and nothing else changes.
pub proof fn lemma_remove_val(s: Seq<u32>, v: u32)
    requires
        sorted_distinct(s),
    ensures
        sorted_distinct(remove_val(s, v)),
        forall|x: u32| remove_val(s, v).contains(x) <==> (s.contains(x) && x != v),
        s.contains(v) ==> remove_val(s, v).len() == s.len() - 1,
        !s.contains(v) ==> remove_val(s, v) == s,
{
    if s.contains(v) {
        let i = choose|i: int| 0 <= i < s.len() && s[i] == v;
        lemma_remove_val_index(s, i);
        lemma_remove_sorted(s, i);
        let r = s.remove(i);
        assert forall|x: u32| r.contains(x) implies (s.contains(x) && x != v) by {
            let k = choose|k: int| 0 <= k < r.len() && r[k] == x;
            if k < i {
                assert(s[k] == x);
                assert(s[k] < s[i]);
            } else {
                assert(s[k + 1] == x);
                assert(s[i] < s[k + 1]);
            }
        }
        assert forall|x: u32| s.contains(x) && x != v implies r.contains(x) by {
            let k = choose|k: int| 0 <= k < s.len() && s[k] == x;
            if k < i {
                assert(r[k] == x);
            } else {
                assert(k != i);
                assert(r[k - 1] == x);
            }
        }
    } else {
        lemma_remove_val_absent(s, v);
    }
}

/// Removing a value that is not in the pool changes nothing.
proof fn lemma_remove_val_absent(s: Seq<u32>, v: u32)
    requires
        !s.contains(v),
    ensures
        remove_val(s, v) == s,
    decreases s.len(),
{
    if s.len() > 0 {
        assert(s[0] != v);
        let t = s.drop_first();
        assert(!t.contains(v)) by {
            if t.contains(v) {
                let k = choose|k: int| 0 <= k < t.len() && t[k] == v;
                assert(s[k + 1] == v);
            }
        }
        lemma_remove_val_absent(t, v);
        assert(seq![s[0]] + t =~= s);
    }
}

/// Where the scan of the executable insertion stops is where `insert_sorted`
/// places the value.
proof fn lemma_insert_sorted_at(s: Seq<u32>, v: u32, p: int)
    requires
        sorted_distinct(s),
        0 <= p <= s.len(),
        forall|k: int| 0 <= k < p ==> s[k] < v,
        p < s.len() ==> s[p] >= v,
    ensures
        insert_sorted(s, v) == if p < s.len() && s[p] == v {
            s
        } else {
            s.insert(p, v)
        },
    decreases p,
{
    if p == 0 {
        if s.len() == 0 {
            assert(insert_sorted(s, v) =~= s.insert(0, v));
        } else if v < s[0] {
            assert(insert_sorted(s, v) == seq![v] + s);
            assert(seq![v] + s =~= s.insert(0, v));
        } else {
            assert(s[0] == v);
        }
    } else {
        assert(s[0] < v);
        let t = s.drop_first();
        assert(sorted_distinct(t)) by {
            assert(forall|k: int| 0 <= k < t.len() ==> t[k] == s[k + 1]);
        }
        assert(forall|k: int| 0 <= k < p - 1 ==> t[k] == s[k + 1] && t[k] < v);
        assert(p - 1 < t.len() ==> t[p - 1] >= v);
        lemma_insert_sorted_at(t, v, p - 1);
        assert(insert_sorted(s, v) == seq![s[0]] + insert_sorted(t, v));
        if p < s.len() && s[p] == v {
            assert(t[p - 1] == v);
            assert(seq![s[0]] + t =~= s);
        } else {
            assert(insert_sorted(t, v) == t.insert(p - 1, v));
            assert(seq![s[0]] + t.insert(p - 1, v) =~= s.insert(p, v));
        }
    }
}

/// Inserts `v` into the sorted pool vector, keeping it sorted and distinct.
pub(crate) fn pool_insert(pool: &mut Vec<u32>, v: u32)
    requires
        sorted_distinct(old(pool)@),
    ensures
        final(pool)@ == insert_sorted(old(pool)@, v),
{
    let mut p: usize = 0;
    while p < pool.len() && pool[p] < v
        invariant
            0 <= p <= pool@.len(),
            pool@ == old(pool)@,
            sorted_distinct(pool@),
            forall|k: int| 0 <= k < p ==> pool@[k] < v,
        decreases pool@.len() - p,
    {
        p = p + 1;
    }
    proof {
        lemma_insert_sorted_at(pool@, v, p as int);
    }
    if p < pool.len() && pool[p] == v {
        return ;
    }
    pool.insert(p, v);
}

/// Makes an independent copy of a pool vector.
pub(crate) fn copy_numbers(v: &Vec<u32>) -> (r: Vec<u32>)
    ensures
        r@ == v@,
{
    let mut r: Vec<u32> = Vec::new();
    let mut i: usize = 0;
    while i < v.len()
        invariant
            0 <= i <= v@.len(),
            r@ == v@.take(i as int),
        decreases v@.len() - i,
    {
        r.push(v[i]);
        proof {
            assert(v@.take(i as int).push(v@[i as int]) =~= v@.take(i as int + 1));
        }
        i = i + 1;
    }
    proof {
        assert(v@.take(v@.len() as int) =~= v@);
    }
    r
}

} // verus!

use vstd::prelude::*;
use std::collections::HashMap;
use vstd::std_specs::iter::IteratorSpec;

use crate::ids::ServiceId;

verus! {

broadcast use vstd::std_specs::hash::group_hash_axioms;

/// The keys of a map, each once, in the map's own iteration order.
pub fn keys_of<V>(m: &HashMap<u128, V>) -> (r: Vec<u128>)
    ensures
        r@.no_duplicates(),
        r@.to_set() == m@.dom(),
{
    let mut r: Vec<u128> = Vec::new();
    let ghost keys_seq = m.keys().remaining();
    for k in it: m.keys()
        invariant
            it.seq() == keys_seq,
            r@ == it.seq().take(it.index()).unref(),
        ensures
            r@ == keys_seq.unref(),
    {
        r.push(*k);
        proof {
            assert(it.seq().take(it.index() + 1).unref() =~= it.seq().take(it.index()).unref().push(*k));
        }
    }
    proof {
        assert(keys_seq.unref().to_set() == m@.dom());
    }
    r
}

/// A sequence of integers that strictly increases.
pub open spec fn increasing(s: Seq<u128>) -> bool {
    forall|i: int, j: int| 0 <= i < j < s.len() ==> s[i] < s[j]
}

/// A sequence of service identities whose values strictly increase.
pub open spec fn ids_increasing(s: Seq<ServiceId>) -> bool {
    forall|i: int, j: int| 0 <= i < j < s.len() ==> s[i].0 < s[j].0
}

/// The strictly increasing sequence that holds exactly the identities of `s`.
pub open spec fn sorted_ids(s: Set<ServiceId>) -> Seq<ServiceId> {
    choose|r: Seq<ServiceId>| ids_increasing(r) && r.to_set() == s
}

/// The identities of `s` in increasing order, each once.
pub open spec fn sorted_unique(s: Seq<ServiceId>) -> Seq<ServiceId> {
    sorted_ids(s.to_set())
}

/// The strictly increasing sequence that holds exactly the integers of `s`.
pub open spec fn sorted_ints(s: Set<u128>) -> Seq<u128> {
    choose|r: Seq<u128>| increasing(r) && r.to_set() == s
}

/// Two strictly increasing sequences with the same elements are the same sequence.
pub proof fn lemma_ids_increasing_unique(a: Seq<ServiceId>, b: Seq<ServiceId>)
    requires
        ids_increasing(a),
        ids_increasing(b),
        a.to_set() == b.to_set(),
    ensures
        a == b,
    decreases a.len(),
{
    if a.len() == 0 {
        if b.len() > 0 {
            assert(b.to_set().contains(b[0]));
            assert(false);
        }
        assert(a =~= b);
    } else if b.len() == 0 {
        assert(a.to_set().contains(a[0]));
        assert(false);
    } else {
        assert(a.to_set().contains(a[0]));
        assert(b.to_set().contains(b[0]));
        let i = choose|i: int| 0 <= i < b.len() && b[i] == a[0];
        let j = choose|j: int| 0 <= j < a.len() && a[j] == b[0];
        if i > 0 {
            assert(b[0].0 < b[i].0);
            if j > 0 {
                assert(a[0].0 < a[j].0);
            }
            assert(false);
        }
        assert(a[0] == b[0]);
        let a1 = a.drop_first();
        let b1 = b.drop_first();
        assert forall|x: ServiceId| a1.to_set().contains(x) implies b1.to_set().contains(x) by {
            let p = choose|p: int| 0 <= p < a1.len() && a1[p] == x;
            assert(a.to_set().contains(x) == a.contains(x));
            assert(a.contains(x)) by { assert(a[p + 1] == x); }
            assert(a.to_set().contains(x));
            assert(b.to_set().contains(x));
            assert(b.contains(x));
            let q = choose|q: int| 0 <= q < b.len() && b[q] == x;
            assert(x.0 > a[0].0) by { assert(a[0].0 < a[p + 1].0); }
            assert(q > 0);
            assert(b1[q - 1] == x);
        }
        assert forall|x: ServiceId| b1.to_set().contains(x) implies a1.to_set().contains(x) by {
            let p = choose|p: int| 0 <= p < b1.len() && b1[p] == x;
            assert(b.contains(x)) by { assert(b[p + 1] == x); }
            assert(b.to_set().contains(x));
            assert(a.to_set().contains(x));
            assert(a.contains(x));
            let q = choose|q: int| 0 <= q < a.len() && a[q] == x;
            assert(x.0 > b[0].0) by { assert(b[0].0 < b[p + 1].0); }
            assert(q > 0);
            assert(a1[q - 1] == x);
        }
        assert(a1.to_set() =~= b1.to_set());
        lemma_ids_increasing_unique(a1, b1);
        assert(a =~= b) by {
            assert(a == seq![a[0]] + a1);
            assert(b == seq![b[0]] + b1);
        }
    }
}

/// A strictly increasing sequence is what `sorted_ids` gives for its elements.
pub proof fn lemma_sorted_ids_of(r: Seq<ServiceId>)
    requires
        ids_increasing(r),
    ensures
        sorted_ids(r.to_set()) == r,
        sorted_unique(r) == r,
{
    let c = sorted_ids(r.to_set());
    assert(ids_increasing(c) && c.to_set() == r.to_set());
    lemma_ids_increasing_unique(c, r);
}

/// Inserts `x` into a strictly increasing vector, keeping it strictly increasing; an `x`
/// that is already there changes nothing.
pub fn insert_sorted_id(v: &mut Vec<ServiceId>, x: ServiceId)
    requires
        ids_increasing(old(v)@),
    ensures
        ids_increasing(final(v)@),
        final(v)@.to_set() == old(v)@.to_set().insert(x),
{
    let mut p: usize = 0;
    while p < v.len() && v[p].0 < x.0
        invariant
            p <= v.len(),
            ids_increasing(v@),
            forall|j: int| 0 <= j < p ==> v@[j].0 < x.0,
        decreases v.len() - p,
    {
        p = p + 1;
    }
    if p < v.len() && v[p].0 == x.0 {
        assert(v@[p as int] == x);
        assert(v@.to_set().insert(x) =~= v@.to_set());
        return;
    }
    let ghost old_v = v@;
    v.insert(p, x);
    proof {
        assert(v@ == old_v.insert(p as int, x));
        assert forall|i: int, j: int| 0 <= i < j < v@.len() implies v@[i].0 < v@[j].0 by {
            if j < p {
            } else if j == p {
            } else if i < p {
                assert(old_v[j - 1].0 > x.0 || old_v[j - 1].0 == x.0 || old_v[j - 1].0 < x.0);
                if p < old_v.len() {
                    assert(old_v[p as int].0 > x.0);
                    if j - 1 > p {
                        assert(old_v[p as int].0 < old_v[j - 1].0);
                    }
                }
            } else if i == p {
                assert(old_v[p as int].0 > x.0);
                if j - 1 > p {
                    assert(old_v[p as int].0 < old_v[j - 1].0);
                }
            } else {
                assert(old_v[i - 1].0 < old_v[j - 1].0);
            }
        }
        assert forall|y: ServiceId| v@.to_set().contains(y) <==> old_v.to_set().insert(x).contains(y) by {
            if v@.contains(y) {
                let q = choose|q: int| 0 <= q < v@.len() && v@[q] == y;
                if q < p {
                    assert(old_v[q] == y);
                } else if q > p {
                    assert(old_v[q - 1] == y);
                }
            }
            if old_v.contains(y) {
                let q = choose|q: int| 0 <= q < old_v.len() && old_v[q] == y;
                if q < p {
                    assert(v@[q] == y);
                } else {
                    assert(v@[q + 1] == y);
                }
            }
            if y == x {
                assert(v@[p as int] == x);
            }
        }
        assert(v@.to_set() =~= old_v.to_set().insert(x));
    }
}

/// Inserts `x` into a strictly increasing vector, keeping it strictly increasing; an `x`
/// that is already there changes nothing.
pub fn insert_sorted_int(v: &mut Vec<u128>, x: u128)
    requires
        increasing(old(v)@),
    ensures
        increasing(final(v)@),
        final(v)@.to_set() == old(v)@.to_set().insert(x),
{
    let mut p: usize = 0;
    while p < v.len() && v[p] < x
        invariant
            p <= v.len(),
            increasing(v@),
            forall|j: int| 0 <= j < p ==> v@[j] < x,
        decreases v.len() - p,
    {
        p = p + 1;
    }
    if p < v.len() && v[p] == x {
        assert(v@[p as int] == x);
        assert(v@.to_set().insert(x) =~= v@.to_set());
        return;
    }
    let ghost old_v = v@;
    v.insert(p, x);
    proof {
        assert(v@ == old_v.insert(p as int, x));
        assert forall|i: int, j: int| 0 <= i < j < v@.len() implies v@[i] < v@[j] by {
            if j < p {
            } else if j == p {
            } else if i < p {
                assert(old_v[j - 1] > x || old_v[j - 1] == x || old_v[j - 1] < x);
                if p < old_v.len() {
                    assert(old_v[p as int] > x);
                    if j - 1 > p {
                        assert(old_v[p as int] < old_v[j - 1]);
                    }
                }
            } else if i == p {
                assert(old_v[p as int] > x);
                if j - 1 > p {
                    assert(old_v[p as int] < old_v[j - 1]);
                }
            } else {
                assert(old_v[i - 1] < old_v[j - 1]);
            }
        }
        assert forall|y: u128| v@.to_set().contains(y) <==> old_v.to_set().insert(x).contains(y) by {
            if v@.contains(y) {
                let q = choose|q: int| 0 <= q < v@.len() && v@[q] == y;
                if q < p {
                    assert(old_v[q] == y);
                } else if q > p {
                    assert(old_v[q - 1] == y);
                }
            }
            if old_v.contains(y) {
                let q = choose|q: int| 0 <= q < old_v.len() && old_v[q] == y;
                if q < p {
                    assert(v@[q] == y);
                } else {
                    assert(v@[q + 1] == y);
                }
            }
            if y == x {
                assert(v@[p as int] == x);
            }
        }
        assert(v@.to_set() =~= old_v.to_set().insert(x));
    }
}

/// The identities of `v` in increasing order, each once.
pub fn sort_dedup_ids(v: &Vec<ServiceId>) -> (r: Vec<ServiceId>)
    ensures
        ids_increasing(r@),
        r@.to_set() == v@.to_set(),
        r@ == sorted_unique(v@),
{
    let mut r: Vec<ServiceId> = Vec::new();
    let mut i: usize = 0;
    while i < v.len()
        invariant
            i <= v.len(),
            ids_increasing(r@),
            r@.to_set() == v@.take(i as int).to_set(),
        decreases v.len() - i,
    {
        insert_sorted_id(&mut r, v[i]);
        proof {
            assert(v@.take(i + 1) == v@.take(i as int).push(v@[i as int]));
            lemma_push_to_set(v@.take(i as int), v@[i as int]);
        }
        i = i + 1;
    }
    proof {
        assert(v@.take(i as int) == v@);
        lemma_sorted_ids_of(r@);
    }
    r
}


/// `r` with `x` placed in order; an `x` already there leaves `r` as it is.
pub open spec fn insert_in_order(r: Seq<ServiceId>, x: ServiceId) -> Seq<ServiceId>
    decreases r.len(),
{
    if r.len() == 0 {
        seq![x]
    } else if x.0 < r[0].0 {
        seq![x] + r
    } else if x.0 == r[0].0 {
        r
    } else {
        seq![r[0]] + insert_in_order(r.drop_first(), x)
    }
}

/// The elements of `s` in increasing order, each once.
pub open spec fn order_ids(s: Seq<ServiceId>) -> Seq<ServiceId>
    decreases s.len(),
{
    if s.len() == 0 {
        Seq::empty()
    } else {
        insert_in_order(order_ids(s.drop_last()), s.last())
    }
}

proof fn lemma_insert_in_order(r: Seq<ServiceId>, x: ServiceId)
    requires
        ids_increasing(r),
    ensures
        ids_increasing(insert_in_order(r, x)),
        insert_in_order(r, x).to_set() == r.to_set().insert(x),
        insert_in_order(r, x).len() > 0,
        r.len() > 0 ==> insert_in_order(r, x)[0].0 == if x.0 < r[0].0 { x.0 } else { r[0].0 },
    decreases r.len(),
{
    let res = insert_in_order(r, x);
    if r.len() == 0 {
        assert(res.to_set() =~= r.to_set().insert(x)) by {
            assert(res[0] == x);
        }
    } else if x.0 < r[0].0 {
        assert forall|i: int, j: int| 0 <= i < j < res.len() implies res[i].0 < res[j].0 by {
            if i > 0 {
                assert(res[i] == r[i - 1] && res[j] == r[j - 1]);
            } else {
                assert(res[j] == r[j - 1]);
                if j - 1 > 0 {
                    assert(r[0].0 < r[j - 1].0);
                }
            }
        }
        assert(res.to_set() =~= r.to_set().insert(x)) by {
            assert forall|y: ServiceId| res.to_set().contains(y) <==> r.to_set().insert(x).contains(y) by {
                if res.contains(y) {
                    let q = choose|q: int| 0 <= q < res.len() && #[trigger] res[q] == y;
                    if q > 0 {
                        assert(r[q - 1] == y);
                    }
                }
                if r.contains(y) {
                    let q = choose|q: int| 0 <= q < r.len() && #[trigger] r[q] == y;
                    assert(res[q + 1] == y);
                }
                if y == x {
                    assert(res[0] == x);
                }
            }
        }
    } else if x.0 == r[0].0 {
        assert(x == r[0]);
        assert(r.to_set() =~= r.to_set().insert(x)) by {
            assert(r.to_set().contains(r[0]));
        }
    } else {
        let rest = r.drop_first();
        assert(ids_increasing(rest)) by {
            assert forall|i: int, j: int| 0 <= i < j < rest.len() implies rest[i].0 < rest[j].0 by {
                assert(rest[i] == r[i + 1] && rest[j] == r[j + 1]);
            }
        }
        lemma_insert_in_order(rest, x);
        let sub = insert_in_order(rest, x);
        assert(res == seq![r[0]] + sub);
        assert forall|i: int, j: int| 0 <= i < j < res.len() implies res[i].0 < res[j].0 by {
            if i > 0 {
                assert(res[i] == sub[i - 1] && res[j] == sub[j - 1]);
            } else {
                assert(res[j] == sub[j - 1]);
                assert(sub.to_set().contains(sub[j - 1]));
                let y = sub[j - 1];
                assert(rest.to_set().insert(x).contains(y));
                if y != x {
                    assert(rest.contains(y));
                    let q = choose|q: int| 0 <= q < rest.len() && #[trigger] rest[q] == y;
                    assert(r[q + 1] == y);
                    assert(r[0].0 < r[q + 1].0);
                }
            }
        }
        assert(res.to_set() =~= r.to_set().insert(x)) by {
            assert forall|y: ServiceId| res.to_set().contains(y) <==> r.to_set().insert(x).contains(y) by {
                if res.contains(y) {
                    let q = choose|q: int| 0 <= q < res.len() && #[trigger] res[q] == y;
                    if q > 0 {
                        assert(sub[q - 1] == y);
                        assert(sub.to_set().contains(y));
                        if y != x {
                            assert(rest.contains(y));
                            let q2 = choose|q2: int| 0 <= q2 < rest.len() && #[trigger] rest[q2] == y;
                            assert(r[q2 + 1] == y);
                        }
                    } else {
                        assert(r[0] == y);
                    }
                }
                if r.contains(y) {
                    let q = choose|q: int| 0 <= q < r.len() && #[trigger] r[q] == y;
                    if q == 0 {
                        assert(res[0] == y);
                    } else {
                        assert(rest[q - 1] == y);
                        assert(rest.to_set().insert(x).contains(y));
                        assert(sub.contains(y));
                        let q2 = choose|q2: int| 0 <= q2 < sub.len() && #[trigger] sub[q2] == y;
                        assert(res[q2 + 1] == y);
                    }
                }
                if y == x {
                    assert(sub.to_set().contains(x));
                    let q2 = choose|q2: int| 0 <= q2 < sub.len() && #[trigger] sub[q2] == x;
                    assert(res[q2 + 1] == x);
                }
            }
        }
    }
}

proof fn lemma_order_ids(s: Seq<ServiceId>)
    ensures
        ids_increasing(order_ids(s)),
        order_ids(s).to_set() == s.to_set(),
    decreases s.len(),
{
    if s.len() == 0 {
        assert(order_ids(s).to_set() =~= s.to_set());
    } else {
        lemma_order_ids(s.drop_last());
        lemma_insert_in_order(order_ids(s.drop_last()), s.last());
        assert(s == s.drop_last().push(s.last()));
        lemma_push_to_set(s.drop_last(), s.last());
    }
}

/// Every finite set of identities has an increasing sequence that holds exactly it, and
/// `sorted_ids` is such a sequence.
pub proof fn lemma_sorted_ids(s: Set<ServiceId>)
    requires
        s.finite(),
    ensures
        ids_increasing(sorted_ids(s)),
        sorted_ids(s).to_set() == s,
{
    s.lemma_to_seq_to_set_id();
    lemma_order_ids(s.to_seq());
    let w = order_ids(s.to_seq());
    assert(ids_increasing(w) && w.to_set() == s);
}


/// A sequence whose ranks under `f` strictly increase.
pub open spec fn ranked<A>(s: Seq<A>, f: spec_fn(A) -> int) -> bool {
    forall|i: int, j: int| 0 <= i < j < s.len() ==> f(s[i]) < f(s[j])
}

/// Two sequences whose ranks strictly increase and that hold the same elements are the same.
pub proof fn lemma_ranked_unique<A>(a: Seq<A>, b: Seq<A>, f: spec_fn(A) -> int)
    requires
        ranked(a, f),
        ranked(b, f),
        a.to_set() == b.to_set(),
    ensures
        a == b,
    decreases a.len(),
{
    if a.len() == 0 {
        if b.len() > 0 {
            assert(b.to_set().contains(b[0]));
            assert(false);
        }
        assert(a =~= b);
    } else if b.len() == 0 {
        assert(a.to_set().contains(a[0]));
        assert(false);
    } else {
        assert(a.to_set().contains(a[0]));
        assert(b.to_set().contains(b[0]));
        let i = choose|i: int| 0 <= i < b.len() && #[trigger] b[i] == a[0];
        let j = choose|j: int| 0 <= j < a.len() && #[trigger] a[j] == b[0];
        if i > 0 {
            assert(f(b[0]) < f(b[i]));
            if j > 0 {
                assert(f(a[0]) < f(a[j]));
            }
            assert(false);
        }
        let a1 = a.drop_first();
        let b1 = b.drop_first();
        assert forall|x: A| a1.to_set().contains(x) implies b1.to_set().contains(x) by {
            let p = choose|p: int| 0 <= p < a1.len() && #[trigger] a1[p] == x;
            assert(a[p + 1] == x);
            assert(a.contains(x));
            assert(a.to_set().contains(x));
            assert(b.to_set().contains(x));
            let q = choose|q: int| 0 <= q < b.len() && #[trigger] b[q] == x;
            assert(f(a[0]) < f(a[p + 1]));
            assert(q > 0);
            assert(b1[q - 1] == x);
        }
        assert forall|x: A| b1.to_set().contains(x) implies a1.to_set().contains(x) by {
            let p = choose|p: int| 0 <= p < b1.len() && #[trigger] b1[p] == x;
            assert(b[p + 1] == x);
            assert(b.contains(x));
            assert(b.to_set().contains(x));
            assert(a.to_set().contains(x));
            let q = choose|q: int| 0 <= q < a.len() && #[trigger] a[q] == x;
            assert(f(b[0]) < f(b[p + 1]));
            assert(q > 0);
            assert(a1[q - 1] == x);
        }
        assert(a1.to_set() =~= b1.to_set());
        assert(ranked(a1, f)) by {
            assert forall|i: int, j: int| 0 <= i < j < a1.len() implies f(a1[i]) < f(a1[j]) by {
                assert(a1[i] == a[i + 1] && a1[j] == a[j + 1]);
            }
        }
        assert(ranked(b1, f)) by {
            assert forall|i: int, j: int| 0 <= i < j < b1.len() implies f(b1[i]) < f(b1[j]) by {
                assert(b1[i] == b[i + 1] && b1[j] == b[j + 1]);
            }
        }
        lemma_ranked_unique(a1, b1, f);
        assert(a =~= b) by {
            assert(a == seq![a[0]] + a1);
            assert(b == seq![b[0]] + b1);
        }
    }
}

/// An increasing sequence of integers is what `sorted_ints` gives for its elements.
pub proof fn lemma_sorted_ints_of(r: Seq<u128>)
    requires
        increasing(r),
    ensures
        sorted_ints(r.to_set()) == r,
{
    let f = |x: u128| x as int;
    assert(increasing(r) && r.to_set() == r.to_set());
    let c = sorted_ints(r.to_set());
    assert(increasing(c) && c.to_set() == r.to_set());
    assert(ranked(c, f)) by {
        assert forall|i: int, j: int| 0 <= i < j < c.len() implies f(c[i]) < f(c[j]) by {
            assert(c[i] < c[j]);
        }
    }
    assert(ranked(r, f)) by {
        assert forall|i: int, j: int| 0 <= i < j < r.len() implies f(r[i]) < f(r[j]) by {
            assert(r[i] < r[j]);
        }
    }
    lemma_ranked_unique(c, r, f);
}


/// Inserting an element whose rank lies strictly between its neighbours keeps the ranks
/// strictly increasing and adds the element.
pub proof fn lemma_insert_ranked<A>(s: Seq<A>, p: int, x: A, f: spec_fn(A) -> int)
    requires
        ranked(s, f),
        0 <= p <= s.len(),
        forall|i: int| 0 <= i < p ==> f(#[trigger] s[i]) < f(x),
        p < s.len() ==> f(x) < f(s[p]),
    ensures
        ranked(s.insert(p, x), f),
        s.insert(p, x).to_set() == s.to_set().insert(x),
{
    let r = s.insert(p, x);
    assert forall|i: int, j: int| 0 <= i < j < r.len() implies f(r[i]) < f(r[j]) by {
        if j < p {
            assert(r[i] == s[i] && r[j] == s[j]);
        } else if j == p {
            assert(r[i] == s[i]);
        } else if i < p {
            assert(r[i] == s[i] && r[j] == s[j - 1]);
            assert(f(x) < f(s[p]));
            if j - 1 > p {
                assert(f(s[p]) < f(s[j - 1]));
            }
        } else if i == p {
            assert(r[j] == s[j - 1]);
            if j - 1 > p {
                assert(f(s[p]) < f(s[j - 1]));
            }
        } else {
            assert(r[i] == s[i - 1] && r[j] == s[j - 1]);
        }
    }
    assert forall|y: A| r.to_set().contains(y) <==> s.to_set().insert(x).contains(y) by {
        if r.contains(y) {
            let q = choose|q: int| 0 <= q < r.len() && #[trigger] r[q] == y;
            if q < p {
                assert(s[q] == y);
            } else if q > p {
                assert(s[q - 1] == y);
            }
        }
        if s.contains(y) {
            let q = choose|q: int| 0 <= q < s.len() && #[trigger] s[q] == y;
            if q < p {
                assert(r[q] == y);
            } else {
                assert(r[q + 1] == y);
            }
        }
        if y == x {
            assert(r[p] == x);
        }
    }
    assert(r.to_set() =~= s.to_set().insert(x));
}

/// The keys of a map in increasing order.
pub fn sorted_keys_of<V>(m: &HashMap<u128, V>) -> (r: Vec<u128>)
    ensures
        increasing(r@),
        r@.to_set() == m@.dom(),
        r@ == sorted_ints(m@.dom()),
{
    let ks = keys_of(m);
    let mut r: Vec<u128> = Vec::new();
    let mut i: usize = 0;
    while i < ks.len()
        invariant
            i <= ks.len(),
            increasing(r@),
            r@.to_set() == ks@.take(i as int).to_set(),
        decreases ks.len() - i,
    {
        insert_sorted_int(&mut r, ks[i]);
        proof {
            assert(ks@.take(i + 1) == ks@.take(i as int).push(ks@[i as int]));
            lemma_push_to_set(ks@.take(i as int), ks@[i as int]);
        }
        i = i + 1;
    }
    proof {
        assert(ks@.take(i as int) == ks@);
        lemma_sorted_ints_of(r@);
    }
    r
}

/// Every finite set of integers has an increasing enumeration, which `sorted_ints` gives.
pub proof fn lemma_sorted_ints(s: Set<u128>)
    requires
        s.finite(),
    ensures
        increasing(sorted_ints(s)),
        sorted_ints(s).to_set() == s,
{
    let f = |k: u128| ServiceId(k);
    let t = s.map(f);
    s.lemma_map_finite(f);
    lemma_sorted_ids(t);
    let ids = sorted_ids(t);
    let r = ids.map_values(|x: ServiceId| x.0);
    assert(increasing(r));
    assert forall|k: u128| r.to_set().contains(k) <==> s.contains(k) by {
        if s.contains(k) {
            assert(t.contains(f(k)));
            assert(ids.to_set().contains(ServiceId(k)));
            let i = choose|i: int| 0 <= i < ids.len() && ids[i] == ServiceId(k);
            assert(r[i] == k);
            assert(r.contains(k));
        }
        if r.to_set().contains(k) {
            let i = choose|i: int| 0 <= i < r.len() && r[i] == k;
            assert(ids.contains(ids[i]));
            assert(ids.to_set().contains(ids[i]));
            assert(t.contains(ids[i]));
            let x = choose|x: u128| s.contains(x) && f(x) == ids[i];
            assert(x == k);
        }
    }
    assert(r.to_set() =~= s);
}

/// The first `i + 1` elements of a sequence hold what its first `i` hold and its element at
/// `i`.
pub proof fn lemma_take_next_contains<A>(s: Seq<A>, i: int)
    requires
        0 <= i < s.len(),
    ensures
        forall|y: A| #[trigger] s.take(i + 1).contains(y) <==> (s.take(i).contains(y) || y == s[i]),
{
    assert(s.take(i + 1) =~= s.take(i).push(s[i]));
    lemma_push_to_set(s.take(i), s[i]);
    assert forall|y: A| #[trigger] s.take(i + 1).contains(y) <==> (s.take(i).contains(y) || y == s[i]) by {
        assert(s.take(i + 1).to_set().contains(y) == s.take(i + 1).contains(y));
        assert(s.take(i).to_set().contains(y) == s.take(i).contains(y));
    }
}

/// Pushing an element adds it to the set of a sequence.
pub proof fn lemma_push_to_set<A>(s: Seq<A>, x: A)
    ensures
        s.push(x).to_set() == s.to_set().insert(x),
{
    assert forall|y: A| s.push(x).to_set().contains(y) <==> s.to_set().insert(x).contains(y) by {
        if s.push(x).contains(y) {
            let q = choose|q: int| 0 <= q < s.push(x).len() && s.push(x)[q] == y;
            if q < s.len() {
                assert(s[q] == y);
            }
        }
        if s.contains(y) {
            let q = choose|q: int| 0 <= q < s.len() && s[q] == y;
            assert(s.push(x)[q] == y);
        }
        if y == x {
            assert(s.push(x)[s.len() as int] == x);
        }
    }
    assert(s.push(x).to_set() =~= s.to_set().insert(x));
}

} // verus!

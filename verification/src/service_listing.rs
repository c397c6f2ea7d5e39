use vstd::prelude::*;

use crate::collections::{keys_of, lemma_push_to_set};
use crate::controller_state::{services_view, ControllerState};
use crate::ids::uuid_text;
use crate::service::{ServiceDefinition, ServiceDefinitionView};
use crate::text::text_equals;

verus! {

broadcast use vstd::std_specs::hash::group_hash_axioms;

/// `a` comes strictly before `b` in lexicographic order of characters, a proper prefix
/// first.
pub open spec fn text_before(a: Seq<char>, b: Seq<char>) -> bool
    decreases a.len(),
{
    if a.len() == 0 {
        b.len() > 0
    } else if b.len() == 0 {
        false
    } else if a[0] != b[0] {
        (a[0] as int) < (b[0] as int)
    } else {
        text_before(a.drop_first(), b.drop_first())
    }
}

proof fn lemma_text_before_irreflexive(a: Seq<char>)
    ensures
        !text_before(a, a),
    decreases a.len(),
{
    if a.len() > 0 {
        lemma_text_before_irreflexive(a.drop_first());
    }
}

proof fn lemma_text_before_asymmetric(a: Seq<char>, b: Seq<char>)
    ensures
        !(text_before(a, b) && text_before(b, a)),
    decreases a.len(),
{
    if a.len() > 0 && b.len() > 0 && a[0] == b[0] {
        lemma_text_before_asymmetric(a.drop_first(), b.drop_first());
    }
}

proof fn lemma_text_before_transitive(a: Seq<char>, b: Seq<char>, c: Seq<char>)
    requires
        text_before(a, b),
        text_before(b, c),
    ensures
        text_before(a, c),
    decreases a.len(),
{
    if a.len() > 0 && b.len() > 0 && c.len() > 0 && a[0] == b[0] && b[0] == c[0] {
        lemma_text_before_transitive(a.drop_first(), b.drop_first(), c.drop_first());
    }
}

/// The key a service listing is ordered by: name, then version, then the text of the identity.
pub open spec fn listing_key(s: ServiceDefinitionView) -> (Seq<char>, Seq<char>, Seq<char>) {
    (s.name, s.version, uuid_text(s.id.0))
}

/// Key `x` comes strictly before key `y`, comparing the parts in turn.
pub open spec fn key_before(x: (Seq<char>, Seq<char>, Seq<char>), y: (Seq<char>, Seq<char>, Seq<char>)) -> bool {
    ||| text_before(x.0, y.0)
    ||| (x.0 == y.0 && text_before(x.1, y.1))
    ||| (x.0 == y.0 && x.1 == y.1 && text_before(x.2, y.2))
}

proof fn lemma_key_before_order(
    x: (Seq<char>, Seq<char>, Seq<char>),
    y: (Seq<char>, Seq<char>, Seq<char>),
    z: (Seq<char>, Seq<char>, Seq<char>),
)
    ensures
        !(key_before(x, y) && key_before(y, x)),
        key_before(x, y) && key_before(y, z) ==> key_before(x, z),
{
    lemma_text_before_asymmetric(x.0, y.0);
    lemma_text_before_asymmetric(x.1, y.1);
    lemma_text_before_asymmetric(x.2, y.2);
    lemma_text_before_irreflexive(x.0);
    lemma_text_before_irreflexive(x.1);
    lemma_text_before_irreflexive(y.0);
    lemma_text_before_irreflexive(y.1);
    if text_before(x.0, y.0) && text_before(y.0, z.0) {
        lemma_text_before_transitive(x.0, y.0, z.0);
    }
    if text_before(x.1, y.1) && text_before(y.1, z.1) {
        lemma_text_before_transitive(x.1, y.1, z.1);
    }
    if text_before(x.2, y.2) && text_before(y.2, z.2) {
        lemma_text_before_transitive(x.2, y.2, z.2);
    }
}

/// No service of the listing comes strictly before one listed ahead of it.
pub open spec fn listed_in_order(r: Seq<ServiceDefinitionView>) -> bool {
    forall|i: int, j: int| 0 <= i < j < r.len() ==> !key_before(listing_key(r[j]), listing_key(r[i]))
}

/// Whether `a` comes strictly before `b` in lexicographic order of characters.
fn text_is_before(a: &str, b: &str) -> (r: bool)
    ensures
        r == text_before(a@, b@),
{
    let n = a.unicode_len();
    let m = b.unicode_len();
    let mut i: usize = 0;
    assert(a@.subrange(0, n as int) =~= a@);
    assert(b@.subrange(0, m as int) =~= b@);
    while i < n && i < m
        invariant
            i <= n,
            i <= m,
            n == a@.len(),
            m == b@.len(),
            text_before(a@, b@) == text_before(a@.subrange(i as int, n as int), b@.subrange(i as int, m as int)),
        decreases n - i,
    {
        let x = a.get_char(i);
        let y = b.get_char(i);
        assert(a@.subrange(i as int, n as int)[0] == x);
        assert(b@.subrange(i as int, m as int)[0] == y);
        if x != y {
            return (x as u32) < (y as u32);
        }
        assert(a@.subrange(i as int, n as int).drop_first() =~= a@.subrange(i + 1, n as int));
        assert(b@.subrange(i as int, m as int).drop_first() =~= b@.subrange(i + 1, m as int));
        i = i + 1;
    }
    i == n && i < m
}

/// Whether key (`xn`, `xv`, `xi`) comes strictly before key (`yn`, `yv`, `yi`).
fn key_is_before(xn: &str, xv: &str, xi: &str, yn: &str, yv: &str, yi: &str) -> (r: bool)
    ensures
        r == key_before((xn@, xv@, xi@), (yn@, yv@, yi@)),
{
    if text_is_before(xn, yn) {
        return true;
    }
    if !text_equals(xn, yn) {
        return false;
    }
    if text_is_before(xv, yv) {
        return true;
    }
    if !text_equals(xv, yv) {
        return false;
    }
    text_is_before(xi, yi)
}

impl ControllerState {
    /// Every service definition, ordered by name, then version, then the text of its
    /// identity.
    pub fn list_services(&self) -> (r: Vec<ServiceDefinition>)
        ensures
            listed_in_order(r@.map_values(|d: ServiceDefinition| d@)),
            exists|ks: Seq<u128>| {
                &&& ks.no_duplicates()
                &&& ks.to_set() == self.services@.dom()
                &&& ks.len() == r@.len()
                &&& forall|i: int| 0 <= i < ks.len() ==> #[trigger] r@[i]@ == services_view(self.services)[ks[i]]
            },
    {
        let ghost sv = services_view(self.services);
        let ks = keys_of(&self.services);
        let mut r: Vec<ServiceDefinition> = Vec::new();
        let mut texts: Vec<String> = Vec::new();
        let ghost mut gk: Seq<u128> = Seq::empty();
        let mut i: usize = 0;
        while i < ks.len()
            invariant
                i <= ks.len(),
                ks@.no_duplicates(),
                ks@.to_set() == self.services@.dom(),
                sv == services_view(self.services),
                r@.len() == texts@.len(),
                r@.len() == gk.len(),
                gk.no_duplicates(),
                gk.to_set() == ks@.take(i as int).to_set(),
                forall|j: int| 0 <= j < gk.len() ==> #[trigger] r@[j]@ == sv[gk[j]],
                forall|j: int| 0 <= j < texts@.len() ==> #[trigger] texts@[j]@ == uuid_text(r@[j].id.0),
                listed_in_order(r@.map_values(|d: ServiceDefinition| d@)),
            decreases ks.len() - i,
        {
            let k = ks[i];
            assert(ks@.to_set().contains(k));
            let d = self.services.get(&k).unwrap().clone();
            let t = d.id.to_text();
            let mut p: usize = 0;
            while p < r.len() && !key_is_before(
                d.name.as_str(),
                d.version.as_str(),
                t.as_str(),
                r[p].name.as_str(),
                r[p].version.as_str(),
                texts[p].as_str(),
            )
                invariant
                    p <= r@.len(),
                    r@.len() == texts@.len(),
                    forall|j: int| 0 <= j < texts@.len() ==> #[trigger] texts@[j]@ == uuid_text(r@[j].id.0),
                    t@ == uuid_text(d.id.0),
                    forall|j: int| 0 <= j < p ==> !key_before(listing_key(d@), listing_key(#[trigger] r@[j]@)),
                decreases r@.len() - p,
            {
                p = p + 1;
            }
            let ghost old_r = r@.map_values(|x: ServiceDefinition| x@);
            let ghost old_gk = gk;
            let ghost dv = d@;
            proof {
                assert(p < r@.len() ==> key_before(listing_key(dv), listing_key(old_r[p as int])));
                assert forall|j: int| 0 <= j < p implies !key_before(listing_key(dv), listing_key(#[trigger] old_r[j])) by {
                    assert(old_r[j] == r@[j]@);
                }
            }
            r.insert(p, d);
            texts.insert(p, t);
            proof {
                gk = gk.insert(p as int, k);
                let nr = r@.map_values(|x: ServiceDefinition| x@);
                assert(nr =~= old_r.insert(p as int, dv));
                assert forall|a: int, b: int| 0 <= a < b < nr.len() implies !key_before(listing_key(nr[b]), listing_key(nr[a])) by {
                    if a < p && b == p {
                        assert(nr[a] == old_r[a]);
                    } else if a == p {
                        let ob = b - 1;
                        assert(nr[b] == old_r[ob]);
                        lemma_key_before_order(listing_key(old_r[ob]), listing_key(dv), listing_key(old_r[p as int]));
                        if ob > p {
                            assert(!key_before(listing_key(old_r[ob]), listing_key(old_r[p as int])));
                        }
                    } else if b < p {
                        assert(nr[a] == old_r[a] && nr[b] == old_r[b]);
                    } else if a < p {
                        assert(nr[a] == old_r[a] && nr[b] == old_r[b - 1]);
                    } else {
                        assert(nr[a] == old_r[a - 1] && nr[b] == old_r[b - 1]);
                    }
                }
                assert forall|j: int| 0 <= j < gk.len() implies #[trigger] r@[j]@ == sv[gk[j]] by {
                    if j < p {
                        assert(gk[j] == old_gk[j]);
                    } else if j > p {
                        assert(gk[j] == old_gk[j - 1]);
                    }
                }
                assert(!old_gk.contains(k)) by {
                    if old_gk.contains(k) {
                        assert(old_gk.to_set().contains(k));
                        let q = choose|q: int| 0 <= q < i && #[trigger] ks@.take(i as int)[q] == k;
                        assert(ks@[q] == ks@[i as int]);
                    }
                }
                assert(gk.no_duplicates()) by {
                    assert forall|a: int, b: int| 0 <= a < b < gk.len() implies gk[a] != gk[b] by {
                        if a == p {
                            assert(old_gk.contains(gk[b]));
                        } else if b == p {
                            assert(old_gk.contains(gk[a]));
                        } else {
                            let oa = if a < p { a } else { a - 1 };
                            let ob = if b < p { b } else { b - 1 };
                            assert(gk[a] == old_gk[oa] && gk[b] == old_gk[ob]);
                        }
                    }
                }
                assert(ks@.take(i + 1) =~= ks@.take(i as int).push(k));
                assert forall|y: u128| gk.to_set().contains(y) <==> ks@.take(i + 1).to_set().contains(y) by {
                    if gk.contains(y) {
                        let q = choose|q: int| 0 <= q < gk.len() && gk[q] == y;
                        if q < p {
                            assert(old_gk[q] == y);
                            assert(old_gk.to_set().contains(y));
                        } else if q > p {
                            assert(old_gk[q - 1] == y);
                            assert(old_gk.to_set().contains(y));
                        }
                    }
                    if old_gk.contains(y) {
                        let q = choose|q: int| 0 <= q < old_gk.len() && old_gk[q] == y;
                        if q < p {
                            assert(gk[q] == y);
                        } else {
                            assert(gk[q + 1] == y);
                        }
                    }
                    if y == k {
                        assert(gk[p as int] == k);
                    }
                    lemma_push_to_set(ks@.take(i as int), k);
                }
                assert(gk.to_set() =~= ks@.take(i + 1).to_set());
            }
            i = i + 1;
        }
        proof {
            assert(ks@.take(i as int) =~= ks@);
            assert forall|j: int| 0 <= j < gk.len() implies #[trigger] r@[j]@ == services_view(self.services)[gk[j]] by {}
        }
        r
    }
}

} // verus!

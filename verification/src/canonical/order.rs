//! The order of canonical map entries: keys ascend, and the bytes of a map do not depend on
//! the order in which its entries were given.

use vstd::prelude::*;
use crate::canonical::{
    canon_keys, canon_map, canon_vals, canon_value, concat_in_order, insert_pos, lex_le,
    sort_order, CanonicalEncoder,
};
use crate::cbor::CborValue;

verus! {

/// Every byte string sorts with itself.
pub proof fn lemma_lex_reflexive(a: Seq<u8>)
    ensures
        lex_le(a, a),
    decreases a.len(),
{
    if a.len() > 0 {
        lemma_lex_reflexive(a.drop_first());
    }
}

/// Any two byte strings are ordered one way or the other.
pub proof fn lemma_lex_total(a: Seq<u8>, b: Seq<u8>)
    ensures
        lex_le(a, b) || lex_le(b, a),
    decreases a.len(),
{
    if a.len() > 0 && b.len() > 0 && a[0] == b[0] {
        lemma_lex_total(a.drop_first(), b.drop_first());
    }
}

/// Byte strings ordered both ways are equal.
pub proof fn lemma_lex_antisymmetric(a: Seq<u8>, b: Seq<u8>)
    requires
        lex_le(a, b),
        lex_le(b, a),
    ensures
        a == b,
    decreases a.len(),
{
    if a.len() > 0 && b.len() > 0 {
        lemma_lex_antisymmetric(a.drop_first(), b.drop_first());
        assert(a =~= seq![a[0]] + a.drop_first());
        assert(b =~= seq![b[0]] + b.drop_first());
    } else {
        assert(a.len() == 0 && b.len() == 0);
        assert(a =~= b);
    }
}

/// The order of byte strings is transitive.
pub proof fn lemma_lex_transitive(a: Seq<u8>, b: Seq<u8>, c: Seq<u8>)
    requires
        lex_le(a, b),
        lex_le(b, c),
    ensures
        lex_le(a, c),
    decreases a.len(),
{
    if a.len() > 0 && b.len() > 0 && c.len() > 0 && a[0] == b[0] && b[0] == c[0] {
        lemma_lex_transitive(a.drop_first(), b.drop_first(), c.drop_first());
    }
}

/// Whether `o` lists each index below `n` exactly once.
pub open spec fn index_perm(o: Seq<int>, n: int) -> bool {
    &&& o.len() == n
    &&& o.no_duplicates()
    &&& forall|j: int| 0 <= j < o.len() ==> 0 <= #[trigger] o[j] < n
    &&& forall|x: int| 0 <= x < n ==> #[trigger] o.contains(x)
}

/// Whether the keys taken in the order `o` ascend.
pub open spec fn ascending_by(ks: Seq<Seq<u8>>, o: Seq<int>) -> bool {
    forall|a: int, b: int|
        #![trigger o[a], o[b]]
        0 <= a < b < o.len() ==> lex_le(ks[o[a]], ks[o[b]])
}

/// Whether no two keys are the same bytes.
pub open spec fn keys_unique(ks: Seq<Seq<u8>>) -> bool {
    forall|i: int, j: int| 0 <= i < ks.len() && 0 <= j < ks.len() && i != j ==> ks[i] != ks[j]
}

proof fn lemma_insert_pos_facts(order: Seq<int>, ks: Seq<Seq<u8>>, k: Seq<u8>)
    ensures
        0 <= insert_pos(order, ks, k) <= order.len(),
        forall|j: int| 0 <= j < insert_pos(order, ks, k) ==> lex_le(ks[#[trigger] order[j]], k),
        insert_pos(order, ks, k) < order.len() ==> !lex_le(ks[order[insert_pos(order, ks, k)]], k),
    decreases order.len(),
{
    if order.len() > 0 && lex_le(ks[order[0]], k) {
        let rest = order.drop_first();
        lemma_insert_pos_facts(rest, ks, k);
        assert forall|j: int| 0 <= j < insert_pos(order, ks, k) implies lex_le(ks[#[trigger] order[j]], k) by {
            if j > 0 {
                assert(order[j] == rest[j - 1]);
            }
        }
        if insert_pos(order, ks, k) < order.len() {
            assert(order[insert_pos(order, ks, k)] == rest[insert_pos(rest, ks, k)]);
        }
    }
}

/// The stable insertion sort of the map keys lists every entry once, with the keys ascending.
pub proof fn lemma_sort_order_sorts(ks: Seq<Seq<u8>>)
    ensures
        index_perm(sort_order(ks), ks.len() as int),
        ascending_by(ks, sort_order(ks)),
    decreases ks.len(),
{
    if ks.len() > 0 {
        let n = ks.len() as int;
        let init = ks.drop_last();
        let prev = sort_order(init);
        lemma_sort_order_sorts(init);
        let k = ks[n - 1];
        let p = insert_pos(prev, ks, k);
        lemma_insert_pos_facts(prev, ks, k);
        let o = prev.insert(p, n - 1);
        assert(o == sort_order(ks));
        assert forall|a: int, b: int| #![trigger prev[a], prev[b]] 0 <= a < b < prev.len() implies lex_le(
            ks[prev[a]],
            ks[prev[b]],
        ) by {
            assert(init[prev[a]] == ks[prev[a]] && init[prev[b]] == ks[prev[b]]);
        }
        assert forall|j: int| 0 <= j < o.len() implies 0 <= #[trigger] o[j] < n by {
            if j < p {
                assert(o[j] == prev[j]);
            } else if j > p {
                assert(o[j] == prev[j - 1]);
            }
        }
        assert forall|x: int| 0 <= x < n implies #[trigger] o.contains(x) by {
            if x == n - 1 {
                assert(o[p] == x);
            } else {
                assert(prev.contains(x));
                let j = choose|j: int| 0 <= j < prev.len() && prev[j] == x;
                if j < p {
                    assert(o[j] == x);
                } else {
                    assert(o[j + 1] == x);
                }
            }
        }
        assert forall|a: int, b: int| 0 <= a < o.len() && 0 <= b < o.len() && a != b implies o[a]
            != o[b] by {
            let pa = if a < p { a } else { a - 1 };
            let pb = if b < p { b } else { b - 1 };
            if a != p && b != p {
                assert(o[a] == prev[pa] && o[b] == prev[pb]);
            } else if a == p {
                assert(o[b] == prev[pb]);
                assert(0 <= prev[pb] < n - 1);
            } else {
                assert(o[a] == prev[pa]);
                assert(0 <= prev[pa] < n - 1);
            }
        }
        assert forall|a: int, b: int| #![trigger o[a], o[b]] 0 <= a < b < o.len() implies lex_le(
            ks[o[a]],
            ks[o[b]],
        ) by {
            if b < p {
                assert(o[a] == prev[a] && o[b] == prev[b]);
            } else if b == p {
                assert(o[a] == prev[a] && o[b] == n - 1);
            } else if a < p {
                assert(o[a] == prev[a] && o[b] == prev[b - 1]);
            } else if a == p {
                assert(o[a] == n - 1 && o[b] == prev[b - 1]);
                lemma_lex_total(ks[prev[p]], k);
                if b - 1 > p {
                    lemma_lex_transitive(k, ks[prev[p]], ks[prev[b - 1]]);
                }
            } else {
                assert(o[a] == prev[a - 1] && o[b] == prev[b - 1]);
            }
        }
    }
}

/// Two orders holding the same indices, no index twice, with ascending keys and no key
/// repeated, are the same order.
proof fn lemma_ascending_unique(ks: Seq<Seq<u8>>, o1: Seq<int>, o2: Seq<int>)
    requires
        o1.len() == o2.len(),
        o1.no_duplicates(),
        o2.no_duplicates(),
        forall|x: int| o1.contains(x) <==> o2.contains(x),
        forall|j: int| 0 <= j < o1.len() ==> 0 <= #[trigger] o1[j] < ks.len(),
        ascending_by(ks, o1),
        ascending_by(ks, o2),
        keys_unique(ks),
    ensures
        o1 == o2,
    decreases o1.len(),
{
    if o1.len() > 0 {
        let x1 = o1[0];
        let x2 = o2[0];
        assert(o1.contains(x1));
        assert(o2.contains(x2));
        if x1 != x2 {
            let j = choose|j: int| 0 <= j < o1.len() && o1[j] == x2;
            let i = choose|i: int| 0 <= i < o2.len() && o2[i] == x1;
            assert(j > 0 && i > 0);
            assert(lex_le(ks[o1[0]], ks[o1[j]]));
            assert(lex_le(ks[o2[0]], ks[o2[i]]));
            lemma_lex_antisymmetric(ks[x1], ks[x2]);
            assert(false);
        }
        let t1 = o1.drop_first();
        let t2 = o2.drop_first();
        assert forall|x: int| t1.contains(x) <==> t2.contains(x) by {
            if t1.contains(x) {
                let j = choose|j: int| 0 <= j < t1.len() && t1[j] == x;
                assert(o1[j + 1] == x);
                assert(x != x1);
                assert(o2.contains(x));
                let i = choose|i: int| 0 <= i < o2.len() && o2[i] == x;
                assert(i != 0);
                assert(t2[i - 1] == x);
            }
            if t2.contains(x) {
                let j = choose|j: int| 0 <= j < t2.len() && t2[j] == x;
                assert(o2[j + 1] == x);
                assert(x != x2);
                assert(o1.contains(x));
                let i = choose|i: int| 0 <= i < o1.len() && o1[i] == x;
                assert(i != 0);
                assert(t1[i - 1] == x);
            }
        }
        assert forall|a: int, b: int| #![trigger t1[a], t1[b]] 0 <= a < b < t1.len() implies lex_le(
            ks[t1[a]],
            ks[t1[b]],
        ) by {
            assert(t1[a] == o1[a + 1] && t1[b] == o1[b + 1]);
        }
        assert forall|a: int, b: int| #![trigger t2[a], t2[b]] 0 <= a < b < t2.len() implies lex_le(
            ks[t2[a]],
            ks[t2[b]],
        ) by {
            assert(t2[a] == o2[a + 1] && t2[b] == o2[b + 1]);
        }
        assert forall|j: int| 0 <= j < t1.len() implies 0 <= #[trigger] t1[j] < ks.len() by {
            assert(t1[j] == o1[j + 1]);
        }
        lemma_ascending_unique(ks, t1, t2);
        assert(o1 =~= seq![x1] + t1);
        assert(o2 =~= seq![x2] + t2);
    }
}

/// The canonical bytes of each key, entry by entry.
proof fn lemma_canon_keys_pointwise(strict: CanonicalEncoder, es: Seq<(CborValue, CborValue)>)
    ensures
        canon_keys(strict, es) is Some <==> forall|i: int|
            0 <= i < es.len() ==> #[trigger] canon_value(strict, es[i].0) is Some,
        canon_keys(strict, es) matches Some(ks) ==> ks.len() == es.len() && forall|i: int|
            0 <= i < es.len() ==> Some(#[trigger] ks[i]) == canon_value(strict, es[i].0),
    decreases es.len(),
{
    if es.len() > 0 {
        let init = es.drop_last();
        lemma_canon_keys_pointwise(strict, init);
        assert forall|i: int| 0 <= i < init.len() implies init[i] == es[i] by {}
        if canon_keys(strict, es) is None {
            if canon_keys(strict, init) is None {
                let i = choose|i: int| 0 <= i < init.len() && !(canon_value(strict, init[i].0) is Some);
                assert(canon_value(strict, es[i].0) is None);
            } else {
                assert(canon_value(strict, es[es.len() - 1].0) is None);
            }
        }
    }
}

/// The canonical bytes of each value, entry by entry.
proof fn lemma_canon_vals_pointwise(strict: CanonicalEncoder, es: Seq<(CborValue, CborValue)>)
    ensures
        canon_vals(strict, es) is Some <==> forall|i: int|
            0 <= i < es.len() ==> #[trigger] canon_value(strict, es[i].1) is Some,
        canon_vals(strict, es) matches Some(vs) ==> vs.len() == es.len() && forall|i: int|
            0 <= i < es.len() ==> Some(#[trigger] vs[i]) == canon_value(strict, es[i].1),
    decreases es.len(),
{
    if es.len() > 0 {
        let init = es.drop_last();
        lemma_canon_vals_pointwise(strict, init);
        assert forall|i: int| 0 <= i < init.len() implies init[i] == es[i] by {}
        if canon_vals(strict, es) is None {
            if canon_vals(strict, init) is None {
                let i = choose|i: int| 0 <= i < init.len() && !(canon_value(strict, init[i].1) is Some);
                assert(canon_value(strict, es[i].1) is None);
            } else {
                assert(canon_value(strict, es[es.len() - 1].1) is None);
            }
        }
    }
}

/// Taking entries of reordered tables in an order is taking the original entries in the
/// composed order.
proof fn lemma_concat_reindexed(
    ks1: Seq<Seq<u8>>,
    vs1: Seq<Seq<u8>>,
    ks2: Seq<Seq<u8>>,
    vs2: Seq<Seq<u8>>,
    sigma: Seq<int>,
    o: Seq<int>,
)
    requires
        ks2.len() == sigma.len(),
        vs2.len() == sigma.len(),
        forall|i: int| 0 <= i < sigma.len() ==> ks2[i] == ks1[#[trigger] sigma[i]] && vs2[i] == vs1[sigma[i]],
        forall|j: int| 0 <= j < o.len() ==> 0 <= #[trigger] o[j] < sigma.len(),
    ensures
        concat_in_order(ks2, vs2, o) == concat_in_order(
            ks1,
            vs1,
            Seq::new(o.len(), |j: int| sigma[o[j]]),
        ),
    decreases o.len(),
{
    let c = Seq::new(o.len(), |j: int| sigma[o[j]]);
    if o.len() > 0 {
        let init = o.drop_last();
        assert forall|j: int| 0 <= j < init.len() implies 0 <= #[trigger] init[j] < sigma.len() by {
            assert(init[j] == o[j]);
        }
        lemma_concat_reindexed(ks1, vs1, ks2, vs2, sigma, init);
        assert(c.drop_last() =~= Seq::new(init.len(), |j: int| sigma[init[j]]));
        assert(c.last() == sigma[o.last()]);
        assert(0 <= o[o.len() - 1] < sigma.len());
    }
}

/// Giving the entries of a map in another order does not change its canonical bytes, when
/// no two entries have the same canonical key.
pub proof fn lemma_canon_map_reorder(
    strict: CanonicalEncoder,
    es1: Seq<(CborValue, CborValue)>,
    es2: Seq<(CborValue, CborValue)>,
    sigma: Seq<int>,
)
    requires
        index_perm(sigma, es1.len() as int),
        es2.len() == es1.len(),
        forall|i: int| 0 <= i < es2.len() ==> es2[i] == es1[#[trigger] sigma[i]],
        canon_keys(strict, es1) matches Some(ks) ==> keys_unique(ks),
    ensures
        canon_map(strict, es2) == canon_map(strict, es1),
{
    let n = es1.len() as int;
    lemma_canon_keys_pointwise(strict, es1);
    lemma_canon_keys_pointwise(strict, es2);
    lemma_canon_vals_pointwise(strict, es1);
    lemma_canon_vals_pointwise(strict, es2);
    assert(canon_keys(strict, es1) is Some <==> canon_keys(strict, es2) is Some) by {
        if canon_keys(strict, es1) is Some {
            assert forall|i: int| 0 <= i < es2.len() implies #[trigger] canon_value(strict, es2[i].0) is Some by {
                assert(es2[i] == es1[sigma[i]]);
                assert(0 <= sigma[i] < n);
            }
        }
        if canon_keys(strict, es2) is Some {
            assert forall|x: int| 0 <= x < es1.len() implies #[trigger] canon_value(strict, es1[x].0) is Some by {
                assert(sigma.contains(x));
                let i = choose|i: int| 0 <= i < sigma.len() && sigma[i] == x;
                assert(es2[i] == es1[sigma[i]]);
                assert(canon_value(strict, es2[i].0) is Some);
            }
        }
    }
    assert(canon_vals(strict, es1) is Some <==> canon_vals(strict, es2) is Some) by {
        if canon_vals(strict, es1) is Some {
            assert forall|i: int| 0 <= i < es2.len() implies #[trigger] canon_value(strict, es2[i].1) is Some by {
                assert(es2[i] == es1[sigma[i]]);
                assert(0 <= sigma[i] < n);
            }
        }
        if canon_vals(strict, es2) is Some {
            assert forall|x: int| 0 <= x < es1.len() implies #[trigger] canon_value(strict, es1[x].1) is Some by {
                assert(sigma.contains(x));
                let i = choose|i: int| 0 <= i < sigma.len() && sigma[i] == x;
                assert(es2[i] == es1[sigma[i]]);
                assert(canon_value(strict, es2[i].1) is Some);
            }
        }
    }
    if canon_keys(strict, es1) is Some && canon_vals(strict, es1) is Some {
        let ks1 = canon_keys(strict, es1)->0;
        let vs1 = canon_vals(strict, es1)->0;
        let ks2 = canon_keys(strict, es2)->0;
        let vs2 = canon_vals(strict, es2)->0;
        assert forall|i: int| 0 <= i < sigma.len() implies ks2[i] == ks1[#[trigger] sigma[i]] && vs2[i]
            == vs1[sigma[i]] by {
            assert(es2[i] == es1[sigma[i]]);
            assert(0 <= sigma[i] < n);
            assert(Some(ks2[i]) == canon_value(strict, es2[i].0));
            assert(Some(ks1[sigma[i]]) == canon_value(strict, es1[sigma[i]].0));
            assert(Some(vs2[i]) == canon_value(strict, es2[i].1));
            assert(Some(vs1[sigma[i]]) == canon_value(strict, es1[sigma[i]].1));
        }
        let o1 = sort_order(ks1);
        let o2 = sort_order(ks2);
        lemma_sort_order_sorts(ks1);
        lemma_sort_order_sorts(ks2);
        lemma_concat_reindexed(ks1, vs1, ks2, vs2, sigma, o2);
        let c = Seq::new(o2.len(), |j: int| sigma[o2[j]]);
        assert forall|j: int| 0 <= j < c.len() implies 0 <= #[trigger] c[j] < ks1.len() by {
            assert(0 <= o2[j] < n);
        }
        assert(c.no_duplicates()) by {
            assert forall|a: int, b: int| 0 <= a < c.len() && 0 <= b < c.len() && a != b implies c[a]
                != c[b] by {
                assert(o2[a] != o2[b]);
                assert(0 <= o2[a] < n && 0 <= o2[b] < n);
            }
        }
        assert forall|x: int| #[trigger] o1.contains(x) <==> c.contains(x) by {
            if o1.contains(x) {
                let j = choose|j: int| 0 <= j < o1.len() && o1[j] == x;
                assert(0 <= x < n);
                assert(sigma.contains(x));
                let i = choose|i: int| 0 <= i < sigma.len() && sigma[i] == x;
                assert(o2.contains(i));
                let k = choose|k: int| 0 <= k < o2.len() && o2[k] == i;
                assert(c[k] == x);
            }
            if c.contains(x) {
                let k = choose|k: int| 0 <= k < c.len() && c[k] == x;
                assert(0 <= x < n);
            }
        }
        assert forall|a: int, b: int| #![trigger c[a], c[b]] 0 <= a < b < c.len() implies lex_le(
            ks1[c[a]],
            ks1[c[b]],
        ) by {
            assert(0 <= o2[a] < n && 0 <= o2[b] < n);
            assert(ks2[o2[a]] == ks1[sigma[o2[a]]]);
            assert(ks2[o2[b]] == ks1[sigma[o2[b]]]);
        }
        lemma_ascending_unique(ks1, o1, c);
    }
}

} // verus!

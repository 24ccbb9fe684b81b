//! Putting things in the order of a key, without changing the order of those whose keys are equal.
use vstd::prelude::*;
use vstd::relations::{sorted_by, total_ordering};
use vstd::seq_lib::lemma_sorted_unique;

verus! {

broadcast use {
    vstd::multiset::group_multiset_axioms,
    vstd::seq_lib::group_to_multiset_ensures,
};

/// Whether an index does not come behind another one: its key is smaller, or the keys are equal
/// and it is not the greater index.
pub open spec fn no_later(keys: Seq<u64>, a: usize, b: usize) -> bool {
    keys[a as int] < keys[b as int] || (keys[a as int] == keys[b as int] && a <= b)
}

pub open spec fn by_key(keys: Seq<u64>) -> spec_fn(usize, usize) -> bool {
    |a: usize, b: usize| no_later(keys, a, b)
}

/// The numbers from `lo` up to and without `hi`.
pub open spec fn between(lo: int, hi: int) -> Seq<usize> {
    Seq::new((hi - lo) as nat, |k: int| (lo + k) as usize)
}

/// The indices of some keys in the order of the keys, equal ones in the order of the indices.
pub open spec fn order_of(keys: Seq<u64>) -> Seq<usize> {
    between(0, keys.len() as int).sort_by(by_key(keys))
}

proof fn lemma_total(keys: Seq<u64>)
    ensures
        total_ordering(by_key(keys)),
{
}

/// Each index occurs in the order once, and the keys along it do not fall; where two are equal,
/// the smaller index comes first.
pub proof fn law_order(keys: Seq<u64>)
    requires
        keys.len() <= usize::MAX,
    ensures
        order_of(keys).len() == keys.len(),
        forall|i: int|
            0 <= i < keys.len() ==> 0 <= #[trigger] order_of(keys)[i] < keys.len(),
        forall|i: int, j: int|
            0 <= i < j < keys.len() ==> no_later(
                keys,
                #[trigger] order_of(keys)[i],
                #[trigger] order_of(keys)[j],
            ) && order_of(keys)[i] != order_of(keys)[j],
        forall|k: usize| k < keys.len() ==> #[trigger] order_of(keys).contains(k),
{
    let all = between(0, keys.len() as int);
    let order = order_of(keys);
    lemma_total(keys);
    all.lemma_sort_by_ensures(by_key(keys));
    assert(order.len() == order.to_multiset().len());
    assert forall|i: int| 0 <= i < keys.len() implies 0 <= #[trigger] order[i] < keys.len() by {
        assert(order.contains(order[i]));
        assert(all.contains(order[i]));
    }
    assert forall|i: int, j: int| 0 <= i < j < keys.len() implies no_later(
        keys,
        #[trigger] order[i],
        #[trigger] order[j],
    ) && order[i] != order[j] by {
        assert(by_key(keys)(order[i], order[j]));
        assert(all.no_duplicates());
        all.lemma_multiset_has_no_duplicates();
        if order[i] == order[j] {
            order.lemma_multiset_has_no_duplicates_conv();
            assert(order.no_duplicates());
        }
    }
    assert forall|k: usize| k < keys.len() implies #[trigger] order.contains(k) by {
        assert(all[k as int] == k);
        assert(all.contains(k));
        assert(all.to_multiset().count(k) > 0);
        assert(order.to_multiset().count(k) > 0);
    }
}

fn leq(keys: &[u64], a: usize, b: usize) -> (r: bool)
    requires
        a < keys.len(),
        b < keys.len(),
    ensures
        r == no_later(keys@, a, b),
{
    keys[a] < keys[b] || (keys[a] == keys[b] && a <= b)
}

spec fn in_range(s: Seq<usize>, n: int) -> bool {
    forall|i: int| 0 <= i < s.len() ==> #[trigger] s[i] < n
}

proof fn lemma_take_push(s: Seq<usize>, i: int)
    requires
        0 <= i < s.len(),
    ensures
        s.take(i + 1).to_multiset() == s.take(i).to_multiset().insert(s[i]),
{
    assert(s.take(i + 1) =~= s.take(i).push(s[i]));
}

/// Two runs of indices merged into one.
fn merge(keys: &[u64], a: &Vec<usize>, b: &Vec<usize>) -> (out: Vec<usize>)
    requires
        in_range(a@, keys@.len() as int),
        in_range(b@, keys@.len() as int),
        sorted_by(a@, by_key(keys@)),
        sorted_by(b@, by_key(keys@)),
    ensures
        in_range(out@, keys@.len() as int),
        sorted_by(out@, by_key(keys@)),
        out@.to_multiset() == a@.to_multiset().add(b@.to_multiset()),
{
    let mut out: Vec<usize> = Vec::new();
    let mut i: usize = 0;
    let mut j: usize = 0;
    proof {
        lemma_total(keys@);
        assert(out@.to_multiset() =~= a@.take(0).to_multiset().add(b@.take(0).to_multiset()));
    }
    while i < a.len() || j < b.len()
        invariant
            i <= a.len(),
            j <= b.len(),
            in_range(a@, keys@.len() as int),
            in_range(b@, keys@.len() as int),
            in_range(out@, keys@.len() as int),
            sorted_by(a@, by_key(keys@)),
            sorted_by(b@, by_key(keys@)),
            sorted_by(out@, by_key(keys@)),
            total_ordering(by_key(keys@)),
            forall|k: int, m: int|
                0 <= k < out.len() && i <= m < a.len() ==> no_later(
                    keys@,
                    #[trigger] out@[k],
                    #[trigger] a@[m],
                ),
            forall|k: int, m: int|
                0 <= k < out.len() && j <= m < b.len() ==> no_later(
                    keys@,
                    #[trigger] out@[k],
                    #[trigger] b@[m],
                ),
            out@.to_multiset() == a@.take(i as int).to_multiset().add(
                b@.take(j as int).to_multiset(),
            ),
        decreases (a.len() - i) + (b.len() - j),
    {
        let ghost before = out@;
        let from_a: bool = j >= b.len() || (i < a.len() && leq(keys, a[i], b[j]));
        if from_a {
            out.push(a[i]);
            proof {
                lemma_take_push(a@, i as int);
                assert forall|m: int| i < m < a.len() implies no_later(
                    keys@,
                    a@[i as int],
                    #[trigger] a@[m],
                ) by {
                    assert(by_key(keys@)(a@[i as int], a@[m]));
                }
                assert forall|m: int| j <= m < b.len() implies no_later(
                    keys@,
                    a@[i as int],
                    #[trigger] b@[m],
                ) by {
                    if j < m {
                        assert(by_key(keys@)(b@[j as int], b@[m]));
                    }
                }
            }
            i += 1;
        } else {
            out.push(b[j]);
            proof {
                lemma_take_push(b@, j as int);
                assert forall|m: int| j < m < b.len() implies no_later(
                    keys@,
                    b@[j as int],
                    #[trigger] b@[m],
                ) by {
                    assert(by_key(keys@)(b@[j as int], b@[m]));
                }
                assert forall|m: int| i <= m < a.len() implies no_later(
                    keys@,
                    b@[j as int],
                    #[trigger] a@[m],
                ) by {
                    if i < m {
                        assert(by_key(keys@)(a@[i as int], a@[m]));
                    }
                }
            }
            j += 1;
        }
        proof {
            assert(out@.to_multiset() =~= before.to_multiset().insert(out@.last()));
            assert(out@.to_multiset() =~= a@.take(i as int).to_multiset().add(
                b@.take(j as int).to_multiset(),
            ));
            assert forall|k: int, m: int| 0 <= k < m < out.len() implies #[trigger] by_key(keys@)(
                out@[k],
                out@[m],
            ) by {
                if m < before.len() {
                    assert(by_key(keys@)(before[k], before[m]));
                }
            }
        }
    }
    assert(a@.take(i as int) =~= a@);
    assert(b@.take(j as int) =~= b@);
    out
}

/// The indices from `lo` up to and without `hi`, sorted.
fn sort_between(keys: &[u64], lo: usize, hi: usize) -> (out: Vec<usize>)
    requires
        lo <= hi <= keys.len(),
    ensures
        in_range(out@, keys@.len() as int),
        sorted_by(out@, by_key(keys@)),
        out@.to_multiset() == between(lo as int, hi as int).to_multiset(),
    decreases hi - lo,
{
    if hi - lo <= 1 {
        let mut out: Vec<usize> = Vec::new();
        if lo < hi {
            out.push(lo);
        }
        assert(out@ =~= between(lo as int, hi as int));
        return out;
    }
    let mid: usize = lo + (hi - lo) / 2;
    let a = sort_between(keys, lo, mid);
    let b = sort_between(keys, mid, hi);
    let out = merge(keys, &a, &b);
    proof {
        let x = between(lo as int, mid as int);
        let y = between(mid as int, hi as int);
        assert(between(lo as int, hi as int) =~= x + y);
        vstd::seq_lib::lemma_multiset_commutative(x, y);
    }
    out
}

/// The indices of some keys in the order of the keys, equal ones in the order of the indices.
pub fn stable_order(keys: &[u64]) -> (out: Vec<usize>)
    ensures
        out@ == order_of(keys@),
{
    let out = sort_between(keys, 0, keys.len());
    proof {
        lemma_total(keys@);
        let all = between(0, keys@.len() as int);
        all.lemma_sort_by_ensures(by_key(keys@));
        lemma_sorted_unique(out@, order_of(keys@), by_key(keys@));
    }
    out
}

/// Sorting puts smaller keys in front of larger ones and leaves equal ones in the order they had.
pub proof fn law_smaller_keys_come_first(keys: Seq<u64>, i: int, j: int)
    requires
        keys.len() <= usize::MAX,
        0 <= i < j < order_of(keys).len(),
    ensures
        ({
            let a = order_of(keys)[i] as int;
            let b = order_of(keys)[j] as int;
            &&& 0 <= a < keys.len() && 0 <= b < keys.len()
            &&& keys[a] <= keys[b]
            &&& keys[a] == keys[b] ==> a < b
        }),
        order_of(keys).len() == keys.len(),
{
    law_order(keys);
}

} // verus!

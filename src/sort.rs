use vstd::prelude::*;

verus! {

broadcast use vstd::seq_lib::group_to_multiset_ensures, vstd::multiset::group_multiset_axioms;

/// A value that is ordered by an integer key.
pub trait Keyed {
    spec fn key(&self) -> int;

    fn key_of(&self) -> (k: i128)
        ensures
            k as int == self.key(),
    ;
}

impl Keyed for i128 {
    open spec fn key(&self) -> int {
        *self as int
    }

    fn key_of(&self) -> (k: i128) {
        *self
    }
}

/// `a` may stand before `b`: ascending keys, or descending ones.
pub open spec fn in_order(a: int, b: int, descending: bool) -> bool {
    if descending {
        a >= b
    } else {
        a <= b
    }
}

/// Every pair of items stands in key order.
pub open spec fn sorted_keys<T: Keyed>(s: Seq<T>, descending: bool) -> bool {
    forall|i: int, j: int| 0 <= i < j < s.len() ==> in_order(#[trigger] s[i].key(), #[trigger] s[j].key(), descending)
}

/// Sorts `v` by key, ascending or descending; items of equal key may come in any order.
pub fn sort_by_key<T: Keyed>(v: Vec<T>, descending: bool) -> (r: Vec<T>)
    ensures
        r@.to_multiset() == v@.to_multiset(),
        sorted_keys(r@, descending),
{
    let mut rest = v;
    let mut out: Vec<T> = Vec::new();
    while rest.len() > 0
        invariant
            out@.to_multiset().add(rest@.to_multiset()) == v@.to_multiset(),
            sorted_keys(out@, descending),
        decreases rest.len(),
    {
        let ghost before = rest@;
        let x = match rest.pop() {
            Some(x) => x,
            None => { return out; },
        };
        proof {
            assert(before == rest@.push(x));
        }
        let kx = x.key_of();
        let mut i: usize = 0;
        loop
            invariant
                i <= out@.len(),
                sorted_keys(out@, descending),
                kx as int == x.key(),
                forall|j: int| 0 <= j < i ==> in_order(#[trigger] out@[j].key(), kx as int, descending),
            ensures
                i <= out@.len(),
                forall|j: int| 0 <= j < i ==> in_order(#[trigger] out@[j].key(), kx as int, descending),
                i < out@.len() ==> !in_order(out@[i as int].key(), kx as int, descending),
            decreases out@.len() - i,
        {
            if i >= out.len() {
                break;
            }
            let ki = out[i].key_of();
            let fits = if descending { ki >= kx } else { ki <= kx };
            if !fits {
                break;
            }
            i = i + 1;
        }
        let ghost old_out = out@;
        out.insert(i, x);
        proof {
            assert forall|a: int, b: int| 0 <= a < b < out@.len() implies in_order(
                #[trigger] out@[a].key(),
                #[trigger] out@[b].key(),
                descending,
            ) by {
                if b < i {
                    assert(out@[a] == old_out[a] && out@[b] == old_out[b]);
                } else if b == i {
                    assert(out@[a] == old_out[a]);
                } else if a == i {
                    assert(out@[b] == old_out[b - 1]);
                    assert(in_order(old_out[i as int].key(), old_out[b - 1].key(), descending));
                } else if a < i {
                    assert(out@[a] == old_out[a] && out@[b] == old_out[b - 1]);
                } else {
                    assert(out@[a] == old_out[a - 1] && out@[b] == old_out[b - 1]);
                }
            }
            assert(out@.to_multiset() == old_out.to_multiset().insert(x));
            assert(before.to_multiset() == rest@.to_multiset().insert(x));
        }
    }
    out
}

/// Two ascending sequences of integers with the same items are equal.
pub proof fn lemma_sorted_unique(a: Seq<i128>, b: Seq<i128>)
    requires
        sorted_keys(a, false),
        sorted_keys(b, false),
        a.to_multiset() == b.to_multiset(),
    ensures
        a == b,
    decreases a.len(),
{
    assert(a.len() == a.to_multiset().len());
    assert(b.len() == b.to_multiset().len());
    if a.len() > 0 {
        assert(a.contains(a[0]));
        assert(b.to_multiset().count(a[0]) > 0);
        assert(b.contains(a[0]));
        let j = choose|j: int| 0 <= j < b.len() && b[j] == a[0];
        assert(b.contains(b[0]));
        assert(a.to_multiset().count(b[0]) > 0);
        assert(a.contains(b[0]));
        let k = choose|k: int| 0 <= k < a.len() && a[k] == b[0];
        if j > 0 {
            assert(in_order(b[0].key(), b[j].key(), false));
        }
        if k > 0 {
            assert(in_order(a[0].key(), a[k].key(), false));
        }
        assert(a[0] == b[0]);
        assert(a.remove(0).to_multiset() == a.to_multiset().remove(a[0]));
        assert(b.remove(0).to_multiset() == b.to_multiset().remove(b[0]));
        assert(a.remove(0) == a.drop_first());
        assert(b.remove(0) == b.drop_first());
        assert(sorted_keys(a.drop_first(), false)) by {
            assert forall|i: int, j: int| 0 <= i < j < a.drop_first().len() implies in_order(
                #[trigger] a.drop_first()[i].key(),
                #[trigger] a.drop_first()[j].key(),
                false,
            ) by {
                assert(in_order(a[i + 1].key(), a[j + 1].key(), false));
            }
        }
        assert(sorted_keys(b.drop_first(), false)) by {
            assert forall|i: int, j: int| 0 <= i < j < b.drop_first().len() implies in_order(
                #[trigger] b.drop_first()[i].key(),
                #[trigger] b.drop_first()[j].key(),
                false,
            ) by {
                assert(in_order(b[i + 1].key(), b[j + 1].key(), false));
            }
        }
        lemma_sorted_unique(a.drop_first(), b.drop_first());
        assert(a == seq![a[0]] + a.drop_first());
        assert(b == seq![b[0]] + b.drop_first());
    }
}

} // verus!

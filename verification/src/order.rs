//! Stable ordering by integer keys.

use crate::text::{lemma_lex_le_total, lemma_lex_le_transitive, lex_le, lex_le_chars};
use vstd::prelude::*;

verus! {

/// A key that items are sorted by: it stands for a value, and the values are in
/// a total order that the keys can be tested for.
pub trait SortKey: Sized {
    /// What a key stands for.
    type Value;

    spec fn value(&self) -> Self::Value;

    /// `a` is at most `b`.
    spec fn le(a: Self::Value, b: Self::Value) -> bool;

    fn is_le(&self, other: &Self) -> (r: bool)
        ensures
            r == Self::le(self.value(), other.value()),
    ;

    /// Of two values one is at most the other.
    proof fn le_total(a: Self::Value, b: Self::Value)
        ensures
            Self::le(a, b) || Self::le(b, a),
    ;

    /// What is at most something that is at most a third is at most the third.
    proof fn le_transitive(a: Self::Value, b: Self::Value, c: Self::Value)
        requires
            Self::le(a, b),
            Self::le(b, c),
        ensures
            Self::le(a, c),
    ;
}

/// Whole numbers, in their order.
impl SortKey for i128 {
    type Value = int;

    open spec fn value(&self) -> int {
        *self as int
    }

    open spec fn le(a: int, b: int) -> bool {
        a <= b
    }

    fn is_le(&self, other: &Self) -> (r: bool) {
        *self <= *other
    }

    proof fn le_total(a: int, b: int) {
    }

    proof fn le_transitive(a: int, b: int, c: int) {
    }
}

/// Texts, in the order of a dictionary.
impl SortKey for Vec<char> {
    type Value = Seq<char>;

    open spec fn value(&self) -> Seq<char> {
        self@
    }

    open spec fn le(a: Seq<char>, b: Seq<char>) -> bool {
        lex_le(a, b)
    }

    fn is_le(&self, other: &Self) -> (r: bool) {
        lex_le_chars(self, other)
    }

    proof fn le_total(a: Seq<char>, b: Seq<char>) {
        lemma_lex_le_total(a, b);
    }

    proof fn le_transitive(a: Seq<char>, b: Seq<char>, c: Seq<char>) {
        lemma_lex_le_transitive(a, b, c);
    }
}

/// What each of `keys` stands for.
pub open spec fn values<K: SortKey>(keys: Seq<K>) -> Seq<K::Value> {
    Seq::new(keys.len(), |i: int| keys[i].value())
}

/// `order` lists each of the numbers from zero up to `n`, `n` left out, once.
pub open spec fn is_permutation(order: Seq<int>, n: int) -> bool {
    &&& order.len() == n
    &&& forall|k: int| 0 <= k < n ==> 0 <= #[trigger] order[k] < n
    &&& forall|a: int, b: int| 0 <= a < b < n ==> order[a] != order[b]
    &&& forall|v: int| 0 <= v < n ==> order.contains(v)
}

/// The item at `i` goes before the item at `j`: its key is smaller, or the keys
/// are equal and it stood first.
pub open spec fn goes_before<K: SortKey>(keys: Seq<K::Value>, i: int, j: int) -> bool {
    if i < j {
        K::le(keys[i], keys[j])
    } else {
        i != j && !K::le(keys[j], keys[i])
    }
}

/// `order` lists the positions of `keys` by ascending key, positions with equal
/// keys in ascending order.
pub open spec fn is_stable_order<K: SortKey>(keys: Seq<K::Value>, order: Seq<int>) -> bool {
    &&& is_permutation(order, keys.len() as int)
    &&& forall|a: int, b: int|
        0 <= a < b < order.len() ==> goes_before::<K>(
            keys,
            #[trigger] order[a],
            #[trigger] order[b],
        )
}

/// The one order of `keys` that is stable.
pub open spec fn stable_order<K: SortKey>(keys: Seq<K::Value>) -> Seq<int> {
    choose|order: Seq<int>| is_stable_order::<K>(keys, order)
}

/// `items` sorted by ascending key, where `keys[i]` is the key of `items[i]`;
/// items with equal keys keep the order they had.
pub open spec fn sorted_by<K: SortKey, T>(keys: Seq<K::Value>, items: Seq<T>) -> Seq<T> {
    Seq::new(items.len(), |k: int| items[stable_order::<K>(keys)[k]])
}

/// Two stable orders of the same keys agree up to any position.
proof fn lemma_stable_orders_agree<K: SortKey>(
    keys: Seq<K::Value>,
    o1: Seq<int>,
    o2: Seq<int>,
    n: int,
)
    requires
        is_stable_order::<K>(keys, o1),
        is_stable_order::<K>(keys, o2),
        0 <= n <= keys.len(),
    ensures
        forall|k: int| 0 <= k < n ==> o1[k] == o2[k],
    decreases n,
{
    if n > 0 {
        lemma_stable_orders_agree::<K>(keys, o1, o2, n - 1);
        let k = n - 1;
        let v = o1[k];
        let w = o2[k];
        if v != w {
            assert(o2.contains(v));
            let kv = choose|i: int| 0 <= i < o2.len() && o2[i] == v;
            if kv < k {
                assert(o1[kv] == v);
            }
            assert(kv > k);
            assert(goes_before::<K>(keys, o2[k], o2[kv]));
            assert(o1.contains(w));
            let kw = choose|i: int| 0 <= i < o1.len() && o1[i] == w;
            if kw < k {
                assert(o2[kw] == w);
            }
            assert(kw > k);
            assert(goes_before::<K>(keys, o1[k], o1[kw]));
            assert(false);
        }
    }
}

/// The keys have one stable order only.
pub proof fn lemma_stable_order_unique<K: SortKey>(keys: Seq<K::Value>, order: Seq<int>)
    requires
        is_stable_order::<K>(keys, order),
    ensures
        order == stable_order::<K>(keys),
{
    let other = stable_order::<K>(keys);
    lemma_stable_orders_agree::<K>(keys, order, other, keys.len() as int);
    assert(order =~= other);
}

/// Where a new item goes among those in `prev`: behind the leading ones whose
/// key is at most its own.
proof fn lemma_place<K: SortKey>(keys: Seq<K::Value>, prev: Seq<int>, last: int, from: int) -> (p:
    int)
    requires
        0 <= from <= prev.len(),
        forall|a: int| 0 <= a < from ==> K::le(keys[#[trigger] prev[a]], keys[last]),
    ensures
        from <= p <= prev.len(),
        forall|a: int| 0 <= a < p ==> K::le(keys[#[trigger] prev[a]], keys[last]),
        p == prev.len() || !K::le(keys[prev[p]], keys[last]),
    decreases prev.len() - from,
{
    if from == prev.len() || !K::le(keys[prev[from]], keys[last]) {
        from
    } else {
        lemma_place::<K>(keys, prev, last, from + 1)
    }
}

/// The first `n` of `keys` have a stable order.
proof fn lemma_make_stable_order<K: SortKey>(keys: Seq<K::Value>, n: int) -> (order: Seq<int>)
    requires
        0 <= n <= keys.len(),
    ensures
        is_permutation(order, n),
        forall|a: int, b: int|
            0 <= a < b < n ==> goes_before::<K>(keys, #[trigger] order[a], #[trigger] order[b]),
    decreases n,
{
    if n == 0 {
        Seq::<int>::empty()
    } else {
        let prev = lemma_make_stable_order::<K>(keys, n - 1);
        let last = n - 1;
        let p = lemma_place::<K>(keys, prev, last, 0);
        let order = Seq::new(
            n as nat,
            |k: int|
                if k < p {
                    prev[k]
                } else if k == p {
                    last
                } else {
                    prev[k - 1]
                },
        );
        // what stands behind the place has a greater key
        assert forall|b: int| p <= b < prev.len() implies !K::le(
            keys[#[trigger] prev[b]],
            keys[last],
        ) by {
            if b > p && K::le(keys[prev[b]], keys[last]) {
                assert(goes_before::<K>(keys, prev[p], prev[b]));
                K::le_total(keys[prev[p]], keys[prev[b]]);
                K::le_transitive(keys[prev[p]], keys[prev[b]], keys[last]);
            }
        }
        assert forall|k: int| 0 <= k < n implies 0 <= #[trigger] order[k] < n by {
            if k < p {
                assert(0 <= prev[k] < n - 1);
            } else if k > p {
                assert(0 <= prev[k - 1] < n - 1);
            }
        }
        assert forall|a: int, b: int| 0 <= a < b < n implies order[a] != order[b] by {
            let x = if a < p {
                a
            } else {
                a - 1
            };
            let y = if b < p {
                b
            } else {
                b - 1
            };
            if a != p && b != p {
                assert(prev[x] != prev[y]);
            } else if a == p {
                assert(0 <= prev[y] < n - 1);
            } else {
                assert(0 <= prev[x] < n - 1);
            }
        }
        assert forall|v: int| 0 <= v < n implies order.contains(v) by {
            if v == last {
                assert(order[p] == v);
            } else {
                assert(prev.contains(v));
                let at = choose|at: int| 0 <= at < prev.len() && prev[at] == v;
                if at < p {
                    assert(order[at] == v);
                } else {
                    assert(order[at + 1] == v);
                }
            }
        }
        assert forall|a: int, b: int| 0 <= a < b < n implies goes_before::<K>(
            keys,
            #[trigger] order[a],
            #[trigger] order[b],
        ) by {
            let x = if a < p {
                a
            } else {
                a - 1
            };
            let y = if b < p {
                b
            } else {
                b - 1
            };
            if a != p && b != p {
                assert(goes_before::<K>(keys, prev[x], prev[y]));
            } else if b == p {
                assert(0 <= prev[x] < n - 1);
                assert(K::le(keys[prev[x]], keys[last]));
            } else {
                assert(0 <= prev[y] < n - 1);
                assert(!K::le(keys[prev[y]], keys[last]));
            }
        }
        order
    }
}

/// Keys have their stable order, whatever they are: what `stable_order` lists
/// is one, so that what is `sorted_by` them is the same items, rearranged.
pub proof fn law_stable_order_exists<K: SortKey>(keys: Seq<K::Value>)
    ensures
        is_stable_order::<K>(keys, stable_order::<K>(keys)),
{
    let order = lemma_make_stable_order::<K>(keys, keys.len() as int);
    assert(is_stable_order::<K>(keys, order));
}

/// The numbers that `v` holds.
pub open spec fn ints(v: Seq<usize>) -> Seq<int> {
    Seq::new(v.len(), |i: int| v[i] as int)
}

/// `items` rearranged so that the item at `k` is the one that stood at `order[k]`.
pub open spec fn arranged<T>(before: Seq<T>, after: Seq<T>, order: Seq<int>) -> bool {
    &&& after.len() == before.len()
    &&& order.len() == before.len()
    &&& forall|k: int| 0 <= k < after.len() ==> after[k] == before[#[trigger] order[k]]
}

/// Sorts `items` by ascending key, where `keys[i]` is the key of `items[i]`, and
/// keeps items with equal keys in the order they had. Returns where each item
/// stood before.
pub fn sort_by_keys<K: SortKey, T>(keys: &Vec<K>, items: &mut Vec<T>) -> (order: Vec<usize>)
    requires
        keys.len() == old(items).len(),
    ensures
        is_stable_order::<K>(values(keys@), ints(order@)),
        arranged(old(items)@, final(items)@, ints(order@)),
        final(items)@ == sorted_by::<K, T>(values(keys@), old(items)@),
{
    let n = keys.len();
    let ghost ks = values(keys@);
    let mut order: Vec<usize> = Vec::new();
    let mut i: usize = 0;
    while i < n
        invariant
            i <= n,
            order.len() == i,
            forall|k: int| 0 <= k < i ==> order@[k] == k,
        decreases n - i,
    {
        order.push(i);
        i += 1;
    }
    assert forall|v: int| 0 <= v < n implies ints(order@).contains(v) by {
        assert(ints(order@)[v] == v);
    }
    let mut i: usize = 0;
    while i < n
        invariant
            i <= n,
            n == keys.len(),
            ks == values(keys@),
            is_permutation(ints(order@), n as int),
            arranged(old(items)@, items@, ints(order@)),
            forall|k: int| i <= k < n ==> order@[k] == k,
            forall|k: int| 0 <= k < i ==> order@[k] < i,
            forall|a: int, b: int|
                0 <= a < b < i ==> goes_before::<K>(
                    ks,
                    #[trigger] order@[a] as int,
                    #[trigger] order@[b] as int,
                ),
        decreases n - i,
    {
        let key = &keys[i];
        let mut j: usize = i;
        while j > 0 && !keys[order[j - 1]].is_le(key)
            invariant
                j <= i < n,
                n == keys.len(),
                order.len() == n,
                *key == keys@[i as int],
                forall|k: int| 0 <= k < n ==> 0 <= #[trigger] order@[k] < n,
                forall|k: int|
                    j <= k < i ==> !K::le((#[trigger] keys@[order@[k] as int]).value(), key.value()),
            decreases j,
        {
            j -= 1;
        }
        let ghost before_order = order@;
        let ghost before_items = items@;
        let moved = order.remove(i);
        order.insert(j, moved);
        let item = items.remove(i);
        items.insert(j, item);
        proof {
            let o = order@;
            assert(o.len() == n);
            assert forall|k: int| 0 <= k < n implies #[trigger] o[k] == (if k < j {
                before_order[k]
            } else if k == j {
                i
            } else if k <= i {
                before_order[k - 1]
            } else {
                before_order[k]
            }) by {}
            assert forall|k: int| 0 <= k < n implies #[trigger] items@[k] == (if k < j {
                before_items[k]
            } else if k == j {
                before_items[i as int]
            } else if k <= i {
                before_items[k - 1]
            } else {
                before_items[k]
            }) by {}
            assert forall|k: int| 0 <= k < n implies 0 <= #[trigger] ints(o)[k] < n by {
                if k < j {
                    assert(ints(before_order)[k] == before_order[k]);
                } else if k == j {
                } else if k <= i {
                    assert(ints(before_order)[k - 1] == before_order[k - 1]);
                } else {
                    assert(ints(before_order)[k] == before_order[k]);
                }
            }
            assert forall|a: int, b: int| 0 <= a < b < n implies ints(o)[a] != ints(o)[b] by {
                let pa = if a < j {
                    a
                } else if a == j {
                    i as int
                } else if a <= i {
                    a - 1
                } else {
                    a
                };
                let pb = if b < j {
                    b
                } else if b == j {
                    i as int
                } else if b <= i {
                    b - 1
                } else {
                    b
                };
                assert(ints(o)[a] == ints(before_order)[pa]);
                assert(ints(o)[b] == ints(before_order)[pb]);
                assert(pa != pb);
                if pa < pb {
                    assert(ints(before_order)[pa] != ints(before_order)[pb]);
                } else {
                    assert(ints(before_order)[pb] != ints(before_order)[pa]);
                }
            }
            assert forall|v: int| 0 <= v < n implies ints(o).contains(v) by {
                assert(ints(before_order).contains(v));
                let p = choose|p: int| 0 <= p < n && ints(before_order)[p] == v;
                let q = if p < j {
                    p
                } else if p == i {
                    j as int
                } else if p < i {
                    p + 1
                } else {
                    p
                };
                assert(ints(o)[q] == v);
            }
            assert forall|k: int| 0 <= k < items@.len() implies items@[k] == old(items)@[#[trigger] ints(
                o,
            )[k]] by {
                if k < j {
                    assert(ints(before_order)[k] == before_order[k]);
                } else if k == j {
                    assert(ints(before_order)[i as int] == i);
                } else if k <= i {
                    assert(ints(before_order)[k - 1] == before_order[k - 1]);
                } else {
                    assert(ints(before_order)[k] == before_order[k]);
                }
            }
            assert forall|a: int, b: int| 0 <= a < b < i + 1 implies goes_before::<K>(
                ks,
                #[trigger] o[a] as int,
                #[trigger] o[b] as int,
            ) by {
                let kv = key.value();
                assert(kv == ks[i as int]);
                if b < j {
                } else if b == j {
                    assert(o[a] == before_order[a]);
                    let last = before_order[j - 1] as int;
                    let mine = before_order[a] as int;
                    assert(ks[last] == keys@[last].value());
                    assert(K::le(ks[last], kv));
                    if a < j - 1 {
                        assert(goes_before::<K>(ks, mine, last));
                        K::le_total(ks[mine], ks[last]);
                        K::le_transitive(ks[mine], ks[last], kv);
                    }
                    assert(before_order[a] < i);
                } else {
                    assert(o[b] == before_order[b - 1]);
                    if a < j {
                        assert(o[a] == before_order[a]);
                    } else if a == j {
                        assert(ks[before_order[b - 1] as int] == keys@[before_order[b - 1] as int].value());
                        assert(!K::le(ks[before_order[b - 1] as int], kv));
                    } else {
                        assert(o[a] == before_order[a - 1]);
                    }
                }
            }
        }
        i += 1;
    }
    proof {
        lemma_stable_order_unique::<K>(ks, ints(order@));
        assert(items@ =~= sorted_by::<K, T>(ks, old(items)@));
    }
    order
}

} // verus!

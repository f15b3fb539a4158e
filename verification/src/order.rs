//! Putting things in the order of their names.

use crate::text;
use vstd::prelude::*;

verus! {

/// Whether item `a` goes before item `b`: by key, then by position.
pub open spec fn goes_before(keys: Seq<Seq<char>>, a: int, b: int) -> bool {
    text::sorts_before(keys[a], keys[b]) || (keys[a] == keys[b] && a < b)
}

/// `r` lists every position once, in the order of the keys; equal keys keep
/// the order they came in.
pub open spec fn is_order(keys: Seq<Seq<char>>, r: Seq<usize>) -> bool {
    &&& r.len() == keys.len()
    &&& forall|i: int| 0 <= i < r.len() ==> (#[trigger] r[i]) < keys.len()
    &&& forall|i: int, j: int|
        0 <= i < j < r.len() ==> goes_before(keys, #[trigger] r[i] as int, #[trigger] r[j] as int)
}

proof fn lemma_goes_before_transitive(keys: Seq<Seq<char>>, a: int, b: int, c: int)
    requires
        goes_before(keys, a, b),
        goes_before(keys, b, c),
    ensures
        goes_before(keys, a, c),
{
    if text::sorts_before(keys[a], keys[b]) && text::sorts_before(keys[b], keys[c]) {
        text::lemma_order_transitive(keys[a], keys[b], keys[c]);
    }
}

/// The positions of `keys` in the order of the keys.
pub fn order(keys: &Vec<Vec<char>>) -> (r: Vec<usize>)
    ensures
        is_order(text::contents(keys@), r@),
{
    let ghost all = text::contents(keys@);
    let mut out: Vec<usize> = Vec::new();
    let mut i: usize = 0;
    while i < keys.len()
        invariant
            i <= keys@.len(),
            all == text::contents(keys@),
            is_order(all.take(i as int), out@),
        decreases keys@.len() - i,
    {
        let ghost before = out@;
        let ghost now = all.take(i as int + 1);
        let mut at: usize = out.len();
        proof {
            assert forall|a: int, b: int| 0 <= a < i && 0 <= b < i implies goes_before(now, a, b)
                == goes_before(all.take(i as int), a, b) by {
                assert(now[a] == all.take(i as int)[a] && now[b] == all.take(i as int)[b]);
            }
        }
        while at > 0 && text::is_sorted_before(keys[i].as_slice(), keys[out[at - 1]].as_slice())
            invariant
                at <= out@.len(),
                out@ == before,
                i < keys@.len(),
                all == text::contents(keys@),
                now == all.take(i as int + 1),
                out@.len() == i,
                forall|j: int| 0 <= j < out@.len() ==> (#[trigger] out@[j]) < i,
                forall|j: int|
                    at <= j < out@.len() ==> goes_before(now, i as int, #[trigger] out@[j] as int),
            decreases at,
        {
            at = at - 1;
        }
        proof {
            // Everything below the place found goes before the new item.
            assert forall|j: int| 0 <= j < at implies goes_before(now, #[trigger] out@[j] as int, i as int) by {
                let last = out@[at - 1] as int;
                text::lemma_order_total(now[last], now[i as int]);
                assert(goes_before(now, last, i as int));
                if j < at - 1 {
                    assert(goes_before(now, out@[j] as int, last));
                    lemma_goes_before_transitive(now, out@[j] as int, last, i as int);
                }
            }
        }
        out.insert(at, i);
        proof {
            assert forall|a: int, b: int| 0 <= a < b < out@.len() implies goes_before(
                now,
                #[trigger] out@[a] as int,
                #[trigger] out@[b] as int,
            ) by {
                let a0 = if a < at { a } else { a - 1 };
                let b0 = if b < at { b } else { b - 1 };
                if a != at && b != at {
                    assert(out@[a] == before[a0] && out@[b] == before[b0]);
                    assert(goes_before(all.take(i as int), before[a0] as int, before[b0] as int));
                } else if a == at {
                    assert(out@[b] == before[b0]);
                } else {
                    assert(out@[a] == before[a0]);
                }
            }
        }
        i = i + 1;
    }
    assert(all.take(i as int) == all);
    out
}

/// Where an item with the key `x` goes among the first `n` of those in order:
/// behind all that it does not sort before.
proof fn lemma_place(keys: Seq<Seq<char>>, r: Seq<usize>, x: Seq<char>, n: int) -> (at: int)
    requires
        is_order(keys, r),
        0 <= n <= r.len(),
    ensures
        0 <= at <= n,
        forall|j: int|
            0 <= j < at ==> !text::sorts_before(x, keys[(#[trigger] r[j]) as int]),
        forall|j: int| at <= j < n ==> text::sorts_before(x, keys[(#[trigger] r[j]) as int]),
    decreases n,
{
    if n == 0 {
        0
    } else if text::sorts_before(x, keys[r[n - 1] as int]) {
        lemma_place(keys, r, x, n - 1)
    } else {
        let last = keys[r[n - 1] as int];
        assert forall|j: int| 0 <= j < n implies !text::sorts_before(
            x,
            keys[(#[trigger] r[j]) as int],
        ) by {
            if j < n - 1 {
                let k = keys[r[j] as int];
                assert(goes_before(keys, r[j] as int, r[n - 1] as int));
                if text::sorts_before(x, k) && text::sorts_before(k, last) {
                    text::lemma_order_transitive(x, k, last);
                }
            }
        }
        n
    }
}

/// One more item takes a place among those that are in order.
pub proof fn lemma_order_extends(keys: Seq<Seq<char>>, r: Seq<usize>) -> (at: int)
    requires
        0 < keys.len() <= usize::MAX,
        is_order(keys.drop_last(), r),
    ensures
        0 <= at <= r.len(),
        is_order(keys, r.insert(at, (keys.len() - 1) as usize)),
{
    let front = keys.drop_last();
    let n = keys.len() - 1;
    let x = keys.last();
    let at = lemma_place(front, r, x, r.len() as int);
    let w = r.insert(at, n as usize);
    assert forall|i: int| 0 <= i < w.len() implies (#[trigger] w[i]) < keys.len() by {
        let i0 = if i < at { i } else { i - 1 };
        if i != at {
            assert(w[i] == r[i0]);
        }
    }
    assert forall|i: int, j: int| 0 <= i < j < w.len() implies goes_before(
        keys,
        #[trigger] w[i] as int,
        #[trigger] w[j] as int,
    ) by {
        let i0 = if i < at { i } else { i - 1 };
        let j0 = if j < at { j } else { j - 1 };
        if i != at && j != at {
            assert(w[i] == r[i0] && w[j] == r[j0]);
            assert(goes_before(front, r[i0] as int, r[j0] as int));
        } else if i == at {
            assert(w[j] == r[j0]);
            assert(text::sorts_before(x, front[r[j0] as int]));
        } else {
            assert(w[i] == r[i0]);
            assert(!text::sorts_before(x, front[r[i0] as int]));
            text::lemma_order_total(x, front[r[i0] as int]);
        }
    }
    at
}

/// Every list has such an order.
pub proof fn lemma_some_order(keys: Seq<Seq<char>>) -> (r: Seq<usize>)
    requires
        keys.len() <= usize::MAX,
    ensures
        is_order(keys, r),
    decreases keys.len(),
{
    if keys.len() == 0 {
        Seq::empty()
    } else {
        let r = lemma_some_order(keys.drop_last());
        let at = lemma_order_extends(keys, r);
        r.insert(at, (keys.len() - 1) as usize)
    }
}

/// There is one such order.
pub proof fn lemma_one_order(keys: Seq<Seq<char>>, r: Seq<usize>, t: Seq<usize>)
    requires
        is_order(keys, r),
        is_order(keys, t),
    ensures
        r == t,
{
    assert forall|i: int| 0 <= i < r.len() implies r[i] == t[i] by {
        lemma_rank(keys, r, i);
        lemma_rank(keys, t, i);
        if r[i] != t[i] {
            let a = r[i] as int;
            let b = t[i] as int;
            text::lemma_order_total(keys[a], keys[b]);
            if goes_before(keys, a, b) {
                lemma_fewer(keys, a, b);
            } else {
                lemma_fewer(keys, b, a);
            }
        }
    }
}

/// The positions that go before `a`.
spec fn earlier(keys: Seq<Seq<char>>, a: int) -> Set<int> {
    vstd::set_lib::set_int_range(0, keys.len() as int).filter(|b: int| goes_before(keys, b, a))
}

proof fn lemma_fewer(keys: Seq<Seq<char>>, a: int, b: int)
    requires
        0 <= a < keys.len(),
        0 <= b < keys.len(),
        goes_before(keys, a, b),
    ensures
        earlier(keys, a).len() < earlier(keys, b).len(),
{
    let x = earlier(keys, a);
    let y = earlier(keys, b);
    vstd::set_lib::lemma_int_range(0, keys.len() as int);
    assert(!x.contains(a)) by {
        text::lemma_order_total(keys[a], keys[a]);
    }
    assert forall|c: int| x.insert(a).contains(c) implies y.contains(c) by {
        if c != a {
            lemma_goes_before_transitive(keys, c, a, b);
        }
    }
    vstd::set_lib::lemma_len_subset(x.insert(a), y);
}

/// In an order, as many positions go before an item as stand before it.
proof fn lemma_rank(keys: Seq<Seq<char>>, r: Seq<usize>, i: int)
    requires
        is_order(keys, r),
        0 <= i < r.len(),
    ensures
        earlier(keys, r[i] as int).len() == i,
{
    let v = r.map_values(|x: usize| x as int);
    assert(v.no_duplicates()) by {
        assert forall|a: int, b: int| 0 <= a < v.len() && 0 <= b < v.len() && a != b implies v[a]
            != v[b] by {
            text::lemma_order_total(keys[v[a]], keys[v[a]]);
            if a < b {
                assert(goes_before(keys, r[a] as int, r[b] as int));
            } else {
                assert(goes_before(keys, r[b] as int, r[a] as int));
            }
        }
    }
    let n = keys.len() as int;
    vstd::set_lib::lemma_int_range(0, n);
    v.unique_seq_to_set();
    // v lists all of 0..n.
    assert(v.to_set().subset_of(vstd::set_lib::set_int_range(0, n)));
    vstd::set_lib::lemma_subset_equality(v.to_set(), vstd::set_lib::set_int_range(0, n));
    let front = v.take(i);
    assert(front.no_duplicates());
    front.unique_seq_to_set();
    let e = earlier(keys, r[i] as int);
    assert(front.to_set() =~= e) by {
        assert forall|x: int| front.to_set().contains(x) implies e.contains(x) by {
            let a = choose|a: int| 0 <= a < front.len() && front[a] == x;
            assert(x == r[a]);
            assert(goes_before(keys, r[a] as int, r[i] as int));
        }
        assert forall|x: int| e.contains(x) implies front.to_set().contains(x) by {
            assert(v.to_set().contains(x));
            let a = choose|a: int| 0 <= a < v.len() && v[a] == x;
            assert(x == r[a]);
            text::lemma_order_total(keys[x], keys[r[i] as int]);
            if a > i {
                assert(goes_before(keys, r[i] as int, r[a] as int));
            } else if a == i {
                text::lemma_order_total(keys[x], keys[x]);
            }
            assert(a < i);
            assert(front[a] == x);
        }
    }
}

} // verus!

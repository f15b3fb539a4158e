//! Values given to preset parameters, by name.

use crate::single::Single;
use crate::text;
use vstd::prelude::*;

verus! {

/// Values by name, in the order of the names.
#[derive(Debug, PartialEq)]
pub struct Values {
    pub items: Vec<(String, Single)>,
}

/// The names go up.
pub open spec fn names_increase(v: Seq<(String, Single)>) -> bool {
    forall|i: int, j: int|
        0 <= i < j < v.len() ==> text::sorts_before((#[trigger] v[i]).0@, (#[trigger] v[j]).0@)
}

/// Whether `name` stands in `v`.
pub open spec fn named(v: Seq<(String, Single)>, name: Seq<char>) -> bool {
    exists|i: int| 0 <= i < v.len() && (#[trigger] v[i]).0@ == name
}

/// The value that stands beside `name`.
pub open spec fn value_beside(v: Seq<(String, Single)>, name: Seq<char>) -> Single {
    v[choose|i: int| 0 <= i < v.len() && (#[trigger] v[i]).0@ == name].1
}

/// The values in `v` by name.
pub open spec fn by_name(v: Seq<(String, Single)>) -> Map<Seq<char>, Single> {
    Map::new(|n: Seq<char>| named(v, n), |n: Seq<char>| value_beside(v, n))
}

proof fn lemma_beside(v: Seq<(String, Single)>, i: int)
    requires
        names_increase(v),
        0 <= i < v.len(),
    ensures
        named(v, v[i].0@),
        value_beside(v, v[i].0@) == v[i].1,
{
    let n = v[i].0@;
    let j = choose|j: int| 0 <= j < v.len() && (#[trigger] v[j]).0@ == n;
    text::lemma_order_total(n, n);
    if j < i {
        assert(text::sorts_before(v[j].0@, v[i].0@));
    } else if i < j {
        assert(text::sorts_before(v[i].0@, v[j].0@));
    }
}

impl Values {
    pub open spec fn wf(&self) -> bool {
        names_increase(self.items@)
    }

    pub open spec fn view(&self) -> Map<Seq<char>, Single> {
        by_name(self.items@)
    }

    pub fn new() -> (r: Values)
        ensures
            r.wf(),
            r@ == Map::<Seq<char>, Single>::empty(),
            r.items@ == Seq::<(String, Single)>::empty(),
    {
        let r = Values { items: Vec::new() };
        assert(r@ =~= Map::<Seq<char>, Single>::empty());
        r
    }

    /// First place whose name does not go before `name`.
    fn place(&self, name: &[char]) -> (r: usize)
        requires
            self.wf(),
        ensures
            r <= self.items@.len(),
            forall|i: int| 0 <= i < r ==> text::sorts_before((#[trigger] self.items@[i]).0@, name@),
            forall|i: int|
                r <= i < self.items@.len() ==> !text::sorts_before(
                    (#[trigger] self.items@[i]).0@,
                    name@,
                ),
            named(self.items@, name@) <==> (r < self.items@.len() && self.items@[r as int].0@
                == name@),
    {
        let mut at: usize = 0;
        while at < self.items.len() && text::is_sorted_before(
            text::chars_of(self.items[at].0.as_str()).as_slice(),
            name,
        )
            invariant
                at <= self.items@.len(),
                forall|i: int|
                    0 <= i < at ==> text::sorts_before((#[trigger] self.items@[i]).0@, name@),
            decreases self.items@.len() - at,
        {
            at = at + 1;
        }
        proof {
            text::lemma_order_total(name@, name@);
            assert forall|i: int| at <= i < self.items@.len() implies !text::sorts_before(
                (#[trigger] self.items@[i]).0@,
                name@,
            ) by {
                let a = self.items@[at as int].0@;
                if i > at && text::sorts_before(self.items@[i].0@, name@) {
                    text::lemma_order_transitive(a, self.items@[i].0@, name@);
                }
            }
            if named(self.items@, name@) {
                let i = choose|i: int|
                    0 <= i < self.items@.len() && (#[trigger] self.items@[i]).0@ == name@;
                if i > at {
                    assert(text::sorts_before(self.items@[at as int].0@, self.items@[i].0@));
                }
            }
        }
        at
    }

    /// Value of `name`.
    pub fn get(&self, name: &[char]) -> (r: Option<Single>)
        requires
            self.wf(),
        ensures
            match r {
                Some(v) => self@.contains_key(name@) && self@[name@] == v,
                None => !self@.contains_key(name@),
            },
    {
        let at: usize = self.place(name);
        if at < self.items.len() {
            let k: Vec<char> = text::chars_of(self.items[at].0.as_str());
            if text::same(k.as_slice(), name) {
                proof {
                    lemma_beside(self.items@, at as int);
                }
                return Some(self.items[at].1);
            }
        }
        None
    }

    /// Gives `name` a value.
    pub fn set(&mut self, name: &[char], value: Single)
        requires
            old(self).wf(),
        ensures
            final(self).wf(),
            final(self)@ == old(self)@.insert(name@, value),
    {
        let at: usize = self.place(name);
        let ghost before = self.items@;
        if at < self.items.len() {
            let k: Vec<char> = text::chars_of(self.items[at].0.as_str());
            if text::same(k.as_slice(), name) {
                let kept: String = self.items[at].0.clone();
                self.items.set(at, (kept, value));
                proof {
                    assert forall|i: int, j: int| 0 <= i < j < self.items@.len() implies text::sorts_before(
                        (#[trigger] self.items@[i]).0@,
                        (#[trigger] self.items@[j]).0@,
                    ) by {
                        assert(self.items@[i].0@ == before[i].0@ && self.items@[j].0@
                            == before[j].0@);
                        assert(text::sorts_before(before[i].0@, before[j].0@));
                    }
                    lemma_updated(before, self.items@, at as int, name@, value);
                }
                return ;
            }
        }
        self.items.insert(at, (text::text_of(name), value));
        proof {
            assert forall|i: int, j: int| 0 <= i < j < self.items@.len() implies text::sorts_before(
                (#[trigger] self.items@[i]).0@,
                (#[trigger] self.items@[j]).0@,
            ) by {
                let i0 = if i < at { i } else { i - 1 };
                let j0 = if j < at { j } else { j - 1 };
                if i != at && j != at {
                    assert(self.items@[i] == before[i0] && self.items@[j] == before[j0]);
                    assert(text::sorts_before(before[i0].0@, before[j0].0@));
                } else if i == at {
                    assert(self.items@[j] == before[j0]);
                    assert(!text::sorts_before(before[j0].0@, name@));
                    assert(before[j0].0@ != name@) by {
                        if before[j0].0@ == name@ {
                            assert(named(before, name@));
                        }
                    }
                    text::lemma_order_total(before[j0].0@, name@);
                } else {
                    assert(self.items@[i] == before[i0]);
                    assert(text::sorts_before(before[i0].0@, name@));
                }
            }
            lemma_inserted(before, self.items@, at as int, name@, value);
        }
    }

    /// Takes every value away.
    pub fn clear(&mut self)
        ensures
            final(self).wf(),
            final(self)@ == Map::<Seq<char>, Single>::empty(),
    {
        self.items = Vec::new();
        assert(self@ =~= Map::<Seq<char>, Single>::empty());
    }

    pub fn copy(&self) -> (r: Values)
        requires
            self.wf(),
        ensures
            r.wf(),
            r@ == self@,
            r.items@ == self.items@,
    {
        let mut out: Vec<(String, Single)> = Vec::new();
        let mut i: usize = 0;
        while i < self.items.len()
            invariant
                i <= self.items@.len(),
                out@ == self.items@.take(i as int),
            decreases self.items@.len() - i,
        {
            out.push((self.items[i].0.clone(), self.items[i].1));
            i = i + 1;
            assert(out@ =~= self.items@.take(i as int));
        }
        assert(self.items@.take(i as int) =~= self.items@);
        Values { items: out }
    }
}

proof fn lemma_updated(
    a: Seq<(String, Single)>,
    b: Seq<(String, Single)>,
    at: int,
    name: Seq<char>,
    value: Single,
)
    requires
        names_increase(a),
        names_increase(b),
        0 <= at < a.len(),
        a.len() == b.len(),
        a[at].0@ == name,
        b[at].0@ == name,
        b[at].1 == value,
        forall|i: int| 0 <= i < a.len() && i != at ==> #[trigger] b[i] == a[i],
    ensures
        by_name(b) == by_name(a).insert(name, value),
{
    let m = by_name(a).insert(name, value);
    assert forall|n: Seq<char>| by_name(b).contains_key(n) <==> m.contains_key(n) by {
        if named(b, n) {
            let i = choose|i: int| 0 <= i < b.len() && (#[trigger] b[i]).0@ == n;
            assert(a[i].0@ == n);
        }
        if named(a, n) {
            let i = choose|i: int| 0 <= i < a.len() && (#[trigger] a[i]).0@ == n;
            assert(b[i].0@ == n);
        }
        if n == name {
            assert(b[at].0@ == n);
        }
    }
    assert forall|n: Seq<char>| by_name(b).contains_key(n) implies by_name(b)[n] == m[n] by {
        let i = choose|i: int| 0 <= i < b.len() && (#[trigger] b[i]).0@ == n;
        lemma_beside(b, i);
        lemma_beside(a, i);
        lemma_beside(b, at);
    }
    assert(by_name(b) =~= m);
}

proof fn lemma_inserted(
    a: Seq<(String, Single)>,
    b: Seq<(String, Single)>,
    at: int,
    name: Seq<char>,
    value: Single,
)
    requires
        names_increase(a),
        names_increase(b),
        0 <= at <= a.len(),
        !named(a, name),
        b.len() == a.len() + 1,
        b[at].0@ == name,
        b[at].1 == value,
        forall|i: int| 0 <= i < at ==> #[trigger] b[i] == a[i],
        forall|i: int| at < i < b.len() ==> #[trigger] b[i] == a[i - 1],
    ensures
        by_name(b) == by_name(a).insert(name, value),
{
    let m = by_name(a).insert(name, value);
    assert forall|n: Seq<char>| by_name(b).contains_key(n) <==> m.contains_key(n) by {
        if named(b, n) {
            let i = choose|i: int| 0 <= i < b.len() && (#[trigger] b[i]).0@ == n;
            if i < at {
                assert(a[i].0@ == n);
            } else if i > at {
                assert(a[i - 1].0@ == n);
            }
        }
        if named(a, n) {
            let i = choose|i: int| 0 <= i < a.len() && (#[trigger] a[i]).0@ == n;
            if i < at {
                assert(b[i].0@ == n);
            } else {
                assert(b[i + 1] == a[i]);
                assert(b[i + 1].0@ == n);
            }
        }
        if n == name {
            assert(b[at].0@ == n);
        }
    }
    assert forall|n: Seq<char>| by_name(b).contains_key(n) implies by_name(b)[n] == m[n] by {
        let i = choose|i: int| 0 <= i < b.len() && (#[trigger] b[i]).0@ == n;
        lemma_beside(b, i);
        if i < at {
            lemma_beside(a, i);
        } else if i > at {
            lemma_beside(a, i - 1);
        }
        lemma_beside(b, at);
        if n == name {
            assert(i == at) by {
                text::lemma_order_total(n, n);
                if i < at {
                    assert(text::sorts_before(b[i].0@, b[at].0@));
                } else if i > at {
                    assert(text::sorts_before(b[at].0@, b[i].0@));
                }
            }
        }
    }
    assert(by_name(b) =~= m);
}

} // verus!

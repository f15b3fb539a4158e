//! Presets arranged as folders, the way they sit on disk.

use crate::order;
use crate::path;
use crate::save;
use crate::text;
use vstd::multiset::Multiset;
use vstd::prelude::*;

verus! {

/// A folder of presets.
pub struct Tree {
    /// Sub-folders, sorted by name.
    pub folders: Vec<(String, Tree)>,
    /// `(file name, path relative to the root)`.
    pub presets: Vec<(String, String)>,
}

/// A preset: its file name and its path.
pub type Entry = (Seq<char>, Seq<char>);

/// What a list of presets holds.
pub open spec fn entries_of(v: Seq<(String, String)>) -> Seq<Entry> {
    Seq::new(v.len(), |i: int| (v[i].0@, v[i].1@))
}

/// The names of the sub-folders go up.
pub open spec fn names_increase(v: Seq<(String, Tree)>) -> bool {
    forall|i: int, j: int|
        0 <= i < j < v.len() ==> text::sorts_before((#[trigger] v[i]).0@, (#[trigger] v[j]).0@)
}

/// Whether a folder has a sub-folder of that name.
pub open spec fn has_child(v: Seq<(String, Tree)>, name: Seq<char>) -> bool {
    exists|i: int| 0 <= i < v.len() && (#[trigger] v[i]).0@ == name
}

/// Position of the sub-folder of that name.
pub open spec fn child_at(v: Seq<(String, Tree)>, name: Seq<char>) -> int {
    choose|i: int| 0 <= i < v.len() && (#[trigger] v[i]).0@ == name
}

/// The presets that stand directly in the folder `dirs`.
pub open spec fn listing(t: Tree, dirs: Seq<Seq<char>>) -> Seq<Entry>
    decreases dirs.len(),
{
    if dirs.len() == 0 {
        entries_of(t.presets@)
    } else if has_child(t.folders@, dirs[0]) {
        listing(t.folders@[child_at(t.folders@, dirs[0])].1, dirs.drop_first())
    } else {
        seq![]
    }
}

/// Whether there is a folder `dirs`.
pub open spec fn has_folder(t: Tree, dirs: Seq<Seq<char>>) -> bool
    decreases dirs.len(),
{
    dirs.len() == 0 || (has_child(t.folders@, dirs[0]) && has_folder(
        t.folders@[child_at(t.folders@, dirs[0])].1,
        dirs.drop_first(),
    ))
}

/// Number of presets in the first `n` of the folders.
pub open spec fn folders_total(v: Vec<(String, Tree)>, n: int) -> nat
    decreases v, n,
{
    if n <= 0 || n > v.len() {
        0
    } else {
        folders_total(v, n - 1) + total(v[n - 1].1)
    }
}

/// Number of presets in a tree.
pub open spec fn total(t: Tree) -> nat
    decreases t,
{
    t.presets@.len() + folders_total(t.folders, t.folders@.len() as int)
}

/// The paths of presets.
pub open spec fn paths_of(v: Seq<Entry>) -> Seq<Seq<char>> {
    Seq::new(v.len(), |i: int| v[i].1)
}

/// The paths in the first `n` of the folders, each as often as it is there.
pub open spec fn folders_stored(v: Vec<(String, Tree)>, n: int) -> Multiset<Seq<char>>
    decreases v, n,
{
    if n <= 0 || n > v.len() {
        Multiset::empty()
    } else {
        folders_stored(v, n - 1).add(stored(v[n - 1].1))
    }
}

/// The paths in a tree, each as often as it is there.
pub open spec fn stored(t: Tree) -> Multiset<Seq<char>>
    decreases t,
{
    paths_of(entries_of(t.presets@)).to_multiset().add(
        folders_stored(t.folders, t.folders@.len() as int),
    )
}

impl Tree {
    /// At every level the names of the sub-folders go up.
    pub open spec fn wf(self) -> bool
        decreases self,
    {
        names_increase(self.folders@) && forall|i: int|
            0 <= i < self.folders.len() ==> (#[trigger] self.folders[i]).1.wf()
    }
}

/// The folder and the name of a path.
pub open spec fn folder_of(p: Seq<char>) -> Seq<Seq<char>> {
    path::components(p).drop_last()
}

/// The paths in the folder `dirs`, with their names, in the order given.
pub open spec fn paths_in(paths: Seq<Seq<char>>, dirs: Seq<Seq<char>>) -> Seq<Entry>
    decreases paths.len(),
{
    if paths.len() == 0 {
        seq![]
    } else {
        let before = paths_in(paths.drop_last(), dirs);
        let p = paths.last();
        if path::components(p).len() > 0 && folder_of(p) == dirs {
            before.push((path::components(p).last(), p))
        } else {
            before
        }
    }
}

/// `dirs` is a folder above one of the paths.
pub open spec fn above_some(paths: Seq<Seq<char>>, dirs: Seq<Seq<char>>) -> bool {
    dirs.len() == 0 || exists|i: int|
        0 <= i < paths.len() && path::components(#[trigger] paths[i]).len() > 0 && is_prefix(
            dirs,
            folder_of(paths[i]),
        )
}

pub open spec fn is_prefix(a: Seq<Seq<char>>, b: Seq<Seq<char>>) -> bool {
    a.len() <= b.len() && b.take(a.len() as int) == a
}

/// The paths that name something.
pub open spec fn named(paths: Seq<Seq<char>>) -> Seq<Seq<char>>
    decreases paths.len(),
{
    if paths.len() == 0 {
        seq![]
    } else if path::components(paths.last()).len() > 0 {
        named(paths.drop_last()).push(paths.last())
    } else {
        named(paths.drop_last())
    }
}

/// `t` is the tree of the paths: in every folder the paths in that folder, in
/// the order of their names, and no folder but those above a path.
pub open spec fn built(paths: Seq<Seq<char>>, t: Tree) -> bool {
    &&& t.wf()
    &&& forall|d: Seq<Seq<char>>| #[trigger] listing(t, d) == by_name(paths_in(paths, d))
    &&& forall|d: Seq<Seq<char>>| #[trigger] has_folder(t, d) <==> above_some(paths, d)
    &&& total(t) == named(paths).len()
    &&& stored(t) == named(paths).to_multiset()
}

/// A sub-folder is found under its name.
pub proof fn lemma_child(v: Seq<(String, Tree)>, i: int)
    requires
        names_increase(v),
        0 <= i < v.len(),
    ensures
        has_child(v, v[i].0@),
        child_at(v, v[i].0@) == i,
{
    let j = child_at(v, v[i].0@);
    assert(v[i].0@ == v[i].0@);
    text::lemma_order_total(v[i].0@, v[i].0@);
    if j < i {
        assert(text::sorts_before(v[j].0@, v[i].0@));
    } else if i < j {
        assert(text::sorts_before(v[i].0@, v[j].0@));
    }
}

// ------------------------------------------------------------------- inserting

/// `new` is `t` with one more entry in the folder `dirs`.
pub open spec fn inserted(t: Tree, dirs: Seq<Seq<char>>, entry: Entry, now: Tree) -> bool {
    &&& forall|d: Seq<Seq<char>>| #[trigger]
        listing(now, d) == if d == dirs {
            listing(t, d).push(entry)
        } else {
            listing(t, d)
        }
    &&& forall|d: Seq<Seq<char>>| #[trigger]
        has_folder(now, d) <==> has_folder(t, d) || is_prefix(d, dirs)
    &&& total(now) == total(t) + 1
    &&& stored(now) == stored(t).insert(entry.1)
}

proof fn lemma_folders_total_same(a: Vec<(String, Tree)>, b: Vec<(String, Tree)>, n: int)
    requires
        0 <= n <= a.len(),
        n <= b.len(),
        forall|i: int| 0 <= i < n ==> (#[trigger] a[i]).1 == b[i].1,
    ensures
        folders_total(a, n) == folders_total(b, n),
        folders_stored(a, n) == folders_stored(b, n),
    decreases n,
{
    if n > 0 {
        assert(a[n - 1].1 == b[n - 1].1);
        lemma_folders_total_same(a, b, n - 1);
    }
}

/// Replacing a folder changes the total by what the folder changes.
proof fn lemma_folders_total_update(
    a: Vec<(String, Tree)>,
    b: Vec<(String, Tree)>,
    at: int,
    n: int,
)
    requires
        0 <= at < n <= a.len(),
        a.len() == b.len(),
        forall|i: int| 0 <= i < a.len() && i != at ==> (#[trigger] a[i]).1 == b[i].1,
    ensures
        folders_total(b, n) + total(a[at].1) == folders_total(a, n) + total(b[at].1),
        folders_stored(b, n).add(stored(a[at].1)) == folders_stored(a, n).add(stored(b[at].1)),
    decreases n,
{
    let x = stored(a[at].1);
    let y = stored(b[at].1);
    if n - 1 == at {
        lemma_folders_total_same(a, b, n - 1);
        let m = folders_stored(a, n - 1);
        assert(m.add(y).add(x) =~= m.add(x).add(y));
    } else {
        assert(a[n - 1].1 == b[n - 1].1);
        lemma_folders_total_update(a, b, at, n - 1);
        let m = folders_stored(a, n - 1);
        let o = folders_stored(b, n - 1);
        let last = stored(a[n - 1].1);
        assert(o.add(last).add(x) =~= o.add(x).add(last));
        assert(m.add(last).add(y) =~= m.add(y).add(last));
    }
}

/// A new folder adds what it holds.
proof fn lemma_folders_total_insert(
    a: Vec<(String, Tree)>,
    b: Vec<(String, Tree)>,
    at: int,
    n: int,
)
    requires
        0 <= at <= n <= a.len(),
        b.len() == a.len() + 1,
        forall|i: int| 0 <= i < at ==> (#[trigger] b[i]).1 == a[i].1,
        forall|i: int| at < i < b.len() ==> (#[trigger] b[i]).1 == a[i - 1].1,
    ensures
        folders_total(b, n + 1) == folders_total(a, n) + total(b[at].1),
        folders_stored(b, n + 1) == folders_stored(a, n).add(stored(b[at].1)),
    decreases n,
{
    if n == at {
        lemma_folders_total_same(b, a, at);
        assert(folders_total(b, at + 1) == folders_total(b, at) + total(b[at].1));
    } else {
        assert(b[n].1 == a[n - 1].1);
        lemma_folders_total_insert(a, b, at, n - 1);
        let m = folders_stored(a, n - 1);
        let last = stored(a[n - 1].1);
        let y = stored(b[at].1);
        assert(m.add(y).add(last) =~= m.add(last).add(y));
    }
}

/// A tree and the same with an empty folder more hold the same presets.
proof fn lemma_empty_child(t: Tree, now: Tree, at: int, name: Seq<char>)
    requires
        names_increase(t.folders@),
        names_increase(now.folders@),
        now.presets@ == t.presets@,
        0 <= at <= t.folders@.len(),
        !has_child(t.folders@, name),
        now.folders@.len() == t.folders@.len() + 1,
        now.folders@[at].0@ == name,
        now.folders@[at].1.folders@.len() == 0,
        now.folders@[at].1.presets@.len() == 0,
        forall|i: int| 0 <= i < at ==> #[trigger] now.folders@[i] == t.folders@[i],
        forall|i: int|
            at < i < now.folders@.len() ==> #[trigger] now.folders@[i] == t.folders@[i - 1],
    ensures
        forall|d: Seq<Seq<char>>| #[trigger] listing(now, d) == listing(t, d),
        forall|d: Seq<Seq<char>>| #[trigger]
            has_folder(now, d) <==> has_folder(t, d) || d == seq![name],
        total(now) == total(t),
        stored(now) == stored(t),
{
    let v = t.folders@;
    let w = now.folders@;
    lemma_child(w, at);
    assert forall|d: Seq<Seq<char>>| #[trigger] listing(now, d) == listing(t, d) by {
        if d.len() > 0 {
            lemma_same_child(t, now, at, d[0]);
            if d[0] == name {
                lemma_empty_listing(w[at].1, d.drop_first());
            }
        } else {
            assert(entries_of(now.presets@) =~= entries_of(t.presets@));
        }
    }
    assert forall|d: Seq<Seq<char>>| #[trigger]
        has_folder(now, d) <==> has_folder(t, d) || d == seq![name] by {
        if d.len() > 0 {
            lemma_same_child(t, now, at, d[0]);
            if d[0] == name {
                lemma_empty_folders(w[at].1, d.drop_first());
                if d.drop_first().len() == 0 {
                    assert(d =~= seq![name]);
                } else {
                    assert(d.len() > 1);
                }
            }
        }
    }
    assert(total(w[at].1) == 0);
    lemma_nothing_stored(w[at].1);
    lemma_folders_total_insert(t.folders, now.folders, at, v.len() as int);
    let m = folders_stored(t.folders, v.len() as int);
    assert(m.add(Multiset::empty()) =~= m);
}

/// Folders other than the new one are found as before.
proof fn lemma_same_child(t: Tree, now: Tree, at: int, name: Seq<char>)
    requires
        names_increase(t.folders@),
        names_increase(now.folders@),
        0 <= at <= t.folders@.len(),
        now.folders@.len() == t.folders@.len() + 1,
        forall|i: int| 0 <= i < at ==> #[trigger] now.folders@[i] == t.folders@[i],
        forall|i: int|
            at < i < now.folders@.len() ==> #[trigger] now.folders@[i] == t.folders@[i - 1],
    ensures
        name != now.folders@[at].0@ ==> has_child(now.folders@, name) == has_child(
            t.folders@,
            name,
        ),
        name != now.folders@[at].0@ && has_child(t.folders@, name) ==> now.folders@[child_at(
            now.folders@,
            name,
        )] == t.folders@[child_at(t.folders@, name)],
{
    let v = t.folders@;
    let w = now.folders@;
    if name != w[at].0@ {
        if has_child(v, name) {
            let i = child_at(v, name);
            let j = if i < at { i } else { i + 1 };
            assert(w[j] == v[i]);
            lemma_child(w, j);
        }
        if has_child(w, name) {
            let j = child_at(w, name);
            let i = if j < at { j } else { j - 1 };
            assert(w[j] == v[i]);
            assert(v[i].0@ == name);
        }
    }
}

proof fn lemma_empty_listing(t: Tree, d: Seq<Seq<char>>)
    requires
        t.folders@.len() == 0,
        t.presets@.len() == 0,
    ensures
        listing(t, d) == Seq::<Entry>::empty(),
{
    if d.len() == 0 {
        assert(entries_of(t.presets@) =~= Seq::<Entry>::empty());
    }
}

proof fn lemma_nothing_stored(t: Tree)
    requires
        t.folders@.len() == 0,
        t.presets@.len() == 0,
    ensures
        stored(t) == Multiset::<Seq<char>>::empty(),
{
    let none = paths_of(entries_of(t.presets@));
    none.to_multiset_ensures();
    assert(none.to_multiset() =~= Multiset::empty()) by {
        assert forall|p: Seq<char>| none.to_multiset().count(p) == 0 by {
            assert(!none.contains(p));
        }
    }
    assert(stored(t) =~= Multiset::empty());
}

proof fn lemma_empty_folders(t: Tree, d: Seq<Seq<char>>)
    requires
        t.folders@.len() == 0,
    ensures
        has_folder(t, d) <==> d.len() == 0,
{
}

/// Putting an entry into a sub-folder puts it into the tree.
proof fn lemma_insert_below(
    t: Tree,
    now: Tree,
    at: int,
    dirs: Seq<Seq<char>>,
    entry: Entry,
)
    requires
        names_increase(t.folders@),
        0 <= at < t.folders@.len(),
        dirs.len() > 0,
        t.folders@[at].0@ == dirs[0],
        now.presets@ == t.presets@,
        now.folders@.len() == t.folders@.len(),
        now.folders@[at].0@ == dirs[0],
        inserted(t.folders@[at].1, dirs.drop_first(), entry, now.folders@[at].1),
        forall|i: int|
            0 <= i < t.folders@.len() && i != at ==> #[trigger] now.folders@[i] == t.folders@[i],
    ensures
        names_increase(now.folders@),
        inserted(t, dirs, entry, now),
{
    let v = t.folders@;
    let w = now.folders@;
    assert forall|i: int, j: int| 0 <= i < j < w.len() implies text::sorts_before(
        (#[trigger] w[i]).0@,
        (#[trigger] w[j]).0@,
    ) by {
        assert(w[i].0@ == v[i].0@ && w[j].0@ == v[j].0@);
        assert(text::sorts_before(v[i].0@, v[j].0@));
    }
    lemma_child(v, at);
    lemma_child(w, at);
    let rest = dirs.drop_first();
    assert forall|d: Seq<Seq<char>>| #[trigger]
        listing(now, d) == if d == dirs {
            listing(t, d).push(entry)
        } else {
            listing(t, d)
        } by {
        if d.len() == 0 {
            assert(entries_of(now.presets@) =~= entries_of(t.presets@));
        } else {
            lemma_child_kept(v, w, d[0]);
            if d[0] == dirs[0] {
                if d.drop_first() == rest {
                    assert(d =~= seq![d[0]] + rest);
                    assert(dirs =~= seq![d[0]] + rest);
                }
                assert(listing(now, d) == listing(w[at].1, d.drop_first()));
            }
        }
    }
    assert forall|d: Seq<Seq<char>>| #[trigger]
        has_folder(now, d) <==> has_folder(t, d) || is_prefix(d, dirs) by {
        if d.len() == 0 {
            assert(dirs.take(0) =~= d);
        } else {
            lemma_child_kept(v, w, d[0]);
            if d[0] == dirs[0] {
                assert(has_folder(now, d) <==> has_folder(w[at].1, d.drop_first()));
                if is_prefix(d, dirs) {
                    assert(rest.take(d.len() - 1) =~= dirs.take(d.len() as int).drop_first());
                    assert(is_prefix(d.drop_first(), rest));
                }
                if is_prefix(d.drop_first(), rest) {
                    assert(dirs.take(d.len() as int) =~= d) by {
                        assert forall|i: int| 0 <= i < d.len() implies dirs[i] == d[i] by {
                            if i > 0 {
                                assert(rest.take(d.len() - 1)[i - 1] == d.drop_first()[i - 1]);
                            }
                        }
                    }
                    assert(is_prefix(d, dirs));
                }
            } else if is_prefix(d, dirs) {
                assert(dirs.take(d.len() as int)[0] == d[0]);
            }
        }
    }
    lemma_folders_total_update(t.folders, now.folders, at, v.len() as int);
    assert(stored(now) =~= stored(t).insert(entry.1)) by {
        let n = v.len() as int;
        let x = stored(v[at].1);
        assert(stored(w[at].1) == x.insert(entry.1));
        let a = folders_stored(t.folders, n);
        let b = folders_stored(now.folders, n);
        assert forall|p: Seq<char>| b.count(p) == a.insert(entry.1).count(p) by {
            assert(b.add(x).count(p) == a.add(x.insert(entry.1)).count(p));
        }
        assert(b =~= a.insert(entry.1));
    }
}

/// The sub-folders have the names that they had.
proof fn lemma_child_kept(v: Seq<(String, Tree)>, w: Seq<(String, Tree)>, name: Seq<char>)
    requires
        names_increase(v),
        names_increase(w),
        v.len() == w.len(),
        forall|i: int| 0 <= i < v.len() ==> (#[trigger] w[i]).0@ == v[i].0@,
    ensures
        has_child(v, name) == has_child(w, name),
        has_child(v, name) ==> child_at(v, name) == child_at(w, name),
{
    if has_child(v, name) {
        let i = child_at(v, name);
        assert(w[i].0@ == name);
        lemma_child(w, i);
    }
    if has_child(w, name) {
        let i = child_at(w, name);
        assert(v[i].0@ == name);
    }
}

impl Tree {
    pub fn new() -> (r: Tree)
        ensures
            r.wf(),
            r.folders@.len() == 0,
            r.presets@.len() == 0,
            forall|d: Seq<Seq<char>>| #[trigger] listing(r, d) == Seq::<Entry>::empty(),
            forall|d: Seq<Seq<char>>| #[trigger] has_folder(r, d) <==> d.len() == 0,
            total(r) == 0,
            stored(r) == Multiset::<Seq<char>>::empty(),
    {
        let r = Tree { folders: Vec::new(), presets: Vec::new() };
        proof {
            assert forall|d: Seq<Seq<char>>| #[trigger] listing(r, d) == Seq::<Entry>::empty() by {
                lemma_empty_listing(r, d);
            }
            assert forall|d: Seq<Seq<char>>| #[trigger] has_folder(r, d) <==> d.len() == 0 by {
                lemma_empty_folders(r, d);
            }
            lemma_nothing_stored(r);
        }
        r
    }

    /// Position of the sub-folder of that name, which is made if there is
    /// none.
    fn child(&mut self, name: &[char]) -> (r: usize)
        requires
            old(self).wf(),
        ensures
            final(self).wf(),
            r < final(self).folders@.len(),
            final(self).folders@[r as int].0@ == name@,
            forall|d: Seq<Seq<char>>| #[trigger]
                listing(*final(self), d) == listing(*old(self), d),
            forall|d: Seq<Seq<char>>| #[trigger]
                has_folder(*final(self), d) <==> has_folder(*old(self), d) || d == seq![name@],
            total(*final(self)) == total(*old(self)),
            stored(*final(self)) == stored(*old(self)),
    {
        let ghost t = *self;
        let mut at: usize = 0;
        while at < self.folders.len() && text::is_sorted_before(
            text::chars_of(self.folders[at].0.as_str()).as_slice(),
            name,
        )
            invariant
                at <= self.folders@.len(),
                forall|i: int|
                    0 <= i < at ==> text::sorts_before((#[trigger] self.folders@[i]).0@, name@),
            decreases self.folders@.len() - at,
        {
            at = at + 1;
        }
        if at < self.folders.len() {
            let k: Vec<char> = text::chars_of(self.folders[at].0.as_str());
            if text::same(k.as_slice(), name) {
                proof {
                    assert forall|d: Seq<Seq<char>>| #[trigger]
                        has_folder(t, d) <==> has_folder(t, d) || d == seq![name@] by {
                        if d == seq![name@] {
                            lemma_child(t.folders@, at as int);
                            assert(d[0] == name@);
                            let sub = t.folders@[child_at(t.folders@, d[0])].1;
                            assert(has_folder(sub, d.drop_first()));
                            assert(has_folder(t, d));
                        }
                    }
                }
                return at;
            }
        }
        proof {
            // Everything from there on comes after the name.
            assert forall|i: int| at <= i < t.folders@.len() implies text::sorts_before(
                name@,
                (#[trigger] t.folders@[i]).0@,
            ) by {
                let a = t.folders@[at as int].0@;
                text::lemma_order_total(a, name@);
                if i > at {
                    text::lemma_order_transitive(name@, a, t.folders@[i].0@);
                }
            }
            assert(!has_child(t.folders@, name@)) by {
                if has_child(t.folders@, name@) {
                    let i = child_at(t.folders@, name@);
                    text::lemma_order_total(name@, name@);
                    if i < at {
                        assert(text::sorts_before(t.folders@[i].0@, name@));
                    } else {
                        assert(text::sorts_before(name@, t.folders@[i].0@));
                    }
                }
            }
        }
        self.folders.insert(at, (text::text_of(name), Tree::new()));
        proof {
            let w = self.folders@;
            assert forall|i: int, j: int| 0 <= i < j < w.len() implies text::sorts_before(
                (#[trigger] w[i]).0@,
                (#[trigger] w[j]).0@,
            ) by {
                let i0 = if i < at { i } else { i - 1 };
                let j0 = if j < at { j } else { j - 1 };
                if i != at && j != at {
                    assert(w[i] == t.folders@[i0] && w[j] == t.folders@[j0]);
                    assert(text::sorts_before(t.folders@[i0].0@, t.folders@[j0].0@));
                } else if i == at {
                    assert(w[j] == t.folders@[j0]);
                } else {
                    assert(w[i] == t.folders@[i0]);
                }
            }
            assert forall|i: int| 0 <= i < self.folders.len() implies (#[trigger]
            self.folders[i]).1.wf() by {
                if i < at {
                    assert(w[i] == t.folders@[i]);
                    assert(t.folders[i].1.wf());
                } else if i > at {
                    assert(w[i] == t.folders@[i - 1]);
                    assert(t.folders[i - 1].1.wf());
                }
            }
            lemma_empty_child(t, *self, at as int, name@);
        }
        at
    }

    /// Puts a preset into the folder that the parts from the `i`th on lead
    /// to; the last part is its name.
    fn insert(&mut self, parts: &Vec<Vec<char>>, i: usize, full: &str)
        requires
            old(self).wf(),
            i < parts@.len(),
        ensures
            final(self).wf(),
            inserted(
                *old(self),
                text::contents(parts@).skip(i as int).drop_last(),
                (text::contents(parts@).last(), full@),
                *final(self),
            ),
        decreases parts@.len() - i,
    {
        let ghost t = *self;
        let ghost all = text::contents(parts@);
        let ghost dirs = all.skip(i as int).drop_last();
        let ghost entry = (all.last(), full@);
        if parts.len() - i == 1 {
            let name: String = text::text_of(parts[i].as_slice());
            self.presets.push((name, text::text_of(text::chars_of(full).as_slice())));
            proof {
                assert(dirs =~= Seq::<Seq<char>>::empty());
                assert(entries_of(self.presets@) =~= entries_of(t.presets@).push(entry));
                let before = paths_of(entries_of(t.presets@));
                assert(paths_of(entries_of(self.presets@)) =~= before.push(entry.1));
                before.to_multiset_ensures();
                assert(before.push(entry.1).to_multiset() == before.to_multiset().insert(entry.1));
                assert(stored(*self) =~= stored(t).insert(entry.1));
                assert forall|d: Seq<Seq<char>>| #[trigger]
                    listing(*self, d) == if d == dirs {
                        listing(t, d).push(entry)
                    } else {
                        listing(t, d)
                    } by {
                    if d.len() == 0 {
                        assert(d =~= dirs);
                    }
                }
                assert forall|d: Seq<Seq<char>>| #[trigger]
                    has_folder(*self, d) <==> has_folder(t, d) || is_prefix(d, dirs) by {
                    if d.len() == 0 {
                        assert(dirs.take(0) =~= d);
                    }
                }
            }
            return ;
        }
        let at: usize = self.child(parts[i].as_slice());
        let ghost mid = *self;
        let (name, mut sub) = self.folders.remove(at);
        assert(mid.folders[at as int].1.wf());
        sub.insert(parts, i + 1, full);
        self.folders.insert(at, (name, sub));
        proof {
            assert(all.skip(i as int).drop_last().drop_first() =~= all.skip(
                i as int + 1,
            ).drop_last());
            assert(dirs[0] == parts@[i as int]@);
            assert forall|j: int| 0 <= j < self.folders@.len() && j != at implies #[trigger]
                self.folders@[j] == mid.folders@[j] by {}
            lemma_insert_below(mid, *self, at as int, dirs, entry);
            assert forall|j: int| 0 <= j < self.folders.len() implies (#[trigger]
            self.folders[j]).1.wf() by {
                if j != at {
                    assert(self.folders@[j] == mid.folders@[j]);
                    assert(mid.folders[j].1.wf());
                }
            }
            assert forall|d: Seq<Seq<char>>| #[trigger]
                has_folder(*self, d) <==> has_folder(t, d) || is_prefix(d, dirs) by {
                assert(has_folder(mid, d) <==> has_folder(t, d) || d == seq![dirs[0]]);
                if d == seq![dirs[0]] {
                    assert(dirs.take(1) =~= d);
                }
            }
        }
    }
}

// --------------------------------------------------------------------- sorting

/// The names of the presets.
pub open spec fn names_of(v: Seq<Entry>) -> Seq<Seq<char>> {
    Seq::new(v.len(), |i: int| v[i].0)
}

/// The presets in the order of their names; those of the same name keep their
/// order.
pub open spec fn by_name(v: Seq<Entry>) -> Seq<Entry> {
    let o = choose|o: Seq<usize>| order::is_order(names_of(v), o);
    Seq::new(v.len(), |i: int| v[o[i] as int])
}

/// One more preset takes a place among those in order.
proof fn lemma_by_name_grows(v: Seq<Entry>) -> (at: int)
    requires
        0 < v.len() <= usize::MAX,
    ensures
        0 <= at < v.len(),
        by_name(v) == by_name(v.drop_last()).insert(at, v.last()),
{
    let front = v.drop_last();
    let n = v.len() - 1;
    assert(names_of(v).drop_last() =~= names_of(front));
    let r = order::lemma_some_order(names_of(front));
    let at = order::lemma_order_extends(names_of(v), r);
    let w = r.insert(at, n as usize);
    let a = choose|o: Seq<usize>| order::is_order(names_of(front), o);
    let b = choose|o: Seq<usize>| order::is_order(names_of(v), o);
    order::lemma_one_order(names_of(front), r, a);
    order::lemma_one_order(names_of(v), w, b);
    let got = by_name(v);
    let want = by_name(front).insert(at, v.last());
    assert forall|i: int| 0 <= i < got.len() implies got[i] == want[i] by {
        if i < at {
            assert(w[i] == r[i]);
            assert(r[i] < names_of(front).len());
        } else if i > at {
            assert(w[i] == r[i - 1]);
            assert(r[i - 1] < names_of(front).len());
        }
    }
    assert(got =~= want);
    at
}

/// Putting presets in order neither adds nor drops any.
pub proof fn lemma_by_name_same(v: Seq<Entry>)
    requires
        v.len() <= usize::MAX,
    ensures
        by_name(v).to_multiset() == v.to_multiset(),
        paths_of(by_name(v)).to_multiset() == paths_of(v).to_multiset(),
    decreases v.len(),
{
    if v.len() == 0 {
        assert(by_name(v) =~= v);
    } else {
        let front = v.drop_last();
        let last = v.last();
        lemma_by_name_same(front);
        let at = lemma_by_name_grows(v);
        let before = by_name(front);
        vstd::seq_lib::to_multiset_insert(before, at, last);
        vstd::seq_lib::to_multiset_build(front, last);
        assert(front.push(last) =~= v);
        vstd::seq_lib::to_multiset_insert(paths_of(before), at, last.1);
        vstd::seq_lib::to_multiset_build(paths_of(front), last.1);
        assert(paths_of(front).push(last.1) =~= paths_of(v));
        assert(paths_of(before.insert(at, last)) =~= paths_of(before).insert(at, last.1));
    }
}

fn sort_presets(v: &Vec<(String, String)>) -> (r: Vec<(String, String)>)
    ensures
        entries_of(r@) == by_name(entries_of(v@)),
        r@.len() == v@.len(),
{
    let ghost all = entries_of(v@);
    let mut keys: Vec<Vec<char>> = Vec::new();
    let mut i: usize = 0;
    while i < v.len()
        invariant
            i <= v@.len(),
            all == entries_of(v@),
            text::contents(keys@) == names_of(all).take(i as int),
        decreases v@.len() - i,
    {
        let ghost before = text::contents(keys@);
        let key: Vec<char> = text::chars_of(v[i].0.as_str());
        keys.push(key);
        assert(text::contents(keys@) =~= before.push(key@));
        assert(before.push(key@) =~= names_of(all).take(i as int + 1));
        i = i + 1;
    }
    assert(names_of(all).take(i as int) =~= names_of(all));
    let places: Vec<usize> = order::order(&keys);
    let ghost o = choose|o: Seq<usize>| order::is_order(names_of(all), o);
    proof {
        order::lemma_one_order(names_of(all), places@, o);
    }
    let mut out: Vec<(String, String)> = Vec::new();
    let mut j: usize = 0;
    while j < places.len()
        invariant
            j <= places@.len(),
            all == entries_of(v@),
            order::is_order(names_of(all), places@),
            out@.len() == j,
            forall|k: int|
                0 <= k < j ==> (#[trigger] out@[k]).0@ == v@[places@[k] as int].0@ && out@[k].1@
                    == v@[places@[k] as int].1@,
        decreases places@.len() - j,
    {
        assert(places@[j as int] < names_of(all).len());
        out.push((v[places[j]].0.clone(), v[places[j]].1.clone()));
        j = j + 1;
    }
    proof {
        assert forall|k: int| 0 <= k < out@.len() implies entries_of(out@)[k] == by_name(all)[k] by {
            assert(out@[k].0@ == v@[places@[k] as int].0@);
            assert(places@[k] < names_of(all).len());
        }
        assert(entries_of(out@) =~= by_name(all));
    }
    out
}

/// `now` is `t` with the presets of every folder in order.
pub open spec fn sorted_from(t: Tree, now: Tree) -> bool {
    &&& forall|d: Seq<Seq<char>>| #[trigger] listing(now, d) == by_name(listing(t, d))
    &&& forall|d: Seq<Seq<char>>| #[trigger] has_folder(now, d) <==> has_folder(t, d)
    &&& total(now) == total(t)
    &&& stored(now) == stored(t)
}

proof fn lemma_none_by_name()
    ensures
        by_name(Seq::<Entry>::empty()) == Seq::<Entry>::empty(),
{
    assert(by_name(Seq::<Entry>::empty()) =~= Seq::<Entry>::empty());
}

proof fn lemma_folders_total_equal(a: Vec<(String, Tree)>, b: Vec<(String, Tree)>, n: int)
    requires
        0 <= n <= a.len(),
        n <= b.len(),
        forall|i: int| 0 <= i < n ==> total((#[trigger] a[i]).1) == total(b[i].1),
        forall|i: int| 0 <= i < n ==> stored((#[trigger] a[i]).1) == stored(b[i].1),
    ensures
        folders_total(a, n) == folders_total(b, n),
        folders_stored(a, n) == folders_stored(b, n),
    decreases n,
{
    if n > 0 {
        assert(total(a[n - 1].1) == total(b[n - 1].1));
        assert(stored(a[n - 1].1) == stored(b[n - 1].1));
        lemma_folders_total_equal(a, b, n - 1);
    }
}

proof fn lemma_sorted_from(t: Tree, now: Tree)
    requires
        names_increase(t.folders@),
        entries_of(now.presets@) == by_name(entries_of(t.presets@)),
        now.presets@.len() == t.presets@.len(),
        now.folders@.len() == t.folders@.len(),
        forall|i: int|
            0 <= i < t.folders@.len() ==> (#[trigger] now.folders@[i]).0@ == t.folders@[i].0@,
        forall|i: int|
            0 <= i < t.folders@.len() ==> sorted_from(
                t.folders@[i].1,
                (#[trigger] now.folders@[i]).1,
            ),
    ensures
        names_increase(now.folders@),
        sorted_from(t, now),
{
    let v = t.folders@;
    let w = now.folders@;
    assert forall|i: int, j: int| 0 <= i < j < w.len() implies text::sorts_before(
        (#[trigger] w[i]).0@,
        (#[trigger] w[j]).0@,
    ) by {
        assert(text::sorts_before(v[i].0@, v[j].0@));
    }
    assert forall|d: Seq<Seq<char>>| #[trigger] listing(now, d) == by_name(listing(t, d)) by {
        if d.len() > 0 {
            lemma_child_kept(v, w, d[0]);
            if has_child(v, d[0]) {
                let i = child_at(v, d[0]);
                assert(sorted_from(v[i].1, w[i].1));
                assert(listing(w[i].1, d.drop_first()) == by_name(
                    listing(v[i].1, d.drop_first()),
                ));
            } else {
                lemma_none_by_name();
            }
        }
    }
    assert forall|d: Seq<Seq<char>>| #[trigger] has_folder(now, d) <==> has_folder(t, d) by {
        if d.len() > 0 {
            lemma_child_kept(v, w, d[0]);
            if has_child(v, d[0]) {
                let i = child_at(v, d[0]);
                assert(sorted_from(v[i].1, w[i].1));
                assert(has_folder(w[i].1, d.drop_first()) <==> has_folder(
                    v[i].1,
                    d.drop_first(),
                ));
            }
        }
    }
    assert forall|i: int| 0 <= i < now.folders.len() implies total((#[trigger] now.folders[i]).1)
        == total(t.folders[i].1) && stored(now.folders[i].1) == stored(t.folders[i].1) by {
        assert(sorted_from(v[i].1, w[i].1));
    }
    assert(t.presets.len() == entries_of(t.presets@).len());
    lemma_by_name_same(entries_of(t.presets@));
    lemma_folders_total_equal(now.folders, t.folders, v.len() as int);
}

impl Tree {
    /// Puts the presets of every folder in the order of their names.
    pub fn sort(&mut self)
        requires
            old(self).wf(),
        ensures
            final(self).wf(),
            sorted_from(*old(self), *final(self)),
        decreases *old(self),
    {
        let ghost t = *self;
        self.presets = sort_presets(&self.presets);
        let mut i: usize = 0;
        while i < self.folders.len()
            invariant
                t == *old(self),
                t.wf(),
                i <= self.folders@.len(),
                self.folders@.len() == t.folders@.len(),
                entries_of(self.presets@) == by_name(entries_of(t.presets@)),
                self.presets@.len() == t.presets@.len(),
                forall|j: int|
                    i <= j < t.folders@.len() ==> (#[trigger] self.folders@[j]) == t.folders@[j],
                forall|j: int|
                    0 <= j < i ==> (#[trigger] self.folders@[j]).0@ == t.folders@[j].0@
                        && sorted_from(t.folders@[j].1, self.folders@[j].1)
                        && self.folders@[j].1.wf(),
            decreases self.folders@.len() - i,
        {
            let ghost before = self.folders@;
            let (name, mut sub) = self.folders.remove(i);
            assert(before[i as int] == t.folders@[i as int]);
            assert(t.folders[i as int].1.wf());
            sub.sort();
            self.folders.insert(i, (name, sub));
            assert forall|j: int| 0 <= j < before.len() && j != i implies #[trigger]
                self.folders@[j] == before[j] by {}
            i = i + 1;
        }
        proof {
            lemma_sorted_from(t, *self);
            assert forall|j: int| 0 <= j < self.folders.len() implies (#[trigger]
            self.folders[j]).1.wf() by {
                assert(self.folders@[j].1.wf());
            }
        }
    }

    /// Arranges presets by their folders.
    pub fn build(paths: &Vec<String>) -> (r: Tree)
        ensures
            built(text::texts(paths@), r),
            total(r) <= paths@.len(),
    {
        let mut root: Tree = Tree::new();
        let ghost all = text::texts(paths@);
        let mut i: usize = 0;
        assert(all.take(0) =~= Seq::empty());
        proof {
            lemma_none_named();
        }
        while i < paths.len()
            invariant
                i <= paths@.len(),
                all == text::texts(paths@),
                root.wf(),
                forall|d: Seq<Seq<char>>| #[trigger]
                    listing(root, d) == paths_in(all.take(i as int), d),
                forall|d: Seq<Seq<char>>| #[trigger]
                    has_folder(root, d) <==> above_some(all.take(i as int), d),
                total(root) == named(all.take(i as int)).len(),
                stored(root) == named(all.take(i as int)).to_multiset(),
            decreases paths@.len() - i,
        {
            let ghost before = root;
            let c: Vec<char> = text::chars_of(paths[i].as_str());
            let parts: Vec<Vec<char>> = path::parts(c.as_slice());
            let ghost now = all.take(i as int + 1);
            assert(now.drop_last() =~= all.take(i as int));
            assert(now.last() == all[i as int]);
            assert(text::contents(parts@) == path::components(all[i as int]));
            assert(parts@.len() == path::components(all[i as int]).len());
            if parts.len() > 0 {
                root.insert(&parts, 0, paths[i].as_str());
            }
            proof {
                let p = all[i as int];
                vstd::seq_lib::to_multiset_build(named(all.take(i as int)), p);
                assert(text::contents(parts@).skip(0) =~= text::contents(parts@));
                assert forall|d: Seq<Seq<char>>| #[trigger]
                    listing(root, d) == paths_in(now, d) by {
                    assert(listing(before, d) == paths_in(all.take(i as int), d));
                }
                assert forall|d: Seq<Seq<char>>| #[trigger]
                    has_folder(root, d) <==> above_some(now, d) by {
                    assert(has_folder(before, d) <==> above_some(all.take(i as int), d));
                    lemma_above_one_more(all, i as int, d);
                }
            }
            i = i + 1;
        }
        assert(all.take(i as int) =~= all);
        proof {
            lemma_named_bound(all);
        }
        root.sort();
        root
    }
}

proof fn lemma_none_named()
    ensures
        named(Seq::empty()).to_multiset() == Multiset::<Seq<char>>::empty(),
{
    let none = named(Seq::empty());
    none.to_multiset_ensures();
    assert(none.to_multiset() =~= Multiset::empty()) by {
        assert forall|p: Seq<char>| none.to_multiset().count(p) == 0 by {
            assert(!none.contains(p));
        }
    }
}

proof fn lemma_named_bound(paths: Seq<Seq<char>>)
    ensures
        named(paths).len() <= paths.len(),
    decreases paths.len(),
{
    if paths.len() > 0 {
        lemma_named_bound(paths.drop_last());
    }
}

proof fn lemma_above_one_more(all: Seq<Seq<char>>, i: int, d: Seq<Seq<char>>)
    requires
        0 <= i < all.len(),
    ensures
        above_some(all.take(i + 1), d) <==> above_some(all.take(i), d) || (path::components(
            all[i],
        ).len() > 0 && is_prefix(d, folder_of(all[i]))),
{
    let a = all.take(i);
    let b = all.take(i + 1);
    if d.len() > 0 {
        if above_some(b, d) {
            let j = choose|j: int|
                0 <= j < b.len() && path::components(#[trigger] b[j]).len() > 0 && is_prefix(
                    d,
                    folder_of(b[j]),
                );
            if j < i {
                assert(a[j] == b[j]);
            }
        }
        if above_some(a, d) {
            let j = choose|j: int|
                0 <= j < a.len() && path::components(#[trigger] a[j]).len() > 0 && is_prefix(
                    d,
                    folder_of(a[j]),
                );
            assert(b[j] == a[j]);
        }
        assert(b[i] == all[i]);
    }
}

// ------------------------------------------------------------------- searching

/// Every word stands in the text, whatever the case of the text.
pub open spec fn has_words(s: Seq<char>, words: Seq<Seq<char>>) -> bool {
    forall|i: int| 0 <= i < words.len() ==> text::holds(save::lowercase(s), #[trigger] words[i])
}

/// Every word stands in the text, whatever the case of its ASCII letters.
pub open spec fn has_ascii_words(s: Seq<char>, words: Seq<Seq<char>>) -> bool {
    forall|i: int| 0 <= i < words.len() ==> text::holds(text::lowered(s), #[trigger] words[i])
}

/// The path of one of the presets below passes the test.
pub open spec fn any_preset(t: Tree, test: spec_fn(Seq<char>) -> bool) -> bool {
    exists|d: Seq<Seq<char>>, i: int|
        0 <= i < listing(t, d).len() && test((#[trigger] listing(t, d)[i]).1)
}

/// One of the presets below is found by the words.
pub open spec fn finds(t: Tree, words: Seq<Seq<char>>) -> bool {
    any_preset(t, |p: Seq<char>| has_words(p, words))
}

/// The paths of all presets below are ASCII text.
pub open spec fn ascii_paths(t: Tree) -> bool {
    !any_preset(t, |p: Seq<char>| !text::ascii(p))
}

/// One of the presets below, which are ASCII text, is found by the words.
pub open spec fn finds_ascii(t: Tree, words: Seq<Seq<char>>) -> bool {
    any_preset(t, |p: Seq<char>| has_ascii_words(p, words))
}

proof fn lemma_any_here(t: Tree, test: spec_fn(Seq<char>) -> bool, i: int)
    requires
        0 <= i < t.presets@.len(),
        test(t.presets@[i].1@),
    ensures
        any_preset(t, test),
{
    let root = Seq::<Seq<char>>::empty();
    assert(listing(t, root)[i].1 == t.presets@[i].1@);
}

proof fn lemma_any_below(t: Tree, test: spec_fn(Seq<char>) -> bool, k: int)
    requires
        names_increase(t.folders@),
        0 <= k < t.folders@.len(),
        any_preset(t.folders@[k].1, test),
    ensures
        any_preset(t, test),
{
    let sub = t.folders@[k].1;
    let (d, j) = choose|d: Seq<Seq<char>>, j: int|
        0 <= j < listing(sub, d).len() && test((#[trigger] listing(sub, d)[j]).1);
    let full = seq![t.folders@[k].0@] + d;
    lemma_child(t.folders@, k);
    assert(full.drop_first() =~= d);
    assert(listing(t, full) == listing(sub, d));
    assert(test(listing(t, full)[j].1));
}

/// A preset that passes the test stands in the folder itself or below one of
/// its sub-folders.
proof fn lemma_any_somewhere(t: Tree, test: spec_fn(Seq<char>) -> bool)
    requires
        any_preset(t, test),
    ensures
        (exists|i: int| 0 <= i < t.presets@.len() && test((#[trigger] t.presets@[i]).1@)) || (
        exists|k: int|
            0 <= k < t.folders@.len() && any_preset((#[trigger] t.folders@[k]).1, test)),
{
    let (d, j) = choose|d: Seq<Seq<char>>, j: int|
        0 <= j < listing(t, d).len() && test((#[trigger] listing(t, d)[j]).1);
    if d.len() == 0 {
        assert(test(t.presets@[j].1@));
    } else {
        let k = child_at(t.folders@, d[0]);
        let sub = t.folders@[k].1;
        assert(test(listing(sub, d.drop_first())[j].1));
        assert(any_preset(sub, test));
    }
}

/// Whether every word stands in the text.
pub fn has_all(s: &[char], words: &Vec<Vec<char>>) -> (r: bool)
    ensures
        r == forall|i: int|
            0 <= i < words@.len() ==> text::holds(s@, #[trigger] text::contents(words@)[i]),
{
    let mut i: usize = 0;
    while i < words.len()
        invariant
            i <= words@.len(),
            forall|j: int| 0 <= j < i ==> text::holds(s@, #[trigger] text::contents(words@)[j]),
        decreases words@.len() - i,
    {
        assert(text::contents(words@)[i as int] == words@[i as int]@);
        if !text::contains(s, words[i].as_slice()) {
            return false;
        }
        i = i + 1;
    }
    true
}

/// Whether every word stands in the text, whatever the case of the text.
pub fn path_matches(s: &str, words: &Vec<Vec<char>>) -> (r: bool)
    ensures
        r == has_words(s@, text::contents(words@)),
        text::ascii(s@) ==> r == has_ascii_words(s@, text::contents(words@)),
{
    let low: Vec<char> = text::chars_of(save::to_lowercase(s).as_str());
    has_all(low.as_slice(), words)
}

impl Tree {
    /// Presets whose path contains every word, and the folders leading to
    /// them. `words` empty keeps everything.
    pub fn matches(&self, words: &Vec<Vec<char>>) -> (r: bool)
        requires
            self.wf(),
        ensures
            r == (words@.len() == 0 || finds(*self, text::contents(words@))),
            ascii_paths(*self) ==> r == (words@.len() == 0 || finds_ascii(
                *self,
                text::contents(words@),
            )),
        decreases self,
    {
        if words.len() == 0 {
            return true;
        }
        let ghost w = text::contents(words@);
        let ghost other = |p: Seq<char>| !text::ascii(p);
        let ghost found = |p: Seq<char>| has_words(p, w);
        let ghost ascii_found = |p: Seq<char>| has_ascii_words(p, w);
        let mut i: usize = 0;
        while i < self.presets.len()
            invariant
                i <= self.presets@.len(),
                words@.len() > 0,
                w == text::contents(words@),
                other == |p: Seq<char>| !text::ascii(p),
                found == |p: Seq<char>| has_words(p, w),
                ascii_found == |p: Seq<char>| has_ascii_words(p, w),
                forall|j: int| 0 <= j < i ==> !found((#[trigger] self.presets@[j]).1@),
                forall|j: int|
                    0 <= j < i && ascii_paths(*self) ==> !ascii_found(
                        (#[trigger] self.presets@[j]).1@,
                    ),
            decreases self.presets@.len() - i,
        {
            proof {
                if other(self.presets@[i as int].1@) {
                    lemma_any_here(*self, other, i as int);
                }
            }
            if path_matches(self.presets[i].1.as_str(), words) {
                proof {
                    lemma_any_here(*self, found, i as int);
                    if ascii_paths(*self) {
                        lemma_any_here(*self, ascii_found, i as int);
                    }
                }
                return true;
            }
            i = i + 1;
        }
        let mut k: usize = 0;
        while k < self.folders.len()
            invariant
                k <= self.folders@.len(),
                self.wf(),
                words@.len() > 0,
                w == text::contents(words@),
                other == |p: Seq<char>| !text::ascii(p),
                found == |p: Seq<char>| has_words(p, w),
                ascii_found == |p: Seq<char>| has_ascii_words(p, w),
                forall|j: int|
                    0 <= j < k ==> !any_preset((#[trigger] self.folders@[j]).1, found),
                forall|j: int|
                    0 <= j < k && ascii_paths(*self) ==> !any_preset(
                        (#[trigger] self.folders@[j]).1,
                        ascii_found,
                    ),
            decreases self.folders@.len() - k,
        {
            assert(self.folders[k as int].1.wf());
            proof {
                if any_preset(self.folders@[k as int].1, other) {
                    lemma_any_below(*self, other, k as int);
                }
            }
            if self.folders[k].1.matches(words) {
                proof {
                    lemma_any_below(*self, found, k as int);
                    if ascii_paths(*self) {
                        lemma_any_below(*self, ascii_found, k as int);
                    }
                }
                return true;
            }
            k = k + 1;
        }
        proof {
            if any_preset(*self, found) {
                lemma_any_somewhere(*self, found);
            }
            if ascii_paths(*self) && any_preset(*self, ascii_found) {
                lemma_any_somewhere(*self, ascii_found);
            }
        }
        false
    }

    /// Number of presets.
    pub fn count(&self) -> (r: usize)
        requires
            total(*self) <= usize::MAX,
        ensures
            r == total(*self),
        decreases self,
    {
        let mut n: usize = self.presets.len();
        let mut i: usize = 0;
        while i < self.folders.len()
            invariant
                i <= self.folders@.len(),
                total(*self) <= usize::MAX,
                n == self.presets@.len() + folders_total(self.folders, i as int),
            decreases self.folders@.len() - i,
        {
            proof {
                lemma_folders_total_grows(
                    self.folders,
                    i as int + 1,
                    self.folders@.len() as int,
                );
            }
            n = n + self.folders[i].1.count();
            i = i + 1;
        }
        n
    }
}

proof fn lemma_folders_total_grows(v: Vec<(String, Tree)>, m: int, n: int)
    requires
        0 <= m <= n <= v.len(),
    ensures
        folders_total(v, m) <= folders_total(v, n),
    decreases n - m,
{
    if m < n {
        lemma_folders_total_grows(v, m, n - 1);
    }
}

/// The presets of a folder are in the order of their names, and they are those
/// that were given.
pub proof fn lemma_by_name(v: Seq<Entry>, o: Seq<usize>)
    requires
        order::is_order(names_of(v), o),
    ensures
        by_name(v).len() == v.len(),
        forall|i: int| 0 <= i < v.len() ==> #[trigger] by_name(v)[i] == v[o[i] as int],
        forall|i: int, j: int|
            0 <= i < j < v.len() ==> text::sorts_before(
                (#[trigger] by_name(v)[i]).0,
                (#[trigger] by_name(v)[j]).0,
            ) || by_name(v)[i].0 == by_name(v)[j].0,
{
    let p = choose|p: Seq<usize>| order::is_order(names_of(v), p);
    order::lemma_one_order(names_of(v), o, p);
    assert forall|i: int, j: int| 0 <= i < j < v.len() implies text::sorts_before(
        (#[trigger] by_name(v)[i]).0,
        (#[trigger] by_name(v)[j]).0,
    ) || by_name(v)[i].0 == by_name(v)[j].0 by {
        assert(o[i] < names_of(v).len() && o[j] < names_of(v).len());
        assert(order::goes_before(names_of(v), o[i] as int, o[j] as int));
    }
}

// -------------------------------------------------------------------- scanning

/// Depth to which folders are scanned.
pub const DEPTH: u32 = 8;

/// What is done with something found in a folder.
#[derive(Clone, Copy, PartialEq, Eq, Debug, Structural)]
pub enum Found {
    /// Look into the folder.
    Folder,
    /// Take the preset.
    Preset,
    /// Pass over it.
    Other,
}

/// What to do with something called `name` at that depth: a folder, as far as
/// folders are scanned, or a preset.
pub fn scanned(name: &str, is_dir: bool, depth: u32) -> (r: Found)
    ensures
        r == if is_dir && depth < DEPTH {
            Found::Folder
        } else if path::extension_of(name@) == Some("slangp"@) {
            Found::Preset
        } else {
            Found::Other
        },
{
    if is_dir && depth < DEPTH {
        return Found::Folder;
    }
    let c: Vec<char> = text::chars_of(name);
    match path::extension(c.as_slice()) {
        Some(e) => {
            if text::same_text(e, "slangp") {
                Found::Preset
            } else {
                Found::Other
            }
        },
        None => Found::Other,
    }
}

/// Folders that shaders are looked for in, under the home directory `home`.
pub open spec fn shader_roots(home: Seq<char>) -> Seq<Seq<char>> {
    seq![
        home + "/.config/retroarch/shaders/shaders_slang"@,
        home + "/.local/share/libretro/shaders/shaders_slang"@,
        "/usr/share/libretro/shaders/shaders_slang"@,
    ]
}

/// The folders that shaders are looked for in, in order.
pub fn shader_root_candidates(home: &str) -> (r: Vec<String>)
    ensures
        text::texts(r@) == shader_roots(home@),
{
    let mut a: Vec<char> = text::chars_of(home);
    text::append_text(&mut a, "/.config/retroarch/shaders/shaders_slang");
    let mut b: Vec<char> = text::chars_of(home);
    text::append_text(&mut b, "/.local/share/libretro/shaders/shaders_slang");
    let mut out: Vec<String> = Vec::new();
    out.push(text::text_of(a.as_slice()));
    out.push(text::text_of(b.as_slice()));
    out.push(text::text_of(
        text::chars_of("/usr/share/libretro/shaders/shaders_slang").as_slice(),
    ));
    assert(text::texts(out@) =~= shader_roots(home@));
    out
}

/// The folder to start with: the first that is there, or the last. `found`
/// says of the first two whether they are there.
pub fn default_shader_root(home: &str, found: (bool, bool)) -> (r: String)
    ensures
        r@ == shader_roots(home@)[if found.0 {
            0
        } else if found.1 {
            1
        } else {
            2int
        }],
{
    let mut v: Vec<String> = shader_root_candidates(home);
    let i: usize = if found.0 {
        0
    } else if found.1 {
        1
    } else {
        2
    };
    assert(v@.len() == shader_roots(home@).len());
    assert(text::texts(v@)[i as int] == v@[i as int]@);
    v.swap_remove(i)
}

/// No words find everything; one more word must stand in the text too, in lower
/// case.
pub proof fn lemma_one_more_word(s: Seq<char>, words: Seq<Seq<char>>, word: Seq<char>)
    ensures
        has_words(s, Seq::empty()),
        has_words(s, words.push(word)) <==> has_words(s, words) && text::holds(
            save::lowercase(s),
            word,
        ),
        has_ascii_words(s, Seq::empty()),
        has_ascii_words(s, words.push(word)) <==> has_ascii_words(s, words) && text::holds(
            text::lowered(s),
            word,
        ),
{
    let all = words.push(word);
    assert(all[words.len() as int] == word);
    assert(forall|i: int| 0 <= i < words.len() ==> all[i] == words[i]);
}

} // verus!

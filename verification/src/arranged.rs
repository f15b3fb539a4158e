//! What a tree that was built from paths holds.

use crate::order;
use crate::path;
use crate::text;
use crate::tree::{self, Entry, Tree};
use vstd::prelude::*;
use vstd::relations;

verus! {

/// Where every path names something, each is a preset of the tree, as often as
/// it was given.
pub proof fn lemma_all_stored(paths: Seq<Seq<char>>, t: Tree)
    requires
        tree::built(paths, t),
        forall|i: int| 0 <= i < paths.len() ==> path::components(#[trigger] paths[i]).len() > 0,
    ensures
        tree::total(t) == paths.len(),
        tree::stored(t) == paths.to_multiset(),
{
    lemma_all_named(paths);
}

proof fn lemma_all_named(paths: Seq<Seq<char>>)
    requires
        forall|i: int| 0 <= i < paths.len() ==> path::components(#[trigger] paths[i]).len() > 0,
    ensures
        tree::named(paths) == paths,
    decreases paths.len(),
{
    if paths.len() > 0 {
        let front = paths.drop_last();
        assert forall|i: int| 0 <= i < front.len() implies path::components(
            #[trigger] front[i],
        ).len() > 0 by {
            assert(front[i] == paths[i]);
        }
        lemma_all_named(front);
        assert(path::components(paths[paths.len() - 1]).len() > 0);
        assert(front.push(paths.last()) =~= paths);
    } else {
        assert(tree::named(paths) =~= paths);
    }
}

/// `e` stands for its path in the folder `d`.
pub open spec fn entry_in(e: Entry, d: Seq<Seq<char>>) -> bool {
    &&& path::components(e.1).len() > 0
    &&& tree::folder_of(e.1) == d
    &&& e.0 == path::components(e.1).last()
}

/// A path is in its folder as often as it was given.
proof fn lemma_paths_in_count(paths: Seq<Seq<char>>, d: Seq<Seq<char>>, e: Entry)
    ensures
        tree::paths_in(paths, d).to_multiset().count(e) == if entry_in(e, d) {
            paths.to_multiset().count(e.1)
        } else {
            0
        },
        tree::paths_in(paths, d).len() <= paths.len(),
    decreases paths.len(),
{
    let v = tree::paths_in(paths, d);
    if paths.len() == 0 {
        v.to_multiset_ensures();
        paths.to_multiset_ensures();
        assert(!v.contains(e));
        assert(!paths.contains(e.1));
    } else {
        let front = paths.drop_last();
        let p = paths.last();
        lemma_paths_in_count(front, d, e);
        vstd::seq_lib::to_multiset_build(front, p);
        assert(front.push(p) =~= paths);
        let before = tree::paths_in(front, d);
        if path::components(p).len() > 0 && tree::folder_of(p) == d {
            vstd::seq_lib::to_multiset_build(before, (path::components(p).last(), p));
        }
    }
}

/// No path is given in two spellings.
pub open spec fn one_spelling(paths: Seq<Seq<char>>) -> bool {
    forall|i: int, j: int|
        0 <= i < paths.len() && 0 <= j < paths.len() && path::components(#[trigger] paths[i])
            == path::components(#[trigger] paths[j]) ==> paths[i] == paths[j]
}

/// By name, then by path.
spec fn entry_order() -> spec_fn(Entry, Entry) -> bool {
    |a: Entry, b: Entry|
        text::sorts_before(a.0, b.0) || (a.0 == b.0 && (text::sorts_before(a.1, b.1) || a.1
            == b.1))
}

proof fn lemma_entry_order()
    ensures
        relations::total_ordering(entry_order()),
{
    let leq = entry_order();
    assert forall|a: Entry, b: Entry| #[trigger] leq(a, b) && #[trigger] leq(b, a) implies a
        == b by {
        text::lemma_order_total(a.0, b.0);
        text::lemma_order_total(a.1, b.1);
    }
    assert forall|a: Entry, b: Entry, c: Entry| #[trigger] leq(a, b) && #[trigger] leq(b, c)
        implies leq(a, c) by {
        if text::sorts_before(a.0, b.0) && text::sorts_before(b.0, c.0) {
            text::lemma_order_transitive(a.0, b.0, c.0);
        }
        if text::sorts_before(a.1, b.1) && text::sorts_before(b.1, c.1) {
            text::lemma_order_transitive(a.1, b.1, c.1);
        }
    }
    assert forall|a: Entry, b: Entry| #[trigger] leq(a, b) || #[trigger] leq(b, a) by {
        text::lemma_order_total(a.0, b.0);
        text::lemma_order_total(a.1, b.1);
    }
}

/// What stands in a folder is one of the paths.
proof fn lemma_entry(paths: Seq<Seq<char>>, d: Seq<Seq<char>>, i: int)
    requires
        paths.len() <= usize::MAX,
        0 <= i < tree::by_name(tree::paths_in(paths, d)).len(),
    ensures
        entry_in(tree::by_name(tree::paths_in(paths, d))[i], d),
        paths.contains(tree::by_name(tree::paths_in(paths, d))[i].1),
{
    let v = tree::paths_in(paths, d);
    let w = tree::by_name(v);
    let e = w[i];
    lemma_paths_in_count(paths, d, e);
    tree::lemma_by_name_same(v);
    w.to_multiset_ensures();
    paths.to_multiset_ensures();
    assert(w.contains(e));
    assert(w.to_multiset().count(e) > 0);
}

/// The presets of a folder go up by name, then by path.
proof fn lemma_folder_sorted(paths: Seq<Seq<char>>, d: Seq<Seq<char>>)
    requires
        paths.len() <= usize::MAX,
        one_spelling(paths),
    ensures
        relations::sorted_by(tree::by_name(tree::paths_in(paths, d)), entry_order()),
{
    let v = tree::paths_in(paths, d);
    let w = tree::by_name(v);
    let leq = entry_order();
    lemma_paths_in_count(paths, d, (seq![], seq![]));
    let o = order::lemma_some_order(tree::names_of(v));
    tree::lemma_by_name(v, o);
    assert forall|i: int, j: int| 0 <= i < j < w.len() implies #[trigger] leq(w[i], w[j]) by {
        if w[i].0 == w[j].0 {
            lemma_entry(paths, d, i);
            lemma_entry(paths, d, j);
            let a = path::components(w[i].1);
            let b = path::components(w[j].1);
            assert(a =~= a.drop_last().push(a.last()));
            assert(b =~= b.drop_last().push(b.last()));
            let m = choose|m: int| 0 <= m < paths.len() && paths[m] == w[i].1;
            let n = choose|n: int| 0 <= n < paths.len() && paths[n] == w[j].1;
            assert(path::components(paths[m]) == path::components(paths[n]));
        }
    }
}

proof fn lemma_named_count(paths: Seq<Seq<char>>, p: Seq<char>)
    ensures
        tree::named(paths).to_multiset().count(p) == if path::components(p).len() > 0 {
            paths.to_multiset().count(p)
        } else {
            0
        },
    decreases paths.len(),
{
    let v = tree::named(paths);
    if paths.len() == 0 {
        v.to_multiset_ensures();
        paths.to_multiset_ensures();
        assert(!v.contains(p));
        assert(!paths.contains(p));
    } else {
        let front = paths.drop_last();
        lemma_named_count(front, p);
        vstd::seq_lib::to_multiset_build(front, paths.last());
        assert(front.push(paths.last()) =~= paths);
        vstd::seq_lib::to_multiset_build(tree::named(front), paths.last());
    }
}

proof fn lemma_above_same(a: Seq<Seq<char>>, b: Seq<Seq<char>>, d: Seq<Seq<char>>)
    requires
        a.to_multiset() == b.to_multiset(),
        tree::above_some(a, d),
    ensures
        tree::above_some(b, d),
{
    if d.len() > 0 {
        a.to_multiset_ensures();
        b.to_multiset_ensures();
        let i = choose|i: int|
            0 <= i < a.len() && path::components(#[trigger] a[i]).len() > 0 && tree::is_prefix(
                d,
                tree::folder_of(a[i]),
            );
        assert(a.contains(a[i]));
        assert(a.to_multiset().count(a[i]) > 0);
        assert(b.contains(a[i]));
        let j = choose|j: int| 0 <= j < b.len() && b[j] == a[i];
        assert(path::components(b[j]).len() > 0);
    }
}

proof fn lemma_spelling_same(a: Seq<Seq<char>>, b: Seq<Seq<char>>)
    requires
        a.to_multiset() == b.to_multiset(),
        one_spelling(a),
    ensures
        one_spelling(b),
{
    a.to_multiset_ensures();
    b.to_multiset_ensures();
    assert forall|i: int, j: int|
        0 <= i < b.len() && 0 <= j < b.len() && path::components(#[trigger] b[i])
            == path::components(#[trigger] b[j]) implies b[i] == b[j] by {
        assert(b.contains(b[i]) && b.contains(b[j]));
        assert(b.to_multiset().count(b[i]) > 0 && b.to_multiset().count(b[j]) > 0);
        let m = choose|m: int| 0 <= m < a.len() && a[m] == b[i];
        let n = choose|n: int| 0 <= n < a.len() && a[n] == b[j];
        assert(path::components(a[m]) == path::components(a[n]));
    }
}

/// The order in which the paths are given does not count: a tree of some paths
/// is a tree of the same paths in any other order, if none is given in two
/// spellings.
pub proof fn lemma_any_order(a: Seq<Seq<char>>, b: Seq<Seq<char>>, t: Tree)
    requires
        a.to_multiset() == b.to_multiset(),
        a.len() <= usize::MAX,
        one_spelling(a),
        tree::built(a, t),
    ensures
        tree::built(b, t),
{
    a.to_multiset_ensures();
    b.to_multiset_ensures();
    lemma_spelling_same(a, b);
    lemma_entry_order();
    assert forall|d: Seq<Seq<char>>| #[trigger]
        tree::listing(t, d) == tree::by_name(tree::paths_in(b, d)) by {
        let v = tree::paths_in(a, d);
        let w = tree::paths_in(b, d);
        assert forall|e: Entry| v.to_multiset().count(e) == w.to_multiset().count(e) by {
            lemma_paths_in_count(a, d, e);
            lemma_paths_in_count(b, d, e);
        }
        assert(v.to_multiset() =~= w.to_multiset());
        lemma_paths_in_count(a, d, (seq![], seq![]));
        lemma_paths_in_count(b, d, (seq![], seq![]));
        tree::lemma_by_name_same(v);
        tree::lemma_by_name_same(w);
        lemma_folder_sorted(a, d);
        lemma_folder_sorted(b, d);
        vstd::seq_lib::lemma_sorted_unique(tree::by_name(v), tree::by_name(w), entry_order());
        assert(tree::listing(t, d) == tree::by_name(v));
    }
    assert forall|d: Seq<Seq<char>>| #[trigger]
        tree::has_folder(t, d) <==> tree::above_some(b, d) by {
        if tree::above_some(a, d) {
            lemma_above_same(a, b, d);
        }
        if tree::above_some(b, d) {
            lemma_above_same(b, a, d);
        }
    }
    assert forall|p: Seq<char>| tree::named(a).to_multiset().count(p) == tree::named(
        b,
    ).to_multiset().count(p) by {
        lemma_named_count(a, p);
        lemma_named_count(b, p);
    }
    assert(tree::named(a).to_multiset() =~= tree::named(b).to_multiset());
    tree::named(a).to_multiset_ensures();
    tree::named(b).to_multiset_ensures();
}

/// Two trees with the same folders and presets, in the same order.
pub open spec fn same(t: Tree, u: Tree) -> bool
    decreases t,
{
    &&& tree::entries_of(t.presets@) == tree::entries_of(u.presets@)
    &&& t.folders.len() == u.folders.len()
    &&& forall|i: int|
        0 <= i < t.folders.len() ==> (#[trigger] t.folders[i]).0@ == u.folders[i].0@ && same(
            t.folders[i].1,
            u.folders[i].1,
        )
}

/// Folders of the same names stand in the same places.
proof fn lemma_same_names(v: Seq<(String, Tree)>, w: Seq<(String, Tree)>, i: int)
    requires
        tree::names_increase(v),
        tree::names_increase(w),
        forall|name: Seq<char>| #[trigger] tree::has_child(v, name) == tree::has_child(w, name),
        0 <= i < v.len(),
    ensures
        i < w.len(),
        w[i].0@ == v[i].0@,
    decreases i,
{
    let x = v[i].0@;
    assert forall|k: int| 0 <= k < i implies k < w.len() && (#[trigger] v[k]).0@ == w[k].0@ by {
        lemma_same_names(v, w, k);
    }
    assert(tree::has_child(v, x));
    let j = choose|j: int| 0 <= j < w.len() && (#[trigger] w[j]).0@ == x;
    text::lemma_order_total(x, x);
    if j < i {
        assert(v[j].0@ == w[j].0@);
        assert(text::sorts_before(v[j].0@, v[i].0@));
    }
    if j > i {
        let y = w[i].0@;
        assert(text::sorts_before(w[i].0@, w[j].0@));
        text::lemma_order_total(x, y);
        text::lemma_order_total(y, y);
        assert(tree::has_child(w, y));
        assert(tree::has_child(v, y));
        let k = choose|k: int| 0 <= k < v.len() && (#[trigger] v[k]).0@ == y;
        if k < i {
            assert(v[k].0@ == w[k].0@);
            assert(text::sorts_before(w[k].0@, w[i].0@));
        } else if k > i {
            assert(text::sorts_before(v[i].0@, v[k].0@));
        }
    }
}

proof fn lemma_child_is_folder(t: Tree, name: Seq<char>)
    ensures
        tree::has_folder(t, seq![name]) == tree::has_child(t.folders@, name),
{
    let d = seq![name];
    assert(d[0] == name);
    if tree::has_child(t.folders@, name) {
        let sub = t.folders@[tree::child_at(t.folders@, name)].1;
        assert(tree::has_folder(sub, d.drop_first()));
    }
}

/// A tree is given by the folders in it and what stands in them.
pub proof fn lemma_same(t: Tree, u: Tree)
    requires
        t.wf(),
        u.wf(),
        forall|d: Seq<Seq<char>>| #[trigger] tree::listing(t, d) == tree::listing(u, d),
        forall|d: Seq<Seq<char>>| #[trigger] tree::has_folder(t, d) == tree::has_folder(u, d),
    ensures
        same(t, u),
    decreases t,
{
    let v = t.folders@;
    let w = u.folders@;
    let root = Seq::<Seq<char>>::empty();
    assert(tree::listing(t, root) == tree::listing(u, root));
    assert forall|name: Seq<char>| #[trigger]
        tree::has_child(v, name) == tree::has_child(w, name) by {
        let d = seq![name];
        lemma_child_is_folder(t, name);
        lemma_child_is_folder(u, name);
        assert(tree::has_folder(t, d) == tree::has_folder(u, d));
    }
    if v.len() > 0 {
        lemma_same_names(v, w, v.len() - 1);
    }
    if w.len() > 0 {
        lemma_same_names(w, v, w.len() - 1);
    }
    assert forall|i: int| 0 <= i < t.folders.len() implies (#[trigger] t.folders[i]).0@
        == u.folders[i].0@ && same(t.folders[i].1, u.folders[i].1) by {
        lemma_same_names(v, w, i);
        tree::lemma_child(v, i);
        tree::lemma_child(w, i);
        let a = t.folders[i].1;
        let b = u.folders[i].1;
        assert(a.wf() && b.wf());
        assert forall|d: Seq<Seq<char>>| #[trigger]
            tree::listing(a, d) == tree::listing(b, d) by {
            let full = seq![v[i].0@] + d;
            assert(full.drop_first() =~= d);
            assert(full[0] == v[i].0@);
            assert(tree::listing(t, full) == tree::listing(a, d));
            assert(tree::listing(u, full) == tree::listing(b, d));
        }
        assert forall|d: Seq<Seq<char>>| #[trigger]
            tree::has_folder(a, d) == tree::has_folder(b, d) by {
            let full = seq![v[i].0@] + d;
            assert(full.drop_first() =~= d);
            assert(full[0] == v[i].0@);
            assert(tree::has_folder(t, full) == tree::has_folder(a, d));
            assert(tree::has_folder(u, full) == tree::has_folder(b, d));
        }
        lemma_same(a, b);
    }
}

/// Trees that are built from the same paths, in whatever order these are
/// given, are the same.
pub proof fn lemma_same_tree(a: Seq<Seq<char>>, b: Seq<Seq<char>>, t: Tree, u: Tree)
    requires
        a.to_multiset() == b.to_multiset(),
        a.len() <= usize::MAX,
        one_spelling(a),
        tree::built(a, t),
        tree::built(b, u),
    ensures
        same(t, u),
{
    lemma_any_order(a, b, t);
    assert forall|d: Seq<Seq<char>>| #[trigger] tree::listing(t, d) == tree::listing(u, d) by {
        assert(tree::listing(t, d) == tree::by_name(tree::paths_in(b, d)));
    }
    assert forall|d: Seq<Seq<char>>| #[trigger] tree::has_folder(t, d) == tree::has_folder(
        u,
        d,
    ) by {
        assert(tree::has_folder(t, d) <==> tree::above_some(b, d));
    }
    lemma_same(t, u);
}

/// The presets of every folder are in the order of their names, each under the
/// last part of its path, in the folder that the parts before it lead to.
pub proof fn lemma_listing(paths: Seq<Seq<char>>, t: Tree, d: Seq<Seq<char>>)
    requires
        paths.len() <= usize::MAX,
        tree::built(paths, t),
    ensures
        forall|i: int|
            0 <= i < tree::listing(t, d).len() ==> entry_in(#[trigger] tree::listing(t, d)[i], d)
                && paths.contains(tree::listing(t, d)[i].1),
        forall|i: int, j: int|
            0 <= i < j < tree::listing(t, d).len() ==> !text::sorts_before(
                (#[trigger] tree::listing(t, d)[j]).0,
                (#[trigger] tree::listing(t, d)[i]).0,
            ),
{
    let v = tree::paths_in(paths, d);
    let w = tree::listing(t, d);
    lemma_paths_in_count(paths, d, (seq![], seq![]));
    let o = order::lemma_some_order(tree::names_of(v));
    tree::lemma_by_name(v, o);
    assert forall|i: int| 0 <= i < w.len() implies entry_in(#[trigger] w[i], d) && paths.contains(
        w[i].1,
    ) by {
        lemma_entry(paths, d, i);
    }
    assert forall|i: int, j: int| 0 <= i < j < w.len() implies !text::sorts_before(
        (#[trigger] w[j]).0,
        (#[trigger] w[i]).0,
    ) by {
        text::lemma_order_total(w[i].0, w[j].0);
    }
}

/// One of the paths that name something passes the test.
pub open spec fn any_path(paths: Seq<Seq<char>>, test: spec_fn(Seq<char>) -> bool) -> bool {
    exists|i: int|
        0 <= i < paths.len() && path::components(#[trigger] paths[i]).len() > 0 && test(paths[i])
}

/// The presets of a tree are the paths that it was built from.
proof fn lemma_any_path(paths: Seq<Seq<char>>, t: Tree, test: spec_fn(Seq<char>) -> bool)
    requires
        paths.len() <= usize::MAX,
        tree::built(paths, t),
    ensures
        tree::any_preset(t, test) <==> any_path(paths, test),
{
    if tree::any_preset(t, test) {
        let (d, i) = choose|d: Seq<Seq<char>>, i: int|
            0 <= i < tree::listing(t, d).len() && test((#[trigger] tree::listing(t, d)[i]).1);
        let e = tree::listing(t, d)[i];
        lemma_entry(paths, d, i);
        let j = choose|j: int| 0 <= j < paths.len() && paths[j] == e.1;
        assert(path::components(paths[j]).len() > 0);
    }
    if any_path(paths, test) {
        let j = choose|j: int|
            0 <= j < paths.len() && path::components(#[trigger] paths[j]).len() > 0 && test(
                paths[j],
            );
        let p = paths[j];
        let d = tree::folder_of(p);
        let e = (path::components(p).last(), p);
        let v = tree::paths_in(paths, d);
        let w = tree::by_name(v);
        lemma_paths_in_count(paths, d, e);
        tree::lemma_by_name_same(v);
        paths.to_multiset_ensures();
        w.to_multiset_ensures();
        assert(paths.contains(p));
        assert(paths.to_multiset().count(p) > 0);
        assert(w.to_multiset().count(e) > 0);
        assert(w.contains(e));
        let i = choose|i: int| 0 <= i < w.len() && w[i] == e;
        assert(tree::listing(t, d)[i] == e);
        assert(test(tree::listing(t, d)[i].1));
    }
}

/// Words find something in a tree exactly when they all stand in one of the
/// paths that it was built from.
pub proof fn lemma_finds_paths(paths: Seq<Seq<char>>, t: Tree, words: Seq<Seq<char>>)
    requires
        paths.len() <= usize::MAX,
        tree::built(paths, t),
    ensures
        tree::finds(t, words) <==> any_path(paths, |p: Seq<char>| tree::has_words(p, words)),
{
    lemma_any_path(paths, t, |p: Seq<char>| tree::has_words(p, words));
}

/// In a tree of ASCII paths, that is so whatever the case of the letters in
/// the paths.
pub proof fn lemma_finds_ascii_paths(paths: Seq<Seq<char>>, t: Tree, words: Seq<Seq<char>>)
    requires
        paths.len() <= usize::MAX,
        tree::built(paths, t),
        forall|i: int| 0 <= i < paths.len() ==> text::ascii(#[trigger] paths[i]),
    ensures
        tree::ascii_paths(t),
        tree::finds_ascii(t, words) <==> any_path(
            paths,
            |p: Seq<char>| tree::has_ascii_words(p, words),
        ),
{
    lemma_any_path(paths, t, |p: Seq<char>| !text::ascii(p));
    lemma_any_path(paths, t, |p: Seq<char>| tree::has_ascii_words(p, words));
}

} // verus!

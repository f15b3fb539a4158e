//! File paths as texts, with `/` between the components.

use crate::text;
use vstd::prelude::*;

verus! {

/// `s` without the separators and `.` components at its end.
pub open spec fn tidied(s: Seq<char>) -> Seq<char>
    decreases s.len(),
{
    if s.len() > 1 && s.last() == '/' {
        tidied(s.drop_last())
    } else if s.len() > 1 && s.last() == '.' && s[s.len() - 2] == '/' {
        tidied(s.drop_last())
    } else {
        s
    }
}

/// Number of characters up to and including the last `c`.
pub open spec fn through_last(s: Seq<char>, c: char) -> nat
    decreases s.len(),
{
    if s.len() == 0 {
        0
    } else if s.last() == c {
        s.len()
    } else {
        through_last(s.drop_last(), c)
    }
}

/// The last component, if it names a file or a folder.
pub open spec fn name_of(s: Seq<char>) -> Option<Seq<char>> {
    let t = tidied(s);
    let n = t.skip(through_last(t, '/') as int);
    if n.len() == 0 || n == "."@ || n == ".."@ {
        None
    } else {
        Some(n)
    }
}

/// What is left without the last component; nothing is left of a root.
pub open spec fn parent_of(s: Seq<char>) -> Option<Seq<char>> {
    let t = tidied(s);
    if t.len() == 0 || t == "/"@ {
        None
    } else {
        Some(tidied(t.take(through_last(t, '/') as int)))
    }
}

/// A name without its extension: what stands before the last dot, unless the
/// name begins with that dot.
pub open spec fn stem_of(name: Seq<char>) -> Seq<char> {
    let n = through_last(name, '.') as int;
    if n <= 1 {
        name
    } else {
        name.take(n - 1)
    }
}

/// What stands after the last dot of a name, unless the name begins with it.
pub open spec fn extension_of(name: Seq<char>) -> Option<Seq<char>> {
    let n = through_last(name, '.') as int;
    if n <= 1 {
        None
    } else {
        Some(name.skip(n))
    }
}

/// `rel` seen from `base`; an absolute `rel` stands for itself.
pub open spec fn within(base: Seq<char>, rel: Seq<char>) -> Seq<char> {
    if rel.len() > 0 && rel[0] == '/' {
        rel
    } else if base.len() > 0 && base.last() != '/' {
        base + seq!['/'] + rel
    } else {
        base + rel
    }
}

/// `s` with its last component, if it names a file or folder, replaced.
pub open spec fn renamed(s: Seq<char>, name: Seq<char>) -> Seq<char> {
    match (name_of(s), parent_of(s)) {
        (Some(_), Some(p)) => within(p, name),
        _ => within(s, name),
    }
}

/// `s` without the separators and `.` components in front.
pub open spec fn led(s: Seq<char>) -> Seq<char>
    decreases s.len(),
{
    if s.len() > 0 && s[0] == '/' {
        led(s.drop_first())
    } else if s == "."@ {
        seq![]
    } else if s.len() > 1 && s[0] == '.' && s[1] == '/' {
        led(s.drop_first())
    } else {
        s
    }
}

/// An absolute path seen from the root.
pub open spec fn below_root(s: Seq<char>) -> Option<Seq<char>> {
    if s.len() > 0 && s[0] == '/' {
        Some(tidied(led(s)))
    } else {
        None
    }
}

/// Whether `c` stands for a step of its own at position `i` of a path.
pub open spec fn is_step(i: int, c: Seq<char>) -> bool {
    c.len() > 0 && (i == 0 || c != "."@)
}

/// The components in `v` from the `i`th piece on.
pub open spec fn steps(v: Seq<Seq<char>>, i: int) -> Seq<Seq<char>>
    decreases v.len() - i,
{
    if i < 0 || i >= v.len() {
        seq![]
    } else if is_step(i, v[i]) {
        seq![v[i]] + steps(v, i + 1)
    } else {
        steps(v, i + 1)
    }
}

/// The components of a path. Repeated separators count once, and a `.` counts
/// only in front; an absolute path begins with the root.
pub open spec fn components(s: Seq<char>) -> Seq<Seq<char>> {
    let rest = steps(text::pieces(s, '/'), 0);
    if s.len() > 0 && s[0] == '/' {
        seq!["/"@] + rest
    } else {
        rest
    }
}

/// `s` without the separators and `.` components at its end.
pub fn tidy(s: &[char]) -> (r: &[char])
    ensures
        r@ == tidied(s@),
{
    let mut n: usize = s.len();
    assert(s@.take(n as int) == s@);
    while n > 1 && (s[n - 1] == '/' || (s[n - 1] == '.' && s[n - 2] == '/'))
        invariant
            n <= s@.len(),
            tidied(s@) == tidied(s@.take(n as int)),
        decreases n,
    {
        assert(s@.take(n as int).drop_last() == s@.take(n as int - 1));
        n = n - 1;
    }
    assert(s@.take(n as int) == s@.subrange(0, n as int));
    vstd::slice::slice_subrange(s, 0, n)
}

/// Number of characters up to and including the last `c`.
pub fn last_of(s: &[char], c: char) -> (r: usize)
    ensures
        r == through_last(s@, c),
        r <= s@.len(),
{
    let mut n: usize = s.len();
    assert(s@.take(n as int) == s@);
    while n > 0 && s[n - 1] != c
        invariant
            n <= s@.len(),
            through_last(s@, c) == through_last(s@.take(n as int), c),
        decreases n,
    {
        assert(s@.take(n as int).drop_last() == s@.take(n as int - 1));
        n = n - 1;
    }
    n
}

/// The last component, if it names a file or a folder.
pub fn name(s: &[char]) -> (r: Option<&[char]>)
    ensures
        match r {
            Some(n) => name_of(s@) == Some(n@),
            None => name_of(s@) is None,
        },
{
    let t: &[char] = tidy(s);
    let k: usize = last_of(t, '/');
    let n: &[char] = vstd::slice::slice_subrange(t, k, t.len());
    assert(n@ == t@.skip(k as int));
    if n.len() == 0 || text::same_text(n, ".") || text::same_text(n, "..") {
        None
    } else {
        Some(n)
    }
}

/// What is left without the last component.
pub fn parent(s: &[char]) -> (r: Option<&[char]>)
    ensures
        match r {
            Some(p) => parent_of(s@) == Some(p@),
            None => parent_of(s@) is None,
        },
{
    let t: &[char] = tidy(s);
    if t.len() == 0 || text::same_text(t, "/") {
        return None;
    }
    let k: usize = last_of(t, '/');
    let p: &[char] = vstd::slice::slice_subrange(t, 0, k);
    assert(p@ == t@.take(k as int));
    Some(tidy(p))
}

/// A name without its extension.
pub fn stem(name: &[char]) -> (r: &[char])
    ensures
        r@ == stem_of(name@),
{
    let n: usize = last_of(name, '.');
    if n <= 1 {
        name
    } else {
        assert(name@.take(n as int - 1) == name@.subrange(0, n as int - 1));
        vstd::slice::slice_subrange(name, 0, n - 1)
    }
}

/// The extension of a name.
pub fn extension(name: &[char]) -> (r: Option<&[char]>)
    ensures
        match r {
            Some(e) => extension_of(name@) == Some(e@),
            None => extension_of(name@) is None,
        },
{
    let n: usize = last_of(name, '.');
    if n <= 1 {
        None
    } else {
        assert(name@.skip(n as int) == name@.subrange(n as int, name@.len() as int));
        Some(vstd::slice::slice_subrange(name, n, name.len()))
    }
}

/// `rel` seen from `base`.
pub fn join(base: &[char], rel: &[char]) -> (r: Vec<char>)
    ensures
        r@ == within(base@, rel@),
{
    if rel.len() > 0 && rel[0] == '/' {
        return text::copied(rel);
    }
    let mut out: Vec<char> = text::copied(base);
    if base.len() > 0 && base[base.len() - 1] != '/' {
        out.push('/');
        assert(out@ == base@ + seq!['/']);
    }
    text::append(&mut out, rel);
    out
}

/// `rel` seen from `base`.
pub fn join_text(base: &str, rel: &str) -> (r: String)
    ensures
        r@ == within(base@, rel@),
{
    let b: Vec<char> = text::chars_of(base);
    let c: Vec<char> = text::chars_of(rel);
    let out: Vec<char> = join(b.as_slice(), c.as_slice());
    text::text_of(out.as_slice())
}

/// `s` with its last component replaced.
pub fn rename(s: &[char], name: &[char]) -> (r: Vec<char>)
    ensures
        r@ == renamed(s@, name@),
{
    match (self::name(s), parent(s)) {
        (Some(_), Some(p)) => join(p, name),
        _ => join(s, name),
    }
}

fn lead(s: &[char]) -> (r: &[char])
    ensures
        r@ == led(s@),
{
    let mut i: usize = 0;
    assert(s@.skip(0) == s@);
    proof {
        reveal_strlit(".");
    }
    loop
        invariant
            i <= s@.len(),
            led(s@) == led(s@.skip(i as int)),
            "."@.len() == 1,
            "."@[0] == '.',
        decreases s@.len() - i,
    {
        let ghost rest = s@.skip(i as int);
        if i < s.len() && s[i] == '/' {
            assert(rest.drop_first() == s@.skip(i as int + 1));
            i = i + 1;
        } else if i < s.len() && s[i] == '.' && i + 1 == s.len() {
            assert(rest == "."@);
            assert(s@.subrange(s@.len() as int, s@.len() as int) == Seq::<char>::empty());
            return vstd::slice::slice_subrange(s, s.len(), s.len());
        } else if i < s.len() && s[i] == '.' && s[i + 1] == '/' {
            assert(rest.drop_first() == s@.skip(i as int + 1));
            assert(rest != "."@);
            i = i + 1;
        } else {
            proof {
                if rest == "."@ {
                    assert(rest.len() == 1 && rest[0] == '.');
                }
            }
            assert(rest == s@.subrange(i as int, s@.len() as int));
            return vstd::slice::slice_subrange(s, i, s.len());
        }
    }
}

/// An absolute path seen from the root.
pub fn under_root(s: &[char]) -> (r: Option<&[char]>)
    ensures
        match r {
            Some(p) => below_root(s@) == Some(p@),
            None => below_root(s@) is None,
        },
{
    if s.len() > 0 && s[0] == '/' {
        Some(tidy(lead(s)))
    } else {
        None
    }
}

/// The components of a path.
pub fn parts(s: &[char]) -> (r: Vec<Vec<char>>)
    ensures
        text::contents(r@) == components(s@),
{
    let v: Vec<Vec<char>> = text::split(s, '/');
    let ghost all = text::pieces(s@, '/');
    let mut out: Vec<Vec<char>> = Vec::new();
    if s.len() > 0 && s[0] == '/' {
        out.push(text::chars_of("/"));
        assert(text::contents(out@) == seq!["/"@]);
    } else {
        assert(text::contents(out@) == Seq::<Seq<char>>::empty());
    }
    let ghost front = text::contents(out@);
    let mut i: usize = 0;
    assert(front + steps(all, 0) == components(s@)) by {
        assert(Seq::<Seq<char>>::empty() + steps(all, 0) == steps(all, 0));
    }
    while i < v.len()
        invariant
            i <= v@.len(),
            text::contents(v@) == all,
            text::contents(out@) + steps(all, i as int) == components(s@),
        decreases v@.len() - i,
    {
        let ghost before = text::contents(out@);
        assert(all[i as int] == v@[i as int]@);
        if v[i].len() > 0 && (i == 0 || !text::same_text(v[i].as_slice(), ".")) {
            out.push(text::copied(v[i].as_slice()));
            assert(text::contents(out@) == before.push(all[i as int]));
            assert(before + (seq![all[i as int]] + steps(all, i as int + 1)) == text::contents(out@)
                + steps(all, i as int + 1));
        }
        i = i + 1;
    }
    assert(text::contents(out@) + steps(all, i as int) == text::contents(out@));
    out
}

// ------------------------------------------------------------------------ laws

/// A name of one component: some text without a `/` that is neither `.` nor
/// `..`.
pub open spec fn plain_name(n: Seq<char>) -> bool {
    &&& n.len() > 0
    &&& n != "."@
    &&& n != ".."@
    &&& forall|i: int| 0 <= i < n.len() ==> n[i] != '/'
}

/// Where the last `c` is.
pub proof fn lemma_through(a: Seq<char>, b: Seq<char>, c: char)
    requires
        forall|i: int| 0 <= i < b.len() ==> b[i] != c,
        a.len() == 0 || a.last() == c,
    ensures
        through_last(a + b, c) == a.len(),
    decreases b.len(),
{
    let s = a + b;
    if b.len() == 0 {
        assert(s =~= a);
    } else {
        assert(s.last() == b.last());
        assert(s.drop_last() =~= a + b.drop_last());
        lemma_through(a, b.drop_last(), c);
    }
}

/// What stands in a directory has the name that it was put there under.
pub proof fn lemma_name_within(base: Seq<char>, n: Seq<char>)
    requires
        plain_name(n),
    ensures
        name_of(within(base, n)) == Some(n),
{
    let front = if base.len() > 0 && base.last() != '/' {
        base + seq!['/']
    } else {
        base
    };
    let s = within(base, n);
    assert(s =~= front + n);
    assert(s.last() == n.last());
    reveal_strlit(".");
    if n.len() == 1 {
        assert(n[0] != '.') by {
            if n[0] == '.' {
                assert(n =~= "."@);
            }
        }
    } else {
        assert(s[s.len() - 2] == n[n.len() - 2]);
    }
    assert(tidied(s) == s);
    lemma_through(front, n, '/');
    assert(s.skip(front.len() as int) =~= n);
}

/// An absolute path stands for itself, wherever it is seen from.
pub proof fn lemma_absolute(base: Seq<char>, rel: Seq<char>)
    requires
        rel.len() > 0,
        rel[0] == '/',
    ensures
        within(base, rel) == rel,
{
}

/// A name with an extension has that stem and that extension: what stands
/// before and behind its last dot.
pub proof fn lemma_stem(stem: Seq<char>, extension: Seq<char>)
    requires
        stem.len() > 0,
        forall|i: int| 0 <= i < extension.len() ==> extension[i] != '.',
    ensures
        stem_of(stem + seq!['.'] + extension) == stem,
        extension_of(stem + seq!['.'] + extension) == Some(extension),
{
    let a = stem + seq!['.'];
    let s = a + extension;
    assert(a.last() == '.');
    lemma_through(a, extension, '.');
    assert(s.take(a.len() - 1) =~= stem);
    assert(s.skip(a.len() as int) =~= extension);
}

} // verus!

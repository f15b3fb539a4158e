//! Text as sequences of characters: trimming, splitting, lines, numerals.

use vstd::prelude::*;
use vstd::string::*;

verus! {

/// `String::push` of the standard library: the character goes to the end.
pub assume_specification[ String::push ](s: &mut String, c: char)
    ensures
        final(s)@ == old(s)@.push(c),
;

/// The characters of `s`.
pub fn chars_of(s: &str) -> (r: Vec<char>)
    ensures
        r@ == s@,
{
    let mut out: Vec<char> = Vec::new();
    for c in it: s.chars()
        invariant
            it.seq() == s@,
            out@ == s@.take(it.index() as int),
    {
        out.push(c);
        assert(s@.take(it.index() as int + 1) == s@.take(it.index() as int).push(c));
    }
    assert(s@.take(s@.len() as int) == s@);
    out
}

/// The text made of `s`.
pub fn text_of(s: &[char]) -> (r: String)
    ensures
        r@ == s@,
{
    let mut out: String = String::new();
    let mut i: usize = 0;
    while i < s.len()
        invariant
            i <= s@.len(),
            out@ == s@.take(i as int),
        decreases s@.len() - i,
    {
        out.push(s[i]);
        i = i + 1;
        assert(out@ == s@.take(i as int));
    }
    assert(s@.take(i as int) == s@);
    out
}

/// Puts `s` at the end of `out`.
pub fn append(out: &mut Vec<char>, s: &[char])
    ensures
        final(out)@ == old(out)@ + s@,
{
    let mut i: usize = 0;
    while i < s.len()
        invariant
            i <= s@.len(),
            out@ == old(out)@ + s@.take(i as int),
        decreases s@.len() - i,
    {
        out.push(s[i]);
        i = i + 1;
        assert(out@ == old(out)@ + s@.take(i as int));
    }
    assert(s@.take(i as int) == s@);
}

/// Puts `s` at the end of `out`.
pub fn append_text(out: &mut Vec<char>, s: &str)
    ensures
        final(out)@ == old(out)@ + s@,
{
    let c: Vec<char> = chars_of(s);
    append(out, c.as_slice());
}

/// Whether `a` and `b` hold the same characters.
pub fn same(a: &[char], b: &[char]) -> (r: bool)
    ensures
        r == (a@ == b@),
{
    if a.len() != b.len() {
        return false;
    }
    let mut i: usize = 0;
    while i < a.len()
        invariant
            i <= a@.len(),
            a@.len() == b@.len(),
            forall|j: int| 0 <= j < i ==> a@[j] == b@[j],
        decreases a@.len() - i,
    {
        if a[i] != b[i] {
            return false;
        }
        i = i + 1;
    }
    assert(a@ == b@);
    true
}

/// Whether `a` holds the text `b`.
pub fn same_text(a: &[char], b: &str) -> (r: bool)
    ensures
        r == (a@ == b@),
{
    let c: Vec<char> = chars_of(b);
    same(a, c.as_slice())
}

/// Whether two texts are equal.
pub fn equal_texts(a: &str, b: &str) -> (r: bool)
    ensures
        r == (a@ == b@),
{
    let c: Vec<char> = chars_of(a);
    same_text(c.as_slice(), b)
}

/// Same characters, by value.
pub fn copied(s: &[char]) -> (r: Vec<char>)
    ensures
        r@ == s@,
{
    let mut out: Vec<char> = Vec::new();
    append(&mut out, s);
    assert(Seq::<char>::empty() + s@ == s@);
    out
}

// ---------------------------------------------------------------- white space

/// The characters that Unicode calls white space.
pub open spec fn space(c: char) -> bool {
    ||| '\u{9}' <= c <= '\u{d}'
    ||| c == ' '
    ||| c == '\u{85}'
    ||| c == '\u{a0}'
    ||| c == '\u{1680}'
    ||| '\u{2000}' <= c <= '\u{200a}'
    ||| c == '\u{2028}'
    ||| c == '\u{2029}'
    ||| c == '\u{202f}'
    ||| c == '\u{205f}'
    ||| c == '\u{3000}'
}

pub fn is_space(c: char) -> (r: bool)
    ensures
        r == space(c),
{
    ('\u{9}' <= c && c <= '\u{d}') || c == ' ' || c == '\u{85}' || c == '\u{a0}' || c == '\u{1680}'
        || ('\u{2000}' <= c && c <= '\u{200a}') || c == '\u{2028}' || c == '\u{2029}' || c
        == '\u{202f}' || c == '\u{205f}' || c == '\u{3000}'
}

/// `s` without its leading white space.
pub open spec fn trimmed_start(s: Seq<char>) -> Seq<char>
    decreases s.len(),
{
    if s.len() > 0 && space(s[0]) {
        trimmed_start(s.drop_first())
    } else {
        s
    }
}

/// `s` without its trailing white space.
pub open spec fn trimmed_end(s: Seq<char>) -> Seq<char>
    decreases s.len(),
{
    if s.len() > 0 && space(s.last()) {
        trimmed_end(s.drop_last())
    } else {
        s
    }
}

/// `s` without the white space around it.
pub open spec fn trimmed(s: Seq<char>) -> Seq<char> {
    trimmed_end(trimmed_start(s))
}

/// `s` without its leading white space.
pub fn trim_start(s: &[char]) -> (r: &[char])
    ensures
        r@ == trimmed_start(s@),
{
    let mut i: usize = 0;
    assert(s@.skip(0) == s@);
    while i < s.len() && is_space(s[i])
        invariant
            i <= s@.len(),
            trimmed_start(s@) == trimmed_start(s@.skip(i as int)),
        decreases s@.len() - i,
    {
        assert(s@.skip(i as int).drop_first() == s@.skip(i as int + 1));
        i = i + 1;
    }
    assert(s@.skip(i as int) == s@.subrange(i as int, s@.len() as int));
    vstd::slice::slice_subrange(s, i, s.len())
}

/// `s` without its trailing white space.
pub fn trim_end(s: &[char]) -> (r: &[char])
    ensures
        r@ == trimmed_end(s@),
{
    let mut n: usize = s.len();
    assert(s@.take(n as int) == s@);
    while n > 0 && is_space(s[n - 1])
        invariant
            n <= s@.len(),
            trimmed_end(s@) == trimmed_end(s@.take(n as int)),
        decreases n,
    {
        assert(s@.take(n as int).drop_last() == s@.take(n as int - 1));
        n = n - 1;
    }
    assert(s@.take(n as int) == s@.subrange(0, n as int));
    vstd::slice::slice_subrange(s, 0, n)
}

/// `s` without the white space around it.
pub fn trim(s: &[char]) -> (r: &[char])
    ensures
        r@ == trimmed(s@),
{
    trim_end(trim_start(s))
}

/// Nothing is left to trim of a trimmed text.
pub proof fn lemma_trimmed_ends(s: Seq<char>)
    ensures
        trimmed(s).len() > 0 ==> !space(trimmed(s)[0]) && !space(trimmed(s).last()),
        trimmed(trimmed(s)) == trimmed(s),
{
    lemma_trimmed_start_first(s);
    lemma_trimmed_end_last(trimmed_start(s));
}

/// Text without white space at its ends is trimmed already.
pub proof fn lemma_trimmed_same(s: Seq<char>)
    requires
        s.len() > 0 ==> !space(s[0]) && !space(s.last()),
    ensures
        trimmed(s) == s,
{
    assert(trimmed_start(s) == s);
    assert(trimmed_end(s) == s);
}

proof fn lemma_trimmed_start_first(s: Seq<char>)
    ensures
        trimmed_start(s).len() > 0 ==> !space(trimmed_start(s)[0]),
    decreases s.len(),
{
    if s.len() > 0 && space(s[0]) {
        lemma_trimmed_start_first(s.drop_first());
    }
}

proof fn lemma_trimmed_end_last(s: Seq<char>)
    ensures
        trimmed_end(s).len() > 0 ==> !space(trimmed_end(s).last()) && trimmed_end(s)[0] == s[0],
        trimmed_end(s).len() <= s.len(),
    decreases s.len(),
{
    if s.len() > 0 && space(s.last()) {
        lemma_trimmed_end_last(s.drop_last());
    }
}

// ----------------------------------------------------------------- letter case

/// `c`, in lower case if it is an ASCII letter.
pub open spec fn lowered_char(c: char) -> char {
    if 'A' <= c <= 'Z' {
        ((c as u32 + 32) as u32) as char
    } else {
        c
    }
}

/// `s` with its ASCII letters in lower case.
pub open spec fn lowered(s: Seq<char>) -> Seq<char> {
    Seq::new(s.len(), |i: int| lowered_char(s[i]))
}

pub fn lower_char(c: char) -> (r: char)
    ensures
        r == lowered_char(c),
{
    if 'A' <= c && c <= 'Z' {
        let b: u8 = c as u8;
        (b + 32) as char
    } else {
        c
    }
}

/// `s` with its ASCII letters in lower case.
pub fn lower(s: &[char]) -> (r: Vec<char>)
    ensures
        r@ == lowered(s@),
{
    let mut out: Vec<char> = Vec::new();
    let mut i: usize = 0;
    while i < s.len()
        invariant
            i <= s@.len(),
            out@.len() == i,
            forall|j: int| 0 <= j < i ==> out@[j] == lowered_char(s@[j]),
        decreases s@.len() - i,
    {
        out.push(lower_char(s[i]));
        i = i + 1;
    }
    assert(out@ == lowered(s@));
    out
}

/// Only ASCII characters in `s`.
pub open spec fn ascii(s: Seq<char>) -> bool {
    forall|i: int| 0 <= i < s.len() ==> (#[trigger] s[i]) <= '\u{7f}'
}

proof fn lemma_ascii_part(s: Seq<char>, t: Seq<char>, n: int)
    requires
        ascii(s),
        0 <= n,
        n + t.len() <= s.len(),
        t == s.subrange(n, n + t.len()),
    ensures
        ascii(t),
{
    assert forall|i: int| 0 <= i < t.len() implies (#[trigger] t[i]) <= '\u{7f}' by {
        assert(s[n + i] <= '\u{7f}');
        assert(s.subrange(n, n + t.len())[i] == s[n + i]);
    }
}

/// Parts of ASCII text are ASCII text.
pub proof fn lemma_ascii_parts(s: Seq<char>, n: int)
    requires
        ascii(s),
        0 <= n <= s.len(),
    ensures
        ascii(s.take(n)),
        ascii(s.skip(n)),
{
    lemma_ascii_part(s, s.take(n), 0);
    lemma_ascii_part(s, s.skip(n), n);
}

/// Trimmed ASCII text is ASCII text.
pub proof fn lemma_ascii_trimmed(s: Seq<char>)
    requires
        ascii(s),
    ensures
        ascii(trimmed(s)),
{
    lemma_ascii_start(s);
    lemma_ascii_end(trimmed_start(s));
}

proof fn lemma_ascii_start(s: Seq<char>)
    requires
        ascii(s),
    ensures
        ascii(trimmed_start(s)),
    decreases s.len(),
{
    if s.len() > 0 && space(s[0]) {
        lemma_ascii_part(s, s.drop_first(), 1);
        lemma_ascii_start(s.drop_first());
    }
}

proof fn lemma_ascii_end(s: Seq<char>)
    requires
        ascii(s),
    ensures
        ascii(trimmed_end(s)),
    decreases s.len(),
{
    if s.len() > 0 && space(s.last()) {
        lemma_ascii_part(s, s.drop_last(), 0);
        lemma_ascii_end(s.drop_last());
    }
}

/// The lines of ASCII text are ASCII text.
pub proof fn lemma_ascii_lines(s: Seq<char>)
    requires
        ascii(s),
    ensures
        forall|i: int| 0 <= i < lines(s).len() ==> ascii(#[trigger] lines(s)[i]),
    decreases s.len(),
{
    lemma_run_bound(s, '\n', '\n');
    let n = run(s, '\n', '\n') as int;
    if s.len() > 0 && n < s.len() {
        lemma_ascii_parts(s, n);
        lemma_ascii_parts(s, n + 1);
        let first = s.take(n);
        if first.len() > 0 {
            lemma_ascii_part(first, first.drop_last(), 0);
        }
        lemma_ascii_lines(s.skip(n + 1));
        let rest = lines(s.skip(n + 1));
        let v = seq![without_return(first)] + rest;
        assert forall|i: int| 0 <= i < v.len() implies ascii(#[trigger] v[i]) by {
            if i > 0 {
                assert(v[i] == rest[i - 1]);
            }
        }
    }
}

/// Equal but for the case of ASCII letters.
pub open spec fn alike(a: Seq<char>, b: Seq<char>) -> bool {
    lowered(a) == lowered(b)
}

pub fn is_alike(a: &[char], b: &[char]) -> (r: bool)
    ensures
        r == alike(a@, b@),
{
    let x: Vec<char> = lower(a);
    let y: Vec<char> = lower(b);
    same(x.as_slice(), y.as_slice())
}

pub fn is_alike_text(a: &[char], b: &str) -> (r: bool)
    ensures
        r == alike(a@, b@),
{
    let c: Vec<char> = chars_of(b);
    is_alike(a, c.as_slice())
}

// ------------------------------------------------------------------- splitting

/// Number of characters before the first `a` or `b`, all of them if there is
/// none.
pub open spec fn run(s: Seq<char>, a: char, b: char) -> nat
    decreases s.len(),
{
    if s.len() == 0 || s[0] == a || s[0] == b {
        0
    } else {
        1 + run(s.drop_first(), a, b)
    }
}

/// `run` is the one place that has no `a` or `b` before it and one at it.
pub proof fn lemma_run(s: Seq<char>, a: char, b: char, n: nat)
    requires
        n <= s.len(),
        forall|i: int| 0 <= i < n ==> s[i] != a && s[i] != b,
        n == s.len() || s[n as int] == a || s[n as int] == b,
    ensures
        run(s, a, b) == n,
    decreases n,
{
    if n > 0 {
        assert(forall|i: int| 0 <= i < n - 1 ==> s.drop_first()[i] == s[i + 1]);
        lemma_run(s.drop_first(), a, b, (n - 1) as nat);
    }
}

pub proof fn lemma_run_bound(s: Seq<char>, a: char, b: char)
    ensures
        run(s, a, b) <= s.len(),
        run(s, a, b) < s.len() ==> s[run(s, a, b) as int] == a || s[run(s, a, b) as int] == b,
        forall|i: int| 0 <= i < run(s, a, b) ==> s[i] != a && s[i] != b,
    decreases s.len(),
{
    if s.len() > 0 && s[0] != a && s[0] != b {
        let t = s.drop_first();
        lemma_run_bound(t, a, b);
        assert forall|i: int| 0 <= i < run(s, a, b) implies s[i] != a && s[i] != b by {
            if i > 0 {
                assert(s[i] == t[i - 1]);
            }
        }
    }
}

/// Number of characters before the first `a` or `b`.
pub fn run_length(s: &[char], a: char, b: char) -> (r: usize)
    ensures
        r == run(s@, a, b),
        r <= s@.len(),
        r < s@.len() ==> s@[r as int] == a || s@[r as int] == b,
{
    let mut i: usize = 0;
    while i < s.len() && s[i] != a && s[i] != b
        invariant
            i <= s@.len(),
            forall|j: int| 0 <= j < i ==> s@[j] != a && s@[j] != b,
        decreases s@.len() - i,
    {
        i = i + 1;
    }
    proof {
        lemma_run(s@, a, b, i as nat);
    }
    i
}

/// What stands before and after the first `a` or `b`.
pub open spec fn split_at_first(s: Seq<char>, a: char, b: char) -> Option<(Seq<char>, Seq<char>)> {
    let n = run(s, a, b) as int;
    if n < s.len() {
        Some((s.take(n), s.skip(n + 1)))
    } else {
        None
    }
}

/// What stands before and after the first `a` or `b`.
pub fn split_once(s: &[char], a: char, b: char) -> (r: Option<(&[char], &[char])>)
    ensures
        match r {
            Some((x, y)) => split_at_first(s@, a, b) == Some((x@, y@)),
            None => split_at_first(s@, a, b) is None,
        },
{
    let n: usize = run_length(s, a, b);
    if n < s.len() {
        assert(s@.take(n as int) == s@.subrange(0, n as int));
        assert(s@.skip(n as int + 1) == s@.subrange(n as int + 1, s@.len() as int));
        Some((vstd::slice::slice_subrange(s, 0, n), vstd::slice::slice_subrange(s, n + 1, s.len())))
    } else {
        None
    }
}

/// The parts of `s` between the separators.
pub open spec fn pieces(s: Seq<char>, sep: char) -> Seq<Seq<char>>
    decreases s.len(),
{
    let n = run(s, sep, sep) as int;
    if n < s.len() {
        seq![s.take(n)] + pieces(s.skip(n + 1), sep)
    } else {
        seq![s]
    }
}

/// One more part behind a separator.
pub proof fn lemma_pieces_add(a: Seq<char>, b: Seq<char>, sep: char)
    requires
        forall|j: int| 0 <= j < b.len() ==> b[j] != sep,
    ensures
        pieces(a + seq![sep] + b, sep) == pieces(a, sep).push(b),
    decreases a.len(),
{
    let s = a + seq![sep] + b;
    let n = run(a, sep, sep) as int;
    lemma_run_bound(a, sep, sep);
    if n < a.len() {
        assert(forall|i: int| 0 <= i < a.len() ==> s[i] == a[i]);
        lemma_run(s, sep, sep, n as nat);
        lemma_pieces_add(a.skip(n + 1), b, sep);
        assert(s.skip(n + 1) =~= a.skip(n + 1) + seq![sep] + b);
        assert(s.take(n) =~= a.take(n));
        assert(seq![a.take(n)] + pieces(a.skip(n + 1), sep).push(b) =~= (seq![a.take(n)]
            + pieces(a.skip(n + 1), sep)).push(b));
    } else {
        assert(forall|i: int| 0 <= i < a.len() ==> s[i] == a[i]);
        assert(s[a.len() as int] == sep);
        lemma_run(s, sep, sep, a.len());
        assert(s.skip(n + 1) =~= b);
        lemma_run(b, sep, sep, b.len());
        assert(pieces(b, sep) =~= seq![b]);
        assert(pieces(a, sep) =~= seq![a]);
        assert(s.take(n) =~= a);
        assert(seq![a] + seq![b] =~= seq![a].push(b));
    }
}

/// What the parts hold.
pub open spec fn contents(v: Seq<Vec<char>>) -> Seq<Seq<char>> {
    Seq::new(v.len(), |i: int| v[i]@)
}

/// What the texts hold.
pub open spec fn texts(v: Seq<String>) -> Seq<Seq<char>> {
    Seq::new(v.len(), |i: int| v[i]@)
}

/// The parts of `s` between the separators.
pub fn split(s: &[char], sep: char) -> (r: Vec<Vec<char>>)
    ensures
        contents(r@) == pieces(s@, sep),
{
    let mut out: Vec<Vec<char>> = Vec::new();
    let mut at: usize = 0;
    assert(s@.skip(0) == s@);
    assert(contents(out@) + pieces(s@, sep) == pieces(s@, sep));
    loop
        invariant
            at <= s@.len(),
            contents(out@) + pieces(s@.skip(at as int), sep) == pieces(s@, sep),
        decreases s@.len() - at,
    {
        let rest: &[char] = vstd::slice::slice_subrange(s, at, s.len());
        assert(rest@ == s@.skip(at as int));
        let n: usize = run_length(rest, sep, sep);
        let ghost before = out@;
        let piece: &[char] = vstd::slice::slice_subrange(rest, 0, n);
        assert(piece@ == rest@.take(n as int));
        out.push(copied(piece));
        assert(contents(out@) == contents(before).push(piece@));
        if n < rest.len() {
            assert(rest@.skip(n as int + 1) == s@.skip(at as int + n as int + 1));
            assert(contents(out@) + pieces(s@.skip(at + n + 1), sep) == contents(before) + (
            seq![piece@] + pieces(s@.skip(at + n + 1), sep)));
            at = at + n + 1;
        } else {
            assert(rest@.take(n as int) == rest@);
            assert(contents(out@) == contents(before) + seq![rest@]);
            return out;
        }
    }
}

/// `s` without a carriage return at its end.
pub open spec fn without_return(s: Seq<char>) -> Seq<char> {
    if s.len() > 0 && s.last() == '\r' {
        s.drop_last()
    } else {
        s
    }
}

/// The lines of a text: each ends in a line feed, with or without a carriage
/// return before it; the last one may lack it.
pub open spec fn lines(s: Seq<char>) -> Seq<Seq<char>>
    decreases s.len(),
{
    let n = run(s, '\n', '\n') as int;
    if s.len() == 0 {
        seq![]
    } else if n < s.len() {
        seq![without_return(s.take(n))] + lines(s.skip(n + 1))
    } else {
        seq![s]
    }
}

/// The lines of `s`.
pub fn lines_of(s: &[char]) -> (r: Vec<Vec<char>>)
    ensures
        contents(r@) == lines(s@),
{
    let mut out: Vec<Vec<char>> = Vec::new();
    let mut at: usize = 0;
    assert(s@.skip(0) == s@);
    assert(contents(out@) + lines(s@) == lines(s@));
    while at < s.len()
        invariant
            at <= s@.len(),
            contents(out@) + lines(s@.skip(at as int)) == lines(s@),
        decreases s@.len() - at,
    {
        let rest: &[char] = vstd::slice::slice_subrange(s, at, s.len());
        assert(rest@ == s@.skip(at as int));
        let n: usize = run_length(rest, '\n', '\n');
        let ghost before = out@;
        if n < rest.len() {
            let m: usize = if n > 0 && rest[n - 1] == '\r' {
                n - 1
            } else {
                n
            };
            let line: &[char] = vstd::slice::slice_subrange(rest, 0, m);
            assert(line@ == without_return(rest@.take(n as int)));
            out.push(copied(line));
            assert(contents(out@) == contents(before).push(line@));
            assert(rest@.skip(n as int + 1) == s@.skip(at as int + n as int + 1));
            assert(contents(out@) + lines(s@.skip(at + n + 1)) == contents(before) + (seq![line@]
                + lines(s@.skip(at + n + 1))));
            at = at + n + 1;
        } else {
            out.push(copied(rest));
            assert(contents(out@) == contents(before).push(rest@));
            assert(contents(before) + seq![rest@] == contents(out@));
            assert(contents(out@) + lines(s@.skip(s@.len() as int)) == contents(out@));
            at = s.len();
        }
    }
    assert(contents(out@) + lines(s@.skip(s@.len() as int)) == contents(out@));
    out
}

/// The lines one after the other, each with a line feed at its end.
pub open spec fn ended(v: Seq<Seq<char>>) -> Seq<char>
    decreases v.len(),
{
    if v.len() == 0 {
        seq![]
    } else {
        ended(v.drop_last()) + v.last() + seq!['\n']
    }
}

/// The lines one after the other, each with a line feed at its end.
pub fn end_lines(v: &Vec<Vec<char>>) -> (r: Vec<char>)
    ensures
        r@ == ended(contents(v@)),
{
    let mut out: Vec<char> = Vec::new();
    let mut i: usize = 0;
    let ghost all = contents(v@);
    assert(all.take(0) =~= Seq::empty());
    while i < v.len()
        invariant
            i <= v@.len(),
            all == contents(v@),
            out@ == ended(all.take(i as int)),
        decreases v@.len() - i,
    {
        assert(all.take(i as int + 1).drop_last() =~= all.take(i as int));
        append(&mut out, v[i].as_slice());
        out.push('\n');
        assert(out@ =~= ended(all.take(i as int)) + v@[i as int]@ + seq!['\n']);
        i = i + 1;
    }
    assert(all.take(i as int) =~= all);
    out
}

/// No line feed in `s`.
pub open spec fn one_line(s: Seq<char>) -> bool {
    forall|i: int| 0 <= i < s.len() ==> s[i] != '\n'
}

/// No line feed in any of the lines.
pub open spec fn all_one_line(v: Seq<Seq<char>>) -> bool {
    forall|i: int| 0 <= i < v.len() ==> one_line(#[trigger] v[i])
}

/// `v` without the carriage returns at the ends of the lines.
pub open spec fn without_returns(v: Seq<Seq<char>>) -> Seq<Seq<char>> {
    Seq::new(v.len(), |i: int| without_return(v[i]))
}

/// The lines of a text have no line feed in them.
pub proof fn lemma_lines_are_lines(s: Seq<char>)
    ensures
        all_one_line(lines(s)),
    decreases s.len(),
{
    lemma_run_bound(s, '\n', '\n');
    let n = run(s, '\n', '\n') as int;
    if s.len() > 0 {
        if n < s.len() {
            let rest = lines(s.skip(n + 1));
            lemma_lines_are_lines(s.skip(n + 1));
            let v = seq![without_return(s.take(n))] + rest;
            assert forall|i: int| 0 <= i < v.len() implies one_line(#[trigger] v[i]) by {
                if i > 0 {
                    assert(v[i] == rest[i - 1]);
                }
            }
        } else {
            assert(forall|i: int| 0 <= i < n ==> s[i] != '\n');
        }
    }
}

proof fn lemma_ended_adds(a: Seq<Seq<char>>, b: Seq<Seq<char>>)
    ensures
        ended(a + b) == ended(a) + ended(b),
    decreases b.len(),
{
    if b.len() == 0 {
        assert(a + b =~= a);
        assert(ended(a) + ended(b) =~= ended(a));
    } else {
        lemma_ended_adds(a, b.drop_last());
        assert((a + b).drop_last() =~= a + b.drop_last());
        assert((a + b).last() == b.last());
        assert(ended(a + b) =~= ended(a) + ended(b));
    }
}

/// Lines that were put one after the other come back, up to carriage returns
/// at their ends.
pub proof fn lemma_lines_of_ended(v: Seq<Seq<char>>)
    requires
        all_one_line(v),
    ensures
        lines(ended(v)) == without_returns(v),
    decreases v.len(),
{
    if v.len() > 0 {
        let first = v[0];
        let rest = v.drop_first();
        assert(v =~= seq![first] + rest);
        lemma_ended_adds(seq![first], rest);
        assert(seq![first].drop_last() =~= Seq::<Seq<char>>::empty());
        assert(ended(seq![first]) =~= first + seq!['\n']) by {
            assert(ended(Seq::<Seq<char>>::empty()) =~= Seq::<char>::empty());
        }
        let s = ended(v);
        assert(s =~= first + seq!['\n'] + ended(rest));
        let n = first.len();
        assert(one_line(v[0]));
        assert(forall|i: int| 0 <= i < n ==> s[i] == first[i]);
        assert(s[n as int] == '\n');
        lemma_run(s, '\n', '\n', n);
        assert(s.take(n as int) =~= first);
        assert(s.skip(n as int + 1) =~= ended(rest));
        assert forall|i: int| 0 <= i < rest.len() implies one_line(#[trigger] rest[i]) by {
            assert(rest[i] == v[i + 1]);
        }
        lemma_lines_of_ended(rest);
        assert(seq![without_return(first)] + without_returns(rest) =~= without_returns(v));
    } else {
        assert(without_returns(v) =~= Seq::empty());
    }
}

/// Whether `s` begins with `prefix`.
pub open spec fn begins(s: Seq<char>, prefix: Seq<char>) -> bool {
    prefix.len() <= s.len() && s.take(prefix.len() as int) == prefix
}

/// What follows `prefix` in `s`, if `s` begins with it.
pub fn strip_prefix<'a>(s: &'a [char], prefix: &str) -> (r: Option<&'a [char]>)
    ensures
        match r {
            Some(rest) => begins(s@, prefix@) && rest@ == s@.skip(prefix@.len() as int),
            None => !begins(s@, prefix@),
        },
{
    let p: Vec<char> = chars_of(prefix);
    if p.len() > s.len() {
        return None;
    }
    let head: &[char] = vstd::slice::slice_subrange(s, 0, p.len());
    assert(head@ == s@.take(prefix@.len() as int));
    if same(head, p.as_slice()) {
        assert(s@.skip(p@.len() as int) == s@.subrange(p@.len() as int, s@.len() as int));
        Some(vstd::slice::slice_subrange(s, p.len(), s.len()))
    } else {
        None
    }
}

/// The texts in a row, with `sep` between two of them.
pub open spec fn joined(v: Seq<Seq<char>>, sep: Seq<char>) -> Seq<char>
    decreases v.len(),
{
    if v.len() == 0 {
        seq![]
    } else if v.len() == 1 {
        v[0]
    } else {
        joined(v.drop_last(), sep) + sep + v.last()
    }
}

/// The texts in a row, with `sep` between two of them.
pub fn join(v: &Vec<Vec<char>>, sep: &str) -> (r: Vec<char>)
    ensures
        r@ == joined(contents(v@), sep@),
{
    let mut out: Vec<char> = Vec::new();
    let mut i: usize = 0;
    let ghost all = contents(v@);
    assert(out@ == joined(all.take(0), sep@));
    while i < v.len()
        invariant
            i <= v@.len(),
            all == contents(v@),
            out@ == joined(all.take(i as int), sep@),
        decreases v@.len() - i,
    {
        if i > 0 {
            append_text(&mut out, sep);
        }
        append(&mut out, v[i].as_slice());
        proof {
            let t = all.take(i as int + 1);
            assert(t.drop_last() == all.take(i as int));
            assert(t.last() == v@[i as int]@);
            if i == 0 {
                assert(t[0] == v@[0]@);
                assert(Seq::<char>::empty() + v@[0]@ == v@[0]@);
            }
        }
        i = i + 1;
    }
    assert(all.take(i as int) == all);
    out
}

// ------------------------------------------------------------------- searching

/// `part` stands in `s` from position `i` on.
pub open spec fn stands_at(s: Seq<char>, part: Seq<char>, i: int) -> bool {
    0 <= i && i + part.len() <= s.len() && s.subrange(i, i + part.len()) == part
}

/// `part` stands somewhere in `s`.
pub open spec fn holds(s: Seq<char>, part: Seq<char>) -> bool {
    exists|i: int| stands_at(s, part, i)
}

/// Whether `part` stands somewhere in `s`.
pub fn contains(s: &[char], part: &[char]) -> (r: bool)
    ensures
        r == holds(s@, part@),
{
    if part.len() > s.len() {
        return false;
    }
    let mut i: usize = 0;
    while i <= s.len() - part.len()
        invariant
            part@.len() <= s@.len(),
            i <= s@.len() - part@.len() + 1,
            forall|j: int| 0 <= j < i ==> !stands_at(s@, part@, j),
        decreases s@.len() - i,
    {
        let here: &[char] = vstd::slice::slice_subrange(s, i, i + part.len());
        if same(here, part) {
            assert(stands_at(s@, part@, i as int));
            return true;
        }
        assert(!stands_at(s@, part@, i as int));
        if i == s.len() - part.len() {
            assert forall|j: int| !stands_at(s@, part@, j) by {}
            return false;
        }
        i = i + 1;
    }
    false
}

/// Number of characters before the first white space.
pub open spec fn word_length(s: Seq<char>) -> nat
    decreases s.len(),
{
    if s.len() == 0 || space(s[0]) {
        0
    } else {
        1 + word_length(s.drop_first())
    }
}

proof fn lemma_word_length(s: Seq<char>, n: nat)
    requires
        n <= s.len(),
        forall|i: int| 0 <= i < n ==> !space(#[trigger] s[i]),
        n == s.len() || space(s[n as int]),
    ensures
        word_length(s) == n,
    decreases n,
{
    if n > 0 {
        assert(!space(s[0]));
        assert forall|i: int| 0 <= i < n - 1 implies !space(#[trigger] s.drop_first()[i]) by {
            assert(!space(s[i + 1]));
        }
        lemma_word_length(s.drop_first(), (n - 1) as nat);
    }
}

pub proof fn lemma_word_bound(s: Seq<char>)
    ensures
        word_length(s) <= s.len(),
        s.len() > 0 && !space(s[0]) ==> word_length(s) > 0,
    decreases s.len(),
{
    if s.len() > 0 && !space(s[0]) {
        lemma_word_bound(s.drop_first());
    }
}

proof fn lemma_start_shrinks(s: Seq<char>)
    ensures
        trimmed_start(s).len() <= s.len(),
    decreases s.len(),
{
    if s.len() > 0 && space(s[0]) {
        lemma_start_shrinks(s.drop_first());
    }
}

/// The words of a text: what stands between white space.
pub open spec fn words(s: Seq<char>) -> Seq<Seq<char>>
    decreases s.len(),
    via words_decreases
{
    let t = trimmed_start(s);
    if t.len() == 0 {
        seq![]
    } else {
        let n = word_length(t) as int;
        seq![t.take(n)] + words(t.skip(n))
    }
}

#[via_fn]
proof fn words_decreases(s: Seq<char>) {
    let t = trimmed_start(s);
    if t.len() > 0 {
        lemma_start_shrinks(s);
        lemma_trimmed_start_first(s);
        lemma_word_bound(t);
    }
}

/// First word of a text.
pub fn first_word(s: &[char]) -> (r: Option<&[char]>)
    ensures
        match r {
            Some(w) => words(s@).len() > 0 && words(s@)[0] == w@,
            None => words(s@).len() == 0,
        },
{
    let t: &[char] = trim_start(s);
    if t.len() == 0 {
        return None;
    }
    let n: usize = length_of_word(t);
    let w: &[char] = vstd::slice::slice_subrange(t, 0, n);
    assert(w@ =~= t@.take(n as int));
    Some(w)
}

fn length_of_word(t: &[char]) -> (r: usize)
    ensures
        r == word_length(t@),
        r <= t@.len(),
{
    let mut n: usize = 0;
    while n < t.len() && !is_space(t[n])
        invariant
            n <= t@.len(),
            forall|i: int| 0 <= i < n ==> !space(#[trigger] t@[i]),
        decreases t@.len() - n,
    {
        n = n + 1;
    }
    proof {
        lemma_word_length(t@, n as nat);
    }
    n
}

/// The words of a text.
pub fn split_words(s: &[char]) -> (r: Vec<Vec<char>>)
    ensures
        contents(r@) == words(s@),
{
    let mut out: Vec<Vec<char>> = Vec::new();
    let mut at: usize = 0;
    assert(s@.skip(0) =~= s@);
    assert(contents(out@) + words(s@) =~= words(s@));
    loop
        invariant
            at <= s@.len(),
            contents(out@) + words(s@.skip(at as int)) == words(s@),
        decreases s@.len() - at,
    {
        let rest: &[char] = vstd::slice::slice_subrange(s, at, s.len());
        assert(rest@ =~= s@.skip(at as int));
        let t: &[char] = trim_start(rest);
        if t.len() == 0 {
            assert(contents(out@) + words(rest@) =~= contents(out@));
            return out;
        }
        let n: usize = length_of_word(t);
        let w: &[char] = vstd::slice::slice_subrange(t, 0, n);
        assert(w@ =~= t@.take(n as int));
        let ghost before = contents(out@);
        proof {
            lemma_start_shrinks(rest@);
            lemma_trimmed_start_first(rest@);
            lemma_word_bound(t@);
            lemma_start_is_tail(rest@);
        }
        out.push(copied(w));
        assert(contents(out@) =~= before.push(w@));
        let next: usize = s.len() - (t.len() - n);
        assert(s@.skip(next as int) =~= t@.skip(n as int));
        assert(before + (seq![w@] + words(t@.skip(n as int))) =~= before.push(w@) + words(
            t@.skip(n as int),
        ));
        at = next;
    }
}

/// Trimming at the start leaves the end of a text.
proof fn lemma_start_is_tail(s: Seq<char>)
    ensures
        trimmed_start(s).len() <= s.len(),
        trimmed_start(s) == s.skip(s.len() - trimmed_start(s).len()),
    decreases s.len(),
{
    if s.len() > 0 && space(s[0]) {
        lemma_start_is_tail(s.drop_first());
        lemma_start_shrinks(s.drop_first());
        let t = trimmed_start(s.drop_first());
        assert(s.drop_first().skip(s.drop_first().len() - t.len()) =~= s.skip(s.len() - t.len()));
    } else {
        assert(s.skip(0) =~= s);
    }
}

// -------------------------------------------------------------------- numerals

pub open spec fn digit(c: char) -> bool {
    '0' <= c <= '9'
}

/// What a digit stands for.
pub open spec fn digit_value(c: char) -> nat {
    (c as u32 - 48) as nat
}

pub open spec fn all_digits(s: Seq<char>) -> bool {
    forall|i: int| 0 <= i < s.len() ==> digit(#[trigger] s[i])
}

/// The number that a row of digits stands for.
pub open spec fn numeral(s: Seq<char>) -> nat
    decreases s.len(),
{
    if s.len() == 0 {
        0
    } else {
        10 * numeral(s.drop_last()) + digit_value(s.last())
    }
}

/// The character of a digit.
pub open spec fn digit_char(n: nat) -> char {
    ((48 + n) as u32) as char
}

/// `n` in decimal, without leading zeros.
pub open spec fn decimal(n: nat) -> Seq<char>
    decreases n,
{
    if n < 10 {
        seq![digit_char(n)]
    } else {
        decimal(n / 10).push(digit_char(n % 10))
    }
}

/// Reading back a decimal numeral gives the number.
pub proof fn lemma_decimal(n: nat)
    ensures
        decimal(n).len() > 0,
        all_digits(decimal(n)),
        numeral(decimal(n)) == n,
    decreases n,
{
    if n < 10 {
        assert(decimal(n).drop_last() == Seq::<char>::empty());
        assert(numeral(Seq::<char>::empty()) == 0);
    } else {
        lemma_decimal(n / 10);
        assert(decimal(n).drop_last() == decimal(n / 10));
    }
}

pub fn is_digit(c: char) -> (r: bool)
    ensures
        r == digit(c),
{
    '0' <= c && c <= '9'
}

pub fn are_digits(s: &[char]) -> (r: bool)
    ensures
        r == all_digits(s@),
{
    let mut i: usize = 0;
    while i < s.len()
        invariant
            i <= s@.len(),
            forall|j: int| 0 <= j < i ==> digit(#[trigger] s@[j]),
        decreases s@.len() - i,
    {
        if !is_digit(s[i]) {
            return false;
        }
        i = i + 1;
    }
    true
}

proof fn lemma_numeral_grows(s: Seq<char>, n: int)
    requires
        0 <= n <= s.len(),
    ensures
        numeral(s.take(n)) <= numeral(s),
    decreases s.len() - n,
{
    if n < s.len() {
        lemma_numeral_grows(s, n + 1);
        assert(s.take(n + 1).drop_last() == s.take(n));
    } else {
        assert(s.take(n) == s);
    }
}

/// The number that digits stand for, if it is at most `max`.
pub fn number(s: &[char], max: u64) -> (r: Option<u64>)
    requires
        all_digits(s@),
        max <= 0xffff_ffff_ffff,
    ensures
        match r {
            Some(n) => n == numeral(s@) && n <= max,
            None => numeral(s@) > max,
        },
{
    let mut n: u64 = 0;
    let mut i: usize = 0;
    while i < s.len()
        invariant
            i <= s@.len(),
            all_digits(s@),
            max <= 0xffff_ffff_ffff,
            n == numeral(s@.take(i as int)),
            n <= max,
        decreases s@.len() - i,
    {
        let c: char = s[i];
        assert(digit(s@[i as int]));
        assert(s@.take(i as int + 1).drop_last() == s@.take(i as int));
        n = 10 * n + (c as u32 - 48) as u64;
        if n > max {
            proof {
                lemma_numeral_grows(s@, i as int + 1);
            }
            return None;
        }
        i = i + 1;
    }
    assert(s@.take(i as int) == s@);
    Some(n)
}

/// The integer written in `s`: digits, with a plus sign allowed.
pub open spec fn unsigned_value(s: Seq<char>) -> Option<u32> {
    let d = if s.len() > 0 && s[0] == '+' {
        s.drop_first()
    } else {
        s
    };
    if d.len() > 0 && all_digits(d) && numeral(d) <= u32::MAX {
        Some(numeral(d) as u32)
    } else {
        None
    }
}

/// The integer written in `s`: digits, with a sign allowed.
pub open spec fn signed_value(s: Seq<char>) -> Option<i32> {
    let negative = s.len() > 0 && s[0] == '-';
    let d = if s.len() > 0 && (s[0] == '+' || s[0] == '-') {
        s.drop_first()
    } else {
        s
    };
    let n = if negative {
        -numeral(d)
    } else {
        numeral(d) as int
    };
    if d.len() > 0 && all_digits(d) && i32::MIN <= n <= i32::MAX {
        Some(n as i32)
    } else {
        None
    }
}

pub fn parse_unsigned(s: &[char]) -> (r: Option<u32>)
    ensures
        r == unsigned_value(s@),
{
    let d: &[char] = if s.len() > 0 && s[0] == '+' {
        assert(s@.drop_first() == s@.subrange(1, s@.len() as int));
        vstd::slice::slice_subrange(s, 1, s.len())
    } else {
        s
    };
    if d.len() == 0 || !are_digits(d) {
        return None;
    }
    match number(d, 0xffff_ffff) {
        Some(n) => Some(n as u32),
        None => None,
    }
}

pub fn parse_signed(s: &[char]) -> (r: Option<i32>)
    ensures
        r == signed_value(s@),
{
    let negative: bool = s.len() > 0 && s[0] == '-';
    let d: &[char] = if s.len() > 0 && (s[0] == '+' || s[0] == '-') {
        assert(s@.drop_first() == s@.subrange(1, s@.len() as int));
        vstd::slice::slice_subrange(s, 1, s.len())
    } else {
        s
    };
    if d.len() == 0 || !are_digits(d) {
        return None;
    }
    if negative {
        match number(d, 0x8000_0000) {
            Some(n) => Some((-(n as i64)) as i32),
            None => None,
        }
    } else {
        match number(d, 0x7fff_ffff) {
            Some(n) => Some(n as i32),
            None => None,
        }
    }
}

/// `n` in decimal.
pub fn write_number(n: u64) -> (r: Vec<char>)
    ensures
        r@ == decimal(n as nat),
    decreases n,
{
    let last: char = ((n % 10) as u8 + 48) as char;
    if n < 10 {
        let mut out: Vec<char> = Vec::new();
        out.push(last);
        assert(out@ == decimal(n as nat));
        out
    } else {
        let mut out: Vec<char> = write_number(n / 10);
        out.push(last);
        out
    }
}

/// A number read back from its decimal form is the same one.
pub proof fn lemma_unsigned_round_trip(n: u32)
    ensures
        unsigned_value(decimal(n as nat)) == Some(n),
{
    lemma_decimal(n as nat);
    assert(digit(decimal(n as nat)[0]));
}

// ----------------------------------------------------------------------- order

/// Dictionary order by code point.
pub open spec fn sorts_before(a: Seq<char>, b: Seq<char>) -> bool
    decreases a.len(),
{
    if b.len() == 0 {
        false
    } else if a.len() == 0 {
        true
    } else if a[0] == b[0] {
        sorts_before(a.drop_first(), b.drop_first())
    } else {
        a[0] < b[0]
    }
}

/// Dictionary order is a strict total order.
pub proof fn lemma_order_total(a: Seq<char>, b: Seq<char>)
    ensures
        !sorts_before(a, a),
        !(sorts_before(a, b) && sorts_before(b, a)),
        a == b || sorts_before(a, b) || sorts_before(b, a),
    decreases a.len(),
{
    if a.len() > 0 {
        if b.len() > 0 {
            lemma_order_total(a.drop_first(), b.drop_first());
            if a[0] == b[0] && a.drop_first() == b.drop_first() {
                assert(a == seq![a[0]] + a.drop_first());
                assert(b == seq![b[0]] + b.drop_first());
            }
        } else {
            lemma_order_total(a.drop_first(), b);
        }
    } else if b.len() == 0 {
        assert(a == b);
    }
}

pub proof fn lemma_order_transitive(a: Seq<char>, b: Seq<char>, c: Seq<char>)
    requires
        sorts_before(a, b),
        sorts_before(b, c),
    ensures
        sorts_before(a, c),
    decreases a.len(),
{
    if a.len() > 0 && a[0] == b[0] && b[0] == c[0] {
        lemma_order_transitive(a.drop_first(), b.drop_first(), c.drop_first());
    }
}

/// Whether `a` comes before `b` in a dictionary.
pub fn is_sorted_before(a: &[char], b: &[char]) -> (r: bool)
    ensures
        r == sorts_before(a@, b@),
{
    let mut i: usize = 0;
    assert(a@.skip(0) == a@ && b@.skip(0) == b@);
    loop
        invariant
            i <= a@.len(),
            i <= b@.len(),
            sorts_before(a@, b@) == sorts_before(a@.skip(i as int), b@.skip(i as int)),
        decreases a@.len() - i,
    {
        if i >= b.len() {
            return false;
        }
        if i >= a.len() {
            return true;
        }
        if a[i] != b[i] {
            return a[i] < b[i];
        }
        assert(a@.skip(i as int).drop_first() == a@.skip(i as int + 1));
        assert(b@.skip(i as int).drop_first() == b@.skip(i as int + 1));
        i = i + 1;
    }
}

/// Words are what stands between blanks: a word with blanks around it is found,
/// and then the words behind it.
pub proof fn lemma_first_word(word: Seq<char>, rest: Seq<char>)
    requires
        word.len() > 0,
        forall|i: int| 0 <= i < word.len() ==> !space(#[trigger] word[i]),
    ensures
        words(seq![' '] + word + seq![' '] + rest) == seq![word] + words(rest),
        words(word + seq![' '] + rest) == seq![word] + words(rest),
        words(word) == seq![word],
{
    let s = word + seq![' '] + rest;
    let t = seq![' '] + s;
    assert(seq![' '] + word + seq![' '] + rest =~= t);
    assert(t.drop_first() =~= s);
    assert(s[0] == word[0]);
    assert(trimmed_start(s) == s);
    assert(trimmed_start(t) == s);
    assert(forall|i: int| 0 <= i < word.len() ==> s[i] == word[i]);
    lemma_word_length(s, word.len());
    let n = word.len() as int;
    assert(s.take(n) =~= word);
    let behind = s.skip(n);
    assert(behind =~= seq![' '] + rest);
    assert(behind.drop_first() =~= rest);
    assert(trimmed_start(behind) == trimmed_start(rest));
    assert(words(behind) == words(rest));
    assert(trimmed_start(word) == word);
    lemma_word_length(word, word.len());
    assert(word.take(n) =~= word);
    assert(word.skip(n) =~= Seq::<char>::empty());
    assert(words(Seq::<char>::empty()) =~= Seq::<Seq<char>>::empty());
    assert(seq![word] + Seq::<Seq<char>>::empty() =~= seq![word]);
}

/// The letters from `A` to `Z` become those from `a` to `z`, in their order, and
/// no other character changes.
pub proof fn lemma_lowered(c: char, k: u32)
    ensures
        !('A' <= c <= 'Z') ==> lowered_char(c) == c,
        k < 26 && c as u32 == 'A' as u32 + k ==> lowered_char(c) as u32 == 'a' as u32 + k,
        lowered_char(lowered_char(c)) == lowered_char(c),
{
}

/// Trimming takes away blanks at both ends, and nothing else: what is left is a
/// part of the text, and what is gone is blank.
pub proof fn lemma_trimmed_is_part(s: Seq<char>) -> (at: (int, int))
    ensures
        0 <= at.0 <= at.1 <= s.len(),
        trimmed(s) == s.subrange(at.0, at.1),
        forall|i: int| 0 <= i < at.0 || at.1 <= i < s.len() ==> space(#[trigger] s[i]),
    decreases s.len(),
{
    if s.len() == 0 {
        assert(trimmed(s) =~= s.subrange(0, 0));
        (0, 0)
    } else if space(s[0]) {
        let t = s.drop_first();
        let (a, b) = lemma_trimmed_is_part(t);
        assert(t.subrange(a, b) =~= s.subrange(a + 1, b + 1));
        assert forall|i: int| 0 <= i < a + 1 || b + 1 <= i < s.len() implies space(
            #[trigger] s[i],
        ) by {
            if i > 0 {
                assert(s[i] == t[i - 1]);
            }
        }
        (a + 1, b + 1)
    } else {
        let n = lemma_trimmed_end_is_part(s);
        (0, n)
    }
}

proof fn lemma_trimmed_end_is_part(s: Seq<char>) -> (n: int)
    ensures
        0 <= n <= s.len(),
        trimmed_end(s) == s.subrange(0, n),
        forall|i: int| n <= i < s.len() ==> space(#[trigger] s[i]),
    decreases s.len(),
{
    if s.len() > 0 && space(s.last()) {
        let t = s.drop_last();
        let n = lemma_trimmed_end_is_part(t);
        assert(t.subrange(0, n) =~= s.subrange(0, n));
        assert forall|i: int| n <= i < s.len() implies space(#[trigger] s[i]) by {
            if i < t.len() {
                assert(s[i] == t[i]);
            }
        }
        n
    } else {
        assert(s.subrange(0, s.len() as int) =~= s);
        s.len() as int
    }
}

/// A text stands in another exactly if the other is some text, it, and some
/// text.
pub proof fn lemma_holds(s: Seq<char>, part: Seq<char>)
    ensures
        holds(s, part) <==> exists|a: Seq<char>, b: Seq<char>| s == #[trigger] (a + part + b),
{
    if holds(s, part) {
        let i = choose|i: int| stands_at(s, part, i);
        let a = s.take(i);
        let b = s.skip(i + part.len());
        assert forall|k: int| 0 <= k < part.len() implies s[i + k] == part[k] by {
            assert(s.subrange(i, i + part.len())[k] == s[i + k]);
        }
        assert(s =~= a + part + b);
    }
    if exists|a: Seq<char>, b: Seq<char>| s == #[trigger] (a + part + b) {
        let (a, b) = choose|a: Seq<char>, b: Seq<char>| s == #[trigger] (a + part + b);
        assert(s.subrange(a.len() as int, (a.len() + part.len()) as int) =~= part);
        assert(stands_at(s, part, a.len() as int));
    }
}

} // verus!

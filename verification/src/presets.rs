//! Parameters of presets: the order in which they are declared.

use crate::entries::Entries;
use crate::ipc::Param;
use crate::order;
use crate::path;
use crate::text;
use vstd::prelude::*;

verus! {

// ------------------------------------------------------------------ directives

/// What a line of a shader says about parameters.
#[derive(Debug, PartialEq)]
pub enum Directive {
    /// Another file stands in its place.
    File(String),
    /// A parameter is declared.
    Parameter(String),
    Nothing,
}

/// What stands between the first and the last quote.
pub open spec fn quoted(s: Seq<char>) -> Option<Seq<char>> {
    let a = text::run(s, '"', '"') as int;
    let b = path::through_last(s, '"') - 1;
    if a < b {
        Some(s.subrange(a + 1, b))
    } else {
        None
    }
}

/// The file that stands in the place of a line.
pub open spec fn says_file(line: Seq<char>) -> Option<Seq<char>> {
    let t = text::trimmed_start(line);
    if text::begins(t, "#include"@) {
        quoted(t.skip("#include"@.len() as int))
    } else {
        None
    }
}

/// The parameter that a line declares.
pub open spec fn says_parameter(line: Seq<char>) -> Option<Seq<char>> {
    let t = text::trimmed_start(line);
    if text::begins(t, "#include"@) || !text::begins(t, "#pragma parameter"@) {
        None
    } else {
        let w = text::words(t.skip("#pragma parameter"@.len() as int));
        if w.len() > 0 {
            Some(w[0])
        } else {
            None
        }
    }
}

/// What a line of a shader says about parameters.
pub fn directive(line: &[char]) -> (r: Directive)
    ensures
        match r {
            Directive::File(p) => says_file(line@) == Some(p@) && says_parameter(line@) is None,
            Directive::Parameter(n) => says_parameter(line@) == Some(n@) && says_file(line@)
                is None,
            Directive::Nothing => says_file(line@) is None && says_parameter(line@) is None,
        },
{
    let t: &[char] = text::trim_start(line);
    if let Some(rest) = text::strip_prefix(t, "#include") {
        let a: usize = text::run_length(rest, '"', '"');
        let b: usize = path::last_of(rest, '"');
        if b > 0 && a < b - 1 {
            return Directive::File(
                text::text_of(vstd::slice::slice_subrange(rest, a + 1, b - 1)),
            );
        }
        return Directive::Nothing;
    }
    if let Some(rest) = text::strip_prefix(t, "#pragma parameter") {
        if let Some(name) = text::first_word(rest) {
            return Directive::Parameter(text::text_of(name));
        }
    }
    Directive::Nothing
}

/// Files stand for one another to this depth at most.
pub const DEPTH: u32 = 16;

/// Where the file is that stands in the place of a line of `from`.
pub open spec fn nested(from: Seq<char>, name: Seq<char>) -> Seq<char> {
    path::within(
        match path::parent_of(from) {
            Some(d) => d,
            None => "."@,
        },
        name,
    )
}

/// Where the file is that stands in the place of a line, unless it is nested
/// too deep.
pub fn nested_file(from: &str, name: &str, depth: u32) -> (r: Option<String>)
    ensures
        match r {
            Some(p) => depth < DEPTH && p@ == nested(from@, name@),
            None => depth >= DEPTH,
        },
{
    if depth >= DEPTH {
        return None;
    }
    let c: Vec<char> = text::chars_of(from);
    let dir: Vec<char> = match path::parent(c.as_slice()) {
        Some(d) => text::copied(d),
        None => text::chars_of("."),
    };
    let n: Vec<char> = text::chars_of(name);
    Some(text::text_of(path::join(dir.as_slice(), n.as_slice()).as_slice()))
}

/// `names` with one more, unless it is there.
pub open spec fn with_name(names: Seq<Seq<char>>, name: Seq<char>) -> Seq<Seq<char>> {
    if names.contains(name) {
        names
    } else {
        names.push(name)
    }
}

/// Notes a declared parameter, unless it was declared before.
fn declare(names: &mut Vec<String>, name: String)
    ensures
        text::texts(final(names)@) == with_name(text::texts(old(names)@), name@),
{
    let mut i: usize = 0;
    while i < names.len()
        invariant
            i <= names@.len(),
            names@ == old(names)@,
            forall|j: int| 0 <= j < i ==> (#[trigger] names@[j])@ != name@,
        decreases names@.len() - i,
    {
        if text::equal_texts(names[i].as_str(), name.as_str()) {
            assert(text::texts(names@)[i as int] == name@);
            return ;
        }
        i = i + 1;
    }
    assert(!text::texts(names@).contains(name@)) by {
        if text::texts(names@).contains(name@) {
            let j = choose|j: int|
                0 <= j < text::texts(names@).len() && text::texts(names@)[j] == name@;
            assert(names@[j]@ != name@);
        }
    }
    names.push(name);
    assert(text::texts(names@) =~= text::texts(old(names)@).push(name@));
}

/// What came of following the declarations: the names in their order, or a
/// file whose text is not known yet.
pub enum Followed {
    Names(Seq<Seq<char>>),
    Unread(Seq<char>),
}

/// The names that `names` become by the lines of a file from the `k`th on:
/// a file that stands in the place of a line is followed where it stands.
pub open spec fn follow_lines(
    files: Map<Seq<char>, Seq<char>>,
    path: Seq<char>,
    lines: Seq<Seq<char>>,
    k: int,
    depth: int,
    names: Seq<Seq<char>>,
) -> Followed
    decreases DEPTH - depth + 1, 1int, lines.len() - k,
{
    if k < 0 || k >= lines.len() {
        Followed::Names(names)
    } else if says_file(lines[k]) is Some && 0 <= depth < DEPTH {
        match follow_file(files, nested(path, says_file(lines[k])->0), depth + 1, names) {
            Followed::Names(n) => follow_lines(files, path, lines, k + 1, depth, n),
            Followed::Unread(p) => Followed::Unread(p),
        }
    } else if says_parameter(lines[k]) is Some {
        follow_lines(
            files,
            path,
            lines,
            k + 1,
            depth,
            with_name(names, says_parameter(lines[k])->0),
        )
    } else {
        follow_lines(files, path, lines, k + 1, depth, names)
    }
}

/// The names that `names` become by a file.
pub open spec fn follow_file(
    files: Map<Seq<char>, Seq<char>>,
    path: Seq<char>,
    depth: int,
    names: Seq<Seq<char>>,
) -> Followed
    decreases DEPTH - depth + 1, 2int, 0int,
{
    if depth < 0 || depth > DEPTH {
        Followed::Names(names)
    } else if files.contains_key(path) {
        follow_lines(files, path, text::lines(files[path]), 0, depth, names)
    } else {
        Followed::Unread(path)
    }
}

/// The names that the shaders of the passes declare, in their order.
pub open spec fn follow_passes(
    files: Map<Seq<char>, Seq<char>>,
    passes: Seq<Seq<char>>,
    k: int,
    names: Seq<Seq<char>>,
) -> Followed
    decreases passes.len() - k,
{
    if k < 0 || k >= passes.len() {
        Followed::Names(names)
    } else {
        match follow_file(files, passes[k], 0, names) {
            Followed::Names(n) => follow_passes(files, passes, k + 1, n),
            Followed::Unread(p) => Followed::Unread(p),
        }
    }
}

fn follow_text(
    files: &Entries,
    path: &str,
    source: &str,
    depth: u32,
    names: &mut Vec<String>,
) -> (r: Option<String>)
    requires
        depth <= DEPTH,
    ensures
        match follow_lines(
            files@,
            path@,
            text::lines(source@),
            0,
            depth as int,
            text::texts(old(names)@),
        ) {
            Followed::Names(n) => r is None && text::texts(final(names)@) == n,
            Followed::Unread(p) => r is Some && r->0@ == p,
        },
    decreases DEPTH - depth, 1int,
{
    let c: Vec<char> = text::chars_of(source);
    let lines: Vec<Vec<char>> = text::lines_of(c.as_slice());
    let ghost all = text::lines(source@);
    let ghost start = text::texts(names@);
    assert(lines@.len() == all.len());
    let mut k: usize = 0;
    while k < lines.len()
        invariant
            k <= lines@.len(),
            depth <= DEPTH,
            text::contents(lines@) == all,
            lines@.len() == all.len(),
            follow_lines(files@, path@, all, 0, depth as int, start) == follow_lines(
                files@,
                path@,
                all,
                k as int,
                depth as int,
                text::texts(names@),
            ),
            all == text::lines(source@),
            start == text::texts(old(names)@),
        decreases lines@.len() - k,
    {
        assert(all[k as int] == lines@[k as int]@);
        match directive(lines[k].as_slice()) {
            Directive::File(name) => {
                if let Some(file) = nested_file(path, name.as_str(), depth) {
                    if let Some(p) = follow(files, file.as_str(), depth + 1, names) {
                        return Some(p);
                    }
                }
            },
            Directive::Parameter(name) => {
                declare(names, name);
            },
            Directive::Nothing => {},
        }
        k = k + 1;
    }
    None
}

fn follow(files: &Entries, path: &str, depth: u32, names: &mut Vec<String>) -> (r: Option<String>)
    requires
        depth <= DEPTH,
    ensures
        match follow_file(files@, path@, depth as int, text::texts(old(names)@)) {
            Followed::Names(n) => r is None && text::texts(final(names)@) == n,
            Followed::Unread(p) => r is Some && r->0@ == p,
        },
    decreases DEPTH - depth, 2int,
{
    match files.value(path) {
        Some(source) => follow_text(files, path, source.as_str(), depth, names),
        None => Some(text::text_of(text::chars_of(path).as_slice())),
    }
}

/// The names that the shaders of the passes declare, in their order, or a file
/// to read first. `files` holds the texts of those read so far; one that
/// cannot be read counts as empty.
pub fn declared_names(files: &Entries, passes: &Vec<String>) -> (r: Result<Vec<String>, String>)
    ensures
        match follow_passes(files@, text::texts(passes@), 0, Seq::empty()) {
            Followed::Names(n) => r is Ok && text::texts(r->Ok_0@) == n,
            Followed::Unread(p) => r is Err && r->Err_0@ == p,
        },
{
    let ghost all = text::texts(passes@);
    let mut names: Vec<String> = Vec::new();
    assert(text::texts(names@) =~= Seq::empty());
    let mut k: usize = 0;
    while k < passes.len()
        invariant
            k <= passes@.len(),
            all == text::texts(passes@),
            follow_passes(files@, all, 0, Seq::empty()) == follow_passes(
                files@,
                all,
                k as int,
                text::texts(names@),
            ),
        decreases passes@.len() - k,
    {
        assert(all[k as int] == passes@[k as int]@);
        if let Some(p) = follow(files, passes[k].as_str(), 0, &mut names) {
            return Err(p);
        }
        k = k + 1;
    }
    Ok(names)
}

/// A file that is asked for is one that was not read, so reading what is asked
/// for always goes on.
pub proof fn lemma_asks_for_unread(
    files: Map<Seq<char>, Seq<char>>,
    passes: Seq<Seq<char>>,
    k: int,
    names: Seq<Seq<char>>,
)
    ensures
        match follow_passes(files, passes, k, names) {
            Followed::Unread(p) => !files.contains_key(p),
            Followed::Names(_) => true,
        },
    decreases passes.len() - k,
{
    if 0 <= k < passes.len() {
        lemma_file_asks(files, passes[k], 0, names);
        match follow_file(files, passes[k], 0, names) {
            Followed::Names(n) => {
                lemma_asks_for_unread(files, passes, k + 1, n);
            },
            Followed::Unread(p) => {},
        }
    }
}

proof fn lemma_file_asks(
    files: Map<Seq<char>, Seq<char>>,
    path: Seq<char>,
    depth: int,
    names: Seq<Seq<char>>,
)
    ensures
        match follow_file(files, path, depth, names) {
            Followed::Unread(p) => !files.contains_key(p),
            Followed::Names(_) => true,
        },
    decreases DEPTH - depth + 1, 2int, 0int,
{
    if 0 <= depth <= DEPTH && files.contains_key(path) {
        lemma_lines_ask(files, path, text::lines(files[path]), 0, depth, names);
    }
}

proof fn lemma_lines_ask(
    files: Map<Seq<char>, Seq<char>>,
    path: Seq<char>,
    lines: Seq<Seq<char>>,
    k: int,
    depth: int,
    names: Seq<Seq<char>>,
)
    ensures
        match follow_lines(files, path, lines, k, depth, names) {
            Followed::Unread(p) => !files.contains_key(p),
            Followed::Names(_) => true,
        },
    decreases DEPTH - depth + 1, 1int, lines.len() - k,
{
    if 0 <= k < lines.len() {
        if says_file(lines[k]) is Some && 0 <= depth < DEPTH {
            let next = nested(path, says_file(lines[k])->0);
            lemma_file_asks(files, next, depth + 1, names);
            match follow_file(files, next, depth + 1, names) {
                Followed::Names(n) => {
                    lemma_lines_ask(files, path, lines, k + 1, depth, n);
                },
                Followed::Unread(p) => {},
            }
        } else if says_parameter(lines[k]) is Some {
            lemma_lines_ask(
                files,
                path,
                lines,
                k + 1,
                depth,
                with_name(names, says_parameter(lines[k])->0),
            );
        } else {
            lemma_lines_ask(files, path, lines, k + 1, depth, names);
        }
    }
}

// ----------------------------------------------------------------- arrangement

/// Position of the last parameter of that name, or -1.
pub open spec fn last_named(meta: Seq<Param>, name: Seq<char>) -> int
    decreases meta.len(),
{
    if meta.len() == 0 {
        -1
    } else if meta.last().name@ == name {
        meta.len() - 1
    } else {
        last_named(meta.drop_last(), name)
    }
}

/// The parameters in the order of the names; a name counts once, and of
/// parameters that share a name the last one counts.
pub open spec fn in_order(meta: Seq<Param>, names: Seq<Seq<char>>) -> Seq<Param>
    decreases names.len(),
{
    if names.len() == 0 {
        seq![]
    } else {
        let before = in_order(meta, names.drop_last());
        let at = last_named(meta, names.last());
        if at < 0 || names.drop_last().contains(names.last()) {
            before
        } else {
            before.push(meta[at])
        }
    }
}

/// The first `n` parameters that no name stands for and that no later one
/// replaces.
pub open spec fn left_over(meta: Seq<Param>, names: Seq<Seq<char>>, n: int) -> Seq<Param>
    decreases n,
{
    if n <= 0 || n > meta.len() {
        seq![]
    } else {
        let before = left_over(meta, names, n - 1);
        let p = meta[n - 1];
        if last_named(meta, p.name@) == n - 1 && !names.contains(p.name@) {
            before.push(p)
        } else {
            before
        }
    }
}

/// The names of parameters.
pub open spec fn param_names(v: Seq<Param>) -> Seq<Seq<char>> {
    Seq::new(v.len(), |i: int| v[i].name@)
}

/// Parameters in the order of their names.
pub open spec fn by_name(v: Seq<Param>) -> Seq<Param> {
    let o = choose|o: Seq<usize>| order::is_order(param_names(v), o);
    Seq::new(v.len(), |i: int| v[o[i] as int])
}

/// The parameters as they are shown: in the order they are declared in, then
/// the rest by name.
pub open spec fn arranged(meta: Seq<Param>, names: Seq<Seq<char>>) -> Seq<Param> {
    in_order(meta, names) + by_name(left_over(meta, names, meta.len() as int))
}

fn find_last(meta: &Vec<Param>, name: &str) -> (r: Option<usize>)
    ensures
        match r {
            Some(i) => i < meta@.len() && last_named(meta@, name@) == i,
            None => last_named(meta@, name@) < 0,
        },
{
    let mut n: usize = meta.len();
    assert(meta@.take(n as int) =~= meta@);
    while n > 0
        invariant
            n <= meta@.len(),
            last_named(meta@, name@) == last_named(meta@.take(n as int), name@),
        decreases n,
    {
        assert(meta@.take(n as int).drop_last() =~= meta@.take(n as int - 1));
        if text::equal_texts(meta[n - 1].name.as_str(), name) {
            return Some(n - 1);
        }
        n = n - 1;
    }
    None
}

fn is_among(names: &Vec<String>, n: usize, name: &str) -> (r: bool)
    requires
        n <= names@.len(),
    ensures
        r == text::texts(names@).take(n as int).contains(name@),
{
    let ghost all = text::texts(names@).take(n as int);
    let mut i: usize = 0;
    while i < n
        invariant
            i <= n <= names@.len(),
            all == text::texts(names@).take(n as int),
            forall|j: int| 0 <= j < i ==> all[j] != name@,
        decreases n - i,
    {
        assert(all[i as int] == names@[i as int]@);
        if text::equal_texts(names[i].as_str(), name) {
            return true;
        }
        i = i + 1;
    }
    false
}

fn sort_params(v: Vec<Param>) -> (r: Vec<Param>)
    ensures
        r@ == by_name(v@),
{
    let mut keys: Vec<Vec<char>> = Vec::new();
    let mut i: usize = 0;
    while i < v.len()
        invariant
            i <= v@.len(),
            text::contents(keys@) == param_names(v@).take(i as int),
        decreases v@.len() - i,
    {
        let ghost before = text::contents(keys@);
        let key: Vec<char> = text::chars_of(v[i].name.as_str());
        keys.push(key);
        assert(text::contents(keys@) =~= before.push(key@));
        assert(before.push(key@) =~= param_names(v@).take(i as int + 1));
        i = i + 1;
    }
    assert(param_names(v@).take(i as int) =~= param_names(v@));
    let places: Vec<usize> = order::order(&keys);
    let ghost o = choose|o: Seq<usize>| order::is_order(param_names(v@), o);
    proof {
        order::lemma_one_order(param_names(v@), places@, o);
    }
    let mut out: Vec<Param> = Vec::new();
    let mut j: usize = 0;
    while j < places.len()
        invariant
            j <= places@.len(),
            places@.len() == v@.len(),
            order::is_order(param_names(v@), places@),
            by_name(v@) == Seq::new(v@.len(), |k: int| v@[places@[k] as int]),
            out@ == by_name(v@).take(j as int),
        decreases places@.len() - j,
    {
        assert(places@[j as int] < param_names(v@).len());
        out.push(v[places[j]].copy());
        j = j + 1;
        assert(out@ =~= by_name(v@).take(j as int));
    }
    assert(by_name(v@).take(j as int) =~= by_name(v@));
    out
}

/// The parameters as they are shown: in the order they are declared in, then
/// the rest by name.
pub fn arrange_params(meta: &Vec<Param>, names: &Vec<String>) -> (r: Vec<Param>)
    ensures
        r@ == arranged(meta@, text::texts(names@)),
{
    let ghost all = text::texts(names@);
    let mut out: Vec<Param> = Vec::new();
    let mut i: usize = 0;
    assert(all.take(0) =~= Seq::empty());
    while i < names.len()
        invariant
            i <= names@.len(),
            all == text::texts(names@),
            out@ == in_order(meta@, all.take(i as int)),
        decreases names@.len() - i,
    {
        assert(all.take(i as int + 1).drop_last() =~= all.take(i as int));
        assert(all.take(i as int + 1).last() == names@[i as int]@);
        if let Some(at) = find_last(meta, names[i].as_str()) {
            if !is_among(names, i, names[i].as_str()) {
                out.push(meta[at].copy());
            }
        }
        i = i + 1;
    }
    assert(all.take(i as int) =~= all);
    let mut rest: Vec<Param> = Vec::new();
    let mut k: usize = 0;
    while k < meta.len()
        invariant
            k <= meta@.len(),
            all == text::texts(names@),
            rest@ == left_over(meta@, all, k as int),
        decreases meta@.len() - k,
    {
        let last: bool = match find_last(meta, meta[k].name.as_str()) {
            Some(at) => at == k,
            None => false,
        };
        assert(all.take(names@.len() as int) =~= all);
        if last && !is_among(names, names.len(), meta[k].name.as_str()) {
            rest.push(meta[k].copy());
        }
        k = k + 1;
    }
    let mut sorted: Vec<Param> = sort_params(rest);
    out.append(&mut sorted);
    out
}

proof fn lemma_in_order_differ(meta: Seq<Param>, names: Seq<Seq<char>>, i: int, j: int)
    requires
        0 <= i < j < in_order(meta, names).len(),
    ensures
        in_order(meta, names)[i].name@ != in_order(meta, names)[j].name@,
    decreases names.len(),
{
    if names.len() > 0 {
        let front = names.drop_last();
        let before = in_order(meta, front);
        if j < before.len() {
            lemma_in_order_differ(meta, front, i, j);
        } else {
            lemma_in_order_named(meta, front, i);
            lemma_last_named(meta, names.last());
        }
    }
}

/// What is left over are last parameters of their names, in their order, none
/// of them named.
proof fn lemma_left_over(meta: Seq<Param>, names: Seq<Seq<char>>, n: int, i: int)
    requires
        0 <= n <= meta.len(),
        0 <= i < left_over(meta, names, n).len(),
    ensures
        ({
            let p = left_over(meta, names, n)[i];
            let at = last_named(meta, p.name@);
            &&& 0 <= at < n
            &&& meta[at] == p
            &&& !names.contains(p.name@)
        }),
    decreases n,
{
    if n > 0 && i < left_over(meta, names, n - 1).len() {
        lemma_left_over(meta, names, n - 1, i);
    }
}

proof fn lemma_left_over_differ(meta: Seq<Param>, names: Seq<Seq<char>>, n: int, i: int, j: int)
    requires
        0 <= n <= meta.len(),
        0 <= i < j < left_over(meta, names, n).len(),
    ensures
        left_over(meta, names, n)[i].name@ != left_over(meta, names, n)[j].name@,
    decreases n,
{
    if n > 0 {
        let before = left_over(meta, names, n - 1);
        if j < before.len() {
            lemma_left_over_differ(meta, names, n - 1, i, j);
        } else {
            lemma_left_over(meta, names, n - 1, i);
        }
    }
}

/// Sorting by name rearranges.
proof fn lemma_by_name(v: Seq<Param>, o: Seq<usize>)
    requires
        order::is_order(param_names(v), o),
    ensures
        by_name(v).len() == v.len(),
        forall|i: int| 0 <= i < v.len() ==> #[trigger] by_name(v)[i] == v[o[i] as int],
        forall|i: int, j: int| 0 <= i < j < v.len() ==> #[trigger] o[i] != #[trigger] o[j],
{
    let p = choose|p: Seq<usize>| order::is_order(param_names(v), p);
    order::lemma_one_order(param_names(v), o, p);
    assert forall|i: int, j: int| 0 <= i < j < v.len() implies #[trigger] o[i] != #[trigger] o[j] by {
        assert(order::goes_before(param_names(v), o[i] as int, o[j] as int));
        text::lemma_order_total(v[o[i] as int].name@, v[o[i] as int].name@);
    }
}

/// Every parameter is shown once: no two of those shown share a name. `o` is
/// the order of what is left over.
pub proof fn lemma_shown_once(
    meta: Seq<Param>,
    names: Seq<Seq<char>>,
    o: Seq<usize>,
    i: int,
    j: int,
)
    requires
        order::is_order(param_names(left_over(meta, names, meta.len() as int)), o),
        0 <= i < j < arranged(meta, names).len(),
    ensures
        arranged(meta, names)[i].name@ != arranged(meta, names)[j].name@,
{
    let a = in_order(meta, names);
    let v = left_over(meta, names, meta.len() as int);
    let n = meta.len() as int;
    lemma_by_name(v, o);
    if j < a.len() {
        lemma_in_order_differ(meta, names, i, j);
    } else {
        let y = o[j - a.len()] as int;
        assert(o[j - a.len()] < param_names(v).len());
        assert(arranged(meta, names)[j] == v[y]);
        lemma_left_over(meta, names, n, y);
        if i < a.len() {
            lemma_in_order_named(meta, names, i);
        } else {
            let x = o[i - a.len()] as int;
            assert(o[i - a.len()] < param_names(v).len());
            assert(arranged(meta, names)[i] == v[x]);
            if x < y {
                lemma_left_over_differ(meta, names, n, x, y);
            } else {
                lemma_left_over_differ(meta, names, n, y, x);
            }
        }
    }
}

proof fn lemma_last_named(meta: Seq<Param>, name: Seq<char>)
    ensures
        last_named(meta, name) < meta.len(),
        last_named(meta, name) >= 0 ==> meta[last_named(meta, name)].name@ == name,
    decreases meta.len(),
{
    if meta.len() > 0 && meta.last().name@ != name {
        lemma_last_named(meta.drop_last(), name);
    }
}

proof fn lemma_in_order_named(meta: Seq<Param>, names: Seq<Seq<char>>, i: int)
    requires
        0 <= i < in_order(meta, names).len(),
    ensures
        names.contains(in_order(meta, names)[i].name@),
    decreases names.len(),
{
    if names.len() > 0 {
        let front = names.drop_last();
        let before = in_order(meta, front);
        if i < before.len() {
            lemma_in_order_named(meta, front, i);
            let k = choose|k: int| 0 <= k < front.len() && front[k] == before[i].name@;
            assert(names[k] == before[i].name@);
        } else {
            lemma_last_named(meta, names.last());
            assert(names[names.len() - 1] == names.last());
        }
    }
}

// ---------------------------------------------------------------------- chains

/// Number of passes in the first `n` of the presets of a chain.
pub open spec fn passes_before(counts: Seq<i32>, n: int) -> int
    decreases n,
{
    if n <= 0 || n > counts.len() {
        0
    } else {
        passes_before(counts, n - 1) + counts[n - 1]
    }
}

/// The passes of the chain can be numbered: no preset has a negative number of
/// them, and all together are not too many.
pub open spec fn numberable(counts: Seq<i32>) -> bool {
    &&& forall|i: int| 0 <= i < counts.len() ==> (#[trigger] counts[i]) >= 0
    &&& passes_before(counts, counts.len() as int) <= i32::MAX
}

proof fn lemma_passes_increase(counts: Seq<i32>, m: int, n: int)
    requires
        0 <= m <= n <= counts.len(),
        forall|i: int| 0 <= i < n ==> (#[trigger] counts[i]) >= 0,
    ensures
        0 <= passes_before(counts, m) <= passes_before(counts, n),
    decreases n,
{
    if m < n {
        assert(counts[n - 1] >= 0);
        lemma_passes_increase(counts, m, n - 1);
    } else if m > 0 {
        assert(counts[m - 1] >= 0);
        lemma_passes_increase(counts, m - 1, m - 1);
    }
}

/// Number of the first pass of each preset when presets of so many passes run
/// one after the other: the passes of the second follow those of the first.
pub fn pass_offsets(counts: &Vec<i32>) -> (r: Option<Vec<i32>>)
    ensures
        match r {
            Some(v) => numberable(counts@) && v@.len() == counts@.len() && forall|i: int|
                0 <= i < v@.len() ==> #[trigger] v@[i] == passes_before(counts@, i),
            None => !numberable(counts@),
        },
{
    let mut out: Vec<i32> = Vec::new();
    let mut sum: i32 = 0;
    let mut i: usize = 0;
    while i < counts.len()
        invariant
            i <= counts@.len(),
            0 <= sum,
            sum == passes_before(counts@, i as int),
            out@.len() == i,
            forall|j: int| 0 <= j < i ==> (#[trigger] counts@[j]) >= 0,
            forall|j: int| 0 <= j < i ==> #[trigger] out@[j] == passes_before(counts@, j),
        decreases counts@.len() - i,
    {
        out.push(sum);
        if counts[i] < 0 {
            return None;
        }
        if counts[i] > i32::MAX - sum {
            proof {
                if numberable(counts@) {
                    lemma_passes_increase(counts@, i as int + 1, counts@.len() as int);
                }
            }
            return None;
        }
        sum = sum + counts[i];
        i = i + 1;
    }
    Some(out)
}

/// Passes of different presets of a chain never share a number.
pub proof fn lemma_passes_apart(counts: Seq<i32>, i: int, j: int)
    requires
        numberable(counts),
        0 <= i < j < counts.len(),
    ensures
        passes_before(counts, i) + counts[i] <= passes_before(counts, j),
{
    lemma_passes_increase(counts, i + 1, j);
}

// ------------------------------------------------------------------------ laws

/// What stands between the quotes of a line is found, whatever it is.
pub proof fn lemma_quoted(a: Seq<char>, name: Seq<char>, b: Seq<char>)
    requires
        forall|i: int| 0 <= i < a.len() ==> a[i] != '"',
        forall|i: int| 0 <= i < b.len() ==> b[i] != '"',
    ensures
        quoted(a + seq!['"'] + name + seq!['"'] + b) == Some(name),
        quoted(a) is None,
{
    let front = a + seq!['"'] + name + seq!['"'];
    let s = front + b;
    assert(forall|i: int| 0 <= i < a.len() ==> s[i] == a[i]);
    assert(s[a.len() as int] == '"');
    text::lemma_run(s, '"', '"', a.len());
    path::lemma_through(front, b, '"');
    assert(s.subrange(a.len() as int + 1, front.len() - 1) =~= name);
    text::lemma_run(a, '"', '"', a.len());
    path::lemma_through(Seq::empty(), a, '"');
    assert(Seq::<char>::empty() + a =~= a);
}

/// `#include` names a file, and `#pragma parameter` the parameter that follows
/// it; blanks in front do not count.
pub proof fn lemma_directives(name: Seq<char>, rest: Seq<char>)
    requires
        forall|i: int| 0 <= i < rest.len() ==> rest[i] != '"',
    ensures
        says_file("#include "@ + seq!['"'] + name + seq!['"'] + rest) == Some(name),
        says_parameter("#include "@ + seq!['"'] + name + seq!['"'] + rest) is None,
        name.len() > 0 && (forall|i: int| 0 <= i < name.len() ==> !text::space(#[trigger] name[i]))
            ==> says_parameter("#pragma parameter "@ + name + seq![' '] + rest) == Some(name)
            && says_file("#pragma parameter "@ + name + seq![' '] + rest) is None,
{
    reveal_strlit("#include ");
    reveal_strlit("#include");
    reveal_strlit("#pragma parameter ");
    reveal_strlit("#pragma parameter");
    let s = "#include "@ + seq!['"'] + name + seq!['"'] + rest;
    assert(s[0] == '#');
    assert(text::trimmed_start(s) == s);
    assert(s.take(8) =~= "#include"@);
    assert(s.skip(8) =~= seq![' '] + seq!['"'] + name + seq!['"'] + rest);
    lemma_quoted(seq![' '], name, rest);
    let t = "#pragma parameter "@ + name + seq![' '] + rest;
    assert(t[0] == '#' && t[1] == 'p');
    assert(text::trimmed_start(t) == t);
    assert(t.take(17) =~= "#pragma parameter"@);
    assert(t.take(8)[1] == 'p');
    assert("#include"@[1] == 'i');
    assert(t.skip(17) =~= seq![' '] + name + seq![' '] + rest);
    if name.len() > 0 && (forall|i: int|
        0 <= i < name.len() ==> !text::space(#[trigger] name[i])) {
        text::lemma_first_word(name, rest);
    }
}

/// The parameters of lines that name no file are those that were known and
/// those that a line declares, each once, in the order they are declared in.
pub proof fn lemma_declared(
    files: Map<Seq<char>, Seq<char>>,
    path: Seq<char>,
    lines: Seq<Seq<char>>,
    k: int,
    depth: int,
    names: Seq<Seq<char>>,
    n: Seq<char>,
)
    requires
        0 <= k <= lines.len(),
        forall|i: int| 0 <= i < lines.len() ==> says_file(#[trigger] lines[i]) is None,
        names.no_duplicates(),
    ensures
        match follow_lines(files, path, lines, k, depth, names) {
            Followed::Names(now) => {
                &&& now.no_duplicates()
                &&& now.len() >= names.len()
                &&& now.take(names.len() as int) == names
                &&& now.contains(n) <==> names.contains(n) || exists|i: int|
                    k <= i < lines.len() && says_parameter(#[trigger] lines[i]) == Some(n)
            },
            Followed::Unread(_) => false,
        },
    decreases lines.len() - k,
{
    if k < lines.len() {
        assert(says_file(lines[k]) is None);
        match says_parameter(lines[k]) {
            Some(p) => {
                let more = with_name(names, p);
                assert(more.no_duplicates());
                lemma_declared(files, path, lines, k + 1, depth, more, n);
                if !names.contains(p) {
                    if names.contains(n) {
                        let i = choose|i: int| 0 <= i < names.len() && names[i] == n;
                        assert(more[i] == n);
                    }
                    if more.contains(n) {
                        let i = choose|i: int| 0 <= i < more.len() && more[i] == n;
                        if i < names.len() {
                            assert(names[i] == n);
                        }
                    }
                    assert(more[names.len() as int] == p);
                    match follow_lines(files, path, lines, k + 1, depth, more) {
                        Followed::Names(now) => {
                            assert(now.take(names.len() as int) =~= more.take(names.len() as int));
                            assert(more.take(names.len() as int) =~= names);
                        },
                        Followed::Unread(_) => {},
                    }
                }
            },
            None => {
                lemma_declared(files, path, lines, k + 1, depth, names, n);
            },
        }
    } else {
        assert(names.take(names.len() as int) =~= names);
    }
}

/// A file stands where it is named: what it declares comes between what is
/// declared before and after it.
pub proof fn lemma_file_in_place(
    files: Map<Seq<char>, Seq<char>>,
    path: Seq<char>,
    lines: Seq<Seq<char>>,
    k: int,
    depth: int,
    names: Seq<Seq<char>>,
)
    requires
        0 <= k < lines.len(),
        0 <= depth < 16,
        says_file(lines[k]) is Some,
    ensures
        ({
            let there = path::within(
                match path::parent_of(path) {
                    Some(d) => d,
                    None => "."@,
                },
                says_file(lines[k])->0,
            );
            follow_lines(files, path, lines, k, depth, names) == match follow_file(
                files,
                there,
                depth + 1,
                names,
            ) {
                Followed::Names(n) => follow_lines(files, path, lines, k + 1, depth, n),
                Followed::Unread(p) => Followed::Unread(p),
            }
        }),
{
}

/// Of parameters that share a name the last one is shown.
pub proof fn lemma_last_counts(meta: Seq<Param>, name: Seq<char>, i: int)
    requires
        0 <= i < meta.len(),
        meta[i].name@ == name,
    ensures
        i <= last_named(meta, name) < meta.len(),
        meta[last_named(meta, name)].name@ == name,
    decreases meta.len(),
{
    if meta.last().name@ != name {
        lemma_last_counts(meta.drop_last(), name, i);
    }
}

proof fn lemma_in_order_has(meta: Seq<Param>, names: Seq<Seq<char>>, name: Seq<char>)
    requires
        names.contains(name),
        last_named(meta, name) >= 0,
    ensures
        in_order(meta, names).contains(meta[last_named(meta, name)]),
    decreases names.len(),
{
    let front = names.drop_last();
    let before = in_order(meta, front);
    let p = meta[last_named(meta, name)];
    let v = in_order(meta, names);
    if front.contains(name) {
        lemma_in_order_has(meta, front, name);
        let i = choose|i: int| 0 <= i < before.len() && before[i] == p;
        assert(v[i] == p);
    } else {
        let i = choose|i: int| 0 <= i < names.len() && names[i] == name;
        if i < front.len() {
            assert(front[i] == name);
        }
        assert(v[before.len() as int] == p);
    }
}

proof fn lemma_left_over_has(meta: Seq<Param>, names: Seq<Seq<char>>, n: int, at: int)
    requires
        0 <= at < n <= meta.len(),
        last_named(meta, meta[at].name@) == at,
        !names.contains(meta[at].name@),
    ensures
        left_over(meta, names, n).contains(meta[at]),
    decreases n,
{
    let before = left_over(meta, names, n - 1);
    let v = left_over(meta, names, n);
    if at == n - 1 {
        assert(v[before.len() as int] == meta[at]);
    } else {
        lemma_left_over_has(meta, names, n - 1, at);
        let i = choose|i: int| 0 <= i < before.len() && before[i] == meta[at];
        assert(v[i] == meta[at]);
    }
}

proof fn lemma_by_name_has(v: Seq<Param>, p: Param)
    requires
        v.len() <= usize::MAX,
        v.contains(p),
    ensures
        by_name(v).contains(p),
    decreases v.len(),
{
    let keys = param_names(v);
    let front = v.drop_last();
    let n = v.len() - 1;
    assert(keys.drop_last() =~= param_names(front));
    let r = order::lemma_some_order(param_names(front));
    let at = order::lemma_order_extends(keys, r);
    let w = r.insert(at, n as usize);
    lemma_by_name(v, w);
    lemma_by_name(front, r);
    let i = choose|i: int| 0 <= i < v.len() && v[i] == p;
    if i == n {
        assert(w[at] == n);
        assert(by_name(v)[at] == p);
    } else {
        assert(front[i] == p);
        lemma_by_name_has(front, p);
        let j = choose|j: int| 0 <= j < by_name(front).len() && by_name(front)[j] == p;
        assert(r[j] < param_names(front).len());
        let k = if j < at { j } else { j + 1 };
        assert(w[k] == r[j]);
        assert(by_name(v)[k] == p);
    }
}

/// Every parameter is shown: of those that share a name the last one, those that
/// are declared first.
pub proof fn lemma_all_shown(meta: Seq<Param>, names: Seq<Seq<char>>, i: int)
    requires
        0 <= i < meta.len() <= usize::MAX,
    ensures
        ({
            let p = meta[last_named(meta, meta[i].name@)];
            let declared = in_order(meta, names).len();
            let all = arranged(meta, names);
            &&& exists|k: int|
                0 <= k < all.len() && #[trigger] all[k] == p && (k < declared <==> names.contains(
                    p.name@,
                ))
            &&& p.name@ == meta[i].name@
        }),
{
    let name = meta[i].name@;
    lemma_last_counts(meta, name, i);
    let at = last_named(meta, name);
    let p = meta[at];
    let a = in_order(meta, names);
    let rest = left_over(meta, names, meta.len() as int);
    let all = arranged(meta, names);
    if names.contains(name) {
        lemma_in_order_has(meta, names, name);
        let k = choose|k: int| 0 <= k < a.len() && a[k] == p;
        assert(all[k] == p);
    } else {
        lemma_left_over_has(meta, names, meta.len() as int, at);
        lemma_left_over_short(meta, names, meta.len() as int);
        lemma_by_name_has(rest, p);
        let j = choose|j: int| 0 <= j < by_name(rest).len() && by_name(rest)[j] == p;
        assert(all[a.len() + j] == p);
    }
}

proof fn lemma_left_over_short(meta: Seq<Param>, names: Seq<Seq<char>>, n: int)
    requires
        0 <= n <= meta.len(),
    ensures
        left_over(meta, names, n).len() <= n,
    decreases n,
{
    if n > 0 {
        lemma_left_over_short(meta, names, n - 1);
    }
}

/// Declared parameters are shown in the order they are declared in: those of
/// more names come behind those of fewer.
pub proof fn lemma_declared_order(meta: Seq<Param>, names: Seq<Seq<char>>, name: Seq<char>)
    ensures
        in_order(meta, names.push(name)) == if names.contains(name) || last_named(meta, name) < 0 {
            in_order(meta, names)
        } else {
            in_order(meta, names).push(meta[last_named(meta, name)])
        },
{
    assert(names.push(name).drop_last() =~= names);
}

/// The passes of each preset follow those of the one before.
pub proof fn lemma_passes_follow(counts: Seq<i32>, i: int)
    requires
        0 <= i < counts.len(),
    ensures
        passes_before(counts, 0) == 0,
        passes_before(counts, i + 1) == passes_before(counts, i) + counts[i],
{
}

/// Blanks in front of a line do not count.
pub proof fn lemma_indented(line: Seq<char>, blank: char)
    requires
        text::space(blank),
    ensures
        says_file(seq![blank] + line) == says_file(line),
        says_parameter(seq![blank] + line) == says_parameter(line),
{
    let s = seq![blank] + line;
    assert(s[0] == blank);
    assert(s.drop_first() =~= line);
}

/// One more preset can be numbered exactly if it has no negative number of passes
/// and all of them together are at most the largest number.
pub proof fn lemma_numberable(counts: Seq<i32>, more: i32)
    requires
        numberable(counts),
    ensures
        numberable(counts.push(more)) <==> 0 <= more <= i32::MAX - passes_before(
            counts,
            counts.len() as int,
        ),
        numberable(Seq::empty()),
{
    let w = counts.push(more);
    lemma_passes_prefix(counts, more, counts.len() as int);
    lemma_passes_increase(counts, 0, counts.len() as int);
    assert(w[counts.len() as int] == more);
    assert forall|i: int| 0 <= i < counts.len() implies (#[trigger] w[i]) == counts[i] by {}
    if 0 <= more {
        assert forall|i: int| 0 <= i < w.len() implies (#[trigger] w[i]) >= 0 by {
            if i < counts.len() {
                assert(counts[i] >= 0);
            }
        }
    }
}

proof fn lemma_passes_prefix(counts: Seq<i32>, more: i32, n: int)
    requires
        0 <= n <= counts.len(),
    ensures
        passes_before(counts.push(more), n) == passes_before(counts, n),
    decreases n,
{
    if n > 0 {
        lemma_passes_prefix(counts, more, n - 1);
    }
}

} // verus!

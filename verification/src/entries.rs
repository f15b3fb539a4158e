//! Settings as read: keys with their values, where what comes later wins.

use crate::text;
use vstd::prelude::*;

verus! {

/// Keys with their values.
pub struct Entries {
    items: Vec<(String, String)>,
}

/// What a list of assignments leaves behind.
pub open spec fn table(items: Seq<(Seq<char>, Seq<char>)>) -> Map<Seq<char>, Seq<char>>
    decreases items.len(),
{
    if items.len() == 0 {
        Map::empty()
    } else {
        table(items.drop_last()).insert(items.last().0, items.last().1)
    }
}

/// The characters of a list of assignments.
pub open spec fn assignments(items: Seq<(String, String)>) -> Seq<(Seq<char>, Seq<char>)> {
    items.map_values(|e: (String, String)| (e.0@, e.1@))
}

impl Entries {
    pub closed spec fn view(&self) -> Map<Seq<char>, Seq<char>> {
        table(assignments(self.items@))
    }

    pub fn new() -> (r: Entries)
        ensures
            r@ == Map::<Seq<char>, Seq<char>>::empty(),
    {
        let r = Entries { items: Vec::new() };
        assert(assignments(r.items@) =~= Seq::empty());
        r
    }

    /// Sets a key.
    pub fn insert(&mut self, key: String, value: String)
        ensures
            final(self)@ == old(self)@.insert(key@, value@),
    {
        let ghost before = assignments(self.items@);
        self.items.push((key, value));
        assert(assignments(self.items@) =~= before.push((key@, value@)));
        assert(before.push((key@, value@)).drop_last() =~= before);
    }

    /// Value of a key.
    pub fn get(&self, key: &[char]) -> (r: Option<&String>)
        ensures
            match r {
                Some(v) => self@.contains_key(key@) && self@[key@] == v@,
                None => !self@.contains_key(key@),
            },
    {
        let mut n: usize = self.items.len();
        let ghost all = assignments(self.items@);
        assert(all.take(n as int) =~= all);
        while n > 0
            invariant
                n <= self.items@.len(),
                all == assignments(self.items@),
                self@ == table(all),
                self@.contains_key(key@) == table(all.take(n as int)).contains_key(key@),
                self@.contains_key(key@) ==> self@[key@] == table(all.take(n as int))[key@],
            decreases n,
        {
            assert(all.take(n as int).drop_last() =~= all.take(n as int - 1));
            assert(all.take(n as int).last() == all[n as int - 1]);
            let k: Vec<char> = text::chars_of(self.items[n - 1].0.as_str());
            if text::same(k.as_slice(), key) {
                return Some(&self.items[n - 1].1);
            }
            n = n - 1;
        }
        None
    }

    /// Value of a key.
    pub fn value(&self, key: &str) -> (r: Option<&String>)
        ensures
            match r {
                Some(v) => self@.contains_key(key@) && self@[key@] == v@,
                None => !self@.contains_key(key@),
            },
    {
        self.get(text::chars_of(key).as_slice())
    }

    pub fn contains_key(&self, key: &str) -> (r: bool)
        ensures
            r == self@.contains_key(key@),
    {
        self.value(key).is_some()
    }

    /// The keys, some of them maybe more than once.
    pub fn keys(&self) -> (r: Vec<Vec<char>>)
        ensures
            forall|k: Seq<char>| self@.contains_key(k) <==> text::contents(r@).contains(k),
    {
        let mut out: Vec<Vec<char>> = Vec::new();
        let mut i: usize = 0;
        let ghost all = assignments(self.items@);
        assert(all.take(0) =~= Seq::empty());
        while i < self.items.len()
            invariant
                i <= self.items@.len(),
                all == assignments(self.items@),
                forall|k: Seq<char>|
                    table(all.take(i as int)).contains_key(k) <==> text::contents(out@).contains(k),
            decreases self.items@.len() - i,
        {
            let ghost before = text::contents(out@);
            let k: Vec<char> = text::chars_of(self.items[i].0.as_str());
            assert(all.take(i as int + 1).drop_last() =~= all.take(i as int));
            assert(all.take(i as int + 1).last() == all[i as int]);
            out.push(k);
            assert(text::contents(out@) =~= before.push(all[i as int].0));
            proof {
                let now = text::contents(out@);
                assert forall|x: Seq<char>|
                    table(all.take(i as int + 1)).contains_key(x) <==> now.contains(x) by {
                    if before.contains(x) {
                        let j = choose|j: int| 0 <= j < before.len() && before[j] == x;
                        assert(now[j] == x);
                    }
                    if x == all[i as int].0 {
                        assert(now[before.len() as int] == x);
                    }
                    if now.contains(x) {
                        let j = choose|j: int| 0 <= j < now.len() && now[j] == x;
                        if j < before.len() {
                            assert(before[j] == x);
                        }
                    }
                }
            }
            i = i + 1;
        }
        assert(all.take(i as int) =~= all);
        out
    }
}

/// A line up to its comment, trimmed.
pub open spec fn uncommented(line: Seq<char>) -> Seq<char> {
    text::trimmed(line.take(text::run(line, '#', '#') as int))
}

/// The assignment that a line makes, if any: `key = value`, blanks around
/// either not counting.
pub open spec fn assignment(line: Seq<char>) -> Option<(Seq<char>, Seq<char>)> {
    match text::split_at_first(uncommented(line), '=', '=') {
        Some((k, v)) => if text::trimmed(k).len() > 0 {
            Some((text::trimmed(k), text::trimmed(v)))
        } else {
            None
        },
        None => None,
    }
}

/// What the lines of a file leave behind.
pub open spec fn read_lines(lines: Seq<Seq<char>>) -> Map<Seq<char>, Seq<char>>
    decreases lines.len(),
{
    if lines.len() == 0 {
        Map::empty()
    } else {
        let before = read_lines(lines.drop_last());
        match assignment(lines.last()) {
            Some((k, v)) => before.insert(k, v),
            None => before,
        }
    }
}

/// The settings in the text of a file.
pub open spec fn file_settings(s: Seq<char>) -> Map<Seq<char>, Seq<char>> {
    read_lines(text::lines(s))
}

/// The assignment that a line makes.
pub fn read_line(line: &[char]) -> (r: Option<(&[char], &[char])>)
    ensures
        match r {
            Some((k, v)) => assignment(line@) == Some((k@, v@)),
            None => assignment(line@) is None,
        },
{
    let n: usize = text::run_length(line, '#', '#');
    proof {
        text::lemma_run_bound(line@, '#', '#');
    }
    let front: &[char] = vstd::slice::slice_subrange(line, 0, n);
    assert(front@ =~= line@.take(n as int));
    match text::split_once(text::trim(front), '=', '=') {
        Some((k, v)) => {
            let key: &[char] = text::trim(k);
            if key.len() > 0 {
                Some((key, text::trim(v)))
            } else {
                None
            }
        },
        None => None,
    }
}

/// The settings in the text of a file.
pub fn parse_file(s: &str) -> (r: Entries)
    ensures
        r@ == file_settings(s@),
{
    let all: Vec<char> = text::chars_of(s);
    let lines: Vec<Vec<char>> = text::lines_of(all.as_slice());
    let ghost seen = text::lines(s@);
    let mut out: Entries = Entries::new();
    let mut i: usize = 0;
    assert(seen.take(0) =~= Seq::empty());
    while i < lines.len()
        invariant
            i <= lines@.len(),
            text::contents(lines@) == seen,
            out@ == read_lines(seen.take(i as int)),
        decreases lines@.len() - i,
    {
        assert(seen.take(i as int + 1).drop_last() =~= seen.take(i as int));
        assert(seen[i as int] == lines@[i as int]@);
        if let Some((k, v)) = read_line(lines[i].as_slice()) {
            out.insert(text::text_of(k), text::text_of(v));
        }
        i = i + 1;
    }
    assert(seen.take(i as int) =~= seen);
    out
}

/// The setting that a variable of the environment stands for:
/// `VKSLANG_SOURCE_RES` is `source_res`.
pub open spec fn variable_key(name: Seq<char>) -> Option<Seq<char>> {
    if text::begins(name, "VKSLANG_"@) {
        let key = name.skip("VKSLANG_"@.len() as int);
        if key == "CONFIG"@ || key == "LOG"@ {
            None
        } else {
            Some(text::lowered(key))
        }
    } else {
        None
    }
}

/// `kv` overridden by variables of the environment.
pub open spec fn overridden(
    kv: Map<Seq<char>, Seq<char>>,
    vars: Seq<(Seq<char>, Seq<char>)>,
) -> Map<Seq<char>, Seq<char>>
    decreases vars.len(),
{
    if vars.len() == 0 {
        kv
    } else {
        let before = overridden(kv, vars.drop_last());
        match variable_key(vars.last().0) {
            Some(k) => before.insert(k, vars.last().1),
            None => before,
        }
    }
}

impl Entries {
    /// Environment wins over the file.
    pub fn override_with(&mut self, vars: &Vec<(String, String)>)
        ensures
            final(self)@ == overridden(old(self)@, assignments(vars@)),
    {
        let ghost all = assignments(vars@);
        let mut i: usize = 0;
        assert(all.take(0) =~= Seq::empty());
        while i < vars.len()
            invariant
                i <= vars@.len(),
                all == assignments(vars@),
                self@ == overridden(old(self)@, all.take(i as int)),
            decreases vars@.len() - i,
        {
            assert(all.take(i as int + 1).drop_last() =~= all.take(i as int));
            assert(all.take(i as int + 1).last() == all[i as int]);
            let name: Vec<char> = text::chars_of(vars[i].0.as_str());
            if let Some(key) = text::strip_prefix(name.as_slice(), "VKSLANG_") {
                if !text::same_text(key, "CONFIG") && !text::same_text(key, "LOG") {
                    self.insert(text::text_of(text::lower(key).as_slice()), vars[i].1.clone());
                }
            }
            i = i + 1;
        }
        assert(all.take(i as int) =~= all);
    }
}

/// A variable that names a setting wins over the file, whatever it says.
pub proof fn lemma_environment_wins(
    kv: Map<Seq<char>, Seq<char>>,
    vars: Seq<(Seq<char>, Seq<char>)>,
    i: int,
)
    requires
        0 <= i < vars.len(),
        variable_key(vars[i].0) is Some,
        forall|j: int| i < j < vars.len() ==> variable_key(#[trigger] vars[j].0) != variable_key(
            vars[i].0,
        ),
    ensures
        overridden(kv, vars).contains_key(variable_key(vars[i].0)->0),
        overridden(kv, vars)[variable_key(vars[i].0)->0] == vars[i].1,
    decreases vars.len(),
{
    if i < vars.len() - 1 {
        let front = vars.drop_last();
        assert forall|j: int| i < j < front.len() implies variable_key(#[trigger] front[j].0)
            != variable_key(front[i].0) by {
            assert(front[j] == vars[j]);
        }
        lemma_environment_wins(kv, front, i);
        assert(variable_key(vars[vars.len() - 1].0) != variable_key(vars[i].0));
    }
}

/// `VKSLANG_` and the name of a setting, in whatever case, stands for the
/// setting; `VKSLANG_CONFIG` and `VKSLANG_LOG` stand for none, and neither does
/// any other variable.
pub proof fn lemma_variable_names(rest: Seq<char>, other: Seq<char>)
    ensures
        rest != "CONFIG"@ && rest != "LOG"@ ==> variable_key("VKSLANG_"@ + rest) == Some(
            text::lowered(rest),
        ),
        rest == "CONFIG"@ || rest == "LOG"@ ==> variable_key("VKSLANG_"@ + rest) is None,
        (forall|r: Seq<char>| other != #[trigger] ("VKSLANG_"@ + r)) ==> variable_key(other) is None,
{
    let p = "VKSLANG_"@;
    assert((p + rest).take(p.len() as int) =~= p);
    assert((p + rest).skip(p.len() as int) =~= rest);
    if text::begins(other, p) {
        assert(other =~= p + other.skip(p.len() as int));
    }
}

/// A setting that no variable names is what the file says.
pub proof fn lemma_environment_leaves(
    kv: Map<Seq<char>, Seq<char>>,
    vars: Seq<(Seq<char>, Seq<char>)>,
    key: Seq<char>,
)
    requires
        forall|i: int| 0 <= i < vars.len() ==> variable_key((#[trigger] vars[i]).0) != Some(key),
    ensures
        overridden(kv, vars).contains_key(key) == kv.contains_key(key),
        kv.contains_key(key) ==> overridden(kv, vars)[key] == kv[key],
    decreases vars.len(),
{
    if vars.len() > 0 {
        let front = vars.drop_last();
        assert forall|i: int| 0 <= i < front.len() implies variable_key((#[trigger] front[i]).0)
            != Some(key) by {
            assert(front[i] == vars[i]);
        }
        lemma_environment_leaves(kv, front, key);
        assert(variable_key(vars[vars.len() - 1].0) != Some(key));
    }
}

/// What follows a `#` sets nothing.
pub proof fn lemma_comment_ignored(line: Seq<char>, rest: Seq<char>)
    requires
        forall|i: int| 0 <= i < line.len() ==> line[i] != '#',
    ensures
        assignment(line + seq!['#'] + rest) == assignment(line),
        assignment(seq!['#'] + rest) is None,
{
    let s = line + seq!['#'] + rest;
    assert(forall|i: int| 0 <= i < line.len() ==> s[i] == line[i]);
    text::lemma_run(s, '#', '#', line.len());
    text::lemma_run(line, '#', '#', line.len());
    assert(s.take(line.len() as int) =~= line);
    assert(line.take(line.len() as int) =~= line);
    let t = seq!['#'] + rest;
    text::lemma_run(t, '#', '#', 0);
    assert(t.take(0) =~= Seq::<char>::empty());
    text::lemma_trimmed_same(Seq::<char>::empty());
}

/// Of two lines that set the same key the later one counts, and a line changes
/// no other key.
pub proof fn lemma_last_line_counts(lines: Seq<Seq<char>>, line: Seq<char>, other: Seq<char>)
    ensures
        match assignment(line) {
            Some((k, v)) => {
                &&& read_lines(lines.push(line)).contains_key(k)
                &&& read_lines(lines.push(line))[k] == v
                &&& other != k ==> read_lines(lines.push(line)).contains_key(other) == read_lines(
                    lines,
                ).contains_key(other)
                &&& other != k && read_lines(lines).contains_key(other) ==> read_lines(
                    lines.push(line),
                )[other] == read_lines(lines)[other]
            },
            None => read_lines(lines.push(line)) == read_lines(lines),
        },
{
    assert(lines.push(line).drop_last() =~= lines);
}

} // verus!

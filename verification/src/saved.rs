//! What is saved can be read back.

use crate::config::{self, Config};
use crate::decimal;
use crate::entries;
use crate::ipc::{self, Counts, Factors, Filter, Param, SourceSettings, State};
use crate::notation;
use crate::profile;
use crate::save;
use crate::single::{self, Single};
use crate::source;
use crate::text;
use vstd::prelude::*;

verus! {

// ---------------------------------------------------------------- single lines

proof fn lemma_trimmed_end_drops(s: Seq<char>)
    requires
        s.len() > 0,
        text::space(s.last()),
    ensures
        text::trimmed(s.drop_last()) == text::trimmed(s),
    decreases s.len(),
{
    let t = s.drop_last();
    if text::space(s[0]) {
        if s.len() == 1 {
            assert(text::trimmed_start(s) =~= Seq::<char>::empty()) by {
                assert(s.drop_first() =~= Seq::<char>::empty());
                assert(text::trimmed_start(Seq::<char>::empty()) =~= Seq::<char>::empty());
            }
            assert(t =~= Seq::<char>::empty());
        } else {
            assert(s.drop_first().drop_last() =~= t.drop_first());
            lemma_trimmed_end_drops(s.drop_first());
        }
    } else {
        assert(s.len() > 1);
        assert(t[0] == s[0]);
    }
}

/// A carriage return at the end of a line sets nothing.
proof fn lemma_return_sets_nothing(line: Seq<char>)
    ensures
        entries::assignment(text::without_return(line)) == entries::assignment(line),
{
    if line.len() > 0 && line.last() == '\r' {
        let t = line.drop_last();
        let n = text::run(line, '#', '#');
        text::lemma_run_bound(line, '#', '#');
        if n < line.len() {
            text::lemma_run(t, '#', '#', n);
            assert(t.take(n as int) =~= line.take(n as int));
        } else {
            text::lemma_run(t, '#', '#', t.len());
            assert(t.take(t.len() as int) =~= t);
            assert(line.take(n as int) =~= line);
            lemma_trimmed_end_drops(line);
        }
    }
}

/// A key that can stand before the `=` of a line.
pub open spec fn plain_key(k: Seq<char>) -> bool {
    &&& k.len() > 0
    &&& text::trimmed(k) == k
    &&& forall|i: int| 0 <= i < k.len() ==> k[i] != '=' && k[i] != '#' && k[i] != '\n'
}

/// A value that can stand behind the `=` of a line.
pub open spec fn plain_value(v: Seq<char>) -> bool {
    &&& text::trimmed(v) == v
    &&& forall|i: int| 0 <= i < v.len() ==> v[i] != '#' && v[i] != '\n'
}

proof fn lemma_plain_ends(s: Seq<char>)
    requires
        text::trimmed(s) == s,
    ensures
        s.len() > 0 ==> !text::space(s[0]) && !text::space(s.last()),
{
    text::lemma_trimmed_ends(s);
}

/// A line that was written for a key and a value sets that key to that value.
pub proof fn lemma_setting_line(k: Seq<char>, v: Seq<char>)
    requires
        plain_key(k),
        plain_value(v),
    ensures
        entries::assignment(save::setting_line(k, v)) == Some((k, v)),
        text::one_line(save::setting_line(k, v)),
{
    let line = save::setting_line(k, v);
    reveal_strlit(" = ");
    let n = k.len() as int;
    assert(forall|i: int| 0 <= i < n ==> line[i] == k[i]);
    assert(line[n] == ' ' && line[n + 1] == '=' && line[n + 2] == ' ');
    assert(forall|i: int| n + 3 <= i < line.len() ==> line[i] == v[i - n - 3]);
    text::lemma_run(line, '#', '#', line.len());
    assert(line.take(line.len() as int) =~= line);
    lemma_plain_ends(k);
    lemma_plain_ends(v);
    let t = text::trimmed(line);
    if v.len() > 0 {
        assert(line.last() == v.last());
        text::lemma_trimmed_same(line);
        assert(t == line);
    } else {
        // The blank behind the sign goes.
        lemma_trimmed_end_drops(line);
        text::lemma_trimmed_same(line.drop_last());
        assert(t == line.drop_last());
    }
    assert(forall|i: int| 0 <= i <= n + 1 ==> t[i] == line[i]);
    text::lemma_run(t, '=', '=', (n + 1) as nat);
    let front = t.take(n + 1);
    assert(front =~= k + seq![' ']);
    lemma_trimmed_end_drops(front);
    assert(front.drop_last() =~= k);
    let back = t.skip(n + 2);
    if v.len() > 0 {
        assert(back =~= seq![' '] + v);
        assert(back.drop_first() =~= v);
        assert(text::trimmed_start(back) == text::trimmed_start(v));
        assert(text::trimmed(back) == text::trimmed(v));
    } else {
        assert(back =~= Seq::<char>::empty());
        assert(v =~= Seq::<char>::empty());
        text::lemma_trimmed_same(back);
    }
}

// ---------------------------------------------------------------- many lines

proof fn lemma_read_returns(v: Seq<Seq<char>>)
    ensures
        entries::read_lines(text::without_returns(v)) == entries::read_lines(v),
    decreases v.len(),
{
    let w = text::without_returns(v);
    if v.len() > 0 {
        lemma_return_sets_nothing(v.last());
        lemma_read_returns(v.drop_last());
        assert(w.drop_last() =~= text::without_returns(v.drop_last()));
        assert(w.last() == text::without_return(v.last()));
    } else {
        assert(w =~= v);
    }
}

proof fn lemma_read_adds(a: Seq<Seq<char>>, b: Seq<Seq<char>>)
    ensures
        entries::read_lines(a + b) == entries::read_lines(a).union_prefer_right(
            entries::read_lines(b),
        ),
    decreases b.len(),
{
    let ra = entries::read_lines(a);
    if b.len() == 0 {
        assert(a + b =~= a);
        assert(ra.union_prefer_right(entries::read_lines(b)) =~= ra);
    } else {
        lemma_read_adds(a, b.drop_last());
        assert((a + b).drop_last() =~= a + b.drop_last());
        assert((a + b).last() == b.last());
        let rb = entries::read_lines(b.drop_last());
        if let Some((k, v)) = entries::assignment(b.last()) {
            assert(ra.union_prefer_right(rb).insert(k, v) =~= ra.union_prefer_right(
                rb.insert(k, v),
            ));
        }
    }
}

/// The settings under the keys that are the user's.
pub open spec fn users_settings(kv: Map<Seq<char>, Seq<char>>) -> Map<Seq<char>, Seq<char>> {
    Map::new(|k: Seq<char>| kv.contains_key(k) && !save::managed(k), |k: Seq<char>| kv[k])
}

proof fn lemma_users_lines(lines: Seq<Seq<char>>)
    ensures
        entries::read_lines(save::users_lines(lines)) == users_settings(entries::read_lines(lines)),
    decreases lines.len(),
{
    let all = entries::read_lines(lines);
    if lines.len() == 0 {
        assert(users_settings(all) =~= Map::<Seq<char>, Seq<char>>::empty());
    } else {
        let front = lines.drop_last();
        lemma_users_lines(front);
        let before = entries::read_lines(front);
        let kept = save::users_lines(front);
        if save::users_line(lines.last()) {
            assert(kept.push(lines.last()).drop_last() =~= kept);
            if let Some((k, v)) = entries::assignment(lines.last()) {
                assert(users_settings(before.insert(k, v)) =~= users_settings(before).insert(k, v));
            }
        } else if let Some((k, v)) = entries::assignment(lines.last()) {
            assert(users_settings(before.insert(k, v)) =~= users_settings(before));
        }
    }
}

/// A blank line sets nothing.
proof fn lemma_blank_sets_nothing(line: Seq<char>)
    requires
        text::trimmed(line).len() == 0,
    ensures
        entries::assignment(line) is None,
{
    // Up to its comment, the line is blank too.
    let n = text::run(line, '#', '#') as int;
    text::lemma_run_bound(line, '#', '#');
    lemma_all_blank(line);
    let front = line.take(n);
    assert(forall|i: int| 0 <= i < front.len() ==> text::space(#[trigger] front[i]));
    lemma_blank_trims(front);
    let t = text::trimmed(front);
    assert(t =~= Seq::<char>::empty());
}

proof fn lemma_all_blank(s: Seq<char>)
    requires
        text::trimmed(s).len() == 0,
    ensures
        forall|i: int| 0 <= i < s.len() ==> text::space(#[trigger] s[i]),
    decreases s.len(),
{
    if s.len() > 0 {
        if text::space(s[0]) {
            lemma_all_blank(s.drop_first());
            assert forall|i: int| 0 <= i < s.len() implies text::space(#[trigger] s[i]) by {
                if i > 0 {
                    assert(s[i] == s.drop_first()[i - 1]);
                }
            }
        } else {
            lemma_end_keeps_first(s);
        }
    }
}

proof fn lemma_end_keeps_first(s: Seq<char>)
    requires
        s.len() > 0,
        !text::space(s[0]),
    ensures
        text::trimmed_end(s).len() > 0,
    decreases s.len(),
{
    if text::space(s.last()) {
        lemma_end_keeps_first(s.drop_last());
    }
}

proof fn lemma_blank_trims(s: Seq<char>)
    requires
        forall|i: int| 0 <= i < s.len() ==> text::space(#[trigger] s[i]),
    ensures
        text::trimmed(s).len() == 0,
    decreases s.len(),
{
    if s.len() > 0 {
        assert(text::space(s[0]));
        assert forall|i: int| 0 <= i < s.drop_first().len() implies text::space(
            #[trigger] s.drop_first()[i],
        ) by {
            assert(text::space(s[i + 1]));
        }
        lemma_blank_trims(s.drop_first());
    }
}

proof fn lemma_without_blanks(lines: Seq<Seq<char>>)
    ensures
        entries::read_lines(save::without_blanks(lines)) == entries::read_lines(lines),
    decreases lines.len(),
{
    if lines.len() > 0 && text::trimmed(lines.last()).len() == 0 {
        lemma_blank_sets_nothing(lines.last());
        lemma_without_blanks(lines.drop_last());
    }
}

proof fn lemma_heading(existing: Seq<char>)
    ensures
        entries::read_lines(save::heading(existing)) == users_settings(
            entries::file_settings(existing),
        ),
        text::all_one_line(save::heading(existing)),
{
    let lines = text::lines(existing);
    let users = save::users_lines(lines);
    let v = save::without_blanks(users);
    lemma_users_lines(lines);
    lemma_without_blanks(users);
    text::lemma_lines_are_lines(existing);
    lemma_users_one_line(lines);
    lemma_blanks_one_line(users);
    if v.len() > 0 {
        let w = v.push(seq![]);
        assert(w.drop_last() =~= v);
        text::lemma_trimmed_same(Seq::<char>::empty());
        lemma_blank_sets_nothing(Seq::<char>::empty());
        assert forall|i: int| 0 <= i < w.len() implies text::one_line(#[trigger] w[i]) by {
            if i < v.len() {
                assert(w[i] == v[i]);
            }
        }
    }
}

proof fn lemma_users_one_line(lines: Seq<Seq<char>>)
    requires
        text::all_one_line(lines),
    ensures
        text::all_one_line(save::users_lines(lines)),
    decreases lines.len(),
{
    if lines.len() > 0 {
        let front = lines.drop_last();
        assert forall|i: int| 0 <= i < front.len() implies text::one_line(#[trigger] front[i]) by {
            assert(front[i] == lines[i]);
        }
        lemma_users_one_line(front);
        let v = save::users_lines(front);
        let w = v.push(lines.last());
        assert forall|i: int| 0 <= i < w.len() implies text::one_line(#[trigger] w[i]) by {
            if i < v.len() {
                assert(w[i] == v[i]);
            } else {
                assert(text::one_line(lines[lines.len() - 1]));
            }
        }
    }
}

proof fn lemma_blanks_one_line(lines: Seq<Seq<char>>)
    requires
        text::all_one_line(lines),
    ensures
        text::all_one_line(save::without_blanks(lines)),
    decreases lines.len(),
{
    if lines.len() > 0 && text::trimmed(lines.last()).len() == 0 {
        let front = lines.drop_last();
        assert forall|i: int| 0 <= i < front.len() implies text::one_line(#[trigger] front[i]) by {
            assert(front[i] == lines[i]);
        }
        lemma_blanks_one_line(front);
    }
}

/// Settings that can be written as lines.
pub open spec fn plain_settings(v: Seq<(Seq<char>, Seq<char>)>) -> bool {
    forall|i: int| 0 <= i < v.len() ==> plain_key((#[trigger] v[i]).0) && plain_value(v[i].1)
}

proof fn lemma_setting_lines(v: Seq<(Seq<char>, Seq<char>)>)
    requires
        plain_settings(v),
    ensures
        entries::read_lines(save::setting_lines(v)) == entries::table(v),
        text::all_one_line(save::setting_lines(v)),
    decreases v.len(),
{
    let w = save::setting_lines(v);
    assert forall|i: int| 0 <= i < w.len() implies text::one_line(#[trigger] w[i]) by {
        lemma_setting_line(v[i].0, v[i].1);
    }
    if v.len() > 0 {
        let front = v.drop_last();
        assert forall|i: int| 0 <= i < front.len() implies plain_key((#[trigger] front[i]).0)
            && plain_value(front[i].1) by {
            assert(front[i] == v[i]);
        }
        lemma_setting_lines(front);
        assert(w.drop_last() =~= save::setting_lines(front));
        assert(v[v.len() - 1] == v.last());
        lemma_setting_line(v.last().0, v.last().1);
    }
}

// ------------------------------------------------------------------ saved files

/// No text of the state spreads over lines.
pub open spec fn unbroken(s: State) -> bool {
    &&& forall|i: int| 0 <= i < s.presets@.len() ==> text::one_line((#[trigger] s.presets@[i])@)
    &&& text::one_line(s.source.rect@)
    &&& text::one_line(s.source.display@)
    &&& forall|i: int|
        0 <= i < save::changed(s.params@).len() ==> text::one_line(
            (#[trigger] save::changed(s.params@)[i]).name@,
        )
}

/// A state whose texts can stand in a configuration file: none spreads over
/// lines, holds a `#` or has blanks around it where it is written, and no name
/// of a parameter holds a `=`.
pub open spec fn writable(s: State) -> bool {
    &&& s.presets@.len() > 0 ==> plain_value(text::joined(text::texts(s.presets@), ", "@))
    &&& plain_value(s.source.rect@)
    &&& plain_value(s.source.display@)
    &&& forall|i: int|
        0 <= i < save::changed(s.params@).len() ==> plain_key(
            "param."@ + (#[trigger] save::changed(s.params@)[i]).name@,
        )
}

proof fn lemma_shown_plain(x: Single)
    ensures
        plain_value(notation::shown(x)),
        notation::shown(x).len() > 0,
        forall|i: int| 0 <= i < notation::shown(x).len() ==> notation::shown(x)[i] != ',',
{
    let s = notation::shown(x);
    if x.finite() {
        notation::lemma_shown_characters(x);
        assert(text::digit(s[0]) || s[0] == '.' || s[0] == '-');
    } else {
        reveal_strlit("NaN");
        reveal_strlit("inf");
        reveal_strlit("-");
    }
    text::lemma_trimmed_same(s);
}

proof fn lemma_decimal_plain(n: nat)
    ensures
        plain_value(text::decimal(n)),
        text::decimal(n).len() > 0,
        forall|i: int| 0 <= i < text::decimal(n).len() ==> text::decimal(n)[i] != ',',
{
    text::lemma_decimal(n);
    text::lemma_trimmed_same(text::decimal(n));
}

proof fn lemma_pair_plain(a: Seq<char>, b: Seq<char>)
    requires
        plain_value(a),
        plain_value(b),
        a.len() > 0,
        b.len() > 0,
        forall|i: int| 0 <= i < a.len() ==> a[i] != ',',
    ensures
        plain_value(a + ","@ + b),
        config::axes(a + ","@ + b) == (a, b),
{
    reveal_strlit(",");
    let s = a + ","@ + b;
    lemma_plain_ends(a);
    lemma_plain_ends(b);
    assert(s[0] == a[0] && s.last() == b.last());
    text::lemma_trimmed_same(s);
    assert forall|i: int| 0 <= i < s.len() implies s[i] != '#' && s[i] != '\n' by {
        if i < a.len() {
            assert(s[i] == a[i]);
        } else if i > a.len() {
            assert(s[i] == b[i - a.len() - 1]);
        }
    }
    text::lemma_run(s, ',', ',', a.len());
    assert(s.take(a.len() as int) =~= a);
    assert(s.skip(a.len() as int + 1) =~= b);
}

proof fn lemma_alone(a: Seq<char>)
    requires
        forall|i: int| 0 <= i < a.len() ==> a[i] != ',',
    ensures
        config::axes(a) == (a, a),
{
    text::lemma_run(a, ',', ',', a.len());
}

proof fn lemma_factors_plain(f: Factors)
    ensures
        plain_value(save::factors_text(f)),
        config::axes(save::factors_text(f)) == (
            notation::shown(f.x),
            notation::shown(
                if save::close(f) {
                    f.x
                } else {
                    f.y
                },
            ),
        ),
{
    lemma_shown_plain(f.x);
    lemma_shown_plain(f.y);
    lemma_pair_plain(notation::shown(f.x), notation::shown(f.y));
    lemma_alone(notation::shown(f.x));
}

proof fn lemma_counts_plain(c: Counts)
    ensures
        plain_value(save::counts_text(c)),
        config::duplicate_setting(Some(save::counts_text(c)), c) == c,
{
    lemma_decimal_plain(c.x as nat);
    lemma_decimal_plain(c.y as nat);
    lemma_pair_plain(text::decimal(c.x as nat), text::decimal(c.y as nat));
    lemma_alone(text::decimal(c.x as nat));
    text::lemma_unsigned_round_trip(c.x);
    text::lemma_unsigned_round_trip(c.y);
}

proof fn lemma_size_plain(s: ipc::SourceSize)
    ensures
        plain_value(ipc::size_text(s)),
{
    let t = ipc::size_text(s);
    reveal_strlit("native");
    reveal_strlit("/");
    reveal_strlit("x");
    match s {
        ipc::SourceSize::Native => {},
        ipc::SourceSize::Divide { by } => {
            lemma_shown_plain(by);
            let d = notation::shown(by);
            lemma_plain_ends(d);
            assert(t.last() == d.last());
            assert(forall|i: int| 0 < i < t.len() ==> t[i] == d[i - 1]);
        },
        ipc::SourceSize::Fixed { size } => {
            let w = text::decimal(size.width as nat);
            let h = text::decimal(size.height as nat);
            lemma_decimal_plain(size.width as nat);
            lemma_decimal_plain(size.height as nat);
            lemma_plain_ends(w);
            lemma_plain_ends(h);
            assert(t[0] == w[0] && t.last() == h.last());
            assert(forall|i: int| 0 <= i < w.len() ==> t[i] == w[i]);
            assert(forall|i: int| w.len() < i < t.len() ==> t[i] == h[i - w.len() - 1]);
        },
    }
    text::lemma_trimmed_same(t);
}

/// The keys that are written, apart from one another.
proof fn lemma_keys()
    ensures
        plain_key("preset"@),
        plain_key("source_res"@),
        plain_key("pixel_duplicate"@),
        plain_key("source_filter"@),
        plain_key("source_rect"@),
        plain_key("display_rect"@),
        plain_key("display_scale"@),
        plain_key("source_scale"@),
        plain_key("brightness_nits"@),
        plain_key("expand_gamut"@),
        plain_key("subframes"@),
        plain_key("subframe_mode"@),
        "preset"@.len() == 6 && "preset"@[1] == 'r',
        "source_res"@.len() == 10 && "source_res"@[0] == 's',
        "pixel_duplicate"@.len() == 15 && "pixel_duplicate"@[0] == 'p' && "pixel_duplicate"@[1]
            == 'i',
        "source_filter"@.len() == 13 && "source_filter"@[0] == 's' && "source_filter"@[1] == 'o',
        "source_rect"@.len() == 11 && "source_rect"@[0] == 's',
        "display_rect"@.len() == 12 && "display_rect"@[0] == 'd',
        "display_scale"@.len() == 13 && "display_scale"@[0] == 'd',
        "source_scale"@.len() == 12 && "source_scale"@[0] == 's',
        "brightness_nits"@.len() == 15 && "brightness_nits"@[0] == 'b',
        "expand_gamut"@.len() == 12 && "expand_gamut"@[0] == 'e',
        "subframes"@.len() == 9 && "subframes"@[0] == 's',
        "subframe_mode"@.len() == 13 && "subframe_mode"@[0] == 's' && "subframe_mode"@[1] == 'u',
        "param."@.len() == 6 && "param."@[0] == 'p' && "param."@[1] == 'a',
{
    reveal_strlit("preset");
    reveal_strlit("source_res");
    reveal_strlit("pixel_duplicate");
    reveal_strlit("source_filter");
    reveal_strlit("source_rect");
    reveal_strlit("display_rect");
    reveal_strlit("display_scale");
    reveal_strlit("source_scale");
    reveal_strlit("brightness_nits");
    reveal_strlit("expand_gamut");
    reveal_strlit("subframes");
    reveal_strlit("subframe_mode");
    reveal_strlit("param.");
    text::lemma_trimmed_same("preset"@);
    text::lemma_trimmed_same("source_res"@);
    text::lemma_trimmed_same("pixel_duplicate"@);
    text::lemma_trimmed_same("source_filter"@);
    text::lemma_trimmed_same("source_rect"@);
    text::lemma_trimmed_same("display_rect"@);
    text::lemma_trimmed_same("display_scale"@);
    text::lemma_trimmed_same("source_scale"@);
    text::lemma_trimmed_same("brightness_nits"@);
    text::lemma_trimmed_same("expand_gamut"@);
    text::lemma_trimmed_same("subframes"@);
    text::lemma_trimmed_same("subframe_mode"@);
}

proof fn lemma_presets_plain(s: State)
    requires
        writable(s),
    ensures
        plain_settings(save::preset_settings(s)),
{
    lemma_keys();
}

proof fn lemma_modes_plain(s: State)
    ensures
        plain_value(save::filter_text(s.source.filter)),
        plain_value(save::mode_text(s.subframe_black)),
{
    reveal_strlit("linear");
    reveal_strlit("nearest");
    text::lemma_trimmed_same(save::filter_text(s.source.filter));
    reveal_strlit("black");
    reveal_strlit("shader");
    text::lemma_trimmed_same(save::mode_text(s.subframe_black));
}

proof fn lemma_fixed_plain(s: State)
    requires
        writable(s),
    ensures
        plain_settings(save::fixed_settings(s)),
{
    let b = save::fixed_settings(s);
    lemma_size_plain(s.source.res);
    lemma_counts_plain(s.source.duplicate);
    lemma_factors_plain(s.source.display_scale);
    lemma_factors_plain(s.source.source_scale);
    lemma_shown_plain(s.hdr.brightness_nits);
    lemma_decimal_plain(s.hdr.expand_gamut as nat);
    lemma_decimal_plain(if s.subframes < 1 { 1 } else { s.subframes as nat });
    lemma_modes_plain(s);
    assert forall|i: int| 0 <= i < b.len() implies plain_key((#[trigger] b[i]).0) && plain_value(
        b[i].1,
    ) by {
        lemma_keys();
        assert(i == 0 || i == 1 || i == 2 || i == 3 || i == 4 || i == 5 || i == 6 || i == 7 || i
            == 8 || i == 9 || i == 10);
    }
}

proof fn lemma_parameters_plain(s: State)
    requires
        writable(s),
    ensures
        plain_settings(save::parameter_settings(s.params@)),
{
    let c = save::parameter_settings(s.params@);
    assert forall|i: int| 0 <= i < c.len() implies plain_key((#[trigger] c[i]).0) && plain_value(
        c[i].1,
    ) by {
        let p = save::changed(s.params@)[i];
        assert(plain_key("param."@ + p.name@));
        lemma_shown_plain(p.value);
    }
}

proof fn lemma_saved_plain(s: State)
    requires
        writable(s),
    ensures
        plain_settings(save::saved_settings(s)),
{
    let all = save::saved_settings(s);
    let a = save::preset_settings(s);
    let b = save::fixed_settings(s);
    let c = save::parameter_settings(s.params@);
    lemma_presets_plain(s);
    lemma_fixed_plain(s);
    lemma_parameters_plain(s);
    assert forall|i: int| 0 <= i < all.len() implies plain_key((#[trigger] all[i]).0)
        && plain_value(all[i].1) by {
        if i < a.len() {
            assert(all[i] == a[i]);
        } else if i < a.len() + b.len() {
            assert(all[i] == b[i - a.len()]);
        } else {
            assert(all[i] == c[i - a.len() - b.len()]);
        }
    }
}

/// Settings without a line feed.
pub open spec fn unbroken_settings(v: Seq<(Seq<char>, Seq<char>)>) -> bool {
    forall|i: int|
        0 <= i < v.len() ==> text::one_line((#[trigger] v[i]).0) && text::one_line(v[i].1)
}

proof fn lemma_joined_one_line(v: Seq<Seq<char>>)
    requires
        forall|i: int| 0 <= i < v.len() ==> text::one_line(#[trigger] v[i]),
    ensures
        text::one_line(text::joined(v, ", "@)),
    decreases v.len(),
{
    reveal_strlit(", ");
    if v.len() > 0 {
        let front = v.drop_last();
        assert forall|i: int| 0 <= i < front.len() implies text::one_line(#[trigger] front[i]) by {
            assert(front[i] == v[i]);
        }
        lemma_joined_one_line(front);
        assert(text::one_line(v[v.len() - 1]));
    }
}

proof fn lemma_fixed_unbroken(s: State)
    requires
        unbroken(s),
    ensures
        unbroken_settings(save::fixed_settings(s)),
{
    let b = save::fixed_settings(s);
    lemma_size_plain(s.source.res);
    lemma_counts_plain(s.source.duplicate);
    lemma_factors_plain(s.source.display_scale);
    lemma_factors_plain(s.source.source_scale);
    lemma_shown_plain(s.hdr.brightness_nits);
    lemma_decimal_plain(s.hdr.expand_gamut as nat);
    lemma_decimal_plain(if s.subframes < 1 { 1 } else { s.subframes as nat });
    lemma_modes_plain(s);
    assert forall|i: int| 0 <= i < b.len() implies text::one_line((#[trigger] b[i]).0)
        && text::one_line(b[i].1) by {
        lemma_keys();
        assert(i == 0 || i == 1 || i == 2 || i == 3 || i == 4 || i == 5 || i == 6 || i == 7 || i
            == 8 || i == 9 || i == 10);
    }
}

proof fn lemma_saved_unbroken(s: State)
    requires
        unbroken(s),
    ensures
        unbroken_settings(save::saved_settings(s)),
{
    let all = save::saved_settings(s);
    let a = save::preset_settings(s);
    let b = save::fixed_settings(s);
    let c = save::parameter_settings(s.params@);
    lemma_keys();
    lemma_fixed_unbroken(s);
    let v = text::texts(s.presets@);
    assert forall|i: int| 0 <= i < v.len() implies text::one_line(#[trigger] v[i]) by {
        assert(v[i] == s.presets@[i]@);
    }
    lemma_joined_one_line(v);
    assert forall|i: int| 0 <= i < all.len() implies text::one_line((#[trigger] all[i]).0)
        && text::one_line(all[i].1) by {
        if i < a.len() {
            assert(all[i] == a[i]);
        } else if i < a.len() + b.len() {
            assert(all[i] == b[i - a.len()]);
        } else {
            let p = save::changed(s.params@)[i - a.len() - b.len()];
            assert(all[i] == c[i - a.len() - b.len()]);
            assert(text::one_line(p.name@));
            reveal_strlit("param.");
            lemma_shown_plain(p.value);
        }
    }
}

proof fn lemma_lines_unbroken(v: Seq<(Seq<char>, Seq<char>)>)
    requires
        unbroken_settings(v),
    ensures
        text::all_one_line(save::setting_lines(v)),
{
    reveal_strlit(" = ");
    let w = save::setting_lines(v);
    assert forall|i: int| 0 <= i < w.len() implies text::one_line(#[trigger] w[i]) by {
        assert(text::one_line(v[i].0) && text::one_line(v[i].1));
        assert(w[i] == v[i].0 + " = "@ + v[i].1);
    }
}

/// The lines of a saved file, up to carriage returns.
proof fn lemma_saved_lines(existing: Seq<char>, s: State)
    requires
        text::all_one_line(save::setting_lines(save::saved_settings(s))),
    ensures
        text::lines(text::ended(save::config_lines(existing, s))) == text::without_returns(
            save::config_lines(existing, s),
        ),
        entries::file_settings(text::ended(save::config_lines(existing, s))) == users_settings(
            entries::file_settings(existing),
        ).union_prefer_right(
            entries::read_lines(save::setting_lines(save::saved_settings(s))),
        ),
{
    let head = save::heading(existing);
    let mark = "# --- written by vkslang-ui ---"@;
    let below = save::setting_lines(save::saved_settings(s));
    let all = save::config_lines(existing, s);
    lemma_heading(existing);
    reveal_strlit("# --- written by vkslang-ui ---");
    assert(text::one_line(mark));
    assert forall|i: int| 0 <= i < all.len() implies text::one_line(#[trigger] all[i]) by {
        if i < head.len() {
            assert(all[i] == head[i]);
        } else if i == head.len() {
            assert(all[i] == mark);
        } else {
            assert(all[i] == below[i - head.len() - 1]);
        }
    }
    text::lemma_lines_of_ended(all);
    lemma_read_returns(all);
    lemma_read_adds(head.push(mark), below);
    assert(head.push(mark).drop_last() =~= head);
    assert(entries::assignment(mark) is None) by {
        text::lemma_run(mark, '#', '#', 0);
        assert(mark.take(0) =~= Seq::<char>::empty());
        text::lemma_trimmed_same(Seq::<char>::empty());
    }
}

proof fn lemma_joined_writable(v: Seq<Seq<char>>)
    requires
        v.len() > 0,
        forall|i: int| 0 <= i < v.len() ==> plain_value(#[trigger] v[i]),
        v.len() > 1 ==> v.last().len() > 0,
    ensures
        plain_value(text::joined(v, ", "@)),
{
    reveal_strlit(", ");
    let s = text::joined(v, ", "@);
    assert(plain_value(v[v.len() - 1]));
    if v.len() > 1 {
        lemma_plain_ends(v.last());
        lemma_joined_start(v);
        assert(s.last() == v.last().last());
        text::lemma_trimmed_same(s);
    }
}

/// A list of such texts starts with no blank and holds no `#` or line feed.
proof fn lemma_joined_start(v: Seq<Seq<char>>)
    requires
        v.len() > 0,
        forall|i: int| 0 <= i < v.len() ==> plain_value(#[trigger] v[i]),
    ensures
        forall|i: int|
            0 <= i < text::joined(v, ", "@).len() ==> text::joined(v, ", "@)[i] != '#'
                && text::joined(v, ", "@)[i] != '\n',
        text::joined(v, ", "@).len() > 0 ==> !text::space(text::joined(v, ", "@)[0]),
    decreases v.len(),
{
    reveal_strlit(", ");
    let s = text::joined(v, ", "@);
    assert(plain_value(v[v.len() - 1]));
    lemma_plain_ends(v.last());
    if v.len() > 1 {
        let front = v.drop_last();
        assert forall|i: int| 0 <= i < front.len() implies plain_value(#[trigger] front[i]) by {
            assert(front[i] == v[i]);
        }
        lemma_joined_start(front);
        let a = text::joined(front, ", "@);
        assert(s[0] == if a.len() > 0 { a[0] } else { ',' });
        assert forall|i: int| 0 <= i < s.len() implies s[i] != '#' && s[i] != '\n' by {
            if i < a.len() {
                assert(s[i] == a[i]);
            } else if i > a.len() + 1 {
                assert(s[i] == v.last()[i - a.len() - 2]);
            }
        }
    }
}

/// A name of a parameter that can stand in a key.
pub open spec fn plain_name(n: Seq<char>) -> bool {
    plain_value(n) && forall|i: int| 0 <= i < n.len() ==> n[i] != '='
}

/// A state can be written if no text of it holds a `#`, a line feed or blanks
/// around it, and no name of a parameter holds a `=`. Only a list of presets
/// must not end in one without a name, whose blank goes.
pub proof fn lemma_writable(s: State)
    requires
        forall|i: int| 0 <= i < s.presets@.len() ==> plain_value((#[trigger] s.presets@[i])@),
        s.presets@.len() > 1 ==> s.presets@[s.presets@.len() - 1]@.len() > 0,
        plain_value(s.source.rect@),
        plain_value(s.source.display@),
        forall|i: int|
            0 <= i < save::changed(s.params@).len() ==> plain_name(
                (#[trigger] save::changed(s.params@)[i]).name@,
            ),
    ensures
        writable(s),
        unbroken(s),
{
    if s.presets@.len() > 0 {
        let v = text::texts(s.presets@);
        assert forall|i: int| 0 <= i < v.len() implies plain_value(#[trigger] v[i]) by {
            assert(v[i] == s.presets@[i]@);
        }
        lemma_joined_writable(v);
    }
    assert forall|i: int| 0 <= i < save::changed(s.params@).len() implies plain_key(
        "param."@ + (#[trigger] save::changed(s.params@)[i]).name@,
    ) by {
        lemma_param_key(save::changed(s.params@)[i].name@);
    }
    lemma_writable_unbroken(s);
}

proof fn lemma_param_key(n: Seq<char>)
    requires
        plain_name(n),
    ensures
        plain_key("param."@ + n),
{
    reveal_strlit("param.");
    let k = "param."@ + n;
    lemma_plain_ends(n);
    assert(k[0] == 'p');
    assert(k.last() == if n.len() > 0 { n.last() } else { '.' });
    text::lemma_trimmed_same(k);
    assert forall|i: int| 0 <= i < k.len() implies k[i] != '=' && k[i] != '#' && k[i] != '\n' by {
        if i >= 6 {
            assert(k[i] == n[i - 6]);
        }
    }
}

/// A saved file holds the settings that were saved, and under every other key
/// what it held before.
pub proof fn lemma_saved_file(existing: Seq<char>, s: State)
    requires
        writable(s),
    ensures
        entries::file_settings(text::ended(save::config_lines(existing, s))) == users_settings(
            entries::file_settings(existing),
        ).union_prefer_right(entries::table(save::saved_settings(s))),
{
    lemma_saved_plain(s);
    lemma_setting_lines(save::saved_settings(s));
    lemma_saved_lines(existing, s);
}

/// The lines and comments of the user stand at the top of a saved file, in
/// their order, up to blank lines at their end.
pub proof fn lemma_users_lines_kept(existing: Seq<char>, s: State)
    requires
        unbroken(s),
    ensures
        ({
            let kept = save::without_blanks(save::users_lines(text::lines(existing)));
            let now = text::lines(text::ended(save::config_lines(existing, s)));
            &&& now.len() >= kept.len()
            &&& now.take(kept.len() as int) == text::without_returns(kept)
        }),
{
    let all = save::config_lines(existing, s);
    lemma_saved_unbroken(s);
    lemma_lines_unbroken(save::saved_settings(s));
    lemma_saved_lines(existing, s);
    let kept = save::without_blanks(save::users_lines(text::lines(existing)));
    assert(text::without_returns(all).take(kept.len() as int) =~= text::without_returns(kept));
}

/// What stands between two characters that are no blanks stays.
proof fn lemma_trimmed_keeps(s: Seq<char>, n: int)
    requires
        0 < n <= s.len(),
        !text::space(s[0]),
        !text::space(s[n - 1]),
    ensures
        n <= text::trimmed(s).len() <= s.len(),
        text::trimmed(s) == s.take(text::trimmed(s).len() as int),
    decreases s.len(),
{
    if text::space(s.last()) {
        let t = s.drop_last();
        assert(t[0] == s[0] && t[n - 1] == s[n - 1]);
        lemma_trimmed_keeps(t, n);
        assert(text::trimmed_start(s) == s && text::trimmed_start(t) == t);
        assert(t.take(text::trimmed(t).len() as int) =~= s.take(text::trimmed(t).len() as int));
    } else {
        assert(s.take(s.len() as int) =~= s);
    }
}

/// A line that was written for a fixed key sets that key, whatever was written
/// behind it.
proof fn lemma_line_keeps_key(k: Seq<char>, v: Seq<char>)
    requires
        plain_key(k),
    ensures
        match entries::assignment(save::setting_line(k, v)) {
            Some((got, _)) => got == k,
            None => true,
        },
{
    reveal_strlit(" = ");
    let line = save::setting_line(k, v);
    let n = k.len() as int;
    assert(forall|i: int| 0 <= i < n ==> line[i] == k[i]);
    assert(line[n] == ' ' && line[n + 1] == '=' && line[n + 2] == ' ');
    lemma_plain_ends(k);
    let h = text::run(line, '#', '#') as int;
    text::lemma_run_bound(line, '#', '#');
    assert(h >= n + 3) by {
        if h < n {
            assert(line[h] == k[h]);
        }
    }
    let front = line.take(h);
    assert(front[0] == k[0] && front[n + 1] == '=');
    lemma_trimmed_keeps(front, n + 2);
    let u = text::trimmed(front);
    assert(forall|i: int| 0 <= i < n + 2 ==> u[i] == line[i]);
    text::lemma_run(u, '=', '=', (n + 1) as nat);
    let got = u.take(n + 1);
    assert(got =~= k + seq![' ']);
    lemma_trimmed_end_drops(got);
    assert(got.drop_last() =~= k);
}

/// A line that was written for a parameter sets a parameter or nothing,
/// whatever its name is.
proof fn lemma_line_keeps_prefix(n: Seq<char>, v: Seq<char>)
    ensures
        match entries::assignment(save::setting_line("param."@ + n, v)) {
            Some((got, _)) => text::begins(got, "param."@),
            None => true,
        },
{
    reveal_strlit("param.");
    reveal_strlit(" = ");
    let line = save::setting_line("param."@ + n, v);
    assert(forall|i: int| 0 <= i < 6 ==> line[i] == "param."@[i]);
    let h = text::run(line, '#', '#') as int;
    text::lemma_run_bound(line, '#', '#');
    assert(h >= 6);
    let front = line.take(h);
    assert(front[0] == 'p' && front[5] == '.');
    lemma_trimmed_keeps(front, 6);
    let u = text::trimmed(front);
    assert(forall|i: int| 0 <= i < 6 ==> u[i] == line[i]);
    let m = text::run(u, '=', '=') as int;
    text::lemma_run_bound(u, '=', '=');
    if m < u.len() {
        assert(m >= 6);
        let got = u.take(m);
        assert(got[0] == 'p' && got[5] == '.');
        lemma_trimmed_keeps(got, 6);
        assert(text::trimmed(got).take(6) =~= "param."@);
    }
}

/// Every line that is written for a state sets a managed key, or nothing.
proof fn lemma_saved_lines_managed(s: State, i: int)
    requires
        0 <= i < save::saved_settings(s).len(),
    ensures
        match entries::assignment(save::setting_lines(save::saved_settings(s))[i]) {
            Some((got, _)) => save::managed(got),
            None => true,
        },
{
    let a = save::preset_settings(s);
    let b = save::fixed_settings(s);
    let c = save::parameter_settings(s.params@);
    let all = save::saved_settings(s);
    if i < a.len() + 11 {
        lemma_keys();
        lemma_saved_managed(s, i);
        if i < a.len() {
            assert(all[i] == a[i]);
        } else {
            let j = i - a.len();
            assert(all[i] == b[j]);
            assert(j == 0 || j == 1 || j == 2 || j == 3 || j == 4 || j == 5 || j == 6 || j == 7
                || j == 8 || j == 9 || j == 10);
        }
        lemma_line_keeps_key(all[i].0, all[i].1);
    } else {
        let j = i - a.len() - 11;
        assert(all[i] == c[j]);
        lemma_line_keeps_prefix(save::changed(s.params@)[j].name@, all[i].1);
    }
}

proof fn lemma_read_managed(lines: Seq<Seq<char>>)
    requires
        forall|i: int| 0 <= i < lines.len() ==> !save::users_line(#[trigger] lines[i])
            || entries::assignment(lines[i]) is None,
    ensures
        forall|k: Seq<char>| #[trigger]
            entries::read_lines(lines).contains_key(k) ==> save::managed(k),
    decreases lines.len(),
{
    if lines.len() > 0 {
        let front = lines.drop_last();
        assert forall|i: int| 0 <= i < front.len() implies !save::users_line(#[trigger] front[i])
            || entries::assignment(front[i]) is None by {
            assert(front[i] == lines[i]);
        }
        lemma_read_managed(front);
        assert(lines[lines.len() - 1] == lines.last());
        let all = entries::read_lines(lines);
        assert forall|k: Seq<char>| #[trigger] all.contains_key(k) implies save::managed(k) by {
            if !entries::read_lines(front).contains_key(k) {
                assert(entries::assignment(lines.last()) is Some);
            }
        }
    }
}

/// What is written for a state holds managed keys only.
proof fn lemma_saved_only_managed(s: State)
    ensures
        forall|k: Seq<char>| #[trigger]
            entries::read_lines(save::setting_lines(save::saved_settings(s))).contains_key(k)
                ==> save::managed(k),
{
    let lines = save::setting_lines(save::saved_settings(s));
    assert forall|i: int| 0 <= i < lines.len() implies !save::users_line(#[trigger] lines[i])
        || entries::assignment(lines[i]) is None by {
        lemma_saved_lines_managed(s, i);
    }
    lemma_read_managed(lines);
}

/// Saving anew leaves nothing of what was saved before: a file that was saved
/// for one state and then for another holds the settings of one that was saved
/// for the other alone.
pub proof fn lemma_saved_anew(existing: Seq<char>, first: State, second: State)
    requires
        unbroken(first),
        unbroken(second),
    ensures
        saved_file(text::ended(save::config_lines(existing, first)), second) == saved_file(
            existing,
            second,
        ),
{
    let once = text::ended(save::config_lines(existing, first));
    let kv = entries::file_settings(existing);
    let a = entries::read_lines(save::setting_lines(save::saved_settings(first)));
    lemma_saved_unbroken(first);
    lemma_saved_unbroken(second);
    lemma_lines_unbroken(save::saved_settings(first));
    lemma_lines_unbroken(save::saved_settings(second));
    lemma_saved_lines(existing, first);
    lemma_saved_lines(existing, second);
    lemma_saved_lines(once, second);
    lemma_saved_only_managed(first);
    assert(users_settings(users_settings(kv).union_prefer_right(a)) =~= users_settings(kv));
}

// ---------------------------------------------------------------- loading again

proof fn lemma_table_at(items: Seq<(Seq<char>, Seq<char>)>, i: int)
    requires
        0 <= i < items.len(),
        forall|j: int| i < j < items.len() ==> (#[trigger] items[j]).0 != items[i].0,
    ensures
        entries::table(items).contains_key(items[i].0),
        entries::table(items)[items[i].0] == items[i].1,
    decreases items.len(),
{
    if i < items.len() - 1 {
        let front = items.drop_last();
        assert forall|j: int| i < j < front.len() implies (#[trigger] front[j]).0 != front[i].0 by {
            assert(front[j] == items[j]);
        }
        lemma_table_at(front, i);
        assert(items[items.len() - 1].0 != items[i].0);
    }
}

proof fn lemma_table_keys(items: Seq<(Seq<char>, Seq<char>)>, k: Seq<char>)
    requires
        entries::table(items).contains_key(k),
    ensures
        exists|i: int| 0 <= i < items.len() && (#[trigger] items[i]).0 == k,
    decreases items.len(),
{
    if items.len() > 0 {
        if items.last().0 == k {
            assert(items[items.len() - 1].0 == k);
        } else {
            lemma_table_keys(items.drop_last(), k);
            let i = choose|i: int|
                0 <= i < items.drop_last().len() && (#[trigger] items.drop_last()[i]).0 == k;
            assert(items[i].0 == k);
        }
    }
}

proof fn lemma_fixed_keys_differ(s: State, j: int, k: int)
    requires
        0 <= j < k < 11,
    ensures
        save::fixed_settings(s)[j].0 != save::fixed_settings(s)[k].0,
{
    lemma_keys();
    assert(j == 0 || j == 1 || j == 2 || j == 3 || j == 4 || j == 5 || j == 6 || j == 7 || j == 8
        || j == 9);
    assert(k == 1 || k == 2 || k == 3 || k == 4 || k == 5 || k == 6 || k == 7 || k == 8 || k == 9
        || k == 10);
}

proof fn lemma_fixed_is_no_param(s: State, j: int, n: Seq<char>)
    requires
        0 <= j < 11,
    ensures
        save::fixed_settings(s)[j].0 != "param."@ + n,
        "preset"@ != "param."@ + n,
        save::fixed_settings(s)[j].0 != "preset"@,
{
    lemma_keys();
    let p = "param."@ + n;
    assert(p[0] == 'p' && p[1] == 'a');
    assert(j == 0 || j == 1 || j == 2 || j == 3 || j == 4 || j == 5 || j == 6 || j == 7 || j == 8
        || j == 9 || j == 10);
}

/// Every setting that goes with any state is found in what was saved.
proof fn lemma_fixed_saved(s: State, j: int)
    requires
        0 <= j < 11,
    ensures
        entries::table(save::saved_settings(s)).contains_key(save::fixed_settings(s)[j].0),
        entries::table(save::saved_settings(s))[save::fixed_settings(s)[j].0]
            == save::fixed_settings(s)[j].1,
{
    let a = save::preset_settings(s);
    let b = save::fixed_settings(s);
    let c = save::parameter_settings(s.params@);
    let all = save::saved_settings(s);
    let at = a.len() + j;
    assert(all[at] == b[j]);
    assert forall|k: int| at < k < all.len() implies (#[trigger] all[k]).0 != all[at].0 by {
        if k < a.len() + 11 {
            assert(all[k] == b[k - a.len()]);
            lemma_fixed_keys_differ(s, j, k - a.len());
        } else {
            let i = k - a.len() - 11;
            assert(all[k] == c[i]);
            lemma_fixed_is_no_param(s, j, save::changed(s.params@)[i].name@);
        }
    }
    lemma_table_at(all, at);
}

/// The presets are found in what was saved if there are any.
proof fn lemma_presets_saved(s: State)
    ensures
        s.presets@.len() > 0 ==> config::setting(
            entries::table(save::saved_settings(s)),
            "preset"@,
        ) == Some(text::joined(text::texts(s.presets@), ", "@)),
        s.presets@.len() == 0 ==> config::setting(
            entries::table(save::saved_settings(s)),
            "preset"@,
        ) is None,
{
    let a = save::preset_settings(s);
    let b = save::fixed_settings(s);
    let c = save::parameter_settings(s.params@);
    let all = save::saved_settings(s);
    assert forall|k: int| a.len() <= k < all.len() implies (#[trigger] all[k]).0 != "preset"@ by {
        if k < a.len() + 11 {
            assert(all[k] == b[k - a.len()]);
            lemma_fixed_is_no_param(s, k - a.len(), seq![]);
        } else {
            let i = k - a.len() - 11;
            assert(all[k] == c[i]);
            lemma_fixed_is_no_param(s, 0, save::changed(s.params@)[i].name@);
        }
    }
    if s.presets@.len() > 0 {
        assert(all[0] == a[0]);
        lemma_table_at(all, 0);
    } else if entries::table(all).contains_key("preset"@) {
        lemma_table_keys(all, "preset"@);
    }
}

/// The setting of the parameter `n`.
pub open spec fn param_setting(kv: Map<Seq<char>, Seq<char>>, n: Seq<char>) -> Option<Seq<char>> {
    config::setting(kv, "param."@ + n)
}

proof fn lemma_param_keys_differ(a: Seq<char>, b: Seq<char>)
    requires
        a != b,
    ensures
        "param."@ + a != "param."@ + b,
{
    reveal_strlit("param.");
    assert(("param."@ + a).skip(6) =~= a);
    assert(("param."@ + b).skip(6) =~= b);
}

proof fn lemma_table_adds(a: Seq<(Seq<char>, Seq<char>)>, b: Seq<(Seq<char>, Seq<char>)>)
    ensures
        entries::table(a + b) == entries::table(a).union_prefer_right(entries::table(b)),
    decreases b.len(),
{
    if b.len() == 0 {
        assert(a + b =~= a);
        assert(entries::table(a).union_prefer_right(entries::table(b)) =~= entries::table(a));
    } else {
        let front = b.drop_last();
        lemma_table_adds(a, front);
        assert((a + b).drop_last() =~= a + front);
        assert((a + b).last() == b.last());
        assert(entries::table(a).union_prefer_right(entries::table(front)).insert(
            b.last().0,
            b.last().1,
        ) =~= entries::table(a).union_prefer_right(
            entries::table(front).insert(b.last().0, b.last().1),
        ));
    }
}

/// Parameters as settings.
spec fn param_pairs(d: Seq<Param>) -> Seq<(Seq<char>, Seq<char>)> {
    Seq::new(d.len(), |i: int| ("param."@ + d[i].name@, notation::shown(d[i].value)))
}

/// Settings made of parameters give each name its last value.
proof fn lemma_param_pairs(d: Seq<Param>, n: Seq<char>)
    ensures
        param_setting(entries::table(param_pairs(d)), n) == if profile::collected(d).contains_key(
            n,
        ) {
            Some(notation::shown(profile::collected(d)[n]))
        } else {
            None
        },
    decreases d.len(),
{
    if d.len() > 0 {
        let front = d.drop_last();
        let v = param_pairs(d);
        lemma_param_pairs(front, n);
        assert(v.drop_last() =~= param_pairs(front));
        assert(v.last() == ("param."@ + d.last().name@, notation::shown(d.last().value)));
        if d.last().name@ != n {
            lemma_param_keys_differ(d.last().name@, n);
        }
    }
}

/// The value of a changed parameter is a number.
#[verifier::spinoff_prover]
proof fn lemma_touched_is_number(p: Param)
    requires
        save::touched(p),
    ensures
        !p.value.nan(),
{
    if p.value.nan() {
        let d = single::difference(p.value, p.initial);
        assert(d == single::not_a_number());
        assert(single::absolute(d).nan());
    }
}

/// The values of changed parameters are numbers.
#[verifier::spinoff_prover]
proof fn lemma_changed_are_numbers(params: Seq<Param>, n: Seq<char>)
    requires
        profile::collected(save::changed(params)).contains_key(n),
    ensures
        !profile::collected(save::changed(params))[n].nan(),
    decreases params.len(),
{
    if params.len() > 0 {
        let front = params.drop_last();
        let c = save::changed(front);
        assert(c.push(params.last()).drop_last() =~= c);
        if save::touched(params.last()) && params.last().name@ == n {
            lemma_touched_is_number(params.last());
        } else {
            lemma_changed_are_numbers(front, n);
        }
    }
}

/// The settings of parameters in what was saved are those of the changed ones.
proof fn lemma_only_params_saved(s: State, n: Seq<char>)
    ensures
        param_setting(entries::table(save::saved_settings(s)), n) == param_setting(
            entries::table(param_pairs(save::changed(s.params@))),
            n,
        ),
{
    let a = save::preset_settings(s);
    let b = save::fixed_settings(s);
    let c = save::parameter_settings(s.params@);
    assert(c =~= param_pairs(save::changed(s.params@)));
    lemma_table_adds(a + b, c);
    let key = "param."@ + n;
    if entries::table(a + b).contains_key(key) {
        lemma_table_keys(a + b, key);
        let i = choose|i: int| 0 <= i < (a + b).len() && (#[trigger] (a + b)[i]).0 == key;
        if i < a.len() {
            assert((a + b)[i] == a[i]);
            lemma_fixed_is_no_param(s, 0, n);
        } else {
            assert((a + b)[i] == b[i - a.len()]);
            lemma_fixed_is_no_param(s, i - a.len(), n);
        }
    }
}

/// Exactly the changed parameters are found in what was saved.
proof fn lemma_params_saved(s: State, kv: Map<Seq<char>, Seq<char>>)
    requires
        forall|n: Seq<char>| #[trigger]
            param_setting(kv, n) == param_setting(entries::table(save::saved_settings(s)), n),
    ensures
        config::param_settings(kv) == profile::collected(save::changed(s.params@)),
{
    let d = save::changed(s.params@);
    let m = profile::collected(d);
    let got = config::param_settings(kv);
    assert forall|n: Seq<char>| #[trigger] got.dom().contains(n) implies m.dom().contains(n) by {
        assert(param_setting(kv, n) is Some);
        lemma_only_params_saved(s, n);
        lemma_param_pairs(d, n);
    }
    assert forall|n: Seq<char>| #[trigger] m.dom().contains(n) implies got.dom().contains(n)
        && got[n] == m[n] by {
        lemma_only_params_saved(s, n);
        lemma_param_pairs(d, n);
        lemma_changed_are_numbers(s.params@, n);
        notation::lemma_written_shown(m[n]);
        assert(param_setting(kv, n) == Some(notation::shown(m[n])));
    }
    assert(got.dom() =~= m.dom());
    assert(got =~= m);
}

/// A state whose settings are in the ranges that the layer keeps them in.
pub open spec fn in_range(s: State) -> bool {
    &&& source::complaint(s.source) is None
    &&& s.source.source_scale.x.finite()
    &&& s.source.source_scale.y.finite()
    &&& config::sanitized_hdr(s.hdr) == s.hdr
    &&& 1 <= s.subframes <= 8
}

/// Both factors as they are read back: one for both if they are close.
pub open spec fn kept_factors(f: Factors) -> Factors {
    Factors {
        x: f.x,
        y: if save::close(f) {
            f.x
        } else {
            f.y
        },
    }
}

proof fn lemma_display_factor(x: Single)
    requires
        source::scale_allowed(x),
    ensures
        config::display_factor(notation::shown(x)) == x,
{
    notation::lemma_written_shown(x);
}

/// The settings of a saved file.
pub open spec fn saved_file(existing: Seq<char>, s: State) -> Map<Seq<char>, Seq<char>> {
    entries::file_settings(text::ended(save::config_lines(existing, s)))
}

/// Every setting that goes with any state is found in a saved file.
proof fn lemma_fixed_in_file(existing: Seq<char>, s: State, j: int)
    requires
        writable(s),
        0 <= j < 11,
    ensures
        config::setting(saved_file(existing, s), save::fixed_settings(s)[j].0) == Some(
            save::fixed_settings(s)[j].1,
        ),
{
    lemma_saved_file(existing, s);
    lemma_fixed_saved(s, j);
}

/// Every setting that was saved is found in the file as it was written: the
/// presets as a list, or none; the source; the output; and of the parameters
/// exactly the changed ones.
pub proof fn lemma_saved_settings(existing: Seq<char>, s: State)
    requires
        writable(s),
    ensures
        ({
            let kv = saved_file(existing, s);
            &&& config::setting(kv, "preset"@) == if s.presets@.len() > 0 {
                Some(text::joined(text::texts(s.presets@), ", "@))
            } else {
                None
            }
            &&& config::setting(kv, "source_res"@) == Some(ipc::size_text(s.source.res))
            &&& config::setting(kv, "pixel_duplicate"@) == Some(
                save::counts_text(s.source.duplicate),
            )
            &&& config::setting(kv, "source_filter"@) == Some(save::filter_text(s.source.filter))
            &&& config::setting(kv, "source_rect"@) == Some(s.source.rect@)
            &&& config::setting(kv, "display_rect"@) == Some(s.source.display@)
            &&& config::setting(kv, "display_scale"@) == Some(
                save::factors_text(s.source.display_scale),
            )
            &&& config::setting(kv, "source_scale"@) == Some(
                save::factors_text(s.source.source_scale),
            )
            &&& config::setting(kv, "brightness_nits"@) == Some(
                notation::shown(s.hdr.brightness_nits),
            )
            &&& config::setting(kv, "expand_gamut"@) == Some(
                text::decimal(s.hdr.expand_gamut as nat),
            )
            &&& config::setting(kv, "subframes"@) == Some(
                text::decimal(
                    if s.subframes < 1 {
                        1
                    } else {
                        s.subframes as nat
                    },
                ),
            )
            &&& config::setting(kv, "subframe_mode"@) == Some(save::mode_text(s.subframe_black))
        }),
        forall|n: Seq<char>| #[trigger]
            param_setting(saved_file(existing, s), n) == if profile::collected(
                save::changed(s.params@),
            ).contains_key(n) {
                Some(notation::shown(profile::collected(save::changed(s.params@))[n]))
            } else {
                None
            },
{
    let b = save::fixed_settings(s);
    let kv = saved_file(existing, s);
    assert(b[0].0 == "source_res"@ && b[1].0 == "pixel_duplicate"@ && b[2].0 == "source_filter"@);
    assert(b[3].0 == "source_rect"@ && b[4].0 == "display_rect"@ && b[5].0 == "display_scale"@);
    assert(b[6].0 == "source_scale"@ && b[7].0 == "brightness_nits"@ && b[8].0
        == "expand_gamut"@ && b[9].0 == "subframes"@ && b[10].0 == "subframe_mode"@);
    lemma_fixed_in_file(existing, s, 0);
    lemma_fixed_in_file(existing, s, 1);
    lemma_fixed_in_file(existing, s, 2);
    lemma_fixed_in_file(existing, s, 3);
    lemma_fixed_in_file(existing, s, 4);
    lemma_fixed_in_file(existing, s, 5);
    lemma_fixed_in_file(existing, s, 6);
    lemma_fixed_in_file(existing, s, 7);
    lemma_fixed_in_file(existing, s, 8);
    lemma_fixed_in_file(existing, s, 9);
    lemma_fixed_in_file(existing, s, 10);
    lemma_saved_file(existing, s);
    lemma_presets_saved(s);
    assert(save::managed("preset"@));
    let t = entries::table(save::saved_settings(s));
    let d = save::changed(s.params@);
    assert forall|n: Seq<char>| #[trigger] param_setting(kv, n) == if profile::collected(
        d,
    ).contains_key(n) {
        Some(notation::shown(profile::collected(d)[n]))
    } else {
        None
    } by {
        reveal_strlit("param.");
        assert(("param."@ + n).take(6) =~= "param."@);
        assert(save::managed("param."@ + n));
        assert(param_setting(kv, n) == param_setting(t, n));
        lemma_only_params_saved(s, n);
        lemma_param_pairs(d, n);
    }
}

/// The texts of a list without a line feed have none.
proof fn lemma_joined_parts(v: Seq<Seq<char>>, i: int)
    requires
        0 <= i < v.len(),
        text::one_line(text::joined(v, ", "@)),
    ensures
        text::one_line(v[i]),
    decreases v.len(),
{
    if v.len() > 1 {
        let s = text::joined(v, ", "@);
        let front = v.drop_last();
        let a = text::joined(front, ", "@);
        let n = s.len() - v.last().len();
        if i == v.len() - 1 {
            assert(forall|j: int| 0 <= j < v.last().len() ==> v.last()[j] == s[n + j]);
        } else {
            assert(forall|j: int| 0 <= j < a.len() ==> a[j] == s[j]);
            lemma_joined_parts(front, i);
        }
    }
}

/// A state that can be written has no text that spreads over lines.
pub proof fn lemma_writable_unbroken(s: State)
    requires
        writable(s),
    ensures
        unbroken(s),
{
    assert forall|i: int| 0 <= i < s.presets@.len() implies text::one_line(
        (#[trigger] s.presets@[i])@,
    ) by {
        let v = text::texts(s.presets@);
        lemma_joined_parts(v, i);
        assert(v[i] == s.presets@[i]@);
    }
    assert forall|i: int| 0 <= i < save::changed(s.params@).len() implies text::one_line(
        (#[trigger] save::changed(s.params@)[i]).name@,
    ) by {
        let n = save::changed(s.params@)[i].name@;
        let k = "param."@ + n;
        assert(plain_key(k));
        assert forall|j: int| 0 <= j < n.len() implies n[j] != '\n' by {
            assert(k["param."@.len() + j] == n[j]);
        }
    }
}

proof fn lemma_filter_reads_back(f: Filter, base: Filter)
    ensures
        config::filter_setting(Some(save::filter_text(f)), base) == f,
{
    reveal_strlit("linear");
    reveal_strlit("nearest");
    assert(text::lowered("linear"@) =~= "linear"@);
    assert(text::lowered("nearest"@).len() == 7);
}

proof fn lemma_mode_reads_back(black: bool, base: bool)
    ensures
        config::black_setting(Some(save::mode_text(black)), base) == black,
{
    reveal_strlit("black");
    reveal_strlit("shader");
    reveal_strlit("bfi");
    assert(text::lowered("shader"@).len() == 6);
    assert(text::lowered("black"@).len() == 5);
    assert(text::lowered("bfi"@).len() == 3);
}

proof fn lemma_display_scale_reads_back(f: Factors, base: Factors)
    requires
        source::scale_allowed(f.x),
        source::scale_allowed(f.y),
    ensures
        config::display_scale_setting(Some(save::factors_text(f)), base) == kept_factors(f),
{
    lemma_factors_plain(f);
    lemma_display_factor(f.x);
    lemma_display_factor(f.y);
}

proof fn lemma_source_scale_reads_back(f: Factors, base: Factors)
    requires
        f.x.finite(),
        f.y.finite(),
    ensures
        config::source_scale_setting(Some(save::factors_text(f)), base) == kept_factors(f),
{
    lemma_factors_plain(f);
    notation::lemma_written_shown(f.x);
    notation::lemma_written_shown(f.y);
}

/// The source settings come back.
pub open spec fn source_kept(s: SourceSettings, src: crate::source::Source) -> bool {
    &&& src.res == s.res
    &&& src.duplicate == s.duplicate
    &&& src.filter == s.filter
    &&& source::rect_value(s.rect@) == Some(src.rect)
    &&& src.rect_spec@ == s.rect@
    &&& source::rect_value(s.display@) == Some(src.display)
    &&& src.display_spec@ == s.display@
    &&& src.display_scale == kept_factors(s.display_scale)
    &&& src.source_scale == kept_factors(s.source_scale)
}

#[verifier::spinoff_prover]
proof fn lemma_source_loaded(existing: Seq<char>, s: State, base: Config, c: Config)
    requires
        writable(s),
        in_range(s),
        config::loaded(saved_file(existing, s), base, c),
    ensures
        source_kept(s.source, c.source),
{
    lemma_saved_settings(existing, s);
    source::lemma_size_reads_back(s.source.res);
    lemma_counts_plain(s.source.duplicate);
    lemma_filter_reads_back(s.source.filter, base.source.filter);
    lemma_display_scale_reads_back(s.source.display_scale, base.source.display_scale);
    lemma_source_scale_reads_back(s.source.source_scale, base.source.source_scale);
}

#[verifier::spinoff_prover]
proof fn lemma_output_loaded(existing: Seq<char>, s: State, base: Config, c: Config)
    requires
        writable(s),
        in_range(s),
        config::loaded(saved_file(existing, s), base, c),
    ensures
        c.hdr == s.hdr,
        c.subframes == s.subframes,
        c.subframe_black == s.subframe_black,
{
    lemma_saved_settings(existing, s);
    assert(!s.hdr.brightness_nits.nan()) by {
        if s.hdr.brightness_nits.nan() {
            crate::screen::lemma_small_integer(200);
        }
    }
    notation::lemma_written_shown(s.hdr.brightness_nits);
    text::lemma_unsigned_round_trip(s.hdr.expand_gamut);
    text::lemma_unsigned_round_trip(s.subframes);
    lemma_mode_reads_back(s.subframe_black, base.subframe_black);
}

proof fn lemma_presets_loaded(existing: Seq<char>, s: State, base: Config, c: Config)
    requires
        writable(s),
        config::separable(text::texts(s.presets@)),
        config::loaded(saved_file(existing, s), base, c),
    ensures
        text::texts(c.presets@) == if s.presets@.len() > 0 {
            text::texts(s.presets@)
        } else {
            text::texts(base.presets@)
        },
{
    lemma_saved_file(existing, s);
    lemma_presets_saved(s);
    if s.presets@.len() > 0 {
        config::lemma_items_joined(text::texts(s.presets@), ", "@);
    } else {
        assert(save::managed("preset"@));
    }
}

proof fn lemma_params_loaded(existing: Seq<char>, s: State)
    requires
        writable(s),
        in_range(s),
    ensures
        config::param_settings(saved_file(existing, s)) == profile::collected(save::changed(s.params@)),
{
    let kv = saved_file(existing, s);
    let t = entries::table(save::saved_settings(s));
    lemma_saved_file(existing, s);
    assert forall|n: Seq<char>| #[trigger] param_setting(kv, n) == param_setting(t, n) by {
        reveal_strlit("param.");
        assert(("param."@ + n).take(6) =~= "param."@);
        assert(save::managed("param."@ + n));
    }
    lemma_params_saved(s, kv);
}

proof fn lemma_users_keys()
    ensures
        !save::managed("process"@),
        !save::managed("ipc"@),
        !save::managed("hdr_output"@),
{
    lemma_keys();
    reveal_strlit("process");
    reveal_strlit("ipc");
    reveal_strlit("hdr_output");
    assert("process"@.take(6)[1] == 'r');
    assert("hdr_output"@.take(6)[0] == 'h');
}

/// What was saved as default is what the next process starts with: the
/// presets, the source, the HDR settings, the subframes and the changed
/// parameters come back, and the user's other settings are as they were.
pub proof fn lemma_saved_then_loaded(existing: Seq<char>, s: State, base: Config, c: Config)
    requires
        writable(s),
        config::separable(text::texts(s.presets@)),
        in_range(s),
        config::loaded(saved_file(existing, s), base, c),
    ensures
        text::texts(c.presets@) == if s.presets@.len() > 0 {
            text::texts(s.presets@)
        } else {
            text::texts(base.presets@)
        },
        source_kept(s.source, c.source),
        c.hdr == s.hdr,
        c.subframes == s.subframes,
        c.subframe_black == s.subframe_black,
        c.params@ == base.params@.union_prefer_right(profile::collected(save::changed(s.params@))),
        text::texts(c.process@) == config::process_setting(
            config::setting(entries::file_settings(existing), "process"@),
        ),
        c.ipc == config::ipc_setting(config::setting(entries::file_settings(existing), "ipc"@)),
        c.hdr_output == config::hdr_output_setting(
            config::setting(entries::file_settings(existing), "hdr_output"@),
        ),
{
    lemma_presets_loaded(existing, s, base, c);
    lemma_source_loaded(existing, s, base, c);
    lemma_output_loaded(existing, s, base, c);
    lemma_params_loaded(existing, s);
    lemma_users_keys();
    lemma_writable_unbroken(s);
    lemma_users_setting(existing, s, "process"@);
    lemma_users_setting(existing, s, "ipc"@);
    lemma_users_setting(existing, s, "hdr_output"@);
}

/// Saving changes no setting of the user's own.
pub proof fn lemma_users_setting(existing: Seq<char>, s: State, key: Seq<char>)
    requires
        unbroken(s),
    ensures
        !save::managed(key) ==> config::setting(saved_file(existing, s), key) == config::setting(
            entries::file_settings(existing),
            key,
        ),
{
    lemma_saved_unbroken(s);
    lemma_lines_unbroken(save::saved_settings(s));
    lemma_saved_lines(existing, s);
    lemma_saved_only_managed(s);
}

proof fn lemma_saved_managed(s: State, i: int)
    requires
        0 <= i < save::saved_settings(s).len(),
    ensures
        save::managed(save::saved_settings(s)[i].0),
{
    let a = save::preset_settings(s);
    let b = save::fixed_settings(s);
    let c = save::parameter_settings(s.params@);
    let all = save::saved_settings(s);
    if i < a.len() {
        assert(all[i] == a[i]);
    } else if i < a.len() + 11 {
        let j = i - a.len();
        assert(all[i] == b[j]);
        assert(j == 0 || j == 1 || j == 2 || j == 3 || j == 4 || j == 5 || j == 6 || j == 7 || j
            == 8 || j == 9 || j == 10);
    } else {
        let j = i - a.len() - 11;
        assert(all[i] == c[j]);
        reveal_strlit("param.");
        assert(all[i].0.take(6) =~= "param."@);
    }
}

// --------------------------------------------------------------------- profiles

/// The text of a file with the profile of `process` set or cleared.
pub open spec fn profile_text(
    existing: Seq<char>,
    process: Seq<char>,
    name: Option<Seq<char>>,
) -> Seq<char> {
    let lines = save::profile_lines(existing, process, name);
    if lines.len() == 0 {
        "\n"@
    } else {
        text::ended(lines)
    }
}

proof fn lemma_kept_one_line(lines: Seq<Seq<char>>, key: Seq<char>)
    requires
        text::all_one_line(lines),
    ensures
        text::all_one_line(save::lines_without(lines, key)),
    decreases lines.len(),
{
    if lines.len() > 0 {
        let front = lines.drop_last();
        assert forall|i: int| 0 <= i < front.len() implies text::one_line(#[trigger] front[i]) by {
            assert(front[i] == lines[i]);
        }
        lemma_kept_one_line(front, key);
        let v = save::lines_without(front, key);
        let w = v.push(lines.last());
        assert forall|i: int| 0 <= i < w.len() implies text::one_line(#[trigger] w[i]) by {
            if i < v.len() {
                assert(w[i] == v[i]);
            } else {
                assert(text::one_line(lines[lines.len() - 1]));
            }
        }
    }
}

/// The lines of that file, up to carriage returns.
proof fn lemma_profile_lines(existing: Seq<char>, process: Seq<char>, name: Option<Seq<char>>)
    requires
        plain_key(save::profile_key_of(process)),
        name is Some ==> plain_value(name->0),
    ensures
        save::profile_lines(existing, process, name).len() > 0 ==> text::lines(
            profile_text(existing, process, name),
        ) == text::without_returns(save::profile_lines(existing, process, name)),
        save::profile_lines(existing, process, name).len() == 0 ==> text::lines(
            profile_text(existing, process, name),
        ) == seq![Seq::<char>::empty()],
{
    let key = save::profile_key_of(process);
    let kept = save::lines_without(text::lines(existing), key);
    let all = save::profile_lines(existing, process, name);
    text::lemma_lines_are_lines(existing);
    lemma_kept_one_line(text::lines(existing), key);
    if name is Some {
        lemma_setting_line(key, name->0);
        assert forall|i: int| 0 <= i < all.len() implies text::one_line(#[trigger] all[i]) by {
            if i < kept.len() {
                assert(all[i] == kept[i]);
            }
        }
    }
    if all.len() == 0 {
        reveal_strlit("\n");
        let s = "\n"@;
        text::lemma_run(s, '\n', '\n', 0);
        assert(s.take(0) =~= Seq::<char>::empty());
        assert(s.skip(1) =~= Seq::<char>::empty());
        assert(text::lines(Seq::<char>::empty()) =~= Seq::<Seq<char>>::empty());
        assert(text::lines(s) =~= seq![Seq::<char>::empty()]);
    } else {
        text::lemma_lines_of_ended(all);
    }
}

/// No line sets a key that reads like `key` in lower case.
pub open spec fn unset(lines: Seq<Seq<char>>, key: Seq<char>) -> bool {
    forall|i: int|
        0 <= i < save::made_by(lines).len() ==> save::lowercase(
            (#[trigger] save::made_by(lines)[i]).0,
        ) != save::lowercase(key)
}

proof fn lemma_made_returns(lines: Seq<Seq<char>>)
    ensures
        save::made_by(text::without_returns(lines)) == save::made_by(lines),
    decreases lines.len(),
{
    let w = text::without_returns(lines);
    if lines.len() > 0 {
        lemma_return_sets_nothing(lines.last());
        lemma_made_returns(lines.drop_last());
        assert(w.drop_last() =~= text::without_returns(lines.drop_last()));
        assert(w.last() == text::without_return(lines.last()));
    } else {
        assert(w =~= lines);
    }
}

proof fn lemma_first_key(keys: Seq<Seq<char>>, key: Seq<char>, n: int)
    requires
        0 <= n <= keys.len(),
        forall|i: int| 0 <= i < n ==> #[trigger] keys[i] != key,
        n < keys.len() ==> keys[n] == key,
    ensures
        save::first_key(keys, key) == n,
    decreases n,
{
    if n > 0 {
        assert(keys[0] != key);
        assert forall|i: int| 0 <= i < n - 1 implies #[trigger] keys.drop_first()[i] != key by {
            assert(keys[i + 1] != key);
        }
        lemma_first_key(keys.drop_first(), key, n - 1);
    }
}

/// A profile that was made the default of a process is found for it, and none
/// is once it was cleared, provided that no key left in the file differs from
/// the process's only in the case of letters outside ASCII.
pub proof fn lemma_profile_found(existing: Seq<char>, process: Seq<char>, name: Option<Seq<char>>)
    requires
        plain_key(save::profile_key_of(process)),
        name is Some ==> plain_value(name->0),
        unset(
            save::lines_without(text::lines(existing), save::profile_key_of(process)),
            save::profile_key_of(process),
        ),
    ensures
        save::first_set(
            text::lines(profile_text(existing, process, name)),
            save::profile_key_of(process),
        ) == name,
{
    let key = save::profile_key_of(process);
    let low = save::lowercase(key);
    let kept = save::lines_without(text::lines(existing), key);
    let all = save::profile_lines(existing, process, name);
    let now = text::lines(profile_text(existing, process, name));
    lemma_profile_lines(existing, process, name);
    lemma_made_returns(all);
    let before = save::made_by(kept);
    if all.len() == 0 {
        let blank = Seq::<char>::empty();
        text::lemma_trimmed_same(blank);
        lemma_blank_sets_nothing(blank);
        assert(now.drop_last() =~= Seq::<Seq<char>>::empty());
        assert(now.last() == blank);
        assert(save::made_by(now.drop_last()) =~= Seq::<(Seq<char>, Seq<char>)>::empty());
    }
    let v = save::made_by(now);
    match name {
        Some(n) => {
            lemma_setting_line(key, n);
            assert(all.drop_last() =~= kept);
            assert(v == before.push((key, n)));
            let keys = save::low_keys(v);
            assert forall|i: int| 0 <= i < before.len() implies #[trigger] keys[i] != low by {
                assert(v[i] == before[i]);
            }
            lemma_first_key(keys, low, before.len() as int);
        },
        None => {
            assert(v =~= before) by {
                if all.len() == 0 {
                    assert(before =~= Seq::<(Seq<char>, Seq<char>)>::empty());
                }
            }
            let keys = save::low_keys(v);
            assert forall|i: int| 0 <= i < keys.len() implies #[trigger] keys[i] != low by {
                assert(v[i] == before[i]);
            }
            lemma_first_key(keys, low, keys.len() as int);
        },
    }
}

proof fn lemma_first_key_bound(keys: Seq<Seq<char>>, key: Seq<char>)
    ensures
        0 <= save::first_key(keys, key) <= keys.len(),
    decreases keys.len(),
{
    if keys.len() > 0 && keys[0] != key {
        lemma_first_key_bound(keys.drop_first(), key);
    }
}

proof fn lemma_first_key_push(keys: Seq<Seq<char>>, x: Seq<char>, key: Seq<char>)
    ensures
        save::first_key(keys.push(x), key) == if save::first_key(keys, key) < keys.len() {
            save::first_key(keys, key)
        } else if x == key {
            keys.len() as int
        } else {
            keys.len() as int + 1
        },
    decreases keys.len(),
{
    let w = keys.push(x);
    lemma_first_key_bound(keys, key);
    if keys.len() == 0 {
        assert(w.drop_first() =~= Seq::<Seq<char>>::empty());
        assert(save::first_key(Seq::<Seq<char>>::empty(), key) == 0);
    } else {
        assert(w[0] == keys[0]);
        if keys[0] != key {
            assert(w.drop_first() =~= keys.drop_first().push(x));
            lemma_first_key_push(keys.drop_first(), x, key);
        }
    }
}

/// One more assignment counts where none before it does.
proof fn lemma_picked_push(
    keys: Seq<Seq<char>>,
    v: Seq<(Seq<char>, Seq<char>)>,
    x: Seq<char>,
    e: (Seq<char>, Seq<char>),
    key: Seq<char>,
)
    requires
        keys.len() == v.len(),
    ensures
        save::picked(keys.push(x), v.push(e), key) == if save::picked(keys, v, key) is Some {
            save::picked(keys, v, key)
        } else if x == key {
            Some(e.1)
        } else {
            None
        },
{
    lemma_first_key_push(keys, x, key);
    lemma_first_key_bound(keys, key);
}

/// The lines that are left tell of every key that is not taken out what they
/// told before, and nothing of the one that is.
proof fn lemma_without_alike(lines: Seq<Seq<char>>, key: Seq<char>, other: Seq<char>)
    ensures
        text::alike(other, key) ==> save::first_alike(save::lines_without(lines, key), other)
            is None,
        !text::alike(other, key) ==> save::first_alike(save::lines_without(lines, key), other)
            == save::first_alike(lines, other),
        save::ascii_keys(lines) ==> save::ascii_keys(save::lines_without(lines, key)),
    decreases lines.len(),
{
    let kept = save::lines_without(lines, key);
    if lines.len() > 0 {
        let front = lines.drop_last();
        let before = save::lines_without(front, key);
        let a = save::made_by(front);
        let b = save::made_by(before);
        if save::ascii_keys(lines) {
            assert(save::ascii_keys(front)) by {
                let all = save::made_by(lines);
                assert forall|i: int| 0 <= i < a.len() implies text::ascii((#[trigger] a[i]).0) by {
                    assert(all[i] == a[i]);
                }
            }
        }
        lemma_without_alike(front, key, other);
        match entries::assignment(lines.last()) {
            Some(e) => {
                let x = text::lowered(e.0);
                let low = text::lowered(other);
                lemma_picked_push(save::low_ascii_keys(a), a, x, e, low);
                assert(save::low_ascii_keys(a.push(e)) =~= save::low_ascii_keys(a).push(x));
                if !text::alike(e.0, key) {
                    assert(kept.drop_last() =~= before);
                    assert(save::made_by(kept) == b.push(e));
                    lemma_picked_push(save::low_ascii_keys(b), b, x, e, low);
                    assert(save::low_ascii_keys(b.push(e)) =~= save::low_ascii_keys(b).push(x));
                    if save::ascii_keys(lines) {
                        let all = save::made_by(lines);
                        assert(text::ascii(all[all.len() - 1].0));
                        assert forall|i: int| 0 <= i < b.push(e).len() implies text::ascii(
                            (#[trigger] b.push(e)[i]).0,
                        ) by {
                            if i < b.len() {
                                assert(b.push(e)[i] == b[i]);
                            }
                        }
                    }
                }
            },
            None => {
                assert(kept.drop_last() =~= before);
            },
        }
    }
}

/// What a file with the profile of `process` set or cleared assigns: what was
/// left of the old one, and the profile.
proof fn lemma_profile_made(existing: Seq<char>, process: Seq<char>, name: Option<Seq<char>>)
    requires
        plain_key(save::profile_key_of(process)),
        name is Some ==> plain_value(name->0),
    ensures
        ({
            let key = save::profile_key_of(process);
            let before = save::made_by(save::lines_without(text::lines(existing), key));
            save::made_by(text::lines(profile_text(existing, process, name))) == match name {
                Some(n) => before.push((key, n)),
                None => before,
            }
        }),
{
    let key = save::profile_key_of(process);
    let kept = save::lines_without(text::lines(existing), key);
    let all = save::profile_lines(existing, process, name);
    let now = text::lines(profile_text(existing, process, name));
    let none = Seq::<(Seq<char>, Seq<char>)>::empty();
    lemma_profile_lines(existing, process, name);
    lemma_made_returns(all);
    if all.len() == 0 {
        let blank = Seq::<char>::empty();
        text::lemma_trimmed_same(blank);
        lemma_blank_sets_nothing(blank);
        assert(now.drop_last() =~= Seq::<Seq<char>>::empty());
        assert(now.last() == blank);
        assert(save::made_by(now.drop_last()) =~= none);
        assert(save::made_by(kept) =~= none);
    } else if let Some(n) = name {
        lemma_setting_line(key, n);
        assert(all.drop_last() =~= kept);
    }
}

/// The keys of two processes are alike where their names are.
pub proof fn lemma_profile_keys_alike(p: Seq<char>, q: Seq<char>)
    ensures
        text::alike(save::profile_key_of(p), save::profile_key_of(q)) <==> text::alike(
            text::trimmed(p),
            text::trimmed(q),
        ),
{
    let front = text::lowered("profile."@);
    let a = text::lowered(text::trimmed(p));
    let b = text::lowered(text::trimmed(q));
    assert(text::lowered(save::profile_key_of(p)) =~= front + a);
    assert(text::lowered(save::profile_key_of(q)) =~= front + b);
    assert((front + a).skip(front.len() as int) =~= a);
    assert((front + b).skip(front.len() as int) =~= b);
}

/// The name of a process can stand in a file: no `=`, `#` or line feed in it.
pub open spec fn plain_process(p: Seq<char>) -> bool {
    forall|i: int|
        0 <= i < text::trimmed(p).len() ==> (#[trigger] text::trimmed(p)[i]) != '='
            && text::trimmed(p)[i] != '#' && text::trimmed(p)[i] != '\n'
}

/// The key of such a process can stand before the `=` of a line; it is ASCII
/// text if the name is.
pub proof fn lemma_profile_key(p: Seq<char>)
    requires
        plain_process(p),
    ensures
        plain_key(save::profile_key_of(p)),
        text::ascii(p) ==> text::ascii(save::profile_key_of(p)),
{
    reveal_strlit("profile.");
    let t = text::trimmed(p);
    let k = save::profile_key_of(p);
    text::lemma_trimmed_ends(p);
    assert(k[0] == 'p');
    assert(k.last() == if t.len() > 0 { t.last() } else { '.' });
    text::lemma_trimmed_same(k);
    assert forall|i: int| 0 <= i < k.len() implies k[i] != '=' && k[i] != '#' && k[i] != '\n' by {
        if i >= 8 {
            assert(k[i] == t[i - 8]);
        }
    }
    if text::ascii(p) {
        text::lemma_ascii_trimmed(p);
        assert forall|i: int| 0 <= i < k.len() implies (#[trigger] k[i]) <= '\u{7f}' by {
            if i >= 8 {
                assert(k[i] == t[i - 8]);
            }
        }
    }
}

proof fn lemma_ascii_assignment(line: Seq<char>)
    requires
        text::ascii(line),
    ensures
        match entries::assignment(line) {
            Some((k, _)) => text::ascii(k),
            None => true,
        },
{
    let n = text::run(line, '#', '#') as int;
    text::lemma_run_bound(line, '#', '#');
    text::lemma_ascii_parts(line, n);
    let u = entries::uncommented(line);
    text::lemma_ascii_trimmed(line.take(n));
    let m = text::run(u, '=', '=') as int;
    text::lemma_run_bound(u, '=', '=');
    text::lemma_ascii_parts(u, m);
    text::lemma_ascii_trimmed(u.take(m));
}

proof fn lemma_ascii_made(lines: Seq<Seq<char>>)
    requires
        forall|i: int| 0 <= i < lines.len() ==> text::ascii(#[trigger] lines[i]),
    ensures
        save::ascii_keys(lines),
    decreases lines.len(),
{
    if lines.len() > 0 {
        let front = lines.drop_last();
        assert forall|i: int| 0 <= i < front.len() implies text::ascii(#[trigger] front[i]) by {
            assert(front[i] == lines[i]);
        }
        lemma_ascii_made(front);
        assert(text::ascii(lines[lines.len() - 1]));
        lemma_ascii_assignment(lines.last());
        let a = save::made_by(front);
        let v = save::made_by(lines);
        assert forall|i: int| 0 <= i < v.len() implies text::ascii((#[trigger] v[i]).0) by {
            if i < a.len() {
                assert(v[i] == a[i]);
            }
        }
    }
}

/// The keys in a file of ASCII text are ASCII text.
pub proof fn lemma_ascii_file(existing: Seq<char>)
    requires
        text::ascii(existing),
    ensures
        save::ascii_keys(text::lines(existing)),
{
    text::lemma_ascii_lines(existing);
    lemma_ascii_made(text::lines(existing));
}

/// Making a profile the default of the process `p`, or clearing it, is what a
/// file tells afterwards of every process whose name is that of `p` in
/// whatever case, and of every other process `q` it tells what it told before.
/// The file is ASCII text, so that these are what is found for the processes.
pub proof fn lemma_default_profile(
    existing: Seq<char>,
    p: Seq<char>,
    name: Option<Seq<char>>,
    q: Seq<char>,
)
    requires
        text::ascii(existing),
        text::ascii(p),
        text::ascii(q),
        plain_process(p),
        plain_process(q),
        name is Some ==> plain_value(name->0),
    ensures
        ({
            let now = text::lines(profile_text(existing, p, name));
            let key = save::profile_key_of(q);
            &&& save::ascii_keys(text::lines(existing))
            &&& save::ascii_keys(now)
            &&& text::ascii(key)
            &&& text::alike(text::trimmed(q), text::trimmed(p)) ==> save::first_alike(now, key)
                == name
            &&& !text::alike(text::trimmed(q), text::trimmed(p)) ==> save::first_alike(now, key)
                == save::first_alike(text::lines(existing), key)
        }),
{
    let key = save::profile_key_of(p);
    let other = save::profile_key_of(q);
    let lines = text::lines(existing);
    let kept = save::lines_without(lines, key);
    let now = text::lines(profile_text(existing, p, name));
    lemma_ascii_file(existing);
    lemma_profile_key(p);
    lemma_profile_key(q);
    lemma_profile_keys_alike(q, p);
    lemma_without_alike(lines, key, other);
    lemma_profile_made(existing, p, name);
    let b = save::made_by(kept);
    if let Some(n) = name {
        let e = (key, n);
        let x = text::lowered(key);
        lemma_picked_push(save::low_ascii_keys(b), b, x, e, text::lowered(other));
        assert(save::low_ascii_keys(b.push(e)) =~= save::low_ascii_keys(b).push(x));
        assert forall|i: int| 0 <= i < b.push(e).len() implies text::ascii(
            (#[trigger] b.push(e)[i]).0,
        ) by {
            if i < b.len() {
                assert(b.push(e)[i] == b[i]);
            }
        }
    }
}

/// What the lines without `key` tell of a key that reads otherwise in lower
/// case than `key` and than every line taken out.
proof fn lemma_without_other(lines: Seq<Seq<char>>, key: Seq<char>, other: Seq<char>)
    requires
        forall|i: int|
            0 <= i < save::made_by(lines).len() && text::alike(
                (#[trigger] save::made_by(lines)[i]).0,
                key,
            ) ==> save::lowercase(save::made_by(lines)[i].0) != save::lowercase(other),
    ensures
        save::first_set(save::lines_without(lines, key), other) == save::first_set(lines, other),
    decreases lines.len(),
{
    let kept = save::lines_without(lines, key);
    if lines.len() > 0 {
        let front = lines.drop_last();
        let before = save::lines_without(front, key);
        let a = save::made_by(front);
        let b = save::made_by(before);
        let all = save::made_by(lines);
        assert forall|i: int| 0 <= i < a.len() && text::alike((#[trigger] a[i]).0, key) implies
            save::lowercase(a[i].0) != save::lowercase(other) by {
            assert(all[i] == a[i]);
        }
        lemma_without_other(front, key, other);
        match entries::assignment(lines.last()) {
            Some(e) => {
                let x = save::lowercase(e.0);
                let low = save::lowercase(other);
                lemma_picked_push(save::low_keys(a), a, x, e, low);
                assert(save::low_keys(a.push(e)) =~= save::low_keys(a).push(x));
                assert(all[all.len() - 1] == e);
                if !text::alike(e.0, key) {
                    assert(kept.drop_last() =~= before);
                    assert(save::made_by(kept) == b.push(e));
                    lemma_picked_push(save::low_keys(b), b, x, e, low);
                    assert(save::low_keys(b.push(e)) =~= save::low_keys(b).push(x));
                }
            },
            None => {
                assert(kept.drop_last() =~= before);
            },
        }
    }
}

/// The default profile of another process stays what it was, in files of any
/// script: the process and the lines that are taken out for the first one read
/// otherwise in lower case.
pub proof fn lemma_other_profile_kept(
    existing: Seq<char>,
    p: Seq<char>,
    name: Option<Seq<char>>,
    q: Seq<char>,
)
    requires
        plain_key(save::profile_key_of(p)),
        name is Some ==> plain_value(name->0),
        save::lowercase(save::profile_key_of(p)) != save::lowercase(save::profile_key_of(q)),
        forall|i: int|
            0 <= i < save::made_by(text::lines(existing)).len() && text::alike(
                (#[trigger] save::made_by(text::lines(existing))[i]).0,
                save::profile_key_of(p),
            ) ==> save::lowercase(save::made_by(text::lines(existing))[i].0) != save::lowercase(
                save::profile_key_of(q),
            ),
    ensures
        save::first_set(
            text::lines(profile_text(existing, p, name)),
            save::profile_key_of(q),
        ) == save::first_set(text::lines(existing), save::profile_key_of(q)),
{
    let key = save::profile_key_of(p);
    let other = save::profile_key_of(q);
    let b = save::made_by(save::lines_without(text::lines(existing), key));
    lemma_without_other(text::lines(existing), key, other);
    lemma_profile_made(existing, p, name);
    if let Some(n) = name {
        let e = (key, n);
        let x = save::lowercase(key);
        lemma_picked_push(save::low_keys(b), b, x, e, save::lowercase(other));
        assert(save::low_keys(b.push(e)) =~= save::low_keys(b).push(x));
    }
}

proof fn lemma_lines_without(lines: Seq<Seq<char>>, key: Seq<char>, other: Seq<char>)
    requires
        !text::alike(other, key),
    ensures
        config::setting(entries::read_lines(save::lines_without(lines, key)), other)
            == config::setting(entries::read_lines(lines), other),
    decreases lines.len(),
{
    if lines.len() > 0 {
        let front = lines.drop_last();
        lemma_lines_without(front, key, other);
        let v = save::lines_without(front, key);
        assert(v.push(lines.last()).drop_last() =~= v);
    }
}

/// Setting or clearing the profile of a process changes no other setting.
pub proof fn lemma_profile_keeps_rest(
    existing: Seq<char>,
    process: Seq<char>,
    name: Option<Seq<char>>,
    other: Seq<char>,
)
    requires
        plain_key(save::profile_key_of(process)),
        name is Some ==> plain_value(name->0),
        !text::alike(other, save::profile_key_of(process)),
    ensures
        config::setting(
            entries::file_settings(profile_text(existing, process, name)),
            other,
        ) == config::setting(entries::file_settings(existing), other),
{
    let key = save::profile_key_of(process);
    let kept = save::lines_without(text::lines(existing), key);
    let all = save::profile_lines(existing, process, name);
    lemma_profile_lines(existing, process, name);
    lemma_lines_without(text::lines(existing), key, other);
    if all.len() == 0 {
        let w = seq![Seq::<char>::empty()];
        text::lemma_trimmed_same(Seq::<char>::empty());
        lemma_blank_sets_nothing(Seq::<char>::empty());
        assert(w.drop_last() =~= Seq::<Seq<char>>::empty());
        assert(w.last() == Seq::<char>::empty());
        assert(entries::read_lines(Seq::<Seq<char>>::empty()) =~= Map::<
            Seq<char>,
            Seq<char>,
        >::empty());
        assert(entries::read_lines(w) =~= Map::<Seq<char>, Seq<char>>::empty());
    } else {
        lemma_read_returns(all);
        if let Some(n) = name {
            lemma_setting_line(key, n);
            assert(all.drop_last() =~= kept);
        }
    }
}

} // verus!

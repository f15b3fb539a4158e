//! Persisting the live settings: a RetroArch-compatible `.slangp` that
//! `#reference`s the running preset, or the vkSlang.conf file.

use crate::accuracy;
use crate::config::{self, Places};
use crate::entries;
use crate::ipc::{Counts, Factors, Filter, Param, State};
use crate::notation;
use crate::path;
use crate::screen;
use crate::single::{self, Single};
use crate::text;
use vstd::arithmetic::power2::*;
use vstd::prelude::*;

verus! {

// ----------------------------------------------------------------------- paths

/// The configuration file of the user.
pub open spec fn user_config(p: Places) -> Seq<char> {
    match p.config {
        Some(c) => c@,
        None => {
            let base = match p.config_home {
                Some(d) => d@,
                None => path::within(
                    match p.home {
                        Some(h) => h@,
                        None => "/"@,
                    },
                    ".config"@,
                ),
            };
            path::within(path::within(base, "vkSlang"@), "vkSlang.conf"@)
        },
    }
}

/// The configuration file of the user.
pub fn config_path(p: &Places) -> (r: String)
    ensures
        r@ == user_config(*p),
{
    if let Some(c) = &p.config {
        return c.clone();
    }
    let base: String = match &p.config_home {
        Some(d) => d.clone(),
        None => match &p.home {
            Some(h) => path::join_text(h.as_str(), ".config"),
            None => path::join_text("/", ".config"),
        },
    };
    path::join_text(path::join_text(base.as_str(), "vkSlang").as_str(), "vkSlang.conf")
}

/// Name that a user preset derived from `preset` gets.
pub open spec fn custom_name(preset: Option<Seq<char>>) -> Seq<char> {
    let stem = match preset {
        Some(p) => match path::name_of(p) {
            Some(n) => path::stem_of(n),
            None => "preset"@,
        },
        None => "preset"@,
    };
    stem + "-custom.slangp"@
}

/// Suggested location for a user preset derived from `preset`.
pub fn default_preset_path(p: &Places, preset: Option<&str>) -> (r: String)
    ensures
        r@ == path::within(
            path::renamed(user_config(*p), "presets"@),
            custom_name(
                match preset {
                    Some(s) => Some(s@),
                    None => None,
                },
            ),
        ),
{
    let mut name: Vec<char> = text::chars_of("preset");
    if let Some(s) = preset {
        let c: Vec<char> = text::chars_of(s);
        if let Some(n) = path::name(c.as_slice()) {
            name = text::copied(path::stem(n));
        }
    }
    text::append_text(&mut name, "-custom.slangp");
    let config: Vec<char> = text::chars_of(config_path(p).as_str());
    let dir: Vec<char> = path::rename(config.as_slice(), text::chars_of("presets").as_slice());
    text::text_of(path::join(dir.as_slice(), name.as_slice()).as_slice())
}

// ---------------------------------------------------------------- .slangp files

/// The user changed the parameter.
pub open spec fn touched(p: Param) -> bool {
    !p.header() && p.modified()
}

/// Parameters the user changed (value differs from the preset's).
pub open spec fn changed(params: Seq<Param>) -> Seq<Param>
    decreases params.len(),
{
    if params.len() == 0 {
        seq![]
    } else if touched(params.last()) {
        changed(params.drop_last()).push(params.last())
    } else {
        changed(params.drop_last())
    }
}

/// Positions of the parameters the user changed.
fn changed_params(params: &Vec<Param>) -> (r: Vec<usize>)
    ensures
        r@.len() == changed(params@).len(),
        forall|i: int|
            0 <= i < r@.len() ==> (#[trigger] r@[i]) < params@.len() && params@[r@[i] as int]
                == changed(params@)[i],
{
    let mut out: Vec<usize> = Vec::new();
    let mut i: usize = 0;
    assert(params@.take(0) =~= Seq::empty());
    while i < params.len()
        invariant
            i <= params@.len(),
            out@.len() == changed(params@.take(i as int)).len(),
            forall|j: int|
                0 <= j < out@.len() ==> (#[trigger] out@[j]) < params@.len()
                    && params@[out@[j] as int] == changed(params@.take(i as int))[j],
        decreases params@.len() - i,
    {
        assert(params@.take(i as int + 1).drop_last() =~= params@.take(i as int));
        assert(params@.take(i as int + 1).last() == params@[i as int]);
        if !params[i].is_header() && params[i].is_modified() {
            out.push(i);
        }
        i = i + 1;
    }
    assert(params@.take(i as int) =~= params@);
    out
}

/// A parameter as a `.slangp` file has it.
pub open spec fn slangp_line(p: Param) -> Seq<char> {
    p.name@ + " = \""@ + notation::shown(p.value) + "\""@
}

/// The lines of a `.slangp` file that refers to `preset`.
pub open spec fn slangp_lines(preset: Seq<char>, params: Seq<Param>) -> Seq<Seq<char>> {
    seq!["#reference \""@ + preset + "\""@] + Seq::new(
        changed(params).len(),
        |i: int| slangp_line(changed(params)[i]),
    )
}

/// Only a single preset can be written as a `.slangp`: the format references
/// one preset, not a chain.
pub fn slangp_text(state: &State) -> (r: Option<String>)
    ensures
        match r {
            Some(s) => state.presets@.len() == 1 && s@ == text::ended(
                slangp_lines(state.presets@[0]@, state.params@),
            ),
            None => state.presets@.len() != 1,
        },
{
    if state.presets.len() != 1 {
        return None;
    }
    let ghost all = slangp_lines(state.presets@[0]@, state.params@);
    let mut lines: Vec<Vec<char>> = Vec::new();
    let mut first: Vec<char> = text::chars_of("#reference \"");
    text::append_text(&mut first, state.presets[0].as_str());
    text::append_text(&mut first, "\"");
    lines.push(first);
    assert(text::contents(lines@) =~= all.take(1));
    let touched: Vec<usize> = changed_params(&state.params);
    let mut i: usize = 0;
    while i < touched.len()
        invariant
            i <= touched@.len(),
            touched@.len() == changed(state.params@).len(),
            forall|j: int|
                0 <= j < touched@.len() ==> (#[trigger] touched@[j]) < state.params@.len()
                    && state.params@[touched@[j] as int] == changed(state.params@)[j],
            state.presets@.len() == 1,
            all == slangp_lines(state.presets@[0]@, state.params@),
            text::contents(lines@) == all.take(i as int + 1),
        decreases touched@.len() - i,
    {
        let p: &Param = &state.params[touched[i]];
        let mut line: Vec<char> = text::chars_of(p.name.as_str());
        text::append_text(&mut line, " = \"");
        text::append(&mut line, p.value.show().as_slice());
        text::append_text(&mut line, "\"");
        let ghost before = text::contents(lines@);
        assert(line@ == all[i as int + 1]);
        lines.push(line);
        assert(text::contents(lines@) =~= before.push(line@));
        assert(before.push(line@) =~= all.take(i as int + 2));
        i = i + 1;
    }
    assert(all.take(i as int + 1) =~= all);
    Some(text::text_of(text::end_lines(&lines).as_slice()))
}

// ------------------------------------------------------------ profiles in files

/// The text in lower case, as Unicode has it.
pub uninterp spec fn lowercase(s: Seq<char>) -> Seq<char>;

/// `str::to_lowercase` of the standard library. Its result is a function of
/// the text alone, by the tables of Unicode. Of ASCII text, the letters `A` to
/// `Z` become `a` to `z`, and nothing else changes; of other text nothing is
/// said here.
#[verifier::external_body]
pub(crate) fn to_lowercase(s: &str) -> (r: String)
    ensures
        r@ == lowercase(s@),
        text::ascii(s@) ==> r@ == text::lowered(s@),
{
    s.to_lowercase()
}

/// Key tying a process to the profile loaded automatically for it.
pub open spec fn profile_key_of(process: Seq<char>) -> Seq<char> {
    "profile."@ + text::trimmed(process)
}

/// Key tying a process to the profile loaded automatically for it.
pub fn profile_key(process: &str) -> (r: String)
    ensures
        r@ == profile_key_of(process@),
{
    let mut out: Vec<char> = text::chars_of("profile.");
    let c: Vec<char> = text::chars_of(process);
    text::append(&mut out, text::trim(c.as_slice()));
    text::text_of(out.as_slice())
}

/// The assignments that lines make, in their order.
pub open spec fn made_by(lines: Seq<Seq<char>>) -> Seq<(Seq<char>, Seq<char>)>
    decreases lines.len(),
{
    if lines.len() == 0 {
        seq![]
    } else {
        match entries::assignment(lines.last()) {
            Some(e) => made_by(lines.drop_last()).push(e),
            None => made_by(lines.drop_last()),
        }
    }
}

/// Position of the first of `keys` that is `key`, or their number.
pub open spec fn first_key(keys: Seq<Seq<char>>, key: Seq<char>) -> int
    decreases keys.len(),
{
    if keys.len() == 0 || keys[0] == key {
        0
    } else {
        1 + first_key(keys.drop_first(), key)
    }
}

/// The keys of assignments in lower case.
pub open spec fn low_keys(v: Seq<(Seq<char>, Seq<char>)>) -> Seq<Seq<char>> {
    Seq::new(v.len(), |i: int| lowercase(v[i].0))
}

/// The value that stands beside the first of `keys` that is `key`.
pub open spec fn picked(
    keys: Seq<Seq<char>>,
    v: Seq<(Seq<char>, Seq<char>)>,
    key: Seq<char>,
) -> Option<Seq<char>> {
    let i = first_key(keys, key);
    if i < v.len() {
        Some(v[i].1)
    } else {
        None
    }
}

/// What the first line that sets `key`, in whatever case, sets it to.
pub open spec fn first_set(lines: Seq<Seq<char>>, key: Seq<char>) -> Option<Seq<char>> {
    picked(low_keys(made_by(lines)), made_by(lines), lowercase(key))
}

/// The keys of assignments, ASCII letters in lower case.
pub open spec fn low_ascii_keys(v: Seq<(Seq<char>, Seq<char>)>) -> Seq<Seq<char>> {
    Seq::new(v.len(), |i: int| text::lowered(v[i].0))
}

/// What the first line that sets `key`, in whatever ASCII case, sets it to.
pub open spec fn first_alike(lines: Seq<Seq<char>>, key: Seq<char>) -> Option<Seq<char>> {
    picked(low_ascii_keys(made_by(lines)), made_by(lines), text::lowered(key))
}

/// The keys of the assignments are ASCII text.
pub open spec fn ascii_keys(lines: Seq<Seq<char>>) -> bool {
    forall|i: int| 0 <= i < made_by(lines).len() ==> text::ascii((#[trigger] made_by(lines)[i]).0)
}

/// Position of the first of `keys` that is `key`.
pub fn find_key(keys: &Vec<Vec<char>>, key: &[char]) -> (r: usize)
    ensures
        r == first_key(text::contents(keys@), key@),
        r <= keys@.len(),
{
    let ghost all = text::contents(keys@);
    let mut i: usize = 0;
    assert(all.skip(0) =~= all);
    while i < keys.len() && !text::same(keys[i].as_slice(), key)
        invariant
            i <= keys@.len(),
            all == text::contents(keys@),
            first_key(all, key@) == i + first_key(all.skip(i as int), key@),
        decreases keys@.len() - i,
    {
        assert(all.skip(i as int).drop_first() =~= all.skip(i as int + 1));
        assert(all.skip(i as int)[0] == keys@[i as int]@);
        i = i + 1;
    }
    proof {
        if i < keys@.len() {
            assert(all.skip(i as int)[0] == keys@[i as int]@);
        }
    }
    i
}

/// The assignments in a file, in their order.
pub fn assignments_in(existing: &str) -> (r: Vec<(String, String)>)
    ensures
        entries::assignments(r@) == made_by(text::lines(existing@)),
{
    let c: Vec<char> = text::chars_of(existing);
    let lines: Vec<Vec<char>> = text::lines_of(c.as_slice());
    let ghost all = text::lines(existing@);
    let mut out: Vec<(String, String)> = Vec::new();
    let mut i: usize = 0;
    assert(all.take(0) =~= Seq::empty());
    assert(entries::assignments(out@) =~= Seq::empty());
    while i < lines.len()
        invariant
            i <= lines@.len(),
            text::contents(lines@) == all,
            entries::assignments(out@) == made_by(all.take(i as int)),
        decreases lines@.len() - i,
    {
        let ghost before = entries::assignments(out@);
        assert(all.take(i as int + 1).drop_last() =~= all.take(i as int));
        assert(all.take(i as int + 1).last() == lines@[i as int]@);
        if let Some((k, v)) = entries::read_line(lines[i].as_slice()) {
            out.push((text::text_of(k), text::text_of(v)));
            assert(entries::assignments(out@) =~= before.push((k@, v@)));
        }
        i = i + 1;
    }
    assert(all.take(i as int) =~= all);
    out
}

/// Profile that a configuration file of text `existing` loads automatically
/// for `process`, if any.
pub fn default_profile_for(existing: &str, process: &str) -> (r: Option<String>)
    ensures
        match r {
            Some(s) => first_set(text::lines(existing@), profile_key_of(process@)) == Some(s@),
            None => first_set(text::lines(existing@), profile_key_of(process@)) is None,
        },
        ascii_keys(text::lines(existing@)) && text::ascii(profile_key_of(process@)) ==> match r {
            Some(s) => first_alike(text::lines(existing@), profile_key_of(process@)) == Some(s@),
            None => first_alike(text::lines(existing@), profile_key_of(process@)) is None,
        },
{
    let made: Vec<(String, String)> = assignments_in(existing);
    let ghost v = made_by(text::lines(existing@));
    assert(made@.len() == v.len());
    let mut keys: Vec<Vec<char>> = Vec::new();
    let mut i: usize = 0;
    assert(text::contents(keys@) =~= low_keys(v).take(0));
    while i < made.len()
        invariant
            i <= made@.len(),
            made@.len() == v.len(),
            entries::assignments(made@) == v,
            text::contents(keys@) == low_keys(v).take(i as int),
            keys@.len() == i,
            forall|j: int|
                0 <= j < i && text::ascii(v[j].0) ==> (#[trigger] keys@[j])@ == text::lowered(
                    v[j].0,
                ),
        decreases made@.len() - i,
    {
        let ghost before = text::contents(keys@);
        assert(v[i as int] == (made@[i as int].0@, made@[i as int].1@));
        let key: Vec<char> = text::chars_of(to_lowercase(made[i].0.as_str()).as_str());
        keys.push(key);
        assert(text::contents(keys@) =~= before.push(key@));
        assert(before.push(key@) =~= low_keys(v).take(i as int + 1));
        i = i + 1;
    }
    assert(low_keys(v).take(i as int) =~= low_keys(v));
    let wanted: String = to_lowercase(profile_key(process).as_str());
    let at: usize = find_key(&keys, text::chars_of(wanted.as_str()).as_slice());
    proof {
        if ascii_keys(text::lines(existing@)) {
            assert forall|j: int| 0 <= j < v.len() implies text::contents(keys@)[j]
                == low_ascii_keys(v)[j] by {
                assert(text::ascii(v[j].0));
                assert(keys@[j]@ == text::lowered(v[j].0));
            }
            assert(text::contents(keys@) =~= low_ascii_keys(v));
        }
    }
    if at < made.len() {
        assert(v[at as int] == (made@[at as int].0@, made@[at as int].1@));
        Some(made[at].1.clone())
    } else {
        None
    }
}

/// The profile that a process starts with: the one tied to it, else the one
/// for everything.
pub fn starting_profile(existing: &str, process: &str) -> (r: Option<String>)
    ensures
        ({
            let own = first_set(text::lines(existing@), profile_key_of(process@));
            let any = config::setting(entries::file_settings(existing@), "profile"@);
            match r {
                Some(s) => Some(s@) == if own is Some {
                    own
                } else {
                    any
                },
                None => own is None && any is None,
            }
        }),
        ascii_keys(text::lines(existing@)) && text::ascii(profile_key_of(process@)) ==> ({
            let own = first_alike(text::lines(existing@), profile_key_of(process@));
            let any = config::setting(entries::file_settings(existing@), "profile"@);
            match r {
                Some(s) => Some(s@) == if own is Some {
                    own
                } else {
                    any
                },
                None => own is None && any is None,
            }
        }),
{
    match default_profile_for(existing, process) {
        Some(s) => Some(s),
        None => {
            let kv: entries::Entries = entries::parse_file(existing);
            match kv.value("profile") {
                Some(s) => Some(s.clone()),
                None => None,
            }
        },
    }
}

/// The line sets `key`, in whatever ASCII case.
pub open spec fn sets_key(line: Seq<char>, key: Seq<char>) -> bool {
    match entries::assignment(line) {
        Some((k, _)) => text::alike(k, key),
        None => false,
    }
}

/// The lines that do not set `key`.
pub open spec fn lines_without(lines: Seq<Seq<char>>, key: Seq<char>) -> Seq<Seq<char>>
    decreases lines.len(),
{
    if lines.len() == 0 {
        seq![]
    } else if sets_key(lines.last(), key) {
        lines_without(lines.drop_last(), key)
    } else {
        lines_without(lines.drop_last(), key).push(lines.last())
    }
}

/// `key = value`
pub open spec fn setting_line(key: Seq<char>, value: Seq<char>) -> Seq<char> {
    key + " = "@ + value
}

/// The lines of a configuration file with the profile of `process` set, or
/// cleared.
pub open spec fn profile_lines(
    existing: Seq<char>,
    process: Seq<char>,
    name: Option<Seq<char>>,
) -> Seq<Seq<char>> {
    let kept = lines_without(text::lines(existing), profile_key_of(process));
    match name {
        Some(n) => kept.push(setting_line(profile_key_of(process), n)),
        None => kept,
    }
}

fn write_setting(key: &[char], value: &[char]) -> (r: Vec<char>)
    ensures
        r@ == setting_line(key@, value@),
{
    let mut out: Vec<char> = text::copied(key);
    text::append_text(&mut out, " = ");
    text::append(&mut out, value);
    out
}

/// The lines of `existing` that do not set `key`.
pub fn keep_lines_without(existing: &str, key: &str) -> (r: Vec<Vec<char>>)
    ensures
        text::contents(r@) == lines_without(text::lines(existing@), key@),
{
    let c: Vec<char> = text::chars_of(existing);
    let k: Vec<char> = text::chars_of(key);
    let lines: Vec<Vec<char>> = text::lines_of(c.as_slice());
    let ghost all = text::lines(existing@);
    let mut out: Vec<Vec<char>> = Vec::new();
    let mut i: usize = 0;
    assert(all.take(0) =~= Seq::empty());
    assert(text::contents(out@) =~= Seq::empty());
    while i < lines.len()
        invariant
            i <= lines@.len(),
            text::contents(lines@) == all,
            k@ == key@,
            text::contents(out@) == lines_without(all.take(i as int), key@),
        decreases lines@.len() - i,
    {
        let ghost before = text::contents(out@);
        assert(all.take(i as int + 1).drop_last() =~= all.take(i as int));
        assert(all.take(i as int + 1).last() == lines@[i as int]@);
        let sets: bool = match entries::read_line(lines[i].as_slice()) {
            Some((name, _)) => text::is_alike(name, k.as_slice()),
            None => false,
        };
        if !sets {
            out.push(text::copied(lines[i].as_slice()));
            assert(text::contents(out@) =~= before.push(lines@[i as int]@));
        }
        i = i + 1;
    }
    assert(all.take(i as int) =~= all);
    out
}

/// Text of the configuration file with the profile of `process` set, or
/// cleared with `None`; the rest of the file is left alone.
pub fn set_default_profile(existing: &str, process: &str, name: Option<&str>) -> (r: String)
    ensures
        ({
            let lines = profile_lines(
                existing@,
                process@,
                match name {
                    Some(n) => Some(n@),
                    None => None,
                },
            );
            r@ == if lines.len() == 0 {
                "\n"@
            } else {
                text::ended(lines)
            }
        }),
{
    let key: String = profile_key(process);
    let mut lines: Vec<Vec<char>> = keep_lines_without(existing, key.as_str());
    let ghost before = text::contents(lines@);
    if let Some(n) = name {
        lines.push(
            write_setting(text::chars_of(key.as_str()).as_slice(), text::chars_of(n).as_slice()),
        );
        assert(text::contents(lines@) =~= before.push(setting_line(key@, n@)));
    }
    if lines.len() == 0 {
        return text::text_of(text::chars_of("\n").as_slice());
    }
    assert(text::contents(lines@).len() == lines@.len());
    text::text_of(text::end_lines(&lines).as_slice())
}

// ----------------------------------------------------------- configuration file

/// The keys that are written along with the settings.
pub open spec fn managed(key: Seq<char>) -> bool {
    ||| key == "preset"@
    ||| key == "source_res"@
    ||| key == "source_filter"@
    ||| key == "pixel_duplicate"@
    ||| key == "source_rect"@
    ||| key == "display_rect"@
    ||| key == "display_scale"@
    ||| key == "source_scale"@
    ||| key == "brightness_nits"@
    ||| key == "expand_gamut"@
    ||| key == "subframes"@
    ||| key == "subframe_mode"@
    ||| text::begins(key, "param."@)
}

fn is_managed(key: &[char]) -> (r: bool)
    ensures
        r == managed(key@),
{
    text::same_text(key, "preset") || text::same_text(key, "source_res") || text::same_text(
        key,
        "source_filter",
    ) || text::same_text(key, "pixel_duplicate") || text::same_text(key, "source_rect")
        || text::same_text(key, "display_rect") || text::same_text(key, "display_scale")
        || text::same_text(key, "source_scale") || text::same_text(key, "brightness_nits")
        || text::same_text(key, "expand_gamut") || text::same_text(key, "subframes")
        || text::same_text(key, "subframe_mode") || text::strip_prefix(key, "param.").is_some()
}

/// The line belongs to the user: it does not set a managed key.
pub open spec fn users_line(line: Seq<char>) -> bool {
    match entries::assignment(line) {
        Some((k, _)) => !managed(k),
        None => true,
    }
}

/// The lines that belong to the user.
pub open spec fn users_lines(lines: Seq<Seq<char>>) -> Seq<Seq<char>>
    decreases lines.len(),
{
    if lines.len() == 0 {
        seq![]
    } else if users_line(lines.last()) {
        users_lines(lines.drop_last()).push(lines.last())
    } else {
        users_lines(lines.drop_last())
    }
}

/// `lines` without the blank ones at the end.
pub open spec fn without_blanks(lines: Seq<Seq<char>>) -> Seq<Seq<char>>
    decreases lines.len(),
{
    if lines.len() > 0 && text::trimmed(lines.last()).len() == 0 {
        without_blanks(lines.drop_last())
    } else {
        lines
    }
}

/// What stands above the settings: the user's lines and a blank one.
pub open spec fn heading(existing: Seq<char>) -> Seq<Seq<char>> {
    let v = without_blanks(users_lines(text::lines(existing)));
    if v.len() == 0 {
        v
    } else {
        v.push(seq![])
    }
}

/// Numbers for both axes, one if they are the same.
pub open spec fn counts_text(c: Counts) -> Seq<char> {
    if c.x == c.y {
        text::decimal(c.x as nat)
    } else {
        text::decimal(c.x as nat) + ","@ + text::decimal(c.y as nat)
    }
}

/// Two factors that differ by less than a thousandth.
pub open spec fn close(f: Factors) -> bool {
    single::absolute(single::difference(f.x, f.y)).before(single::of_fraction(1, 1000))
}

/// Factors for both axes, one if they are close.
pub open spec fn factors_text(f: Factors) -> Seq<char> {
    if close(f) {
        notation::shown(f.x)
    } else {
        notation::shown(f.x) + ","@ + notation::shown(f.y)
    }
}

pub open spec fn filter_text(f: Filter) -> Seq<char> {
    match f {
        Filter::Linear => "linear"@,
        Filter::Nearest => "nearest"@,
    }
}

pub open spec fn mode_text(black: bool) -> Seq<char> {
    if black {
        "black"@
    } else {
        "shader"@
    }
}

/// The settings that go with any state, in the order they are written in.
pub open spec fn fixed_settings(s: State) -> Seq<(Seq<char>, Seq<char>)> {
    seq![
        ("source_res"@, crate::ipc::size_text(s.source.res)),
        ("pixel_duplicate"@, counts_text(s.source.duplicate)),
        ("source_filter"@, filter_text(s.source.filter)),
        ("source_rect"@, s.source.rect@),
        ("display_rect"@, s.source.display@),
        ("display_scale"@, factors_text(s.source.display_scale)),
        ("source_scale"@, factors_text(s.source.source_scale)),
        ("brightness_nits"@, notation::shown(s.hdr.brightness_nits)),
        ("expand_gamut"@, text::decimal(s.hdr.expand_gamut as nat)),
        ("subframes"@, text::decimal(if s.subframes < 1 { 1 } else { s.subframes as nat })),
        ("subframe_mode"@, mode_text(s.subframe_black)),
    ]
}

/// The presets that run, if any do.
pub open spec fn preset_settings(s: State) -> Seq<(Seq<char>, Seq<char>)> {
    if s.presets@.len() == 0 {
        seq![]
    } else {
        seq![("preset"@, text::joined(text::texts(s.presets@), ", "@))]
    }
}

/// The parameters that the user changed.
pub open spec fn parameter_settings(params: Seq<Param>) -> Seq<(Seq<char>, Seq<char>)> {
    Seq::new(
        changed(params).len(),
        |i: int| ("param."@ + changed(params)[i].name@, notation::shown(changed(params)[i].value)),
    )
}

/// All that is written of a state.
pub open spec fn saved_settings(s: State) -> Seq<(Seq<char>, Seq<char>)> {
    preset_settings(s) + fixed_settings(s) + parameter_settings(s.params@)
}

/// Settings as lines.
pub open spec fn setting_lines(v: Seq<(Seq<char>, Seq<char>)>) -> Seq<Seq<char>> {
    Seq::new(v.len(), |i: int| setting_line(v[i].0, v[i].1))
}

/// The lines of the configuration file.
pub open spec fn config_lines(existing: Seq<char>, s: State) -> Seq<Seq<char>> {
    heading(existing).push("# --- written by vkslang-ui ---"@) + setting_lines(saved_settings(s))
}

fn heading_of(existing: &str) -> (r: Vec<Vec<char>>)
    ensures
        text::contents(r@) == heading(existing@),
{
    let c: Vec<char> = text::chars_of(existing);
    let lines: Vec<Vec<char>> = text::lines_of(c.as_slice());
    let ghost all = text::lines(existing@);
    let mut out: Vec<Vec<char>> = Vec::new();
    let mut i: usize = 0;
    assert(all.take(0) =~= Seq::empty());
    assert(text::contents(out@) =~= Seq::empty());
    while i < lines.len()
        invariant
            i <= lines@.len(),
            text::contents(lines@) == all,
            text::contents(out@) == users_lines(all.take(i as int)),
        decreases lines@.len() - i,
    {
        let ghost before = text::contents(out@);
        assert(all.take(i as int + 1).drop_last() =~= all.take(i as int));
        assert(all.take(i as int + 1).last() == lines@[i as int]@);
        let kept: bool = match entries::read_line(lines[i].as_slice()) {
            Some((k, _)) => !is_managed(k),
            None => true,
        };
        if kept {
            out.push(text::copied(lines[i].as_slice()));
            assert(text::contents(out@) =~= before.push(lines@[i as int]@));
        }
        i = i + 1;
    }
    assert(all.take(i as int) =~= all);
    let ghost kept = users_lines(all);
    while out.len() > 0 && text::trim(out[out.len() - 1].as_slice()).len() == 0
        invariant
            without_blanks(text::contents(out@)) == without_blanks(kept),
        decreases out@.len(),
    {
        let ghost before = text::contents(out@);
        assert(before.last() == out@.last()@);
        out.pop();
        assert(text::contents(out@) =~= before.drop_last());
    }
    let ghost v = text::contents(out@);
    assert(v.len() == out@.len());
    assert(v.len() > 0 ==> v.last() == out@.last()@);
    assert(v == without_blanks(kept));
    if out.len() > 0 {
        let blank: Vec<char> = Vec::new();
        out.push(blank);
        assert(text::contents(out@) =~= v.push(seq![]));
    }
    out
}

fn write_counts(c: Counts) -> (r: Vec<char>)
    ensures
        r@ == counts_text(c),
{
    let mut out: Vec<char> = text::write_number(c.x as u64);
    if c.x != c.y {
        text::append_text(&mut out, ",");
        text::append(&mut out, text::write_number(c.y as u64).as_slice());
    }
    out
}

fn write_factors(f: Factors) -> (r: Vec<char>)
    ensures
        r@ == factors_text(f),
{
    let mut out: Vec<char> = f.x.show();
    if !f.x.minus(f.y).abs().is_before(Single::fraction(1, 1000)) {
        text::append_text(&mut out, ",");
        text::append(&mut out, f.y.show().as_slice());
    }
    out
}

fn put(out: &mut Vec<Vec<char>>, key: &str, value: Vec<char>)
    ensures
        text::contents(final(out)@) == text::contents(old(out)@).push(setting_line(key@, value@)),
{
    let ghost before = text::contents(out@);
    out.push(write_setting(text::chars_of(key).as_slice(), value.as_slice()));
    assert(text::contents(out@) =~= before.push(setting_line(key@, value@)));
}

fn put_fixed(out: &mut Vec<Vec<char>>, s: &State)
    ensures
        text::contents(final(out)@) == text::contents(old(out)@) + setting_lines(fixed_settings(*s)),
{
    let ghost before = text::contents(out@);
    put(out, "source_res", text::chars_of(s.source.res.to_config().as_str()));
    put(out, "pixel_duplicate", write_counts(s.source.duplicate));
    let filter: Vec<char> = match s.source.filter {
        Filter::Linear => text::chars_of("linear"),
        Filter::Nearest => text::chars_of("nearest"),
    };
    put(out, "source_filter", filter);
    put(out, "source_rect", text::chars_of(s.source.rect.as_str()));
    put(out, "display_rect", text::chars_of(s.source.display.as_str()));
    put(out, "display_scale", write_factors(s.source.display_scale));
    put(out, "source_scale", write_factors(s.source.source_scale));
    put(out, "brightness_nits", s.hdr.brightness_nits.show());
    put(out, "expand_gamut", text::write_number(s.hdr.expand_gamut as u64));
    // 0 only happens with a state made from nothing; 1 is "untouched".
    let n: u32 = if s.subframes < 1 {
        1
    } else {
        s.subframes
    };
    put(out, "subframes", text::write_number(n as u64));
    let mode: Vec<char> = if s.subframe_black {
        text::chars_of("black")
    } else {
        text::chars_of("shader")
    };
    put(out, "subframe_mode", mode);
    assert(text::contents(out@) =~= before + setting_lines(fixed_settings(*s)));
}

fn put_presets(out: &mut Vec<Vec<char>>, s: &State)
    ensures
        text::contents(final(out)@) == text::contents(old(out)@) + setting_lines(
            preset_settings(*s),
        ),
{
    let ghost before = text::contents(out@);
    if s.presets.len() > 0 {
        let mut names: Vec<Vec<char>> = Vec::new();
        let mut i: usize = 0;
        while i < s.presets.len()
            invariant
                i <= s.presets@.len(),
                text::contents(names@) == text::texts(s.presets@).take(i as int),
            decreases s.presets@.len() - i,
        {
            let ghost seen = text::contents(names@);
            names.push(text::chars_of(s.presets[i].as_str()));
            assert(text::contents(names@) =~= seen.push(s.presets@[i as int]@));
            assert(seen.push(s.presets@[i as int]@) =~= text::texts(s.presets@).take(
                i as int + 1,
            ));
            i = i + 1;
        }
        assert(text::texts(s.presets@).take(i as int) =~= text::texts(s.presets@));
        put(out, "preset", text::join(&names, ", "));
        assert(text::contents(out@) =~= before + setting_lines(preset_settings(*s)));
    } else {
        assert(before + setting_lines(preset_settings(*s)) =~= before);
    }
}

fn put_params(out: &mut Vec<Vec<char>>, params: &Vec<Param>)
    ensures
        text::contents(final(out)@) == text::contents(old(out)@) + setting_lines(
            parameter_settings(params@),
        ),
{
    let ghost before = text::contents(out@);
    let ghost all = setting_lines(parameter_settings(params@));
    let touched: Vec<usize> = changed_params(params);
    let mut i: usize = 0;
    assert(before + all.take(0) =~= before);
    while i < touched.len()
        invariant
            i <= touched@.len(),
            touched@.len() == changed(params@).len(),
            forall|j: int|
                0 <= j < touched@.len() ==> (#[trigger] touched@[j]) < params@.len()
                    && params@[touched@[j] as int] == changed(params@)[j],
            all == setting_lines(parameter_settings(params@)),
            text::contents(out@) == before + all.take(i as int),
        decreases touched@.len() - i,
    {
        let p: &Param = &params[touched[i]];
        let mut key: Vec<char> = text::chars_of("param.");
        text::append_text(&mut key, p.name.as_str());
        let line: Vec<char> = write_setting(key.as_slice(), p.value.show().as_slice());
        let ghost seen = text::contents(out@);
        assert(line@ == all[i as int]);
        out.push(line);
        assert(text::contents(out@) =~= seen.push(line@));
        assert(seen.push(line@) =~= before + all.take(i as int + 1));
        i = i + 1;
    }
    assert(all.take(i as int) =~= all);
}

/// Rewrites the keys vkSlang manages, keeping the user's other lines and
/// comments.
pub fn update_config_text(existing: &str, state: &State) -> (r: String)
    ensures
        r@ == text::ended(config_lines(existing@, *state)),
{
    let mut out: Vec<Vec<char>> = heading_of(existing);
    let ghost above = text::contents(out@);
    out.push(text::chars_of("# --- written by vkslang-ui ---"));
    let ghost top = above.push("# --- written by vkslang-ui ---"@);
    assert(text::contents(out@) =~= top);
    put_presets(&mut out, state);
    put_fixed(&mut out, state);
    put_params(&mut out, &state.params);
    proof {
        let a = preset_settings(*state);
        let b = fixed_settings(*state);
        let c = parameter_settings(state.params@);
        assert(top + setting_lines(a) + setting_lines(b) + setting_lines(c) =~= top
            + setting_lines(a + b + c));
    }
    text::text_of(text::end_lines(&out).as_slice())
}

// ------------------------------------------------------------------------ laws

/// What counts as changed of two lists of parameters is what does of each, and
/// of a single one it is that one exactly if it can be moved and its value
/// differs from the preset's.
pub proof fn lemma_changed(a: Seq<Param>, b: Seq<Param>, p: Param)
    ensures
        changed(a + b) == changed(a) + changed(b),
        !p.header() && p.modified() ==> changed(seq![p]) == seq![p],
        p.header() || !p.modified() ==> changed(seq![p]) == Seq::<Param>::empty(),
    decreases b.len(),
{
    let none = Seq::<Param>::empty();
    assert(seq![p].drop_last() =~= none);
    assert(changed(none) =~= none);
    assert(none.push(p) =~= seq![p]);
    if b.len() == 0 {
        assert(a + b =~= a);
        assert(changed(a) + changed(b) =~= changed(a));
    } else {
        lemma_changed(a, b.drop_last(), p);
        assert((a + b).drop_last() =~= a + b.drop_last());
        assert((a + b).last() == b.last());
        assert(changed(a + b) =~= changed(a) + changed(b));
    }
}

/// A parameter is saved exactly if it can be moved and its value differs from
/// the preset's, up or down.
pub proof fn lemma_changed_saved(params: Seq<Param>, p: Param)
    ensures
        changed(params).contains(p) <==> params.contains(p) && !p.header() && p.modified(),
    decreases params.len(),
{
    let v = changed(params);
    if params.len() > 0 {
        let front = params.drop_last();
        let before = changed(front);
        lemma_changed_saved(front, p);
        if v.contains(p) {
            let i = choose|i: int| 0 <= i < v.len() && v[i] == p;
            if i < before.len() {
                assert(before[i] == p);
                let j = choose|j: int| 0 <= j < front.len() && front[j] == p;
                assert(params[j] == p);
            } else {
                assert(params[params.len() - 1] == p);
            }
        }
        if params.contains(p) && !p.header() && p.modified() {
            let j = choose|j: int| 0 <= j < params.len() && params[j] == p;
            if j < front.len() {
                assert(front[j] == p);
                let i = choose|i: int| 0 <= i < before.len() && before[i] == p;
                assert(v[i] == p);
            } else {
                assert(v[before.len() as int] == p);
            }
        }
    }
}

/// A `.slangp` file refers to the preset first; then it has a line for every
/// changed parameter, which gives its name and, between quotes, a numeral that
/// reads back as its value.
pub proof fn lemma_slangp(preset: Seq<char>, params: Seq<Param>, i: int)
    requires
        0 <= i < changed(params).len(),
        !changed(params)[i].value.nan(),
    ensures
        slangp_lines(preset, params).len() == changed(params).len() + 1,
        slangp_lines(preset, params)[0] == "#reference \""@ + preset + "\""@,
        exists|t: Seq<char>|
            crate::decimal::written(t) == Some(changed(params)[i].value) && slangp_lines(
                preset,
                params,
            )[i + 1] == #[trigger] (changed(params)[i].name@ + " = \""@ + t + "\""@),
{
    let p = changed(params)[i];
    let t = notation::shown(p.value);
    notation::lemma_written_shown(p.value);
    assert(slangp_lines(preset, params)[i + 1] == slangp_line(p));
    assert(slangp_line(p) == p.name@ + " = \""@ + t + "\""@);
}

/// Factors are written once if they differ by less than a thousandth, and both
/// are if they differ by more.
#[verifier::spinoff_prover]
pub proof fn lemma_close(f: Factors)
    requires
        f.x.finite(),
        f.y.finite(),
        -8 * single::one_in_units() <= f.x.units() <= 8 * single::one_in_units(),
        -8 * single::one_in_units() <= f.y.units() <= 8 * single::one_in_units(),
    ensures
        ({
            let off = accuracy::distance(f.x.units(), f.y.units());
            &&& 1001 * off <= single::one_in_units() ==> factors_text(f) == notation::shown(f.x)
            &&& 999 * off >= single::one_in_units() ==> factors_text(f) == notation::shown(f.x)
                + ","@ + notation::shown(f.y)
        }),
{
    let u = pow2(149) as int;
    let off = accuracy::distance(f.x.units(), f.y.units());
    accuracy::lemma_units();
    accuracy::lemma_difference_size(f.x, f.y);
    lemma_pow2_unfold(129);
    accuracy::lemma_near(off as nat, 1, 129);
    screen::lemma_near_thousandth();
}

/// The keys that saving takes out of a file are those that it writes: the
/// presets, what goes with any state, and parameters.
pub proof fn lemma_managed_is_written(s: State, key: Seq<char>)
    ensures
        managed(key) <==> key == "preset"@ || (exists|j: int|
            0 <= j < fixed_settings(s).len() && (#[trigger] fixed_settings(s)[j]).0 == key)
            || exists|n: Seq<char>| key == #[trigger] ("param."@ + n),
        fixed_settings(s).len() == 11,
{
    let f = fixed_settings(s);
    reveal_strlit("param.");
    if text::begins(key, "param."@) {
        assert(key =~= "param."@ + key.skip(6));
    }
    if exists|n: Seq<char>| key == #[trigger] ("param."@ + n) {
        let n = choose|n: Seq<char>| key == #[trigger] ("param."@ + n);
        assert(("param."@ + n).take(6) =~= "param."@);
    }
    assert(f[0].0 == "source_res"@ && f[1].0 == "pixel_duplicate"@ && f[2].0 == "source_filter"@);
    assert(f[3].0 == "source_rect"@ && f[4].0 == "display_rect"@ && f[5].0 == "display_scale"@);
    assert(f[6].0 == "source_scale"@ && f[7].0 == "brightness_nits"@ && f[8].0 == "expand_gamut"@);
    assert(f[9].0 == "subframes"@ && f[10].0 == "subframe_mode"@);
}

/// What is saved as default is saved where a process looks for it.
pub proof fn lemma_same_file(p: Places)
    ensures
        config::config_place(p) is Some ==> user_config(p) == config::config_place(p)->0,
        p.config is Some ==> user_config(p) == p.config->0@,
{
}

/// A preset derived from another one is called after it.
pub proof fn lemma_custom_name(dir: Seq<char>, stem: Seq<char>)
    requires
        stem.len() > 0,
        forall|i: int| 0 <= i < stem.len() ==> stem[i] != '/',
    ensures
        custom_name(Some(path::within(dir, stem + ".slangp"@))) == stem + "-custom.slangp"@,
        custom_name(None) == "preset-custom.slangp"@,
{
    reveal_strlit(".slangp");
    reveal_strlit("slangp");
    reveal_strlit(".");
    reveal_strlit("..");
    reveal_strlit("preset");
    reveal_strlit("-custom.slangp");
    reveal_strlit("preset-custom.slangp");
    let n = stem + ".slangp"@;
    assert(n =~= stem + seq!['.'] + "slangp"@);
    assert(n.last() == 'p');
    assert forall|i: int| 0 <= i < n.len() implies n[i] != '/' by {
        if i >= stem.len() {
            assert(n[i] == ".slangp"@[i - stem.len()]);
        }
    }
    path::lemma_name_within(dir, n);
    path::lemma_stem(stem, "slangp"@);
    assert(custom_name(None) =~= "preset-custom.slangp"@);
}

/// Blank lines go at the end of the user's lines, and nowhere else: what is left
/// begins as the lines do and ends in a line that says something, and what is
/// gone is blank.
pub proof fn lemma_blank_lines(lines: Seq<Seq<char>>)
    ensures
        ({
            let v = without_blanks(lines);
            &&& v.len() <= lines.len()
            &&& v == lines.take(v.len() as int)
            &&& v.len() > 0 ==> text::trimmed(v.last()).len() > 0
            &&& forall|i: int|
                v.len() <= i < lines.len() ==> text::trimmed(#[trigger] lines[i]).len() == 0
        }),
    decreases lines.len(),
{
    let v = without_blanks(lines);
    if lines.len() > 0 && text::trimmed(lines.last()).len() == 0 {
        let front = lines.drop_last();
        lemma_blank_lines(front);
        assert(front.take(v.len() as int) =~= lines.take(v.len() as int));
        assert forall|i: int| v.len() <= i < lines.len() implies text::trimmed(
            #[trigger] lines[i],
        ).len() == 0 by {
            if i < front.len() {
                assert(lines[i] == front[i]);
            }
        }
    } else {
        assert(lines.take(lines.len() as int) =~= lines);
    }
}

/// A line is the user's unless it sets a key that saving writes; the user's
/// lines stay in their order.
pub proof fn lemma_users_lines(lines: Seq<Seq<char>>, line: Seq<char>)
    ensures
        users_line(line) <==> match entries::assignment(line) {
            Some((key, _)) => !managed(key),
            None => true,
        },
        users_lines(lines.push(line)) == if users_line(line) {
            users_lines(lines).push(line)
        } else {
            users_lines(lines)
        },
{
    assert(lines.push(line).drop_last() =~= lines);
}

/// Above what is written stand the user's lines and a blank one, or nothing.
pub proof fn lemma_heading(existing: Seq<char>)
    ensures
        ({
            let kept = without_blanks(users_lines(text::lines(existing)));
            let h = heading(existing);
            &&& kept.len() == 0 ==> h.len() == 0
            &&& kept.len() > 0 ==> h.len() == kept.len() + 1 && h.drop_last() == kept
                && h.last().len() == 0
        }),
{
    let kept = without_blanks(users_lines(text::lines(existing)));
    if kept.len() > 0 {
        assert(heading(existing).drop_last() =~= kept);
    }
}

} // verus!

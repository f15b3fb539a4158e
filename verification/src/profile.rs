//! Named profiles: a whole look saved under a name, rather than a `.slangp`.
//!
//! A profile holds what the control panel can set on a running game: the
//! preset chain, the parameters the user changed, the source and display
//! geometry, the HDR uniforms and the subframes.

use crate::config::{self, Config, HdrOutput, Places};
use crate::control::{self, Control};
use crate::ipc::{
    self, Counts, Filter, HdrSettings, Param, Request, SourceSettings, SourceSize, State,
};
use crate::order;
use crate::panel;
use crate::params::Values;
use crate::path;
use crate::save;
use crate::single::Single;
use crate::source::{self, Source};
use crate::text;
use vstd::prelude::*;

verus! {

#[derive(Debug, PartialEq)]
pub struct Profile {
    pub name: String,
    pub presets: Vec<String>,
    pub source: SourceSettings,
    pub hdr: HdrSettings,
    pub subframes: u32,
    pub subframe_black: bool,
    /// Only the parameters that differ from the preset's own values.
    pub params: Values,
}

/// Values by name, where what comes later wins.
pub open spec fn collected(params: Seq<Param>) -> Map<Seq<char>, Single>
    decreases params.len(),
{
    if params.len() == 0 {
        Map::empty()
    } else {
        collected(params.drop_last()).insert(params.last().name@, params.last().value)
    }
}

/// The same profile, whatever holds its texts.
pub open spec fn same_profile(a: Profile, b: Profile) -> bool {
    &&& a.name@ == b.name@
    &&& a.presets@ == b.presets@
    &&& a.source == b.source
    &&& a.hdr == b.hdr
    &&& a.subframes == b.subframes
    &&& a.subframe_black == b.subframe_black
    &&& a.params.items@ == b.params.items@
}

/// `p` is what runs, under a name.
pub open spec fn captures(state: State, name: Seq<char>, p: Profile) -> bool {
    &&& p.name@ == text::trimmed(name)
    &&& p.presets@ == state.presets@
    &&& p.source == state.source
    &&& p.hdr == state.hdr
    &&& p.subframes == if state.subframes < 1 {
        1
    } else {
        state.subframes
    }
    &&& p.subframe_black == state.subframe_black
    &&& p.params@ == collected(save::changed(state.params@))
}

/// `c` is what a process with the profile `p` starts from; source settings
/// that make no sense are passed over.
pub open spec fn starts_from(p: Profile, c: Config) -> bool {
    &&& c.presets@ == p.presets@
    &&& source::complaint(p.source) is None ==> source::asked_for(p.source, c.source)
    &&& source::complaint(p.source) is Some ==> {
        &&& c.source.res == SourceSize::Native
        &&& c.source.duplicate == (Counts { x: 1, y: 1 })
        &&& c.source.filter == Filter::Nearest
        &&& c.source.rect_spec@ == "full"@
        &&& c.source.display_spec@ == "full"@
        &&& c.source.display_scale == ipc::unscaled()
        &&& c.source.source_scale == ipc::unscaled()
    }
    &&& c.process@ == Seq::<String>::empty()
    &&& c.params@ == p.params@
    &&& c.ipc
    &&& c.hdr == p.hdr
    &&& c.hdr_output == HdrOutput::Auto
    &&& c.subframes == p.subframes
    &&& c.subframe_black == p.subframe_black
}

fn collect_params(params: &Vec<Param>) -> (r: Values)
    ensures
        r.wf(),
        r@ == collected(save::changed(params@)),
{
    let mut out: Values = Values::new();
    let mut i: usize = 0;
    assert(params@.take(0) =~= Seq::empty());
    while i < params.len()
        invariant
            i <= params@.len(),
            out.wf(),
            out@ == collected(save::changed(params@.take(i as int))),
        decreases params@.len() - i,
    {
        let ghost before = save::changed(params@.take(i as int));
        assert(params@.take(i as int + 1).drop_last() =~= params@.take(i as int));
        assert(params@.take(i as int + 1).last() == params@[i as int]);
        if !params[i].is_header() && params[i].is_modified() {
            out.set(text::chars_of(params[i].name.as_str()).as_slice(), params[i].value);
            assert(before.push(params@[i as int]).drop_last() =~= before);
        }
        i = i + 1;
    }
    assert(params@.take(i as int) =~= params@);
    out
}

impl Profile {
    pub open spec fn wf(&self) -> bool {
        self.params.wf()
    }

    /// Captures what is currently running.
    pub fn from_state(name: &str, state: &State) -> (r: Profile)
        ensures
            r.wf(),
            captures(*state, name@, r),
    {
        Profile {
            name: text::text_of(text::trim(text::chars_of(name).as_slice())),
            presets: config::copy_texts(&state.presets),
            source: state.source.copy(),
            hdr: state.hdr,
            subframes: if state.subframes < 1 {
                1
            } else {
                state.subframes
            },
            subframe_black: state.subframe_black,
            params: collect_params(&state.params),
        }
    }

    pub fn copy(&self) -> (r: Profile)
        requires
            self.wf(),
        ensures
            r.wf(),
            same_profile(r, *self),
    {
        Profile {
            name: self.name.clone(),
            presets: config::copy_texts(&self.presets),
            source: self.source.copy(),
            hdr: self.hdr,
            subframes: self.subframes,
            subframe_black: self.subframe_black,
            params: self.params.copy(),
        }
    }

    /// The configuration that a process with this profile starts from, before
    /// what its file and environment spell out. Source settings that make no
    /// sense are passed over.
    pub fn to_config(&self) -> (r: Config)
        requires
            self.wf(),
        ensures
            r.wf(),
            starts_from(*self, r),
    {
        Config {
            presets: config::copy_texts(&self.presets),
            source: match Source::from_ipc(&self.source) {
                Ok(src) => src,
                Err(_) => Source::default(),
            },
            process: Vec::new(),
            params: self.params.copy(),
            ipc: true,
            hdr: self.hdr,
            hdr_output: HdrOutput::Auto,
            subframes: self.subframes,
            subframe_black: self.subframe_black,
        }
    }
}

/// The directory of the profiles.
pub open spec fn profiles_place(p: Places) -> Seq<char> {
    let base = match config::config_base(p) {
        Some(b) => b,
        None => "."@,
    };
    path::within(path::within(base, "vkSlang"@), "profiles"@)
}

/// The directory of the profiles.
pub fn dir(p: &Places) -> (r: String)
    ensures
        r@ == profiles_place(*p),
{
    let base: String = match config::base_dir(p) {
        Some(b) => b,
        None => text::text_of(text::chars_of(".").as_slice()),
    };
    path::join_text(path::join_text(base.as_str(), "vkSlang").as_str(), "profiles")
}

// ------------------------------------------------------------------- file names

/// Whether Unicode calls the character a letter or a number.
pub uninterp spec fn alphanumeric(c: char) -> bool;

/// A letter or a digit of ASCII.
pub open spec fn ascii_letter(c: char) -> bool {
    '0' <= c <= '9' || 'A' <= c <= 'Z' || 'a' <= c <= 'z'
}

/// `char::is_alphanumeric` of the standard library. Its result is a function
/// of the character alone, by the tables of Unicode; among the ASCII
/// characters, it holds for the digits and the letters.
#[verifier::external_body]
fn is_alphanumeric(c: char) -> (r: bool)
    ensures
        r == alphanumeric(c),
        c <= '\u{7f}' ==> r == ascii_letter(c),
{
    c.is_alphanumeric()
}

/// A character that a file name can have as it is.
pub open spec fn safe_char(c: char) -> bool {
    alphanumeric(c) || c == ' ' || c == '-' || c == '_' || c == '.'
}

/// `s` with an underscore in place of what a file name should not have.
pub open spec fn cleaned(s: Seq<char>) -> Seq<char> {
    Seq::new(
        s.len(),
        |i: int|
            if safe_char(s[i]) {
                s[i]
            } else {
                '_'
            },
    )
}

/// File name of the profile called `name`.
pub open spec fn profile_file(name: Seq<char>) -> Seq<char> {
    text::trimmed(cleaned(text::trimmed(name))) + ".json"@
}

/// No `/` in `s`.
pub open spec fn no_slash(s: Seq<char>) -> bool {
    forall|i: int| 0 <= i < s.len() ==> s[i] != '/'
}

proof fn lemma_trimmed_no_slash(s: Seq<char>)
    requires
        no_slash(s),
    ensures
        no_slash(text::trimmed(s)),
{
    lemma_start_no_slash(s);
    lemma_end_no_slash(text::trimmed_start(s));
}

proof fn lemma_start_no_slash(s: Seq<char>)
    requires
        no_slash(s),
    ensures
        no_slash(text::trimmed_start(s)),
    decreases s.len(),
{
    if s.len() > 0 && text::space(s[0]) {
        assert(forall|i: int| 0 <= i < s.drop_first().len() ==> s.drop_first()[i] == s[i + 1]);
        lemma_start_no_slash(s.drop_first());
    }
}

proof fn lemma_end_no_slash(s: Seq<char>)
    requires
        no_slash(s),
    ensures
        no_slash(text::trimmed_end(s)),
    decreases s.len(),
{
    if s.len() > 0 && text::space(s.last()) {
        lemma_end_no_slash(s.drop_last());
    }
}

/// A text without a slash that ends in `n` is one file name.
proof fn lemma_one_name(s: Seq<char>)
    requires
        s.len() > 0,
        no_slash(s),
        s.last() == 'n',
    ensures
        path::name_of(s) == Some(s),
{
    assert(path::tidied(s) == s);
    lemma_no_last(s, '/');
    assert(s.skip(0) =~= s);
    reveal_strlit(".");
    reveal_strlit("..");
    assert("."@.last() == '.');
    assert(".."@.last() == '.');
}

proof fn lemma_no_last(s: Seq<char>, c: char)
    requires
        forall|i: int| 0 <= i < s.len() ==> s[i] != c,
    ensures
        path::through_last(s, c) == 0,
    decreases s.len(),
{
    if s.len() > 0 {
        lemma_no_last(s.drop_last(), c);
    }
}

/// What of a character may stand in a file name, given whether it is a letter
/// or a number.
pub open spec fn safe_as(c: char, letter: bool) -> char {
    if letter || c == ' ' || c == '-' || c == '_' || c == '.' {
        c
    } else {
        '_'
    }
}

/// File name made of the characters of a trimmed name, given which of them are
/// letters or numbers.
pub open spec fn file_of(t: Seq<char>, letters: Seq<bool>) -> Seq<char> {
    text::trimmed(Seq::new(t.len(), |i: int| safe_as(t[i], letters[i]))) + ".json"@
}

/// File name made of the characters of a trimmed name, given which of them are
/// letters or numbers; the slash is neither.
pub fn clean_name(t: &[char], letters: &Vec<bool>) -> (r: String)
    requires
        letters@.len() == t@.len(),
        forall|i: int| 0 <= i < t@.len() && (#[trigger] letters@[i]) ==> t@[i] != '/',
    ensures
        r@ == file_of(t@, letters@),
        no_slash(r@),
        path::name_of(r@) == Some(r@),
{
    let ghost all = Seq::new(t@.len(), |i: int| safe_as(t@[i], letters@[i]));
    let mut out: Vec<char> = Vec::new();
    let mut i: usize = 0;
    while i < t.len()
        invariant
            i <= t@.len(),
            letters@.len() == t@.len(),
            forall|i: int| 0 <= i < t@.len() && (#[trigger] letters@[i]) ==> t@[i] != '/',
            all == Seq::new(t@.len(), |i: int| safe_as(t@[i], letters@[i])),
            out@ == all.take(i as int),
            no_slash(out@),
        decreases t@.len() - i,
    {
        let x: char = t[i];
        if letters[i] || x == ' ' || x == '-' || x == '_' || x == '.' {
            out.push(x);
        } else {
            out.push('_');
        }
        i = i + 1;
        assert(out@ =~= all.take(i as int));
    }
    assert(all.take(i as int) =~= all);
    let mut full: Vec<char> = text::copied(text::trim(out.as_slice()));
    proof {
        lemma_trimmed_no_slash(out@);
        reveal_strlit(".json");
    }
    let ghost front = full@;
    text::append_text(&mut full, ".json");
    proof {
        assert forall|j: int| 0 <= j < full@.len() implies full@[j] != '/' by {
            if j < front.len() {
                assert(full@[j] == front[j]);
            } else {
                assert(full@[j] == ".json"@[j - front.len()]);
            }
        }
        lemma_one_name(full@);
    }
    text::text_of(full.as_slice())
}

/// File name of the profile with that name of ASCII text: every character but
/// letters, digits, the blank, `-`, `_` and `.` becomes `_`.
pub open spec fn ascii_file(name: Seq<char>) -> Seq<char> {
    let t = text::trimmed(name);
    file_of(t, Seq::new(t.len(), |i: int| ascii_letter(t[i])))
}

/// Keeps a name usable as a file name, without surprising the user with a
/// path of their own making: the result is one file name, whatever the name.
pub fn file_name(name: &str) -> (r: String)
    ensures
        r@ == profile_file(name@),
        text::ascii(name@) ==> r@ == ascii_file(name@),
        no_slash(r@),
        path::name_of(r@) == Some(r@),
{
    let c: Vec<char> = text::chars_of(name);
    let t: &[char] = text::trim(c.as_slice());
    let mut letters: Vec<bool> = Vec::new();
    let mut i: usize = 0;
    while i < t.len()
        invariant
            i <= t@.len(),
            letters@.len() == i,
            forall|j: int| 0 <= j < i ==> (#[trigger] letters@[j]) == alphanumeric(t@[j]),
            forall|j: int|
                0 <= j < i && t@[j] <= '\u{7f}' ==> (#[trigger] letters@[j]) == ascii_letter(t@[j]),
            forall|j: int| 0 <= j < i && (#[trigger] letters@[j]) ==> t@[j] != '/',
        decreases t@.len() - i,
    {
        letters.push(is_alphanumeric(t[i]));
        i = i + 1;
    }
    assert(cleaned(t@) =~= Seq::new(t@.len(), |i: int| safe_as(t@[i], letters@[i])));
    proof {
        if text::ascii(name@) {
            text::lemma_ascii_trimmed(name@);
            assert(letters@ =~= Seq::new(t@.len(), |i: int| ascii_letter(t@[i])));
        }
    }
    clean_name(t, &letters)
}

/// Where a profile is saved in `dir`; it needs a name.
pub fn path_in(dir: &str, profile: &Profile) -> (r: Result<String, String>)
    ensures
        match r {
            Ok(p) => text::trimmed(profile.name@).len() > 0 && p@ == path::within(
                dir@,
                profile_file(profile.name@),
            ) && (text::ascii(profile.name@) ==> p@ == path::within(
                dir@,
                ascii_file(profile.name@),
            )),
            Err(e) => text::trimmed(profile.name@).len() == 0 && e@ == "a profile needs a name"@,
        },
{
    let c: Vec<char> = text::chars_of(profile.name.as_str());
    if text::trim(c.as_slice()).len() == 0 {
        return Err(text::text_of(text::chars_of("a profile needs a name").as_slice()));
    }
    Ok(path::join_text(dir, file_name(profile.name.as_str()).as_str()))
}

/// The file is one of a profile.
pub fn is_profile_file(name: &str) -> (r: bool)
    ensures
        r == (path::extension_of(name@) == Some("json"@)),
{
    match path::extension(text::chars_of(name).as_slice()) {
        Some(e) => text::same_text(e, "json"),
        None => false,
    }
}

/// The names of the profiles in lower case.
pub open spec fn sort_keys(v: Seq<Profile>) -> Seq<Seq<char>> {
    Seq::new(v.len(), |i: int| save::lowercase(v[i].name@))
}

/// The names of the profiles, ASCII letters in lower case.
pub open spec fn ascii_sort_keys(v: Seq<Profile>) -> Seq<Seq<char>> {
    Seq::new(v.len(), |i: int| text::lowered(v[i].name@))
}

/// `r` holds the profiles of `v` in the order of the keys.
pub open spec fn arranged_by(v: Seq<Profile>, keys: Seq<Seq<char>>, r: Seq<Profile>) -> bool {
    exists|o: Seq<usize>| #[trigger]
        order::is_order(keys, o) && r.len() == v.len() && forall|i: int|
            0 <= i < r.len() ==> same_profile(#[trigger] r[i], v[o[i] as int])
}

/// The profiles in the order of their keys.
pub fn list_by(profiles: &Vec<Profile>, keys: &Vec<Vec<char>>) -> (r: Vec<Profile>)
    requires
        keys@.len() == profiles@.len(),
        forall|i: int| 0 <= i < profiles@.len() ==> (#[trigger] profiles@[i]).wf(),
    ensures
        arranged_by(profiles@, text::contents(keys@), r@),
        forall|i: int| 0 <= i < r@.len() ==> (#[trigger] r@[i]).wf(),
{
    let places: Vec<usize> = order::order(keys);
    let ghost all = text::contents(keys@);
    let mut out: Vec<Profile> = Vec::new();
    let mut j: usize = 0;
    while j < places.len()
        invariant
            j <= places@.len(),
            order::is_order(all, places@),
            all.len() == profiles@.len(),
            out@.len() == j,
            forall|k: int| 0 <= k < profiles@.len() ==> (#[trigger] profiles@[k]).wf(),
            forall|k: int| 0 <= k < j ==> (#[trigger] out@[k]).wf(),
            forall|k: int|
                0 <= k < j ==> same_profile(#[trigger] out@[k], profiles@[places@[k] as int]),
        decreases places@.len() - j,
    {
        assert(places@[j as int] < all.len());
        out.push(profiles[places[j]].copy());
        j = j + 1;
    }
    assert(order::is_order(all, places@));
    out
}

/// Every profile, by name; those of the same name keep their order.
pub fn list(profiles: &Vec<Profile>) -> (r: Vec<Profile>)
    requires
        forall|i: int| 0 <= i < profiles@.len() ==> (#[trigger] profiles@[i]).wf(),
    ensures
        arranged_by(profiles@, sort_keys(profiles@), r@),
        (forall|i: int| 0 <= i < profiles@.len() ==> text::ascii((#[trigger] profiles@[i]).name@))
            ==> arranged_by(profiles@, ascii_sort_keys(profiles@), r@),
        forall|i: int| 0 <= i < r@.len() ==> (#[trigger] r@[i]).wf(),
{
    let mut keys: Vec<Vec<char>> = Vec::new();
    let mut i: usize = 0;
    while i < profiles.len()
        invariant
            i <= profiles@.len(),
            text::contents(keys@) == sort_keys(profiles@).take(i as int),
            keys@.len() == i,
            forall|j: int|
                0 <= j < i && text::ascii(profiles@[j].name@) ==> (#[trigger] keys@[j])@
                    == text::lowered(profiles@[j].name@),
        decreases profiles@.len() - i,
    {
        let ghost before = text::contents(keys@);
        let key: Vec<char> = text::chars_of(
            save::to_lowercase(profiles[i].name.as_str()).as_str(),
        );
        keys.push(key);
        assert(text::contents(keys@) =~= before.push(key@));
        assert(before.push(key@) =~= sort_keys(profiles@).take(i as int + 1));
        i = i + 1;
    }
    assert(sort_keys(profiles@).take(i as int) =~= sort_keys(profiles@));
    proof {
        if forall|j: int| 0 <= j < profiles@.len() ==> text::ascii((#[trigger] profiles@[j]).name@) {
            assert forall|j: int| 0 <= j < profiles@.len() implies text::contents(keys@)[j]
                == ascii_sort_keys(profiles@)[j] by {
                assert(text::ascii(profiles@[j].name@));
                assert(keys@[j]@ == text::lowered(profiles@[j].name@));
            }
            assert(text::contents(keys@) =~= ascii_sort_keys(profiles@));
        }
    }
    list_by(profiles, &keys)
}

/// What a profile keeps is what counts as changed: a parameter at the preset's
/// value is not in it.
pub proof fn lemma_only_changed_kept(params: Seq<Param>, n: Seq<char>)
    requires
        collected(save::changed(params)).contains_key(n),
    ensures
        exists|i: int|
            0 <= i < params.len() && (#[trigger] params[i]).name@ == n && save::touched(params[i]),
    decreases params.len(),
{
    if params.len() > 0 {
        let front = params.drop_last();
        let c = save::changed(front);
        assert(c.push(params.last()).drop_last() =~= c);
        if save::touched(params.last()) && params.last().name@ == n {
            assert(params[params.len() - 1].name@ == n);
        } else {
            lemma_only_changed_kept(front, n);
            let i = choose|i: int|
                0 <= i < front.len() && (#[trigger] front[i]).name@ == n && save::touched(front[i]);
            assert(params[i] == front[i]);
        }
    }
}

// --------------------------------------------------------------------- applying

/// The requests that put a profile back on a running process, but for its
/// parameters.
pub open spec fn puts_back(p: Profile, v: Seq<Request>) -> bool {
    let n = if p.presets@.len() > 0 {
        1int
    } else {
        0
    };
    &&& v.len() == n + 3
    &&& n == 1 ==> (v[0] matches Request::LoadPreset { path } && path@ == text::joined(
        text::texts(p.presets@),
        ","@,
    ))
    &&& v[n] == (Request::SetSource { source: p.source })
    &&& v[n + 1] == (Request::SetHdr { hdr: p.hdr })
    &&& v[n + 2] == (Request::SetSubframes { subframes: p.subframes, black: p.subframe_black })
}

/// The request sets a parameter.
pub open spec fn sets_value(r: Request, name: Seq<char>, value: Single) -> bool {
    match r {
        Request::SetParam { name: n, value: v } => n@ == name && v == value,
        _ => false,
    }
}

impl Profile {
    /// The requests that put the profile back on a running process, but for
    /// its parameters.
    pub fn requests(&self) -> (r: Vec<Request>)
        ensures
            puts_back(*self, r@),
    {
        let mut out: Vec<Request> = Vec::new();
        if self.presets.len() > 0 {
            out.push(Request::LoadPreset { path: panel::join_paths(&self.presets) });
        }
        out.push(Request::SetSource { source: self.source.copy() });
        out.push(Request::SetHdr { hdr: self.hdr });
        out.push(
            Request::SetSubframes { subframes: self.subframes, black: self.subframe_black },
        );
        out
    }

    /// The requests that set its parameters, once the presets run.
    pub fn param_requests(&self) -> (r: Vec<Request>)
        requires
            self.wf(),
        ensures
            r@.len() == self.params.items@.len(),
            forall|i: int|
                0 <= i < r@.len() ==> sets_value(
                    #[trigger] r@[i],
                    self.params.items@[i].0@,
                    self.params.items@[i].1,
                ),
    {
        let mut out: Vec<Request> = Vec::new();
        let mut i: usize = 0;
        while i < self.params.items.len()
            invariant
                i <= self.params.items@.len(),
                out@.len() == i,
                forall|j: int|
                    0 <= j < i ==> sets_value(
                        #[trigger] out@[j],
                        self.params.items@[j].0@,
                        self.params.items@[j].1,
                    ),
            decreases self.params.items@.len() - i,
        {
            out.push(
                Request::SetParam {
                    name: self.params.items[i].0.clone(),
                    value: self.params.items[i].1,
                },
            );
            i = i + 1;
        }
        out
    }
}

/// A process that loads a profile, and spells out nothing else, starts with
/// what ran when the profile was made.
pub proof fn lemma_profile_restores(
    state: State,
    name: Seq<char>,
    p: Profile,
    base: Config,
    c: Config,
)
    requires
        captures(state, name, p),
        starts_from(p, base),
        config::loaded(Map::empty(), base, c),
        source::complaint(state.source) is None,
    ensures
        text::texts(c.presets@) == text::texts(state.presets@),
        source::asked_for(state.source, c.source),
        c.hdr == config::sanitized_hdr(state.hdr),
        c.subframes == config::allowed_subframes(state.subframes),
        c.subframe_black == state.subframe_black,
        c.params@ == collected(save::changed(state.params@)),
{
    config::lemma_nothing_spelled_out(base, c);
}

/// A profile that was put back is in effect: the presets are being loaded, in
/// their order if they can be told apart in a list, and the source, the HDR settings and the subframes are those of the profile.
pub proof fn lemma_put_back(
    p: Profile,
    v: Seq<Request>,
    files: Seq<bool>,
    c: Control,
    c1: Control,
    c2: Control,
    c3: Control,
    c4: Control,
)
    requires
        puts_back(p, v),
        p.presets@.len() > 0,
        control::accepted(c, v[0], files, c1),
        control::accepted(c1, v[1], files, c2),
        control::accepted(c2, v[2], files, c3),
        control::accepted(c3, v[3], files, c4),
    ensures
        c4.loading,
        text::texts(c4.presets@) == control::chain_of(
            text::joined(text::texts(p.presets@), ","@),
            files,
        ),
        config::separable(text::texts(p.presets@)) && (p.presets@.len() > 1 ==> !control::is_there(
            files,
            0,
        )) ==> text::texts(c4.presets@) == text::texts(p.presets@),
        exists|src: Source| #[trigger] source::asked_for(p.source, src) && (c4.source == src
            || control::same_source(src, c4.source)),
        c4.hdr == config::sanitized_hdr(p.hdr),
        c4.subframes == config::allowed_subframes(p.subframes),
        c4.subframe_black == p.subframe_black,
{
    let v0 = text::texts(p.presets@);
    if config::separable(v0) && (v0.len() > 1 ==> !control::is_there(files, 0)) {
        control::lemma_chain_reads_back(v0, files);
    }
}

/// A profile keeps the last value of every parameter that was changed.
pub proof fn lemma_collected(params: Seq<Param>, i: int)
    requires
        0 <= i < params.len(),
        forall|j: int| i < j < params.len() ==> (#[trigger] params[j]).name@ != params[i].name@,
    ensures
        collected(params).contains_key(params[i].name@),
        collected(params)[params[i].name@] == params[i].value,
    decreases params.len(),
{
    if i < params.len() - 1 {
        let front = params.drop_last();
        assert forall|j: int| i < j < front.len() implies (#[trigger] front[j]).name@
            != front[i].name@ by {
            assert(front[j] == params[j]);
        }
        lemma_collected(front, i);
        assert(params[params.len() - 1].name@ != params[i].name@);
    }
}

/// Every parameter that can be moved and that was changed is in a profile of
/// what runs, under its name.
pub proof fn lemma_changed_kept(state: State, name: Seq<char>, p: Profile, i: int)
    requires
        captures(state, name, p),
        0 <= i < state.params@.len(),
        !state.params@[i].header(),
        state.params@[i].modified(),
    ensures
        p.params@.contains_key(state.params@[i].name@),
{
    let q = state.params@[i];
    let v = save::changed(state.params@);
    save::lemma_changed_saved(state.params@, q);
    assert(state.params@.contains(q));
    let j = choose|j: int| 0 <= j < v.len() && v[j] == q;
    lemma_collects_all(v, j);
}

proof fn lemma_collects_all(params: Seq<Param>, i: int)
    requires
        0 <= i < params.len(),
    ensures
        collected(params).contains_key(params[i].name@),
    decreases params.len(),
{
    if i < params.len() - 1 {
        lemma_collects_all(params.drop_last(), i);
    }
}

/// A profile holds what runs: presets, source, HDR settings and presentations
/// as they are, under the name without blanks around it.
pub proof fn lemma_captured(state: State, name: Seq<char>, p: Profile)
    requires
        captures(state, name, p),
    ensures
        p.name@ == text::trimmed(name),
        p.presets@ == state.presets@,
        p.source == state.source,
        p.hdr == state.hdr,
        state.subframes >= 1 ==> p.subframes == state.subframes,
        p.subframe_black == state.subframe_black,
{
}

/// Source settings that make no sense do not keep a profile from being used.
pub proof fn lemma_bad_source_passed_over(p: Profile, c: Config)
    requires
        starts_from(p, c),
        source::complaint(p.source) is Some,
    ensures
        c.presets@ == p.presets@,
        c.source.res == SourceSize::Native,
        c.source.rect_spec@ == "full"@,
        c.source.display_scale == ipc::unscaled(),
        c.hdr == p.hdr,
        c.params@ == p.params@,
        c.subframes == p.subframes,
{
}

/// The requests that put a profile back are those for its presets, if it has
/// any, then for its source, its HDR settings and its presentations.
pub proof fn lemma_requests(p: Profile, v: Seq<Request>)
    requires
        puts_back(p, v),
    ensures
        p.presets@.len() > 0 ==> v.len() == 4 && v[0] is LoadPreset,
        p.presets@.len() == 0 ==> v.len() == 3,
        v[v.len() - 3] == (Request::SetSource { source: p.source }),
        v[v.len() - 2] == (Request::SetHdr { hdr: p.hdr }),
        v[v.len() - 1] == (Request::SetSubframes {
            subframes: p.subframes,
            black: p.subframe_black,
        }),
{
}

/// A name of letters, digits, blanks, `-`, `_` and `.` is the name of its file;
/// every other ASCII character becomes `_`, and the rest stays in its place.
pub proof fn lemma_file_names(name: Seq<char>)
    requires
        text::trimmed(name) == name,
    ensures
        ({
            let kept = |c: char| ascii_letter(c) || c == ' ' || c == '-' || c == '_' || c == '.';
            let made = Seq::new(
                name.len(),
                |i: int|
                    if kept(name[i]) {
                        name[i]
                    } else {
                        '_'
                    },
            );
            ascii_file(name) == made + ".json"@
        }),
        (forall|i: int| 0 <= i < name.len() ==> ascii_letter(#[trigger] name[i]) || name[i] == '-')
            ==> ascii_file(name) == name + ".json"@,
{
    let kept = |c: char| ascii_letter(c) || c == ' ' || c == '-' || c == '_' || c == '.';
    let made = Seq::new(
        name.len(),
        |i: int|
            if kept(name[i]) {
                name[i]
            } else {
                '_'
            },
    );
    let letters = Seq::new(name.len(), |i: int| ascii_letter(name[i]));
    let all = Seq::new(name.len(), |i: int| safe_as(name[i], letters[i]));
    assert(all =~= made);
    text::lemma_trimmed_ends(name);
    if name.len() > 0 {
        assert(!text::space(made[0])) by {
            if kept(name[0]) {
                assert(made[0] == name[0]);
            }
        }
        assert(!text::space(made.last())) by {
            if kept(name.last()) {
                assert(made.last() == name.last());
            }
        }
    }
    text::lemma_trimmed_same(made);
    if forall|i: int|
        0 <= i < name.len() ==> ascii_letter(#[trigger] name[i]) || name[i] == '-' {
        assert(made =~= name);
    }
}

/// Profiles are listed by name, whatever the case, each of them once.
pub proof fn lemma_listed_by_name(v: Seq<Profile>, keys: Seq<Seq<char>>, r: Seq<Profile>, i: int, j: int)
    requires
        arranged_by(v, keys, r),
        keys == ascii_sort_keys(v),
        0 <= i < j < r.len(),
    ensures
        r.len() == v.len(),
        !text::sorts_before(text::lowered(r[j].name@), text::lowered(r[i].name@)),
{
    let o = choose|o: Seq<usize>| #[trigger]
        order::is_order(keys, o) && r.len() == v.len() && forall|i: int|
            0 <= i < r.len() ==> same_profile(#[trigger] r[i], v[o[i] as int]);
    assert(same_profile(r[i], v[o[i] as int]) && same_profile(r[j], v[o[j] as int]));
    assert(o[i] < keys.len() && o[j] < keys.len());
    assert(order::goes_before(keys, o[i] as int, o[j] as int));
    text::lemma_order_total(keys[o[i] as int], keys[o[j] as int]);
}

/// Profiles live beside the configuration file of the same directory.
pub proof fn lemma_profiles_place(p: Places)
    requires
        p.config is None,
    ensures
        match config::config_base(p) {
            Some(b) => {
                &&& profiles_place(p) == path::within(path::within(b, "vkSlang"@), "profiles"@)
                &&& config::config_place(p) == Some(
                    path::within(path::within(b, "vkSlang"@), "vkSlang.conf"@),
                )
            },
            None => profiles_place(p) == path::within(
                path::within("."@, "vkSlang"@),
                "profiles"@,
            ),
        },
{
}

/// In a file name, letters and numbers of any script, blanks, `-`, `_` and `.`
/// stay, and every other character becomes `_`.
pub proof fn lemma_profile_file(name: Seq<char>)
    requires
        text::trimmed(name) == name,
    ensures
        ({
            let kept = |c: char| alphanumeric(c) || c == ' ' || c == '-' || c == '_' || c == '.';
            let made = Seq::new(
                name.len(),
                |i: int|
                    if kept(name[i]) {
                        name[i]
                    } else {
                        '_'
                    },
            );
            profile_file(name) == made + ".json"@
        }),
{
    let kept = |c: char| alphanumeric(c) || c == ' ' || c == '-' || c == '_' || c == '.';
    let made = Seq::new(
        name.len(),
        |i: int|
            if kept(name[i]) {
                name[i]
            } else {
                '_'
            },
    );
    assert(cleaned(name) =~= made);
    text::lemma_trimmed_ends(name);
    if name.len() > 0 {
        assert(!text::space(made[0])) by {
            if kept(name[0]) {
                assert(made[0] == name[0]);
            }
        }
        assert(!text::space(made.last())) by {
            if kept(name.last()) {
                assert(made.last() == name.last());
            }
        }
    }
    text::lemma_trimmed_same(made);
}

} // verus!

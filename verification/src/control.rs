//! State shared between the control socket, which writes the desired settings,
//! and the presenting threads, which apply them and publish their status.
//!
//! Settings carry generation counters: each device compares them with the
//! generation it last applied, so changes are applied exactly once per device,
//! on its own presenting thread.

use crate::accuracy;
use crate::config::{self, Config};
use crate::ipc::{
    self, Capture, ColorSpace, HdrSettings, Output, Param, Request, Response, SourceSettings, State,
    PROTOCOL_VERSION,
};
use crate::params::Values;
use crate::screen;
use crate::single::{self, Single};
use crate::source::{self, Source, SourceRect};
use crate::text;
use vstd::prelude::*;

verus! {

pub struct Control {
    // ---- desired (written on request) ----
    pub enabled: bool,
    pub presets: Vec<String>,
    pub preset_gen: u64,
    /// User overrides on top of the preset's own values.
    pub overrides: Values,
    pub params_gen: u64,
    pub source: Source,
    pub source_gen: u64,
    /// Read every frame, no generation needed.
    pub hdr: HdrSettings,
    pub subframes: u32,
    pub subframe_black: bool,
    /// Kept for the protocol; the layer reserves no images.
    pub subframes_max: u32,
    // ---- published (written by the runtime) ----
    pub running_presets: Vec<String>,
    pub loading: bool,
    pub error: Option<String>,
    pub params: Vec<Param>,
    pub preset_color_space: Option<ColorSpace>,
    pub outputs: Vec<Output>,
    pub source_fps: Single,
    pub present_fps: Single,
    /// Pending capture request (maximum width), honoured on the next frame.
    pub capture_request: Option<u32>,
    pub capture: Option<Capture>,
}

// --------------------------------------------------------------------- reports

/// `s` says all there is to say about `c`.
pub open spec fn reported(c: Control, pid: u32, process: Seq<char>, s: State) -> bool {
    &&& s.protocol == PROTOCOL_VERSION
    &&& s.pid == pid
    &&& s.process@ == process
    &&& s.enabled == c.enabled
    &&& s.presets@ == c.running_presets@
    &&& s.loading == c.loading
    &&& s.error == c.error
    &&& source::described(c.source, s.source)
    &&& s.outputs@ == c.outputs@
    &&& s.preset_color_space == c.preset_color_space
    &&& s.hdr == c.hdr
    &&& s.source_fps == c.source_fps
    &&& s.present_fps == c.present_fps
    &&& s.subframes == c.subframes
    &&& s.subframe_black == c.subframe_black
    &&& s.subframes_max == c.subframes_max
    &&& s.params@ == c.params@
    &&& s.capture == c.capture
}

/// Value a parameter should have: user override, else preset value.
pub open spec fn value_of(overrides: Map<Seq<char>, Single>, name: Seq<char>, initial: Single) -> Single {
    if overrides.contains_key(name) {
        overrides[name]
    } else {
        initial
    }
}

// -------------------------------------------------------------------- requests

/// `p` with another value.
pub open spec fn revalued(p: Param, value: Single) -> Param {
    Param { value, ..p }
}

/// Whether a parameter of that name is known.
pub open spec fn known(params: Seq<Param>, name: Seq<char>) -> bool {
    exists|i: int| 0 <= i < params.len() && (#[trigger] params[i]).name@ == name
}

/// `params` with a new value for the first one called `name`.
pub open spec fn with_value(params: Seq<Param>, name: Seq<char>, value: Single) -> Seq<Param>
    decreases params.len(),
{
    if params.len() == 0 {
        params
    } else if params[0].name@ == name {
        seq![revalued(params[0], value)] + params.drop_first()
    } else {
        seq![params[0]] + with_value(params.drop_first(), name, value)
    }
}

/// `params` with the preset's values.
pub open spec fn reset(params: Seq<Param>) -> Seq<Param> {
    Seq::new(params.len(), |i: int| revalued(params[i], params[i].initial))
}

/// The files that a request to load a preset may mean: the path as it is, and
/// the parts between its commas.
pub open spec fn candidates(path: Seq<char>) -> Seq<Seq<char>> {
    seq![path] + config::items_of(path)
}

/// Whether the `i`th candidate was found to be a file.
pub open spec fn is_there(files: Seq<bool>, i: int) -> bool {
    0 <= i < files.len() && files[i]
}

/// The first part, from the `i`th on, that is not a file.
pub open spec fn first_missing(parts: Seq<Seq<char>>, files: Seq<bool>, i: int) -> Option<Seq<char>>
    decreases parts.len() - i,
{
    if i < 0 || i >= parts.len() {
        None
    } else if !is_there(files, i + 1) {
        Some(parts[i])
    } else {
        first_missing(parts, files, i + 1)
    }
}

/// The presets that `path` stands for: one file, or several separated by
/// commas.
pub open spec fn chain_of(path: Seq<char>, files: Seq<bool>) -> Seq<Seq<char>> {
    if is_there(files, 0) {
        seq![path]
    } else {
        config::items_of(path)
    }
}

/// The file that keeps `path` from being loaded.
pub open spec fn missing_of(path: Seq<char>, files: Seq<bool>) -> Option<Seq<char>> {
    let parts = config::items_of(path);
    if is_there(files, 0) {
        None
    } else if text::run(path, ',', ',') == path.len() || parts.len() == 0 {
        Some(path)
    } else {
        first_missing(parts, files, 0)
    }
}

proof fn lemma_none_missing(parts: Seq<Seq<char>>, files: Seq<bool>, i: int)
    requires
        0 <= i <= parts.len(),
    ensures
        first_missing(parts, files, i) is None <==> forall|j: int|
            i <= j < parts.len() ==> #[trigger] is_there(files, j + 1),
    decreases parts.len() - i,
{
    if i < parts.len() {
        lemma_none_missing(parts, files, i + 1);
        if first_missing(parts, files, i) is None {
            assert forall|j: int| i <= j < parts.len() implies #[trigger] is_there(
                files,
                j + 1,
            ) by {
                assert(j == i || j >= i + 1);
            }
        } else {
            assert(!is_there(files, i + 1) || first_missing(parts, files, i + 1) is Some);
        }
    }
}

/// A chain that is asked for arrives as it was picked: the paths that are
/// looked for are those of the chain, it is refused only if one of them is no
/// file, and it is the one that is loaded. The paths can be told apart in a
/// list, and several of them are not the name of a file together.
pub proof fn lemma_chain_reads_back(v: Seq<Seq<char>>, files: Seq<bool>)
    requires
        v.len() > 0,
        config::separable(v),
        v.len() > 1 ==> !is_there(files, 0),
    ensures
        candidates(text::joined(v, ","@)) == seq![text::joined(v, ","@)] + v,
        chain_of(text::joined(v, ","@), files) == v,
        v.len() > 1 ==> (missing_of(text::joined(v, ","@), files) is None <==> forall|j: int|
            0 <= j < v.len() ==> #[trigger] is_there(files, j + 1)),
        v.len() == 1 ==> (missing_of(text::joined(v, ","@), files) is None <==> is_there(files, 0)),
{
    let s = text::joined(v, ","@);
    config::lemma_items_joined(v, ","@);
    lemma_none_missing(v, files, 0);
    text::lemma_run_bound(s, ',', ',');
    if v.len() == 1 {
        assert(v[0].len() > 0);
        assert(s == v[0]);
        text::lemma_run(s, ',', ',', s.len());
        assert(seq![s] =~= v);
    } else {
        reveal_strlit(",");
        let a = text::joined(v.drop_last(), ","@);
        assert(s[a.len() as int] == ',');
    }
}

/// Why a request is refused, if it is.
pub open spec fn refusal(c: Control, request: Request, files: Seq<bool>) -> Option<Seq<char>> {
    match request {
        Request::SetParam { name, value } => if !value.finite() {
            Some("value must be finite"@)
        } else if c.params@.len() > 0 && !known(c.params@, name@) {
            Some("unknown parameter '"@ + name@ + "'"@)
        } else {
            None
        },
        Request::LoadPreset { path } => match missing_of(path@, files) {
            Some(p) => Some(p + " does not exist"@),
            None => None,
        },
        Request::SetSource { source } => source::complaint(source),
        _ => None,
    }
}

pub open spec fn same_rect(a: SourceRect, b: SourceRect) -> bool {
    match (a, b) {
        (SourceRect::Full, SourceRect::Full) => true,
        (SourceRect::Aspect(x), SourceRect::Aspect(y)) => single::equal(x, y),
        (SourceRect::Explicit(x), SourceRect::Explicit(y)) => x == y,
        _ => false,
    }
}

pub open spec fn same_size(a: ipc::SourceSize, b: ipc::SourceSize) -> bool {
    match (a, b) {
        (ipc::SourceSize::Native, ipc::SourceSize::Native) => true,
        (ipc::SourceSize::Divide { by: x }, ipc::SourceSize::Divide { by: y }) => single::equal(x, y),
        (ipc::SourceSize::Fixed { size: x }, ipc::SourceSize::Fixed { size: y }) => x == y,
        _ => false,
    }
}

pub open spec fn same_factors(a: ipc::Factors, b: ipc::Factors) -> bool {
    single::equal(a.x, b.x) && single::equal(a.y, b.y)
}

/// Two sources that go by the same settings.
pub open spec fn same_source(a: Source, b: Source) -> bool {
    &&& same_size(a.res, b.res)
    &&& a.duplicate == b.duplicate
    &&& a.filter == b.filter
    &&& same_rect(a.rect, b.rect)
    &&& a.rect_spec@ == b.rect_spec@
    &&& same_rect(a.display, b.display)
    &&& a.display_spec@ == b.display_spec@
    &&& same_factors(a.display_scale, b.display_scale)
    &&& same_factors(a.source_scale, b.source_scale)
}

/// `n` is what an accepted request makes of `c`; what is not named here stays
/// as it is.
pub open spec fn accepted(c: Control, request: Request, files: Seq<bool>, n: Control) -> bool {
    match request {
        Request::GetState => n == c,
        Request::SetParam { name, value } => {
            &&& n.params@ == with_value(c.params@, name@, value)
            &&& n.overrides@ == c.overrides@.insert(name@, value)
            &&& n == (Control {
                params: n.params,
                overrides: n.overrides,
                params_gen: (c.params_gen + 1) as u64,
                ..c
            })
        },
        Request::ResetParams => {
            &&& n.params@ == reset(c.params@)
            &&& n.overrides@ == Map::<Seq<char>, Single>::empty()
            &&& n == (Control {
                params: n.params,
                overrides: n.overrides,
                params_gen: (c.params_gen + 1) as u64,
                ..c
            })
        },
        Request::LoadPreset { path } => {
            &&& text::texts(n.presets@) == chain_of(path@, files)
            &&& n.overrides@ == Map::<Seq<char>, Single>::empty()
            &&& n == (Control {
                presets: n.presets,
                overrides: n.overrides,
                preset_gen: (c.preset_gen + 1) as u64,
                loading: true,
                error: None,
                ..c
            })
        },
        Request::SetEnabled { enabled } => n == (Control { enabled, ..c }),
        Request::SetSource { source } => exists|src: Source| #[trigger]
            source::asked_for(source, src) && n == if same_source(src, c.source) {
                c
            } else {
                Control { source: src, source_gen: (c.source_gen + 1) as u64, ..c }
            },
        Request::SetHdr { hdr } => n == (Control { hdr: config::sanitized_hdr(hdr), ..c }),
        Request::SetSubframes { subframes, black } => n == (Control {
            subframes: config::allowed_subframes(subframes),
            subframe_black: black,
            ..c
        }),
        Request::Capture { max_width } => n == (Control { capture_request: Some(max_width), ..c }),
    }
}

fn is_same_rect(a: SourceRect, b: SourceRect) -> (r: bool)
    ensures
        r == same_rect(a, b),
{
    match (a, b) {
        (SourceRect::Full, SourceRect::Full) => true,
        (SourceRect::Aspect(x), SourceRect::Aspect(y)) => x.equals(y),
        (SourceRect::Explicit(x), SourceRect::Explicit(y)) => x == y,
        _ => false,
    }
}

fn is_same_size(a: ipc::SourceSize, b: ipc::SourceSize) -> (r: bool)
    ensures
        r == same_size(a, b),
{
    match (a, b) {
        (ipc::SourceSize::Native, ipc::SourceSize::Native) => true,
        (ipc::SourceSize::Divide { by: x }, ipc::SourceSize::Divide { by: y }) => x.equals(y),
        (ipc::SourceSize::Fixed { size: x }, ipc::SourceSize::Fixed { size: y }) => x == y,
        _ => false,
    }
}

fn are_same_factors(a: ipc::Factors, b: ipc::Factors) -> (r: bool)
    ensures
        r == same_factors(a, b),
{
    a.x.equals(b.x) && a.y.equals(b.y)
}

impl Source {
    /// Whether two sources go by the same settings.
    pub fn is_same(&self, other: &Source) -> (r: bool)
        ensures
            r == same_source(*self, *other),
    {
        is_same_size(self.res, other.res) && self.duplicate == other.duplicate && self.filter
            == other.filter && is_same_rect(self.rect, other.rect) && text::equal_texts(
            self.rect_spec.as_str(),
            other.rect_spec.as_str(),
        ) && is_same_rect(self.display, other.display) && text::equal_texts(
            self.display_spec.as_str(),
            other.display_spec.as_str(),
        ) && are_same_factors(self.display_scale, other.display_scale) && are_same_factors(
            self.source_scale,
            other.source_scale,
        )
    }
}

/// The files to look for before a request to load a preset is handled.
pub fn preset_candidates(path: &str) -> (r: Vec<String>)
    ensures
        text::texts(r@) == candidates(path@),
{
    let mut out: Vec<String> = Vec::new();
    out.push(text::text_of(text::chars_of(path).as_slice()));
    assert(text::texts(out@) =~= seq![path@]);
    let parts: Vec<String> = config::split_items(path);
    let ghost all = config::items_of(path@);
    let mut i: usize = 0;
    while i < parts.len()
        invariant
            i <= parts@.len(),
            text::texts(parts@) == all,
            text::texts(out@) == seq![path@] + all.take(i as int),
        decreases parts@.len() - i,
    {
        let ghost before = text::texts(out@);
        assert(all[i as int] == parts@[i as int]@);
        out.push(parts[i].clone());
        assert(text::texts(out@) =~= before.push(all[i as int]));
        assert(before.push(all[i as int]) =~= seq![path@] + all.take(i as int + 1));
        i = i + 1;
    }
    assert(all.take(i as int) =~= all);
    out
}

fn check_file(files: &Vec<bool>, i: usize) -> (r: bool)
    ensures
        r == is_there(files@, i as int),
{
    i < files.len() && files[i]
}

fn absent(path: &str) -> (r: Response)
    ensures
        r matches Response::Error { message } && message@ == path@ + " does not exist"@,
{
    let mut out: Vec<char> = text::chars_of(path);
    text::append_text(&mut out, " does not exist");
    Response::Error { message: text::text_of(out.as_slice()) }
}

/// The presets to load, or the file that is missing.
fn find_chain(path: &String, files: &Vec<bool>) -> (r: Result<Vec<String>, String>)
    ensures
        match r {
            Ok(v) => missing_of(path@, files@) is None && text::texts(v@) == chain_of(path@, files@),
            Err(p) => missing_of(path@, files@) == Some(p@),
        },
{
    if check_file(files, 0) {
        let mut out: Vec<String> = Vec::new();
        out.push(path.clone());
        assert(text::texts(out@) =~= seq![path@]);
        return Ok(out);
    }
    let parts: Vec<String> = config::split_items(path.as_str());
    let ghost all = config::items_of(path@);
    assert(parts@.len() == all.len());
    let c: Vec<char> = text::chars_of(path.as_str());
    if text::run_length(c.as_slice(), ',', ',') == c.len() || parts.len() == 0 {
        return Err(path.clone());
    }
    let mut i: usize = 0;
    assert(all == config::items_of(path@));
    while i < parts.len()
        invariant
            i <= parts@.len(),
            text::texts(parts@) == all,
            missing_of(path@, files@) == first_missing(all, files@, 0),
            first_missing(all, files@, 0) == first_missing(all, files@, i as int),
        decreases parts@.len() - i,
    {
        assert(all[i as int] == parts@[i as int]@);
        if !check_file(files, i + 1) {
            return Err(parts[i].clone());
        }
        i = i + 1;
    }
    Ok(parts)
}

impl Control {
    pub open spec fn wf(&self) -> bool {
        self.overrides.wf() && self.source.wf()
    }

    /// There is room for one more change.
    pub open spec fn counting(&self) -> bool {
        self.preset_gen < u64::MAX && self.params_gen < u64::MAX && self.source_gen < u64::MAX
    }

    /// The state that a process starts with.
    pub fn new(cfg: &Config) -> (r: Control)
        requires
            cfg.wf(),
        ensures
            r.wf(),
            r.enabled,
            r.presets@ == cfg.presets@,
            r.preset_gen == 0,
            r.overrides@ == cfg.params@,
            r.params_gen == 0,
            r.source == cfg.source,
            r.source_gen == 0,
            r.hdr == cfg.hdr,
            r.subframes == cfg.subframes,
            r.subframe_black == cfg.subframe_black,
            r.subframes_max == 8,
            r.running_presets@ == Seq::<String>::empty(),
            !r.loading,
            r.error is None,
            r.params@ == Seq::<Param>::empty(),
            r.preset_color_space is None,
            r.outputs@ == Seq::<Output>::empty(),
            r.source_fps == single::signed(false, 0),
            r.present_fps == single::signed(false, 0),
            r.capture_request is None,
            r.capture is None,
    {
        Control {
            enabled: true,
            presets: config::copy_texts(&cfg.presets),
            preset_gen: 0,
            overrides: cfg.params.copy(),
            params_gen: 0,
            source: cfg.source.copy(),
            source_gen: 0,
            hdr: cfg.hdr,
            subframes: cfg.subframes,
            subframe_black: cfg.subframe_black,
            subframes_max: 8,
            running_presets: Vec::new(),
            loading: false,
            error: None,
            params: Vec::new(),
            preset_color_space: None,
            outputs: Vec::new(),
            source_fps: Single::from_bits(0),
            present_fps: Single::from_bits(0),
            capture_request: None,
            capture: None,
        }
    }

    /// What there is to say to a client.
    pub fn snapshot(&self, pid: u32, process: &str) -> (r: State)
        ensures
            reported(*self, pid, process@, r),
    {
        State {
            protocol: PROTOCOL_VERSION,
            pid,
            process: text::text_of(text::chars_of(process).as_slice()),
            enabled: self.enabled,
            presets: config::copy_texts(&self.running_presets),
            loading: self.loading,
            error: match &self.error {
                Some(e) => Some(e.clone()),
                None => None,
            },
            source: self.source.to_ipc(),
            outputs: ipc::copy_outputs(&self.outputs),
            preset_color_space: self.preset_color_space,
            hdr: self.hdr,
            source_fps: self.source_fps,
            present_fps: self.present_fps,
            subframes: self.subframes,
            subframe_black: self.subframe_black,
            subframes_max: self.subframes_max,
            params: ipc::copy_params(&self.params),
            capture: match &self.capture {
                Some(c) => Some(c.copy()),
                None => None,
            },
        }
    }

    /// Value a parameter should have: user override, else preset value.
    pub fn param_value(&self, name: &str, initial: Single) -> (r: Single)
        requires
            self.wf(),
        ensures
            r == value_of(self.overrides@, name@, initial),
    {
        match self.overrides.get(text::chars_of(name).as_slice()) {
            Some(v) => v,
            None => initial,
        }
    }

    /// Position of the parameter called `name`.
    fn find_param(&self, name: &str) -> (r: Option<usize>)
        ensures
            match r {
                Some(i) => i < self.params@.len() && self.params@[i as int].name@ == name@
                    && forall|j: int| 0 <= j < i ==> (#[trigger] self.params@[j]).name@ != name@,
                None => !known(self.params@, name@),
            },
    {
        let mut i: usize = 0;
        while i < self.params.len()
            invariant
                i <= self.params@.len(),
                forall|j: int| 0 <= j < i ==> (#[trigger] self.params@[j]).name@ != name@,
            decreases self.params@.len() - i,
        {
            if text::equal_texts(self.params[i].name.as_str(), name) {
                return Some(i);
            }
            i = i + 1;
        }
        None
    }

    fn set_param(&mut self, name: String, value: Single)
        requires
            old(self).wf(),
            old(self).counting(),
        ensures
            final(self).wf(),
            final(self).params@ == with_value(old(self).params@, name@, value),
            final(self).overrides@ == old(self).overrides@.insert(name@, value),
            *final(self) == (Control {
                params: final(self).params,
                overrides: final(self).overrides,
                params_gen: (old(self).params_gen + 1) as u64,
                ..*old(self)
            }),
    {
        match self.find_param(name.as_str()) {
            Some(i) => {
                let mut p: Param = self.params[i].copy();
                p.value = value;
                proof {
                    lemma_with_value(self.params@, name@, value, i as int);
                }
                self.params.set(i, p);
            },
            None => {
                proof {
                    lemma_without_name(self.params@, name@, value);
                }
            },
        }
        self.overrides.set(text::chars_of(name.as_str()).as_slice(), value);
        self.params_gen = self.params_gen + 1;
    }

    fn reset_params(&mut self)
        requires
            old(self).wf(),
            old(self).counting(),
        ensures
            final(self).wf(),
            final(self).params@ == reset(old(self).params@),
            final(self).overrides@ == Map::<Seq<char>, Single>::empty(),
            *final(self) == (Control {
                params: final(self).params,
                overrides: final(self).overrides,
                params_gen: (old(self).params_gen + 1) as u64,
                ..*old(self)
            }),
    {
        self.overrides.clear();
        let mut out: Vec<Param> = Vec::new();
        let mut i: usize = 0;
        while i < self.params.len()
            invariant
                i <= self.params@.len(),
                out@ == reset(self.params@).take(i as int),
            decreases self.params@.len() - i,
        {
            let mut p: Param = self.params[i].copy();
            p.value = p.initial;
            out.push(p);
            i = i + 1;
            assert(out@ =~= reset(self.params@).take(i as int));
        }
        assert(reset(self.params@).take(i as int) =~= reset(self.params@));
        self.params = out;
        self.params_gen = self.params_gen + 1;
    }

    /// Handles a request. `files` says which of its candidates are files, in
    /// their order, if it asks for a preset to be loaded.
    ///
    /// A refused request changes nothing; every other one is answered by the
    /// state as it is afterwards.
    pub fn handle(&mut self, request: Request, files: &Vec<bool>, pid: u32, process: &str) -> (r:
        Response)
        requires
            old(self).wf(),
            old(self).counting(),
        ensures
            final(self).wf(),
            match r {
                Response::Error { message } => refusal(*old(self), request, files@) == Some(
                    message@,
                ) && *final(self) == *old(self),
                Response::State(s) => refusal(*old(self), request, files@) is None && accepted(
                    *old(self),
                    request,
                    files@,
                    *final(self),
                ) && reported(*final(self), pid, process@, s),
            },
    {
        match request {
            Request::GetState => {},
            Request::SetParam { name, value } => {
                if !value.is_finite() {
                    return Response::Error {
                        message: text::text_of(text::chars_of("value must be finite").as_slice()),
                    };
                }
                if self.params.len() > 0 && self.find_param(name.as_str()).is_none() {
                    let mut out: Vec<char> = text::chars_of("unknown parameter '");
                    text::append_text(&mut out, name.as_str());
                    text::append_text(&mut out, "'");
                    return Response::Error { message: text::text_of(out.as_slice()) };
                }
                self.set_param(name, value);
            },
            Request::ResetParams => {
                self.reset_params();
            },
            Request::LoadPreset { path } => {
                match find_chain(&path, files) {
                    Ok(chain) => {
                        self.presets = chain;
                        self.overrides.clear();
                        self.preset_gen = self.preset_gen + 1;
                        self.loading = true;
                        self.error = None;
                    },
                    Err(p) => {
                        return absent(p.as_str());
                    },
                }
            },
            Request::SetEnabled { enabled } => {
                self.enabled = enabled;
            },
            Request::SetSource { source } => {
                match Source::from_ipc(&source) {
                    Ok(src) => {
                        assert(source::asked_for(source, src));
                        if !src.is_same(&self.source) {
                            self.source = src;
                            self.source_gen = self.source_gen + 1;
                        }
                    },
                    Err(message) => {
                        return Response::Error { message };
                    },
                }
            },
            Request::SetHdr { hdr } => {
                self.hdr = config::sanitize_hdr(hdr);
            },
            Request::SetSubframes { subframes, black } => {
                self.subframes = config::clamp_subframes(subframes);
                self.subframe_black = black;
            },
            Request::Capture { max_width } => {
                self.capture_request = Some(max_width);
            },
        }
        Response::State(self.snapshot(pid, process))
    }
}

proof fn lemma_with_value(params: Seq<Param>, name: Seq<char>, value: Single, i: int)
    requires
        0 <= i < params.len(),
        params[i].name@ == name,
        forall|j: int| 0 <= j < i ==> (#[trigger] params[j]).name@ != name,
    ensures
        with_value(params, name, value) == params.update(i, revalued(params[i], value)),
    decreases params.len(),
{
    if i > 0 {
        let rest = params.drop_first();
        assert forall|j: int| 0 <= j < i - 1 implies (#[trigger] rest[j]).name@ != name by {
            assert(rest[j] == params[j + 1]);
        }
        lemma_with_value(rest, name, value, i - 1);
        assert(seq![params[0]] + rest.update(i - 1, revalued(params[i], value)) =~= params.update(
            i,
            revalued(params[i], value),
        ));
    } else {
        assert(seq![revalued(params[0], value)] + params.drop_first() =~= params.update(
            0,
            revalued(params[0], value),
        ));
    }
}

proof fn lemma_without_name(params: Seq<Param>, name: Seq<char>, value: Single)
    requires
        !known(params, name),
    ensures
        with_value(params, name, value) == params,
    decreases params.len(),
{
    if params.len() > 0 {
        let rest = params.drop_first();
        assert(params[0].name@ != name);
        assert(!known(rest, name)) by {
            if known(rest, name) {
                let j = choose|j: int| 0 <= j < rest.len() && (#[trigger] rest[j]).name@ == name;
                assert(params[j + 1].name@ == name);
            }
        }
        lemma_without_name(rest, name, value);
        assert(seq![params[0]] + rest =~= params);
    }
}

// ------------------------------------------------------------------------ laws

/// Turning the shader on or off is in effect whatever it was before, so of two
/// requests the second counts. No other request turns it on or off, and this
/// one is never refused and changes nothing else.
pub proof fn lemma_enabled_as_asked(c: Control, request: Request, files: Seq<bool>, n: Control)
    requires
        accepted(c, request, files, n),
    ensures
        request matches Request::SetEnabled { enabled } ==> {
            &&& n.enabled == enabled
            &&& c == (Control { enabled: c.enabled, ..n })
            &&& refusal(c, request, files) is None
        },
        !(request is SetEnabled) ==> n.enabled == c.enabled,
{
}

/// The number of presentations asked for is in effect, moved into 1 to 8, and
/// so is what they show. Nothing else changes, and nothing is refused.
pub proof fn lemma_subframes_as_asked(c: Control, request: Request, files: Seq<bool>, n: Control)
    requires
        accepted(c, request, files, n),
    ensures
        request matches Request::SetSubframes { subframes, black } ==> {
            &&& 1 <= n.subframes <= 8
            &&& 1 <= subframes <= 8 ==> n.subframes == subframes
            &&& subframes > 8 ==> n.subframes == 8
            &&& n.subframe_black == black
            &&& c == (Control {
                subframes: c.subframes,
                subframe_black: c.subframe_black,
                ..n
            })
            &&& refusal(c, request, files) is None
        },
        !(request is SetSubframes) ==> n.subframes == c.subframes && n.subframe_black
            == c.subframe_black,
{
}

/// The HDR settings asked for are in effect, the brightness moved into 0 to
/// 10000 nits and the gamut into 0 to 3. Nothing else changes, and nothing is
/// refused.
pub proof fn lemma_hdr_as_asked(c: Control, request: Request, files: Seq<bool>, n: Control)
    requires
        accepted(c, request, files, n),
    ensures
        request matches Request::SetHdr { hdr } ==> {
            let u = single::one_in_units() as int;
            let b = hdr.brightness_nits;
            let r = n.hdr.brightness_nits;
            &&& r.finite() && 0 <= r.units() <= 10000 * u
            &&& b.finite() && 0 <= b.units() <= 10000 * u ==> r == b
            &&& b.finite() && b.units() < 0 ==> r.units() == 0
            &&& b.finite() && b.units() > 10000 * u ==> r.units() == 10000 * u
            &&& !b.finite() ==> r.units() == 200 * u
            &&& n.hdr.expand_gamut == if hdr.expand_gamut <= 3 {
                hdr.expand_gamut
            } else {
                3
            }
            &&& c == (Control { hdr: c.hdr, ..n })
            &&& refusal(c, request, files) is None
        },
        !(request is SetHdr) ==> n.hdr == c.hdr,
{
    accuracy::lemma_zero();
    screen::lemma_small_integer(200);
    screen::lemma_small_integer(10000);
}

/// The source settings asked for are in effect, or ones that are equal to
/// them; they are the ones that are reported.
pub proof fn lemma_source_as_asked(
    c: Control,
    source: SourceSettings,
    files: Seq<bool>,
    n: Control,
    shown: SourceSettings,
)
    requires
        accepted(c, Request::SetSource { source }, files, n),
        source::described(n.source, shown),
    ensures
        same_size(source.res, shown.res) || source.res == shown.res,
        shown.duplicate == source.duplicate,
        shown.filter == source.filter,
        shown.rect@ == text::trimmed(source.rect@),
        shown.display@ == text::trimmed(source.display@),
        same_factors(source.display_scale, shown.display_scale) || source.display_scale
            == shown.display_scale,
        same_factors(source.source_scale, shown.source_scale) || source.source_scale
            == shown.source_scale,
        c == (Control { source: c.source, source_gen: c.source_gen, ..n }),
{
}

/// A capture is asked for at the width that was asked for, and nothing else
/// changes; no other request asks for one.
pub proof fn lemma_capture_as_asked(c: Control, request: Request, files: Seq<bool>, n: Control)
    requires
        accepted(c, request, files, n),
    ensures
        request matches Request::Capture { max_width } ==> {
            &&& n.capture_request == Some(max_width)
            &&& c == (Control { capture_request: c.capture_request, ..n })
            &&& refusal(c, request, files) is None
        },
        !(request is Capture) ==> n.capture_request == c.capture_request,
{
}

/// The parameter that is set is the first of its name in the list; every other
/// one, and everything but the value, stays. It is refused only if the value is
/// not finite or no parameter of a loaded preset has that name.
pub proof fn lemma_param_as_asked(
    c: Control,
    name: String,
    value: Single,
    files: Seq<bool>,
    n: Control,
)
    ensures
        refusal(c, Request::SetParam { name, value }, files) is None <==> value.finite() && (
        c.params@.len() == 0 || exists|i: int|
            0 <= i < c.params@.len() && (#[trigger] c.params@[i]).name@ == name@),
        accepted(c, Request::SetParam { name, value }, files, n) ==> {
            &&& n.params@.len() == c.params@.len()
            &&& forall|i: int|
                0 <= i < n.params@.len() ==> (#[trigger] n.params@[i]) == if c.params@[i].name@
                    == name@ && (forall|j: int|
                    0 <= j < i ==> (#[trigger] c.params@[j]).name@ != name@) {
                    Param { value, ..c.params@[i] }
                } else {
                    c.params@[i]
                }
            &&& c == (Control {
                params: c.params,
                overrides: c.overrides,
                params_gen: c.params_gen,
                ..n
            })
        },
{
    let v = c.params@;
    if known(v, name@) {
        let i = choose|i: int| 0 <= i < v.len() && (#[trigger] v[i]).name@ == name@;
        let f = lemma_first_named(v, name@, i);
        lemma_with_value(v, name@, value, f);
        if accepted(c, Request::SetParam { name, value }, files, n) {
            assert(n.params@ == v.update(f, revalued(v[f], value)));
            assert forall|i: int| 0 <= i < v.len() implies (#[trigger] n.params@[i])
                == if v[i].name@ == name@ && (forall|j: int|
                0 <= j < i ==> (#[trigger] v[j]).name@ != name@) {
                Param { value, ..v[i] }
            } else {
                v[i]
            } by {
                if i > f {
                    assert(v[f].name@ == name@);
                }
            }
        }
    } else {
        lemma_without_name(v, name@, value);
    }
}

proof fn lemma_first_named(params: Seq<Param>, name: Seq<char>, i: int) -> (f: int)
    requires
        0 <= i < params.len(),
        params[i].name@ == name,
    ensures
        0 <= f <= i,
        params[f].name@ == name,
        forall|j: int| 0 <= j < f ==> (#[trigger] params[j]).name@ != name,
    decreases i,
{
    if exists|j: int| 0 <= j < i && (#[trigger] params[j]).name@ == name {
        let j = choose|j: int| 0 <= j < i && (#[trigger] params[j]).name@ == name;
        lemma_first_named(params, name, j)
    } else {
        i
    }
}

/// Loading drops every override, clears the error, and is under way; the
/// presets that run are still those that ran before. A path that is a file is
/// never refused.
pub proof fn lemma_load_as_asked(c: Control, path: String, files: Seq<bool>, n: Control)
    ensures
        is_there(files, 0) ==> refusal(c, Request::LoadPreset { path }, files) is None,
        accepted(c, Request::LoadPreset { path }, files, n) ==> {
            &&& n.loading
            &&& n.error is None
            &&& is_there(files, 0) ==> text::texts(n.presets@) == seq![path@]
            &&& n.running_presets == c.running_presets
            &&& forall|name: Seq<char>, initial: Single|
                value_of(n.overrides@, name, initial) == initial
            &&& c == (Control {
                presets: c.presets,
                overrides: c.overrides,
                preset_gen: c.preset_gen,
                loading: c.loading,
                error: c.error,
                ..n
            })
        },
{
}

/// The answer shows what is in effect: what is asked for is what the panel
/// sees next.
pub proof fn lemma_answer_shows(c: Control, pid: u32, process: Seq<char>, s: State)
    requires
        reported(c, pid, process, s),
    ensures
        s.pid == pid,
        s.process@ == process,
        s.enabled == c.enabled,
        s.loading == c.loading,
        s.error == c.error,
        s.hdr == c.hdr,
        s.subframes == c.subframes,
        s.subframe_black == c.subframe_black,
        s.presets@ == c.running_presets@,
        s.params@ == c.params@,
        s.outputs@ == c.outputs@,
        s.source.filter == c.source.filter,
        s.source.res == c.source.res,
        s.source.duplicate == c.source.duplicate,
        s.source.display_scale == c.source.display_scale,
        s.source.source_scale == c.source.source_scale,
        s.source.rect@ == c.source.rect_spec@,
        s.source.display@ == c.source.display_spec@,
        s.capture == c.capture,
        s.source_fps == c.source_fps,
        s.present_fps == c.present_fps,
        s.preset_color_space == c.preset_color_space,
{
}

/// A parameter that was set has the value it was set to, and every other one
/// the value that it had.
pub proof fn lemma_set_then_read(c: Control, name: String, value: Single, files: Seq<bool>, n: Control)
    requires
        accepted(c, Request::SetParam { name, value }, files, n),
    ensures
        forall|initial: Single| value_of(n.overrides@, name@, initial) == value,
        forall|other: Seq<char>, initial: Single|
            other != name@ ==> value_of(n.overrides@, other, initial) == value_of(
                c.overrides@,
                other,
                initial,
            ),
{
}

/// Resetting undoes every setting of parameters: each has the preset's value
/// and counts as untouched.
pub proof fn lemma_reset_undoes(c: Control, files: Seq<bool>, n: Control)
    requires
        accepted(c, Request::ResetParams, files, n),
    ensures
        forall|name: Seq<char>, initial: Single| value_of(n.overrides@, name, initial) == initial,
        n.params@.len() == c.params@.len(),
        forall|i: int|
            0 <= i < n.params@.len() ==> (#[trigger] n.params@[i]).value == c.params@[i].initial
                && n.params@[i].initial == c.params@[i].initial && n.params@[i].name
                == c.params@[i].name && !n.params@[i].modified(),
{
    assert forall|i: int| 0 <= i < n.params@.len() implies (#[trigger] n.params@[i]).value
        == c.params@[i].initial && n.params@[i].initial == c.params@[i].initial
        && n.params@[i].name == c.params@[i].name && !n.params@[i].modified() by {
        assert(n.params@[i] == revalued(c.params@[i], c.params@[i].initial));
        ipc::lemma_initial_is_unmodified(n.params@[i]);
    }
}

/// Every change of the presets, the parameters or the source takes its
/// counter one further, and nothing else moves a counter.
pub proof fn lemma_generations(c: Control, request: Request, files: Seq<bool>, n: Control)
    requires
        c.counting(),
        accepted(c, request, files, n),
    ensures
        n.preset_gen == c.preset_gen + if request is LoadPreset {
            1int
        } else {
            0
        },
        n.params_gen == c.params_gen + if request is SetParam || request is ResetParams {
            1int
        } else {
            0
        },
        n.source_gen == c.source_gen || n.source_gen == c.source_gen + 1,
        n.source_gen == c.source_gen ==> n.source == c.source,
        n.params_gen == c.params_gen && n.preset_gen == c.preset_gen ==> n.overrides == c.overrides
            && n.params == c.params,
        n.preset_gen == c.preset_gen ==> n.presets == c.presets,
{
}

/// Asking for the state changes nothing.
pub proof fn lemma_get_state(c: Control, files: Seq<bool>, n: Control)
    ensures
        refusal(c, Request::GetState, files) is None,
        accepted(c, Request::GetState, files, n) <==> n == c,
{
}

proof fn lemma_same_as_itself(a: Source)
    requires
        a.wf(),
        source::sensible(a.res),
        !a.source_scale.x.nan(),
        !a.source_scale.y.nan(),
    ensures
        same_source(a, a),
{
    source::lemma_read_is_proper(a.rect_spec@);
    source::lemma_read_is_proper(a.display_spec@);
}

/// Sending settings that are in effect already changes nothing.
pub proof fn lemma_set_source_twice(
    c: Control,
    settings: SourceSettings,
    files: Seq<bool>,
    n: Control,
    n2: Control,
)
    requires
        source::complaint(settings) is None,
        !settings.source_scale.x.nan(),
        !settings.source_scale.y.nan(),
        accepted(c, Request::SetSource { source: settings }, files, n),
        accepted(n, Request::SetSource { source: settings }, files, n2),
    ensures
        n2 == n,
{
    let src = choose|src: Source| #[trigger]
        source::asked_for(settings, src) && n == if same_source(src, c.source) {
            c
        } else {
            Control { source: src, source_gen: (c.source_gen + 1) as u64, ..c }
        };
    let src2 = choose|src: Source| #[trigger]
        source::asked_for(settings, src) && n2 == if same_source(src, n.source) {
            n
        } else {
            Control { source: src, source_gen: (n.source_gen + 1) as u64, ..n }
        };
    source::lemma_rect_trimmed(settings.rect@);
    source::lemma_rect_trimmed(settings.display@);
    assert(src.wf());
    lemma_same_as_itself(src);
    if same_source(src, c.source) {
        assert(same_source(src2, c.source));
    } else {
        assert(same_source(src2, src));
    }
}

/// A single file is loaded as it is named, commas or not.
pub proof fn lemma_single_preset(path: Seq<char>, files: Seq<bool>)
    requires
        is_there(files, 0),
    ensures
        missing_of(path, files) is None,
        chain_of(path, files) == seq![path],
{
}

} // verus!

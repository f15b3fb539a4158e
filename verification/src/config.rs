//! Configuration: `vkSlang.conf` (key = value) overridden by `VKSLANG_*`
//! variables of the environment.

use crate::accuracy;
use crate::decimal;
use crate::entries::{self, Entries};
use crate::ipc::{self, Counts, Extent, Factors, Filter, HdrSettings, Rect, SourceSize};
use crate::params::Values;
use crate::path;
use crate::screen;
use crate::single::{self, Single};
use crate::source::{self, Source, SourceRect};
use crate::text;
use vstd::prelude::*;

verus! {

/// Whether the layer may turn the application's swapchain into an HDR10 one
/// so that an HDR-aware preset can output real HDR from an SDR game.
#[derive(Clone, Copy, PartialEq, Eq, Debug, Structural)]
pub enum HdrOutput {
    /// Never touch the swapchain's format.
    Off,
    /// Promote when the preset writes HDR and the surface supports HDR10.
    Auto,
    /// Promote whenever the surface supports HDR10, whatever the preset.
    Force,
}

impl Default for HdrOutput {
    fn default() -> (r: Self)
        ensures
            r == HdrOutput::Auto,
    {
        HdrOutput::Auto
    }
}

pub struct Config {
    /// Presets to run, one after the other.
    pub presets: Vec<String>,
    pub source: Source,
    /// Executable names the layer is active for; empty = all.
    pub process: Vec<String>,
    /// Preset parameter overrides (`param.NAME = value`).
    pub params: Values,
    /// Control socket for the control panel (`VKSLANG_IPC=0` disables it).
    pub ipc: bool,
    /// HDR uniforms for HDR-aware presets.
    pub hdr: HdrSettings,
    /// Whether the swapchain may be promoted to HDR10.
    pub hdr_output: HdrOutput,
    /// Presentations per application frame (1 = untouched).
    pub subframes: u32,
    /// Extra subframes are black (cheap BFI) instead of running the chain.
    pub subframe_black: bool,
}

// ------------------------------------------------------------- single settings

/// Value of `key`, if it is set.
pub open spec fn setting(kv: Map<Seq<char>, Seq<char>>, key: Seq<char>) -> Option<Seq<char>> {
    if kv.contains_key(key) {
        Some(kv[key])
    } else {
        None
    }
}

/// The texts that are left once trimmed.
pub open spec fn filled(v: Seq<Seq<char>>) -> Seq<Seq<char>>
    decreases v.len(),
{
    if v.len() == 0 {
        seq![]
    } else {
        let t = text::trimmed(v.last());
        if t.len() == 0 {
            filled(v.drop_last())
        } else {
            filled(v.drop_last()).push(t)
        }
    }
}

/// The items of a list separated by commas.
pub open spec fn items_of(s: Seq<char>) -> Seq<Seq<char>> {
    filled(text::pieces(s, ','))
}

/// The texts can be told apart in a list: each is something without a comma
/// or blanks around it.
pub open spec fn separable(v: Seq<Seq<char>>) -> bool {
    forall|i: int|
        0 <= i < v.len() ==> (#[trigger] v[i]).len() > 0 && text::trimmed(v[i]) == v[i] && forall|
            j: int,
        |
            0 <= j < v[i].len() ==> v[i][j] != ','
}

/// Such texts are read back from a list of them.
pub proof fn lemma_items_joined(v: Seq<Seq<char>>, sep: Seq<char>)
    requires
        v.len() > 0,
        separable(v),
        sep == ","@ || sep == ", "@,
    ensures
        items_of(text::joined(v, sep)) == v,
    decreases v.len(),
{
    reveal_strlit(",");
    reveal_strlit(", ");
    let s = text::joined(v, sep);
    assert(v[v.len() - 1].len() > 0);
    if v.len() == 1 {
        text::lemma_run(s, ',', ',', s.len());
        assert(text::pieces(s, ',') =~= seq![s]);
        assert(seq![s].drop_last() =~= Seq::<Seq<char>>::empty());
        assert(filled(Seq::<Seq<char>>::empty()) =~= Seq::<Seq<char>>::empty());
        assert(items_of(s) =~= v);
    } else {
        let front = v.drop_last();
        assert forall|i: int| 0 <= i < front.len() implies (#[trigger] front[i]).len() > 0
            && text::trimmed(front[i]) == front[i] && forall|j: int|
            0 <= j < front[i].len() ==> front[i][j] != ',' by {
            assert(front[i] == v[i]);
        }
        lemma_items_joined(front, sep);
        let a = text::joined(front, sep);
        let b = v.last();
        let rest = sep.drop_first() + b;
        assert(s =~= a + seq![','] + rest);
        assert forall|j: int| 0 <= j < rest.len() implies rest[j] != ',' by {
            if j >= sep.len() - 1 {
                assert(rest[j] == b[j - sep.len() + 1]);
                assert(v[v.len() - 1][j - sep.len() + 1] != ',');
            }
        }
        text::lemma_pieces_add(a, rest, ',');
        let p = text::pieces(a, ',');
        assert(p.push(rest).drop_last() =~= p);
        if sep == ","@ {
            assert(rest =~= b);
        } else {
            assert(rest.drop_first() =~= b);
            assert(text::trimmed_start(rest) == text::trimmed_start(b));
        }
        assert(text::trimmed(rest) == b);
        assert(front.push(b) =~= v);
    }
}

/// The items of a list separated by commas.
pub fn split_items(s: &str) -> (r: Vec<String>)
    ensures
        text::texts(r@) == items_of(s@),
{
    let parts: Vec<Vec<char>> = text::split(text::chars_of(s).as_slice(), ',');
    let ghost all = text::pieces(s@, ',');
    let mut out: Vec<String> = Vec::new();
    assert(text::texts(out@) =~= Seq::empty());
    assert(all.take(0) =~= Seq::empty());
    let mut i: usize = 0;
    while i < parts.len()
        invariant
            i <= parts@.len(),
            text::contents(parts@) == all,
            text::texts(out@) == filled(all.take(i as int)),
        decreases parts@.len() - i,
    {
        let ghost before = text::texts(out@);
        assert(all.take(i as int + 1).drop_last() =~= all.take(i as int));
        assert(all[i as int] == parts@[i as int]@);
        let t: &[char] = text::trim(parts[i].as_slice());
        if t.len() > 0 {
            out.push(text::text_of(t));
            assert(text::texts(out@) =~= before.push(t@));
        }
        i = i + 1;
    }
    assert(all.take(i as int) =~= all);
    out
}

/// The source size asked for; what cannot be read counts as native.
pub open spec fn size_setting(v: Option<Seq<char>>, base: SourceSize) -> SourceSize {
    match v {
        Some(s) => match source::size_value(s) {
            Some(size) => size,
            None => SourceSize::Native,
        },
        None => base,
    }
}

pub open spec fn filter_setting(v: Option<Seq<char>>, base: Filter) -> Filter {
    match v {
        Some(s) => if text::lowered(s) == "linear"@ {
            Filter::Linear
        } else {
            Filter::Nearest
        },
        None => base,
    }
}

/// The region asked for and how it was written; what cannot be read counts as
/// the whole image.
pub open spec fn rect_setting(v: Option<Seq<char>>, base: (SourceRect, Seq<char>)) -> (
    SourceRect,
    Seq<char>,
) {
    match v {
        Some(s) => match source::rect_value(s) {
            Some(rect) => (rect, s),
            None => (SourceRect::Full, "full"@),
        },
        None => base,
    }
}

/// A number for each axis, written as `1.2` for both or as `1.2,1.0`.
pub open spec fn axes(s: Seq<char>) -> (Seq<char>, Seq<char>) {
    match text::split_at_first(s, ',', ',') {
        Some((x, y)) => (text::trimmed(x), text::trimmed(y)),
        None => (s, s),
    }
}

/// A scale of the display area; what cannot be read counts as 1.
pub open spec fn display_factor(s: Seq<char>) -> Single {
    match decimal::written(s) {
        Some(x) => if x.finite() {
            single::confined(x, single::of_fraction(1, 10), single::of_integer(4))
        } else {
            single::of_integer(1)
        },
        None => single::of_integer(1),
    }
}

pub open spec fn display_scale_setting(v: Option<Seq<char>>, base: Factors) -> Factors {
    match v {
        Some(s) => Factors { x: display_factor(axes(s).0), y: display_factor(axes(s).1) },
        None => base,
    }
}

/// A scale of the picture; what cannot be read counts as 1.
pub open spec fn source_factor(s: Seq<char>) -> Single {
    match decimal::written(s) {
        Some(x) => if x.finite() {
            x
        } else {
            single::of_integer(1)
        },
        None => single::of_integer(1),
    }
}

pub open spec fn source_scale_setting(v: Option<Seq<char>>, base: Factors) -> Factors {
    match v {
        Some(s) => Factors { x: source_factor(axes(s).0), y: source_factor(axes(s).1) },
        None => base,
    }
}

/// A count; what cannot be read counts as 1.
pub open spec fn count_value(s: Seq<char>) -> u32 {
    match text::unsigned_value(s) {
        Some(n) => n,
        None => 1,
    }
}

pub open spec fn duplicate_setting(v: Option<Seq<char>>, base: Counts) -> Counts {
    match v {
        Some(s) => Counts { x: count_value(axes(s).0), y: count_value(axes(s).1) },
        None => base,
    }
}

/// HDR settings in the ranges that the shaders accept.
pub open spec fn sanitized_hdr(hdr: HdrSettings) -> HdrSettings {
    HdrSettings {
        brightness_nits: if hdr.brightness_nits.finite() {
            single::confined(
                hdr.brightness_nits,
                single::of_integer(0),
                single::of_integer(10000),
            )
        } else {
            single::of_integer(200)
        },
        expand_gamut: if hdr.expand_gamut < 3 {
            hdr.expand_gamut
        } else {
            3
        },
    }
}

/// The HDR settings asked for, over `base`.
pub open spec fn hdr_setting(kv: Map<Seq<char>, Seq<char>>, base: HdrSettings) -> HdrSettings {
    sanitized_hdr(
        HdrSettings {
            brightness_nits: match setting(kv, "brightness_nits"@) {
                Some(s) => match decimal::written(s) {
                    Some(x) => x,
                    None => base.brightness_nits,
                },
                None => base.brightness_nits,
            },
            expand_gamut: match setting(kv, "expand_gamut"@) {
                Some(s) => match text::unsigned_value(s) {
                    Some(n) => n,
                    None => base.expand_gamut,
                },
                None => base.expand_gamut,
            },
        },
    )
}

pub open spec fn process_setting(v: Option<Seq<char>>) -> Seq<Seq<char>> {
    match v {
        Some(s) => items_of(s),
        None => seq![],
    }
}

pub open spec fn presets_setting(v: Option<Seq<char>>, base: Seq<Seq<char>>) -> Seq<Seq<char>> {
    match v {
        Some(s) => items_of(s),
        None => base,
    }
}

/// Whether the control socket is wanted.
pub open spec fn ipc_setting(v: Option<Seq<char>>) -> bool {
    match v {
        Some(s) => s != "0"@ && !text::alike(s, "false"@),
        None => true,
    }
}

/// Number of presentations in range.
pub open spec fn allowed_subframes(n: u32) -> u32 {
    if n < 1 {
        1
    } else if n > 8 {
        8
    } else {
        n
    }
}

pub open spec fn subframes_setting(v: Option<Seq<char>>, base: u32) -> u32 {
    allowed_subframes(
        match v {
            Some(s) => match text::unsigned_value(s) {
                Some(n) => n,
                None => base,
            },
            None => base,
        },
    )
}

pub open spec fn black_setting(v: Option<Seq<char>>, base: bool) -> bool {
    match v {
        Some(s) => text::alike(s, "black"@) || text::alike(s, "bfi"@),
        None => base,
    }
}

pub open spec fn hdr_output_setting(v: Option<Seq<char>>) -> HdrOutput {
    match v {
        Some(s) => {
            let t = text::lowered(s);
            if t == "off"@ || t == "0"@ || t == "false"@ {
                HdrOutput::Off
            } else if t == "force"@ || t == "1"@ || t == "true"@ {
                HdrOutput::Force
            } else {
                HdrOutput::Auto
            }
        },
        None => HdrOutput::Auto,
    }
}

/// The parameter values that are set and can be read.
pub open spec fn param_settings(kv: Map<Seq<char>, Seq<char>>) -> Map<Seq<char>, Single> {
    Map::new(
        |n: Seq<char>| kv.contains_key("param."@ + n) && decimal::written(kv["param."@ + n]) is Some,
        |n: Seq<char>| decimal::written(kv["param."@ + n])->0,
    )
}

fn parse_number(s: &str) -> (r: Option<Single>)
    ensures
        r == decimal::written(s@),
{
    Single::parse(text::chars_of(s).as_slice())
}

fn parse_count(s: &str) -> (r: Option<u32>)
    ensures
        r == text::unsigned_value(s@),
{
    text::parse_unsigned(text::chars_of(s).as_slice())
}

fn both_axes(s: &str) -> (r: (Vec<char>, Vec<char>))
    ensures
        (r.0@, r.1@) == axes(s@),
{
    let all: Vec<char> = text::chars_of(s);
    match text::split_once(all.as_slice(), ',', ',') {
        Some((x, y)) => (text::copied(text::trim(x)), text::copied(text::trim(y))),
        None => (text::copied(all.as_slice()), text::copied(all.as_slice())),
    }
}

fn read_display_factor(s: &[char]) -> (r: Single)
    ensures
        r == display_factor(s@),
{
    match Single::parse(s) {
        Some(x) => {
            if x.is_finite() {
                x.confine(Single::fraction(1, 10), Single::of_u32(4))
            } else {
                Single::of_u32(1)
            }
        },
        None => Single::of_u32(1),
    }
}

fn read_source_factor(s: &[char]) -> (r: Single)
    ensures
        r == source_factor(s@),
{
    match Single::parse(s) {
        Some(x) => {
            if x.is_finite() {
                x
            } else {
                Single::of_u32(1)
            }
        },
        None => Single::of_u32(1),
    }
}

fn read_count(s: &[char]) -> (r: u32)
    ensures
        r == count_value(s@),
{
    match text::parse_unsigned(s) {
        Some(n) => n,
        None => 1,
    }
}

/// Clamps HDR settings to the ranges the shaders accept.
pub fn sanitize_hdr(hdr: HdrSettings) -> (r: HdrSettings)
    ensures
        r == sanitized_hdr(hdr),
{
    HdrSettings {
        brightness_nits: if hdr.brightness_nits.is_finite() {
            hdr.brightness_nits.confine(Single::of_u32(0), Single::of_u32(10000))
        } else {
            Single::of_u32(200)
        },
        expand_gamut: if hdr.expand_gamut < 3 {
            hdr.expand_gamut
        } else {
            3
        },
    }
}

/// The HDR settings asked for, over those of `base`.
pub fn parse_hdr_over(kv: &Entries, base: HdrSettings) -> (r: HdrSettings)
    ensures
        r == hdr_setting(kv@, base),
{
    let brightness: Option<Single> = match kv.value("brightness_nits") {
        Some(s) => parse_number(s.as_str()),
        None => None,
    };
    let gamut: Option<u32> = match kv.value("expand_gamut") {
        Some(s) => parse_count(s.as_str()),
        None => None,
    };
    sanitize_hdr(
        HdrSettings {
            brightness_nits: match brightness {
                Some(x) => x,
                None => base.brightness_nits,
            },
            expand_gamut: match gamut {
                Some(n) => n,
                None => base.expand_gamut,
            },
        },
    )
}

/// The HDR settings asked for.
pub fn parse_hdr(kv: &Entries) -> (r: HdrSettings)
    ensures
        r == hdr_setting(kv@, ipc::default_hdr()),
{
    parse_hdr_over(kv, HdrSettings::default())
}

/// Presentations per frame, in range.
pub fn clamp_subframes(n: u32) -> (r: u32)
    ensures
        r == allowed_subframes(n),
{
    if n < 1 {
        1
    } else if n > 8 {
        8
    } else {
        n
    }
}

fn read_rect(v: Option<&String>, base: SourceRect, base_spec: &String) -> (r: (SourceRect, String))
    ensures
        (r.0, r.1@) == rect_setting(
            match v {
                Some(s) => Some(s@),
                None => None,
            },
            (base, base_spec@),
        ),
{
    match v {
        Some(s) => match source::parse_rect(s.as_str()) {
            Some(rect) => (rect, s.clone()),
            None => (SourceRect::Full, text::text_of(text::chars_of("full").as_slice())),
        },
        None => (base, base_spec.clone()),
    }
}

/// Whether one of the first `i` keys sets the parameter `n`.
spec fn sets_param(keys: Seq<Seq<char>>, i: int, n: Seq<char>) -> bool {
    exists|j: int| 0 <= j < i && #[trigger] keys[j] == "param."@ + n
}

/// The parameter values that the first `i` keys set.
spec fn first_params(
    kv: Map<Seq<char>, Seq<char>>,
    keys: Seq<Seq<char>>,
    i: int,
) -> Map<Seq<char>, Single> {
    Map::new(
        |n: Seq<char>| param_settings(kv).contains_key(n) && sets_param(keys, i, n),
        |n: Seq<char>| param_settings(kv)[n],
    )
}

/// One more key sets one more parameter, or none.
proof fn lemma_next_param(
    base: Map<Seq<char>, Single>,
    kv: Map<Seq<char>, Seq<char>>,
    keys: Seq<Seq<char>>,
    i: int,
)
    requires
        0 <= i < keys.len(),
    ensures
        ({
            let before = base.union_prefer_right(first_params(kv, keys, i));
            let after = base.union_prefer_right(first_params(kv, keys, i + 1));
            let n = keys[i].skip(6);
            after == if text::begins(keys[i], "param."@) && param_settings(kv).contains_key(n) {
                before.insert(n, param_settings(kv)[n])
            } else {
                before
            }
        }),
{
    reveal_strlit("param.");
    let set = param_settings(kv);
    let a = first_params(kv, keys, i);
    let b = first_params(kv, keys, i + 1);
    let n = keys[i].skip(6);
    assert forall|x: Seq<char>| sets_param(keys, i + 1, x) <==> sets_param(keys, i, x) || keys[i]
        == "param."@ + x by {
        if sets_param(keys, i + 1, x) {
            let j = choose|j: int| 0 <= j < i + 1 && #[trigger] keys[j] == "param."@ + x;
            if j < i {
                assert(sets_param(keys, i, x));
            }
        }
        if sets_param(keys, i, x) {
            let j = choose|j: int| 0 <= j < i && #[trigger] keys[j] == "param."@ + x;
            assert(keys[j] == "param."@ + x);
        }
    }
    assert forall|x: Seq<char>| keys[i] == #[trigger] ("param."@ + x) implies text::begins(
        keys[i],
        "param."@,
    ) && x == n by {
        assert(("param."@ + x).take(6) =~= "param."@);
        assert(("param."@ + x).skip(6) =~= x);
    }
    if text::begins(keys[i], "param."@) {
        assert(keys[i] =~= "param."@ + n);
        if set.contains_key(n) {
            assert(b =~= a.insert(n, set[n]));
            assert(base.union_prefer_right(b) =~= base.union_prefer_right(a).insert(n, set[n]));
        } else {
            assert(b =~= a);
        }
    } else {
        assert(b =~= a);
    }
}

fn read_params(kv: &Entries, base: &Values) -> (r: Values)
    requires
        base.wf(),
    ensures
        r.wf(),
        r@ == base@.union_prefer_right(param_settings(kv@)),
{
    let keys: Vec<Vec<char>> = kv.keys();
    let mut out: Values = base.copy();
    let mut i: usize = 0;
    let ghost all = text::contents(keys@);
    proof {
        reveal_strlit("param.");
        assert(base@.union_prefer_right(first_params(kv@, all, 0)) =~= base@);
    }
    while i < keys.len()
        invariant
            i <= keys@.len(),
            all == text::contents(keys@),
            "param."@.len() == 6,
            out.wf(),
            out@ == base@.union_prefer_right(first_params(kv@, all, i as int)),
        decreases keys@.len() - i,
    {
        proof {
            lemma_next_param(base@, kv@, all, i as int);
        }
        assert(all[i as int] == keys@[i as int]@);
        if let Some(name) = text::strip_prefix(keys[i].as_slice(), "param.") {
            assert(all[i as int] =~= "param."@ + name@);
            if let Some(v) = kv.get(keys[i].as_slice()) {
                if let Some(x) = parse_number(v.as_str()) {
                    out.set(name, x);
                }
            }
        }
        i = i + 1;
    }
    proof {
        let set = param_settings(kv@);
        let part = first_params(kv@, all, i as int);
        assert forall|n: Seq<char>| set.contains_key(n) implies part.contains_key(n) by {
            assert(all.contains("param."@ + n));
            let j = choose|j: int| 0 <= j < all.len() && all[j] == "param."@ + n;
            assert(all[j] == "param."@ + n);
        }
        assert(part =~= set);
    }
    out
}

// --------------------------------------------------------------- configuration

/// `c` is what the settings `kv` make of `base`: what is set wins, the rest
/// stays.
pub open spec fn loaded(kv: Map<Seq<char>, Seq<char>>, base: Config, c: Config) -> bool {
    &&& text::texts(c.presets@) == presets_setting(setting(kv, "preset"@), text::texts(base.presets@))
    &&& c.source.res == size_setting(setting(kv, "source_res"@), base.source.res)
    &&& c.source.duplicate == duplicate_setting(
        setting(kv, "pixel_duplicate"@),
        base.source.duplicate,
    )
    &&& c.source.filter == filter_setting(setting(kv, "source_filter"@), base.source.filter)
    &&& (c.source.rect, c.source.rect_spec@) == rect_setting(
        setting(kv, "source_rect"@),
        (base.source.rect, base.source.rect_spec@),
    )
    &&& (c.source.display, c.source.display_spec@) == rect_setting(
        setting(kv, "display_rect"@),
        (base.source.display, base.source.display_spec@),
    )
    &&& c.source.display_scale == display_scale_setting(
        setting(kv, "display_scale"@),
        base.source.display_scale,
    )
    &&& c.source.source_scale == source_scale_setting(
        setting(kv, "source_scale"@),
        base.source.source_scale,
    )
    &&& text::texts(c.process@) == process_setting(setting(kv, "process"@))
    &&& c.params@ == base.params@.union_prefer_right(param_settings(kv))
    &&& c.ipc == ipc_setting(setting(kv, "ipc"@))
    &&& c.hdr == hdr_setting(kv, base.hdr)
    &&& c.hdr_output == hdr_output_setting(setting(kv, "hdr_output"@))
    &&& c.subframes == subframes_setting(setting(kv, "subframes"@), base.subframes)
    &&& c.subframe_black == black_setting(setting(kv, "subframe_mode"@), base.subframe_black)
}

impl Default for Config {
    fn default() -> (r: Self)
        ensures
            r.wf(),
            r.presets@ == Seq::<String>::empty(),
            r.source.res == SourceSize::Native,
            r.source.duplicate == (Counts { x: 1, y: 1 }),
            r.source.filter == Filter::Nearest,
            r.source.rect == SourceRect::Full,
            r.source.rect_spec@ == "full"@,
            r.source.display == SourceRect::Full,
            r.source.display_spec@ == "full"@,
            r.source.display_scale == ipc::unscaled(),
            r.source.source_scale == ipc::unscaled(),
            r.process@ == Seq::<String>::empty(),
            r.params@ == Map::<Seq<char>, Single>::empty(),
            r.ipc,
            r.hdr == ipc::default_hdr(),
            r.hdr_output == HdrOutput::Auto,
            r.subframes == 1,
            !r.subframe_black,
    {
        Config {
            presets: Vec::new(),
            source: Source::default(),
            process: Vec::new(),
            params: Values::new(),
            ipc: true,
            hdr: HdrSettings::default(),
            hdr_output: HdrOutput::Auto,
            subframes: 1,
            subframe_black: false,
        }
    }
}

pub fn copy_texts(v: &Vec<String>) -> (r: Vec<String>)
    ensures
        r@ == v@,
{
    let mut out: Vec<String> = Vec::new();
    let mut i: usize = 0;
    while i < v.len()
        invariant
            i <= v@.len(),
            out@ == v@.take(i as int),
        decreases v@.len() - i,
    {
        out.push(v[i].clone());
        i = i + 1;
        assert(out@ =~= v@.take(i as int));
    }
    assert(v@.take(i as int) =~= v@);
    out
}

/// A scale read from a setting is one that the display area can have.
proof fn lemma_factor_allowed(s: Seq<char>)
    ensures
        source::scale_allowed(display_factor(s)),
{
    source::lemma_one_allowed();
    let one = single::of_integer(1);
    let lo = single::of_fraction(1, 10);
    let hi = single::of_integer(4);
    // one is between the two, so both are numbers and in order.
    assert(lo.up_to(one) && one.up_to(hi));
    assert(lo.finite() && hi.finite()) by {
        single::lemma_magnitude_increases(0, lo.pattern());
        screen::lemma_small_integer(4);
        screen::lemma_small_integer(1);
        single::lemma_nearest_exists(single::one_in_units(), 10);
        single::lemma_nearest_exists(single::one_in_units(), 1);
        assert(1 * single::one_in_units() == single::one_in_units());
        single::lemma_rounding_monotone(
            single::one_in_units(),
            10,
            lo.pattern(),
            single::one_in_units(),
            1,
            one.pattern(),
        );
    }
}

/// The settings in a file, if there is one, overridden by variables.
pub open spec fn settings_of(file: Option<Seq<char>>, vars: Seq<(Seq<char>, Seq<char>)>) -> Map<
    Seq<char>,
    Seq<char>,
> {
    entries::overridden(
        match file {
            Some(s) => entries::file_settings(s),
            None => Map::empty(),
        },
        vars,
    )
}

/// The settings in a file, if there is one, overridden by variables of the
/// environment.
pub fn read_settings(file: Option<&str>, vars: &Vec<(String, String)>) -> (r: Entries)
    ensures
        r@ == settings_of(
            match file {
                Some(s) => Some(s@),
                None => None,
            },
            entries::assignments(vars@),
        ),
{
    let mut kv: Entries = match file {
        Some(s) => entries::parse_file(s),
        None => Entries::new(),
    };
    kv.override_with(vars);
    kv
}

impl Config {
    pub open spec fn wf(&self) -> bool {
        self.source.wf() && self.params.wf()
    }

    /// The configuration that the settings `kv` make of `base`.
    pub fn from_entries(kv: &Entries, base: &Config) -> (r: Config)
        requires
            base.wf(),
        ensures
            r.wf(),
            loaded(kv@, *base, r),
    {
        let presets: Vec<String> = match kv.value("preset") {
            Some(s) => split_items(s.as_str()),
            None => copy_texts(&base.presets),
        };
        let res: SourceSize = match kv.value("source_res") {
            Some(s) => match source::parse_source_size(s.as_str()) {
                Some(size) => size,
                None => SourceSize::Native,
            },
            None => base.source.res,
        };
        let duplicate: Counts = match kv.value("pixel_duplicate") {
            Some(s) => {
                let (x, y) = both_axes(s.as_str());
                Counts { x: read_count(x.as_slice()), y: read_count(y.as_slice()) }
            },
            None => base.source.duplicate,
        };
        let filter: Filter = match kv.value("source_filter") {
            Some(s) => {
                let t: Vec<char> = text::lower(text::chars_of(s.as_str()).as_slice());
                if text::same_text(t.as_slice(), "linear") {
                    Filter::Linear
                } else {
                    Filter::Nearest
                }
            },
            None => base.source.filter,
        };
        let (display, display_spec) = read_rect(
            kv.value("display_rect"),
            base.source.display,
            &base.source.display_spec,
        );
        let (rect, rect_spec) = read_rect(
            kv.value("source_rect"),
            base.source.rect,
            &base.source.rect_spec,
        );
        proof {
            source::lemma_full();
        }
        let display_scale: Factors = match kv.value("display_scale") {
            Some(s) => {
                let (x, y) = both_axes(s.as_str());
                proof {
                    lemma_factor_allowed(x@);
                    lemma_factor_allowed(y@);
                }
                Factors {
                    x: read_display_factor(x.as_slice()),
                    y: read_display_factor(y.as_slice()),
                }
            },
            None => base.source.display_scale,
        };
        let source_scale: Factors = match kv.value("source_scale") {
            Some(s) => {
                let (x, y) = both_axes(s.as_str());
                Factors { x: read_source_factor(x.as_slice()), y: read_source_factor(y.as_slice()) }
            },
            None => base.source.source_scale,
        };
        let process: Vec<String> = match kv.value("process") {
            Some(s) => split_items(s.as_str()),
            None => {
                let none: Vec<String> = Vec::new();
                assert(text::texts(none@) =~= Seq::empty());
                none
            },
        };
        let ipc: bool = match kv.value("ipc") {
            Some(s) => {
                let c: Vec<char> = text::chars_of(s.as_str());
                !text::same_text(c.as_slice(), "0") && !text::is_alike_text(c.as_slice(), "false")
            },
            None => true,
        };
        let hdr_output: HdrOutput = match kv.value("hdr_output") {
            Some(s) => {
                let t: Vec<char> = text::lower(text::chars_of(s.as_str()).as_slice());
                let t: &[char] = t.as_slice();
                if text::same_text(t, "off") || text::same_text(t, "0") || text::same_text(
                    t,
                    "false",
                ) {
                    HdrOutput::Off
                } else if text::same_text(t, "force") || text::same_text(t, "1")
                    || text::same_text(t, "true") {
                    HdrOutput::Force
                } else {
                    HdrOutput::Auto
                }
            },
            None => HdrOutput::Auto,
        };
        let subframes: Option<u32> = match kv.value("subframes") {
            Some(s) => parse_count(s.as_str()),
            None => None,
        };
        let subframe_black: bool = match kv.value("subframe_mode") {
            Some(s) => {
                let c: Vec<char> = text::chars_of(s.as_str());
                text::is_alike_text(c.as_slice(), "black") || text::is_alike_text(
                    c.as_slice(),
                    "bfi",
                )
            },
            None => base.subframe_black,
        };
        Config {
            presets,
            source: Source {
                res,
                duplicate,
                filter,
                rect,
                rect_spec,
                display,
                display_spec,
                display_scale,
                source_scale,
            },
            process,
            params: read_params(kv, &base.params),
            ipc,
            hdr: parse_hdr_over(kv, base.hdr),
            hdr_output,
            subframes: clamp_subframes(
                match subframes {
                    Some(n) => n,
                    None => base.subframes,
                },
            ),
            subframe_black,
        }
    }

    /// The configuration in the text of a file, if there is one, overridden by
    /// variables of the environment, over `base`.
    pub fn load(file: Option<&str>, vars: &Vec<(String, String)>, base: &Config) -> (r: Config)
        requires
            base.wf(),
        ensures
            r.wf(),
            loaded(
                settings_of(
                    match file {
                        Some(s) => Some(s@),
                        None => None,
                    },
                    entries::assignments(vars@),
                ),
                *base,
                r,
            ),
    {
        let kv: Entries = read_settings(file, vars);
        Config::from_entries(&kv, base)
    }

    /// Region of the swapchain image that holds the picture.
    pub fn source_rect_for(&self, extent: Extent) -> (r: Rect)
        requires
            screen::region_fits(self.source.rect, extent),
        ensures
            r == screen::region_of(self.source.rect, extent),
    {
        self.source.picture_rect(extent)
    }

    /// Whether the layer should do anything in a process of that name.
    pub fn active_for_process(&self, exe_name: &str) -> (r: bool)
        ensures
            r == (self.process@.len() == 0 || text::texts(self.process@).contains(exe_name@)),
    {
        if self.process.len() == 0 {
            return true;
        }
        let mut i: usize = 0;
        while i < self.process.len()
            invariant
                i <= self.process@.len(),
                forall|j: int| 0 <= j < i ==> (#[trigger] self.process@[j])@ != exe_name@,
            decreases self.process@.len() - i,
        {
            if text::equal_texts(self.process[i].as_str(), exe_name) {
                assert(text::texts(self.process@)[i as int] == exe_name@);
                return true;
            }
            i = i + 1;
        }
        assert forall|j: int| 0 <= j < self.process@.len() implies text::texts(self.process@)[j]
            != exe_name@ by {
            assert(self.process@[j]@ != exe_name@);
        }
        false
    }
}

/// What is spelled out wins, whatever the configuration it is laid over: two
/// bases give the same value to every setting that is set.
pub proof fn lemma_spelled_out_wins(
    kv: Map<Seq<char>, Seq<char>>,
    a: Config,
    b: Config,
    c: Config,
    d: Config,
)
    requires
        loaded(kv, a, c),
        loaded(kv, b, d),
    ensures
        kv.contains_key("preset"@) ==> text::texts(c.presets@) == text::texts(d.presets@),
        kv.contains_key("source_res"@) ==> c.source.res == d.source.res,
        kv.contains_key("pixel_duplicate"@) ==> c.source.duplicate == d.source.duplicate,
        kv.contains_key("source_filter"@) ==> c.source.filter == d.source.filter,
        kv.contains_key("source_rect"@) ==> c.source.rect == d.source.rect,
        kv.contains_key("display_rect"@) ==> c.source.display == d.source.display,
        kv.contains_key("display_scale"@) ==> c.source.display_scale == d.source.display_scale,
        kv.contains_key("source_scale"@) ==> c.source.source_scale == d.source.source_scale,
        kv.contains_key("subframe_mode"@) ==> c.subframe_black == d.subframe_black,
        kv.contains_key("subframes"@) && text::unsigned_value(kv["subframes"@]) is Some
            ==> c.subframes == d.subframes,
        kv.contains_key("brightness_nits"@) && decimal::written(kv["brightness_nits"@]) is Some
            ==> c.hdr.brightness_nits == d.hdr.brightness_nits,
        kv.contains_key("expand_gamut"@) && text::unsigned_value(kv["expand_gamut"@]) is Some
            ==> c.hdr.expand_gamut == d.hdr.expand_gamut,
        forall|n: Seq<char>| #[trigger] param_settings(kv).contains_key(n) ==> c.params@.contains_key(n)
            && d.params@.contains_key(n) && c.params@[n] == d.params@[n],
        text::texts(c.process@) == text::texts(d.process@),
        c.ipc == d.ipc,
        c.hdr_output == d.hdr_output,
{
}

/// What is not spelled out is as in the configuration that the settings are
/// laid over.
pub proof fn lemma_nothing_spelled_out(a: Config, c: Config)
    requires
        loaded(Map::empty(), a, c),
    ensures
        text::texts(c.presets@) == text::texts(a.presets@),
        c.source.res == a.source.res,
        c.source.duplicate == a.source.duplicate,
        c.source.filter == a.source.filter,
        c.source.rect == a.source.rect,
        c.source.rect_spec@ == a.source.rect_spec@,
        c.source.display == a.source.display,
        c.source.display_spec@ == a.source.display_spec@,
        c.source.display_scale == a.source.display_scale,
        c.source.source_scale == a.source.source_scale,
        c.params@ == a.params@,
        c.hdr == sanitized_hdr(a.hdr),
        c.subframes == allowed_subframes(a.subframes),
        c.subframe_black == a.subframe_black,
        c.process@.len() == 0,
        c.ipc,
        c.hdr_output == HdrOutput::Auto,
{
    assert(text::texts(c.process@).len() == c.process@.len());
    assert(a.params@.union_prefer_right(param_settings(Map::empty())) =~= a.params@);
}

/// What the words in settings mean: the filter is linear for `linear` and
/// nearest otherwise, extra presentations are black for `black` and `bfi`, the
/// control socket is off for `0` and `false`, and the HDR output is off for
/// `off`, `0` and `false`, forced for `force`, `1` and `true`, and automatic
/// otherwise. Capital letters make no difference.
pub proof fn lemma_words(kv: Map<Seq<char>, Seq<char>>, base: Config, c: Config)
    requires
        loaded(kv, base, c),
    ensures
        kv.contains_key("source_filter"@) ==> (c.source.filter == Filter::Linear <==> text::alike(
            kv["source_filter"@],
            "linear"@,
        )),
        kv.contains_key("subframe_mode"@) ==> (c.subframe_black <==> text::alike(
            kv["subframe_mode"@],
            "black"@,
        ) || text::alike(kv["subframe_mode"@], "bfi"@)),
        !c.ipc <==> kv.contains_key("ipc"@) && (text::alike(kv["ipc"@], "0"@) || text::alike(
            kv["ipc"@],
            "false"@,
        )),
        c.hdr_output == HdrOutput::Off <==> kv.contains_key("hdr_output"@) && (text::alike(
            kv["hdr_output"@],
            "off"@,
        ) || text::alike(kv["hdr_output"@], "0"@) || text::alike(kv["hdr_output"@], "false"@)),
        c.hdr_output == HdrOutput::Force <==> kv.contains_key("hdr_output"@) && (text::alike(
            kv["hdr_output"@],
            "force"@,
        ) || text::alike(kv["hdr_output"@], "1"@) || text::alike(kv["hdr_output"@], "true"@)),
{
    lemma_lower_words();
    if kv.contains_key("ipc"@) {
        let v = kv["ipc"@];
        reveal_strlit("0");
        if text::alike(v, "0"@) {
            assert(text::lowered(v).len() == 1);
            assert(text::lowered(v)[0] == text::lowered_char(v[0]));
            assert(text::lowered("0"@)[0] == '0');
            assert(v =~= "0"@);
        }
    }
    if kv.contains_key("hdr_output"@) {
        let t = text::lowered(kv["hdr_output"@]);
        reveal_strlit("off");
        reveal_strlit("0");
        reveal_strlit("1");
        reveal_strlit("force");
        reveal_strlit("false");
        reveal_strlit("true");
        assert("force"@[1] == 'o' && "false"@[1] == 'a');
        assert("0"@[0] == '0' && "1"@[0] == '1');
        assert("off"@.len() == 3 && "true"@.len() == 4);
    }
}

/// These words are in lower case.
proof fn lemma_lower_words()
    ensures
        text::lowered("linear"@) == "linear"@,
        text::lowered("off"@) == "off"@,
        text::lowered("0"@) == "0"@,
        text::lowered("1"@) == "1"@,
        text::lowered("false"@) == "false"@,
        text::lowered("force"@) == "force"@,
        text::lowered("true"@) == "true"@,
{
    reveal_strlit("linear");
    reveal_strlit("off");
    reveal_strlit("0");
    reveal_strlit("1");
    reveal_strlit("force");
    reveal_strlit("false");
    reveal_strlit("true");
    assert(text::lowered("linear"@) =~= "linear"@);
    assert(text::lowered("off"@) =~= "off"@);
    assert(text::lowered("0"@) =~= "0"@);
    assert(text::lowered("1"@) =~= "1"@);
    assert(text::lowered("false"@) =~= "false"@);
    assert(text::lowered("force"@) =~= "force"@);
    assert(text::lowered("true"@) =~= "true"@);
}

/// What the numbers in settings mean. A scale, or a count, without a comma is
/// for both axes, otherwise the first is for the width and the second for the
/// height; a display scale is kept within a tenth and four, presentations
/// within one and eight, the brightness within 0 and 10000 nits, and the gamut
/// within 0 and 3.
pub proof fn lemma_numbers(kv: Map<Seq<char>, Seq<char>>, base: Config, c: Config, x: Seq<char>, y: Seq<char>)
    requires
        loaded(kv, base, c),
        text::trimmed(x) == x,
        text::trimmed(y) == y,
        forall|i: int| 0 <= i < x.len() ==> x[i] != ',',
    ensures
        ({
            let both = x + seq![','] + y;
            let s = c.source;
            &&& setting(kv, "display_scale"@) == Some(x) ==> s.display_scale.x == s.display_scale.y
                && scale_of(x, s.display_scale.x)
            &&& setting(kv, "display_scale"@) == Some(both) ==> scale_of(x, s.display_scale.x)
                && scale_of(y, s.display_scale.y)
            &&& setting(kv, "source_scale"@) == Some(x) ==> s.source_scale.x == s.source_scale.y
                && factor_of(x, s.source_scale.x)
            &&& setting(kv, "source_scale"@) == Some(both) ==> factor_of(x, s.source_scale.x)
                && factor_of(y, s.source_scale.y)
            &&& setting(kv, "pixel_duplicate"@) == Some(x) && text::unsigned_value(x) is Some
                ==> s.duplicate.x == text::unsigned_value(x)->0 && s.duplicate.y == s.duplicate.x
            &&& setting(kv, "pixel_duplicate"@) == Some(both) && text::unsigned_value(x) is Some
                && text::unsigned_value(y) is Some ==> s.duplicate.x == text::unsigned_value(x)->0
                && s.duplicate.y == text::unsigned_value(y)->0
            &&& setting(kv, "subframes"@) == Some(x) && text::unsigned_value(x) is Some
                && 1 <= text::unsigned_value(x)->0 <= 8 ==> c.subframes == text::unsigned_value(
                x,
            )->0
            &&& 1 <= c.subframes <= 8
            &&& setting(kv, "expand_gamut"@) == Some(x) && text::unsigned_value(x) is Some
                && text::unsigned_value(x)->0 <= 3 ==> c.hdr.expand_gamut == text::unsigned_value(
                x,
            )->0
            &&& c.hdr.expand_gamut <= 3
            &&& c.hdr.brightness_nits.finite() && 0 <= c.hdr.brightness_nits.units() <= 10000
                * single::one_in_units()
            &&& setting(kv, "brightness_nits"@) == Some(x) && decimal::written(x) is Some
                && decimal::written(x)->0.finite() && 0 <= decimal::written(x)->0.units() <= 10000
                * single::one_in_units() ==> c.hdr.brightness_nits == decimal::written(x)->0
        }),
{
    let both = x + seq![','] + y;
    text::lemma_run(x, ',', ',', x.len());
    assert(forall|i: int| 0 <= i < x.len() ==> both[i] == x[i]);
    text::lemma_run(both, ',', ',', x.len());
    assert(both.take(x.len() as int) =~= x);
    assert(both.skip(x.len() as int + 1) =~= y);
    lemma_factors_read(x);
    lemma_factors_read(y);
    lemma_hdr_range(
        HdrSettings {
            brightness_nits: match setting(kv, "brightness_nits"@) {
                Some(s) => match decimal::written(s) {
                    Some(n) => n,
                    None => base.hdr.brightness_nits,
                },
                None => base.hdr.brightness_nits,
            },
            expand_gamut: match setting(kv, "expand_gamut"@) {
                Some(s) => match text::unsigned_value(s) {
                    Some(n) => n,
                    None => base.hdr.expand_gamut,
                },
                None => base.hdr.expand_gamut,
            },
        },
    );
}

/// HDR settings are moved into their ranges, and stay if they are in them.
pub proof fn lemma_hdr_range(hdr: HdrSettings)
    ensures
        ({
            let u = single::one_in_units() as int;
            let b = hdr.brightness_nits;
            let r = sanitized_hdr(hdr);
            &&& r.brightness_nits.finite() && 0 <= r.brightness_nits.units() <= 10000 * u
            &&& b.finite() && 0 <= b.units() <= 10000 * u ==> r.brightness_nits == b
            &&& b.finite() && b.units() < 0 ==> r.brightness_nits.units() == 0
            &&& b.finite() && b.units() > 10000 * u ==> r.brightness_nits.units() == 10000 * u
            &&& !b.finite() ==> r.brightness_nits.units() == 200 * u
            &&& r.expand_gamut <= 3
            &&& hdr.expand_gamut <= 3 ==> r.expand_gamut == hdr.expand_gamut
        }),
{
    accuracy::lemma_zero();
    screen::lemma_small_integer(200);
    screen::lemma_small_integer(10000);
}

/// A scale is read as it is written.
proof fn lemma_factors_read(s: Seq<char>)
    ensures
        scale_of(s, display_factor(s)),
        factor_of(s, source_factor(s)),
{
    let tenth = single::of_fraction(1, 10);
    screen::lemma_small_integer(1);
    screen::lemma_small_integer(4);
    accuracy::lemma_units();
    accuracy::lemma_near(vstd::arithmetic::power2::pow2(149), 10, 125);
    assert(tenth == single::signed(
        false,
        single::nearest(vstd::arithmetic::power2::pow2(149), 10),
    ));
}

/// `r` is the scale of a display area that is written as `s`: the number, moved
/// into the range from a tenth to four; 1 if there is none.
pub open spec fn scale_of(s: Seq<char>, r: Single) -> bool {
    let u = single::one_in_units() as int;
    match decimal::written(s) {
        Some(x) => {
            &&& x.finite() && source::scale_allowed(x) ==> r == x
            &&& x.finite() && x.units() > 4 * u ==> r.units() == 4 * u
            &&& x.finite() && x.before(single::of_fraction(1, 10)) ==> r == single::of_fraction(1, 10)
            &&& !x.finite() ==> r.units() == u
        },
        None => r.units() == u,
    }
}

/// `r` is the scale of a picture that is written as `s`: the number if it is
/// finite, else 1.
pub open spec fn factor_of(s: Seq<char>, r: Single) -> bool {
    match decimal::written(s) {
        Some(x) => if x.finite() {
            r == x
        } else {
            r.units() == single::one_in_units()
        },
        None => r.units() == single::one_in_units(),
    }
}

/// Parameters are set by `param.` and their name; every number counts as it is
/// written, and the others are as in the configuration underneath.
pub proof fn lemma_params(kv: Map<Seq<char>, Seq<char>>, base: Config, c: Config, name: Seq<char>)
    requires
        loaded(kv, base, c),
    ensures
        match setting(kv, "param."@ + name) {
            Some(s) => match decimal::written(s) {
                Some(x) => c.params@.contains_key(name) && c.params@[name] == x,
                None => c.params@.contains_key(name) == base.params@.contains_key(name),
            },
            None => {
                &&& c.params@.contains_key(name) == base.params@.contains_key(name)
                &&& base.params@.contains_key(name) ==> c.params@[name] == base.params@[name]
            },
        },
{
}

/// A size or a region that is written and can be read is in effect; one that
/// cannot be read is the native size, or the whole image, whatever is
/// underneath, and is warned of.
pub proof fn lemma_regions(kv: Map<Seq<char>, Seq<char>>, base: Config, c: Config)
    requires
        loaded(kv, base, c),
    ensures
        match setting(kv, "source_res"@) {
            Some(s) => c.source.res == match source::size_value(s) {
                Some(size) => size,
                None => SourceSize::Native,
            },
            None => c.source.res == base.source.res,
        },
        match setting(kv, "source_rect"@) {
            Some(s) => match source::rect_value(s) {
                Some(rect) => c.source.rect == rect && c.source.rect_spec@ == s,
                None => c.source.rect == SourceRect::Full,
            },
            None => c.source.rect == base.source.rect,
        },
        match setting(kv, "display_rect"@) {
            Some(s) => match source::rect_value(s) {
                Some(rect) => c.source.display == rect && c.source.display_spec@ == s,
                None => c.source.display == SourceRect::Full,
            },
            None => c.source.display == base.source.display,
        },
        objections(kv).len() == (if kv.contains_key("source_res"@) && source::size_value(
            kv["source_res"@],
        ) is None {
            1int
        } else {
            0
        }) + (if kv.contains_key("source_rect"@) && source::rect_value(
            kv["source_rect"@],
        ) is None {
            1int
        } else {
            0
        }) + (if kv.contains_key("display_rect"@) && source::rect_value(
            kv["display_rect"@],
        ) is None {
            1int
        } else {
            0
        }),
{
}

/// The presets and the processes are the items of their lists, in order.
pub proof fn lemma_lists(
    kv: Map<Seq<char>, Seq<char>>,
    base: Config,
    c: Config,
    v: Seq<Seq<char>>,
)
    requires
        loaded(kv, base, c),
        v.len() > 0,
        separable(v),
    ensures
        setting(kv, "preset"@) == Some(text::joined(v, ","@)) || setting(kv, "preset"@) == Some(
            text::joined(v, ", "@),
        ) ==> text::texts(c.presets@) == v,
        setting(kv, "process"@) == Some(text::joined(v, ","@)) || setting(kv, "process"@) == Some(
            text::joined(v, ", "@),
        ) ==> text::texts(c.process@) == v,
        !kv.contains_key("preset"@) ==> text::texts(c.presets@) == text::texts(base.presets@),
        !kv.contains_key("process"@) ==> c.process@.len() == 0,
{
    lemma_items_joined(v, ","@);
    lemma_items_joined(v, ", "@);
    assert(text::texts(c.process@).len() == c.process@.len());
}

// --------------------------------------------------------------------- warnings

/// What is said of a setting that cannot be read.
pub open spec fn objection(
    key: Seq<char>,
    v: Option<Seq<char>>,
    readable: bool,
    hint: Seq<char>,
) -> Seq<Seq<char>> {
    match v {
        Some(s) => if readable {
            seq![]
        } else {
            seq!["invalid "@ + key + " '"@ + s + "', "@ + hint]
        },
        None => seq![],
    }
}

/// What is said of the settings that cannot be read.
pub open spec fn objections(kv: Map<Seq<char>, Seq<char>>) -> Seq<Seq<char>> {
    let res = setting(kv, "source_res"@);
    let display = setting(kv, "display_rect"@);
    let rect = setting(kv, "source_rect"@);
    objection(
        "source_res"@,
        res,
        res is Some && source::size_value(res->0) is Some,
        "expected WxH, /N or native"@,
    ) + objection(
        "display_rect"@,
        display,
        display is Some && source::rect_value(display->0) is Some,
        "using full"@,
    ) + objection(
        "source_rect"@,
        rect,
        rect is Some && source::rect_value(rect->0) is Some,
        "using full"@,
    )
}

fn object(out: &mut Vec<String>, key: &str, v: &String, hint: &str)
    ensures
        text::texts(final(out)@) == text::texts(old(out)@) + objection(
            key@,
            Some(v@),
            false,
            hint@,
        ),
{
    let ghost before = text::texts(out@);
    let mut line: Vec<char> = text::chars_of("invalid ");
    text::append_text(&mut line, key);
    text::append_text(&mut line, " '");
    text::append_text(&mut line, v.as_str());
    text::append_text(&mut line, "', ");
    text::append_text(&mut line, hint);
    out.push(text::text_of(line.as_slice()));
    assert(text::texts(out@) =~= before + seq![line@]);
}

/// What to say of the settings that cannot be read.
pub fn warnings(kv: &Entries) -> (r: Vec<String>)
    ensures
        text::texts(r@) == objections(kv@),
{
    let mut out: Vec<String> = Vec::new();
    assert(text::texts(out@) =~= Seq::empty());
    if let Some(v) = kv.value("source_res") {
        if source::parse_source_size(v.as_str()).is_none() {
            object(&mut out, "source_res", v, "expected WxH, /N or native");
        }
    }
    let ghost one = text::texts(out@);
    if let Some(v) = kv.value("display_rect") {
        if source::parse_rect(v.as_str()).is_none() {
            object(&mut out, "display_rect", v, "using full");
        }
    }
    let ghost two = text::texts(out@);
    if let Some(v) = kv.value("source_rect") {
        if source::parse_rect(v.as_str()).is_none() {
            object(&mut out, "source_rect", v, "using full");
        }
    }
    assert(text::texts(out@) =~= objections(kv@));
    out
}

// ----------------------------------------------------------------------- paths

/// What the environment says about the places of files.
pub struct Places {
    /// `VKSLANG_CONFIG`.
    pub config: Option<String>,
    /// `XDG_CONFIG_HOME`.
    pub config_home: Option<String>,
    /// `HOME`.
    pub home: Option<String>,
}

/// The directory for configuration.
pub open spec fn config_base(p: Places) -> Option<Seq<char>> {
    match (p.config_home, p.home) {
        (Some(d), _) => Some(d@),
        (None, Some(h)) => Some(path::within(h@, ".config"@)),
        (None, None) => None,
    }
}

/// The configuration file of the layer.
pub open spec fn config_place(p: Places) -> Option<Seq<char>> {
    match p.config {
        Some(c) => Some(c@),
        None => match config_base(p) {
            Some(b) => Some(path::within(path::within(b, "vkSlang"@), "vkSlang.conf"@)),
            None => None,
        },
    }
}

pub fn base_dir(p: &Places) -> (r: Option<String>)
    ensures
        match r {
            Some(s) => config_base(*p) == Some(s@),
            None => config_base(*p) is None,
        },
{
    match (&p.config_home, &p.home) {
        (Some(d), _) => Some(d.clone()),
        (None, Some(h)) => Some(path::join_text(h.as_str(), ".config")),
        (None, None) => None,
    }
}

/// The configuration file, if its place is known.
pub fn config_path(p: &Places) -> (r: Option<String>)
    ensures
        match r {
            Some(s) => config_place(*p) == Some(s@),
            None => config_place(*p) is None,
        },
{
    if let Some(c) = &p.config {
        return Some(c.clone());
    }
    match base_dir(p) {
        Some(b) => Some(
            path::join_text(path::join_text(b.as_str(), "vkSlang").as_str(), "vkSlang.conf"),
        ),
        None => None,
    }
}

/// Where a container shows the file `path` of the host.
pub open spec fn on_host(path: Seq<char>) -> Option<Seq<char>> {
    match path::below_root(path) {
        Some(rest) => Some(path::within("/run/host"@, rest)),
        None => None,
    }
}

/// Where a container shows the file `path` of the host.
pub fn host_path(path: &str) -> (r: Option<String>)
    ensures
        match r {
            Some(s) => on_host(path@) == Some(s@),
            None => on_host(path@) is None,
        },
{
    let c: Vec<char> = text::chars_of(path);
    match path::under_root(c.as_slice()) {
        Some(rest) => {
            let base: Vec<char> = text::chars_of("/run/host");
            Some(text::text_of(path::join(base.as_slice(), rest).as_slice()))
        },
        None => None,
    }
}

/// Resolves a configured path, falling back to the same path under
/// `/run/host` for Steam/Proton, where the host's files are mounted. `found`
/// says whether the path exists, `found_on_host` whether its fallback does.
pub fn resolve_path(path: &str, found: bool, found_on_host: bool) -> (r: String)
    ensures
        r@ == if !found && found_on_host && on_host(path@) is Some {
            on_host(path@)->0
        } else {
            path@
        },
{
    if !found && found_on_host {
        if let Some(host) = host_path(path) {
            return host;
        }
    }
    text::text_of(text::chars_of(path).as_slice())
}

/// Name of the executable at `path`, nothing if it is unknown.
pub fn exe_name(path: Option<&str>) -> (r: String)
    ensures
        r@ == match path {
            Some(p) => match path::name_of(p@) {
                Some(n) => n,
                None => Seq::empty(),
            },
            None => Seq::empty(),
        },
{
    if let Some(p) = path {
        let c: Vec<char> = text::chars_of(p);
        if let Some(n) = path::name(c.as_slice()) {
            return text::text_of(n);
        }
    }
    let none: Vec<char> = Vec::new();
    text::text_of(none.as_slice())
}

/// A file of the host is shown below `/run/host`, under its own path; a path
/// that is not absolute is not shown.
pub proof fn lemma_on_host(rest: Seq<char>)
    requires
        rest.len() > 0,
        rest[0] != '/',
        rest[0] != '.',
        rest.last() != '/',
        rest.last() != '.',
    ensures
        on_host("/"@ + rest) == Some("/run/host/"@ + rest),
        on_host(rest) is None,
{
    reveal_strlit("/");
    reveal_strlit(".");
    reveal_strlit("/run/host");
    reveal_strlit("/run/host/");
    let s = "/"@ + rest;
    assert(s[0] == '/');
    assert(s.drop_first() =~= rest);
    assert(rest != "."@);
    assert(path::led(rest) == rest);
    assert(path::led(s) == rest);
    assert(path::tidied(rest) == rest);
    assert("/run/host"@ + seq!['/'] + rest =~= "/run/host/"@ + rest);
}

/// Configuration lives in the directory for it, else below the home directory;
/// the file that is named outright comes before both.
pub proof fn lemma_config_place(p: Places)
    ensures
        p.config is Some ==> config_place(p) == Some(p.config->0@),
        p.config is None && p.config_home is Some ==> config_place(p) == Some(
            path::within(path::within(p.config_home->0@, "vkSlang"@), "vkSlang.conf"@),
        ),
        p.config is None && p.config_home is None && p.home is Some ==> config_place(p) == Some(
            path::within(
                path::within(path::within(p.home->0@, ".config"@), "vkSlang"@),
                "vkSlang.conf"@,
            ),
        ),
        p.config is None && p.config_home is None && p.home is None ==> config_place(p) is None,
        config_base(p) is Some <==> p.config_home is Some || p.home is Some,
{
}

} // verus!

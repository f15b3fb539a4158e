//! What the layer and the control panel say to each other.
//!
//! Every request is answered by exactly one [`Response`], and every successful
//! request returns the full, up-to-date [`State`].

use crate::accuracy;
use crate::notation;
use crate::screen;
use crate::single::{self, Single};
use crate::text;
use vstd::arithmetic::power2::*;
use vstd::prelude::*;

verus! {

pub const PROTOCOL_VERSION: u32 = 9;

/// Two whole numbers: a size in pixels.
#[derive(Clone, Copy, PartialEq, Eq, Debug, Structural)]
pub struct Extent {
    pub width: u32,
    pub height: u32,
}

/// Place of a pixel.
#[derive(Clone, Copy, PartialEq, Eq, Debug, Structural)]
pub struct Offset {
    pub x: i32,
    pub y: i32,
}

/// A rectangle of pixels.
#[derive(Clone, Copy, PartialEq, Eq, Debug, Structural)]
pub struct Rect {
    pub offset: Offset,
    pub extent: Extent,
}

/// A count for each axis.
#[derive(Clone, Copy, PartialEq, Eq, Debug, Structural)]
pub struct Counts {
    pub x: u32,
    pub y: u32,
}

/// A factor for each axis.
#[derive(Clone, Copy, PartialEq, Eq, Debug, Structural)]
pub struct Factors {
    pub x: Single,
    pub y: Single,
}

#[derive(Debug, PartialEq)]
pub enum Request {
    GetState,
    /// Change one preset parameter (applied on the next frame).
    SetParam { name: String, value: Single },
    /// Drop every parameter override, back to the preset's values.
    ResetParams,
    /// Compile and switch to another preset (in the background), or to several
    /// separated by commas.
    LoadPreset { path: String },
    /// Bypass the filter chain without unloading it.
    SetEnabled { enabled: bool },
    SetSource { source: SourceSettings },
    /// HDR uniforms (`BrightnessNits`, `ExpandGamut`) for HDR-aware presets.
    SetHdr { hdr: HdrSettings },
    /// Presentations per application frame (interlacing, BFI).
    SetSubframes { subframes: u32, black: bool },
    /// Grab the picture as the application drew it, before the preset.
    /// Answered immediately; the capture shows up in `State::capture` once a
    /// frame has been presented.
    Capture { max_width: u32 },
}

/// A picture grabbed by the layer, written next to the control socket.
///
/// Raw file: magic `VKSC`, width, height (little endian u32), then RGBA8 rows.
#[derive(Debug, PartialEq)]
pub struct Capture {
    pub path: String,
    /// Size of the captured image (downscaled to the requested width).
    pub size: Extent,
    /// Size of the image it was taken from, in output pixels.
    pub base: Extent,
    /// Area of that image that holds the picture.
    pub area: Rect,
    /// Increments with every capture, so a client can tell them apart.
    pub id: u64,
}

/// Color space of a swapchain or of a preset's final pass.
#[derive(Clone, Copy, PartialEq, Eq, Debug, Structural)]
pub enum ColorSpace {
    Sdr,
    Hdr10,
    ScRgb,
    PqScRgb,
}

impl Default for ColorSpace {
    fn default() -> (r: Self)
        ensures
            r == ColorSpace::Sdr,
    {
        ColorSpace::Sdr
    }
}

/// Everything but SDR is HDR.
pub open spec fn hdr_space(c: ColorSpace) -> bool {
    c != ColorSpace::Sdr
}

pub open spec fn space_label(c: ColorSpace) -> Seq<char> {
    match c {
        ColorSpace::Sdr => "SDR"@,
        ColorSpace::Hdr10 => "HDR10"@,
        ColorSpace::ScRgb => "scRGB"@,
        ColorSpace::PqScRgb => "PQ scRGB"@,
    }
}

impl ColorSpace {
    pub fn is_hdr(self) -> (r: bool)
        ensures
            r == hdr_space(self),
    {
        self != ColorSpace::Sdr
    }

    pub fn label(self) -> (r: &'static str)
        ensures
            r@ == space_label(self),
    {
        match self {
            ColorSpace::Sdr => "SDR",
            ColorSpace::Hdr10 => "HDR10",
            ColorSpace::ScRgb => "scRGB",
            ColorSpace::PqScRgb => "PQ scRGB",
        }
    }
}

/// The caveat about a preset of color space `preset` on an output of color
/// space `output`.
///
/// HDR10 vs scRGB is not a problem: HDR-aware presets adapt their encoding.
/// What does not work is converting between SDR and HDR, on the input or the
/// output side. On an output that was promoted to HDR the application still
/// draws SDR, so an HDR preset is exactly what is wanted there.
pub open spec fn caveat(preset: ColorSpace, output: ColorSpace, promoted: bool) -> Option<Seq<char>> {
    if promoted {
        if hdr_space(preset) {
            None
        } else {
            Some("the output was promoted to HDR but the preset writes SDR: pick an HDR preset (Sony Megatron) or set hdr_output = off"@)
        }
    } else if hdr_space(preset) && hdr_space(output) {
        Some("HDR output: the application's picture is already HDR encoded, while presets expect an SDR picture as input, so colors may be off (input conversion not implemented yet)"@)
    } else if hdr_space(preset) {
        Some("HDR preset on an SDR output: colors and brightness will be wrong"@)
    } else if hdr_space(output) {
        Some("SDR preset on an HDR output: the picture will look wrong (no SDR/HDR conversion yet). For SDR games, apply vkSlang to the game and let gamescope --hdr-enabled --hdr-itm-enabled do the HDR"@)
    } else {
        None
    }
}

/// Caveat about running a preset of color space `preset` on a swapchain of
/// color space `output`, if any.
pub fn color_space_mismatch(preset: ColorSpace, output: ColorSpace) -> (r: Option<&'static str>)
    ensures
        match r {
            Some(s) => caveat(preset, output, false) == Some(s@),
            None => caveat(preset, output, false) is None,
        },
{
    color_space_warning(preset, output, false)
}

/// Same, for an output that the layer may have promoted to HDR.
pub fn color_space_warning(preset: ColorSpace, output: ColorSpace, promoted: bool) -> (r: Option<
    &'static str,
>)
    ensures
        match r {
            Some(s) => caveat(preset, output, promoted) == Some(s@),
            None => caveat(preset, output, promoted) is None,
        },
{
    if promoted {
        if preset.is_hdr() {
            return None;
        }
        return Some("the output was promoted to HDR but the preset writes SDR: pick an HDR preset (Sony Megatron) or set hdr_output = off");
    }
    match (preset.is_hdr(), output.is_hdr()) {
        (true, false) => Some("HDR preset on an SDR output: colors and brightness will be wrong"),
        (false, true) => Some("SDR preset on an HDR output: the picture will look wrong (no SDR/HDR conversion yet). For SDR games, apply vkSlang to the game and let gamescope --hdr-enabled --hdr-itm-enabled do the HDR"),
        (true, true) => Some("HDR output: the application's picture is already HDR encoded, while presets expect an SDR picture as input, so colors may be off (input conversion not implemented yet)"),
        (false, false) => None,
    }
}

/// HDR10 and scRGB are alike: only whether a space is HDR counts.
pub proof fn lemma_caveat_ignores_encoding(
    preset: ColorSpace,
    preset2: ColorSpace,
    output: ColorSpace,
    output2: ColorSpace,
    promoted: bool,
)
    requires
        hdr_space(preset) == hdr_space(preset2),
        hdr_space(output) == hdr_space(output2),
    ensures
        caveat(preset, output, promoted) == caveat(preset2, output2, promoted),
{
}

/// There is nothing to warn of exactly when an SDR preset runs on an SDR output
/// or an HDR preset on one that was promoted.
pub proof fn lemma_caveats(preset: ColorSpace, output: ColorSpace)
    ensures
        caveat(preset, output, true) is None <==> preset != ColorSpace::Sdr,
        caveat(preset, output, false) is None <==> preset == ColorSpace::Sdr && output
            == ColorSpace::Sdr,
        hdr_space(preset) <==> preset == ColorSpace::Hdr10 || preset == ColorSpace::ScRgb || preset
            == ColorSpace::PqScRgb,
{
}

#[derive(Clone, Copy, Debug, PartialEq)]
pub struct HdrSettings {
    /// Paper white / SDR reference in nits (`BrightnessNits`).
    pub brightness_nits: Single,
    /// 0 Accurate, 1 Expanded, 2 Wide, 3 Super (`ExpandGamut`).
    pub expand_gamut: u32,
}

pub open spec fn default_hdr() -> HdrSettings {
    HdrSettings { brightness_nits: single::of_integer(200), expand_gamut: 0 }
}

impl Default for HdrSettings {
    fn default() -> (r: Self)
        ensures
            r == default_hdr(),
    {
        HdrSettings { brightness_nits: Single::of_u32(200), expand_gamut: 0 }
    }
}

pub open spec fn gamut_label(n: u32) -> Option<Seq<char>> {
    if n == 0 {
        Some("Accurate"@)
    } else if n == 1 {
        Some("Expanded"@)
    } else if n == 2 {
        Some("Wide"@)
    } else if n == 3 {
        Some("Super"@)
    } else {
        None
    }
}

/// Name of a color boost.
pub fn gamut_name(n: u32) -> (r: Option<&'static str>)
    ensures
        match r {
            Some(s) => gamut_label(n) == Some(s@),
            None => gamut_label(n) is None,
        },
{
    match n {
        0 => Some("Accurate"),
        1 => Some("Expanded"),
        2 => Some("Wide"),
        3 => Some("Super"),
        _ => None,
    }
}

#[derive(Debug, PartialEq)]
pub struct Output {
    /// Swapchain size: what the application renders and what is presented.
    pub size: Extent,
    /// Region of it holding the picture (differs with a 4:3 picture area).
    pub picture: Extent,
    /// Size of the image fed to the preset as `Original`.
    pub input: Extent,
    /// Vulkan format name, e.g. `A2B10G10R10_UNORM_PACK32`.
    pub format: String,
    pub color_space: ColorSpace,
    /// The layer turned the application's SDR swapchain into an HDR one, so
    /// the picture reaching the preset is SDR even though the output is HDR.
    pub promoted: bool,
}

#[derive(Clone, Copy, PartialEq, Eq, Debug, Structural)]
pub enum Filter {
    Nearest,
    Linear,
}

impl Default for Filter {
    fn default() -> (r: Self)
        ensures
            r == Filter::Nearest,
    {
        Filter::Nearest
    }
}

/// Size of the image handed to the filter chain as `Original`.
#[derive(Clone, Copy, PartialEq, Eq, Debug, Structural)]
pub enum SourceSize {
    /// The picture area itself, untouched.
    Native,
    /// The picture area divided by `by` (2 = half, 3 = a third...).
    Divide { by: Single },
    /// A fixed resolution, whatever the output is.
    Fixed { size: Extent },
}

impl Default for SourceSize {
    fn default() -> (r: Self)
        ensures
            r == SourceSize::Native,
    {
        SourceSize::Native
    }
}

/// A size as written in vkSlang.conf (`native`, `/2`, `320x240`).
pub open spec fn size_text(s: SourceSize) -> Seq<char> {
    match s {
        SourceSize::Native => "native"@,
        SourceSize::Divide { by } => "/"@ + notation::shown(by),
        SourceSize::Fixed { size } => text::decimal(size.width as nat) + "x"@ + text::decimal(
            size.height as nat,
        ),
    }
}

impl SourceSize {
    /// As written in vkSlang.conf.
    pub fn to_config(self) -> (r: String)
        ensures
            r@ == size_text(self),
    {
        let mut out: Vec<char> = Vec::new();
        match self {
            SourceSize::Native => {
                return text::text_of(text::chars_of("native").as_slice());
            },
            SourceSize::Divide { by } => {
                out = text::chars_of("/");
                text::append(&mut out, by.show().as_slice());
            },
            SourceSize::Fixed { size } => {
                out = text::write_number(size.width as u64);
                text::append_text(&mut out, "x");
                text::append(&mut out, text::write_number(size.height as u64).as_slice());
            },
        }
        text::text_of(out.as_slice())
    }
}

#[derive(Debug, PartialEq)]
pub struct SourceSettings {
    /// Logical source resolution.
    pub res: SourceSize,
    /// Times that the application repeats each pixel, on each axis.
    pub duplicate: Counts,
    pub filter: Filter,
    /// Region read from the swapchain: `full`, `4:3`, or `X,Y,WxH`.
    pub rect: String,
    /// Region the preset draws into, same syntax. Different from `rect` it
    /// stretches the picture.
    pub display: String,
    /// Scale of the drawn area.
    pub display_scale: Factors,
    /// Scale of the picture inside the image.
    pub source_scale: Factors,
}

/// Both axes as they are.
pub open spec fn unscaled() -> Factors {
    Factors { x: single::of_integer(1), y: single::of_integer(1) }
}

pub fn no_scale() -> (r: Factors)
    ensures
        r == unscaled(),
{
    Factors { x: Single::of_u32(1), y: Single::of_u32(1) }
}

/// The same settings, whatever holds their texts.
pub open spec fn same_settings(a: SourceSettings, b: SourceSettings) -> bool {
    &&& a.res == b.res
    &&& a.duplicate == b.duplicate
    &&& a.filter == b.filter
    &&& a.rect@ == b.rect@
    &&& a.display@ == b.display@
    &&& a.display_scale == b.display_scale
    &&& a.source_scale == b.source_scale
}

impl SourceSettings {
    pub fn copy(&self) -> (r: SourceSettings)
        ensures
            r == *self,
    {
        SourceSettings {
            res: self.res,
            duplicate: self.duplicate,
            filter: self.filter,
            rect: self.rect.clone(),
            display: self.display.clone(),
            display_scale: self.display_scale,
            source_scale: self.source_scale,
        }
    }
}

impl Default for SourceSettings {
    fn default() -> (r: Self)
        ensures
            r.res == SourceSize::Native,
            r.duplicate == (Counts { x: 1, y: 1 }),
            r.filter == Filter::Nearest,
            r.rect@ == "full"@,
            r.display@ == "full"@,
            r.display_scale == unscaled(),
            r.source_scale == unscaled(),
    {
        SourceSettings {
            res: SourceSize::Native,
            duplicate: Counts { x: 1, y: 1 },
            filter: Filter::Nearest,
            rect: text::text_of(text::chars_of("full").as_slice()),
            display: text::text_of(text::chars_of("full").as_slice()),
            display_scale: no_scale(),
            source_scale: no_scale(),
        }
    }
}

#[derive(Debug, PartialEq)]
pub struct Param {
    pub name: String,
    pub description: String,
    /// Value from the preset (what "reset" goes back to).
    pub initial: Single,
    pub minimum: Single,
    pub maximum: Single,
    pub step: Single,
    pub value: Single,
}

impl Param {
    /// Presets use unadjustable parameters as section headers: either
    /// `min == max`, or a range no larger than one (tiny) step. On/off
    /// parameters (`0 1 1`) have a range of 1 and stay real sliders.
    pub open spec fn header(self) -> bool {
        let range = single::difference(self.maximum, self.minimum);
        range.up_to(single::of_integer(0)) || (range.up_to(single::absolute(self.step))
            && range.before(single::of_fraction(1, 100)))
    }

    /// Smallest change that counts as a user edit.
    pub open spec fn tolerance(self) -> Single {
        single::product(
            single::larger(single::absolute(self.step), single::of_fraction(1, 1_000_000)),
            single::of_fraction(1, 1000),
        )
    }

    /// The value differs from the preset's.
    pub open spec fn modified(self) -> bool {
        self.tolerance().before(
            single::absolute(single::difference(self.value, self.initial)),
        )
    }

    /// Whether the parameter is a section header.
    pub fn is_header(&self) -> (r: bool)
        ensures
            r == self.header(),
    {
        let range: Single = self.maximum.minus(self.minimum);
        range.is_up_to(Single::of_u32(0)) || (range.is_up_to(self.step.abs()) && range.is_before(
            Single::fraction(1, 100),
        ))
    }

    /// Smallest change that counts as a user edit (ignores float noise from
    /// sliders snapping to `step`).
    pub fn epsilon(&self) -> (r: Single)
        ensures
            r == self.tolerance(),
    {
        self.step.abs().max(Single::fraction(1, 1_000_000)).times(Single::fraction(1, 1000))
    }

    /// Whether the value differs from the preset's.
    pub fn is_modified(&self) -> (r: bool)
        ensures
            r == self.modified(),
    {
        self.epsilon().is_before(self.value.minus(self.initial).abs())
    }

    pub fn copy(&self) -> (r: Param)
        ensures
            r == *self,
    {
        Param {
            name: self.name.clone(),
            description: self.description.clone(),
            initial: self.initial,
            minimum: self.minimum,
            maximum: self.maximum,
            step: self.step,
            value: self.value,
        }
    }
}

/// A parameter at the preset's value counts as untouched.
pub proof fn lemma_initial_is_unmodified(p: Param)
    requires
        p.value == p.initial,
    ensures
        !p.modified(),
{
    let d = single::absolute(single::difference(p.value, p.initial));
    single::lemma_magnitude_increases(0, p.tolerance().pattern());
    lemma_tolerance_positive(p);
    assert(d.nan() || d.pattern() == 0);
}

/// Whether a parameter counts as changed does not depend on the direction: it
/// is the same with value and initial value swapped.
pub proof fn lemma_modified_either_way(p: Param)
    ensures
        p.modified() == (Param { value: p.initial, initial: p.value, ..p }).modified(),
{
    accuracy::lemma_difference_symmetric(p.value, p.initial);
}

/// Neither the name nor the range of a parameter matter for whether it counts
/// as changed.
pub proof fn lemma_modified_by_values(p: Param, q: Param)
    requires
        p.value == q.value,
        p.initial == q.initial,
        p.step == q.step,
    ensures
        p.modified() == q.modified(),
{
}

/// Two steps of rounding: `t u` is about `s h`, and `1000 h` about `u`.
#[verifier::spinoff_prover]
proof fn lemma_thousandth_of(s: int, h: int, t: int, u: int)
    requires
        s >= 0,
        t >= 0,
        u > 0,
        accuracy::within_part(t * u, s * h),
        accuracy::within_part(1000 * h, u),
    ensures
        accuracy::distance(1000 * t, s) * 0x10_0000 <= s,
{
    let w = 1000 * t;
    assert((0xff_ffff * 0xff_ffff) * w <= (0x100_0000 * 0x100_0000) * s) by (nonlinear_arith)
        requires
            0xff_ffff * (t * u) <= 0x100_0000 * (s * h),
            0xff_ffff * (1000 * h) <= 0x100_0000 * u,
            w == 1000 * t,
            s >= 0,
            u > 0,
    {
        assert((1000 * 0xff_ffff) * (0xff_ffff * (t * u)) <= (1000 * 0xff_ffff) * (0x100_0000 * (s
            * h)));
        assert(s * (0xff_ffff * (1000 * h)) <= s * (0x100_0000 * u));
        assert(((0xff_ffff * 0xff_ffff) * w) * u <= ((0x100_0000 * 0x100_0000) * s) * u);
    }
    assert((0x100_0001 * 0x100_0001) * w >= (0x100_0000 * 0x100_0000) * s) by (nonlinear_arith)
        requires
            0x100_0001 * (t * u) >= 0x100_0000 * (s * h),
            0x100_0001 * (1000 * h) >= 0x100_0000 * u,
            w == 1000 * t,
            s >= 0,
            u > 0,
    {
        assert((1000 * 0x100_0001) * (0x100_0001 * (t * u)) >= (1000 * 0x100_0001) * (0x100_0000
            * (s * h)));
        assert(s * (0x100_0001 * (1000 * h)) >= s * (0x100_0000 * u));
        assert(((0x100_0001 * 0x100_0001) * w) * u >= ((0x100_0000 * 0x100_0000) * s) * u);
    }
    assert(accuracy::distance(w, s) * 0x10_0000 <= s) by (nonlinear_arith)
        requires
            (0xff_ffff * 0xff_ffff) * w <= (0x100_0000 * 0x100_0000) * s,
            (0x100_0001 * 0x100_0001) * w >= (0x100_0000 * 0x100_0000) * s,
            s >= 0,
            w >= 0,
    ;
}

/// A thousandth, to one part in `2^24`.
#[verifier::spinoff_prover]
proof fn lemma_thousandth()
    ensures
        ({
            let h = single::of_fraction(1, 1000);
            &&& h.finite() && !h.negative()
            &&& accuracy::within_part((1000 * h.size()) as int, pow2(149) as int)
        }),
{
    accuracy::lemma_units();
    accuracy::lemma_relative(pow2(149), 1000);
    assert(single::of_fraction(1, 1000) == single::signed(false, single::nearest(pow2(149), 1000)));
}

/// The step that counts is the step itself, unless it is tiny.
#[verifier::spinoff_prover]
proof fn lemma_step_counts(step: Single)
    requires
        step.finite(),
        single::of_fraction(1, 1_000_000).up_to(single::absolute(step)),
    ensures
        ({
            let a = single::larger(single::absolute(step), single::of_fraction(1, 1_000_000));
            &&& a == single::absolute(step)
            &&& a.finite() && !a.negative()
            &&& a.size() == step.size()
            &&& step.size() >= 8 * pow2(125)
        }),
{
    let least = single::of_fraction(1, 1_000_000);
    accuracy::lemma_units();
    accuracy::lemma_near(pow2(149), 1_000_000, 125);
    assert(least == single::signed(false, single::nearest(pow2(149), 1_000_000)));
}

/// The smallest change that counts is a thousandth of a step.
#[verifier::spinoff_prover]
proof fn lemma_tolerance(p: Param)
    requires
        p.step.finite(),
        single::of_fraction(1, 1_000_000).up_to(single::absolute(p.step)),
        p.step.size() <= 0x100_0000 * single::one_in_units(),
    ensures
        ({
            let t = p.tolerance();
            let s = p.step.size() as int;
            &&& t.finite() && !t.negative()
            &&& s >= 8 * pow2(125)
            &&& accuracy::distance((1000 * t.size()) as int, s) * 0x10_0000 <= s
        }),
{
    let u = pow2(149) as int;
    let v = pow2(125) as int;
    let s = p.step.size() as int;
    let a = single::absolute(p.step);
    let th = single::of_fraction(1, 1000);
    let h = th.size() as int;
    accuracy::lemma_units();
    lemma_step_counts(p.step);
    lemma_thousandth();
    assert(0x2000 * v <= h && h <= u);
    assert(0x100_0000 * u <= s * h && s * h <= (0x100_0000 * pow2(200)) * u) by (nonlinear_arith)
        requires
            8 * v <= s <= 0x100_0000 * u,
            0x2000 * v <= h <= u,
            u == 0x100_0000 * v,
            v >= 0x1_0000_0000_0000_0000,
            pow2(200) == 0x8_0000_0000_0000 * u,
    {
        assert(s * h >= (8 * v) * h);
        assert((8 * v) * h >= (8 * v) * (0x2000 * v));
        assert((8 * v) * (0x2000 * v) == 0x1_0000 * (v * v));
        assert(v * v >= 0x1_0000_0000_0000_0000 * v);
        assert(s * h <= (0x100_0000 * u) * h);
        assert((0x100_0000 * u) * h <= (0x100_0000 * u) * u);
        assert(pow2(200) >= u);
        assert((0x100_0000 * u) * u <= (0x100_0000 * pow2(200)) * u);
    }
    accuracy::lemma_multiplied(a, th);
    lemma_thousandth_of(s, h, p.tolerance().size() as int, u);
}

/// A value counts as changed if it lies a thousandth of a step or more away
/// from the initial one, up or down, and does not if it lies closer, whatever
/// the sign of the step. Only what is off by one part in a thousand of that may
/// go either way.
#[verifier::spinoff_prover]
pub proof fn lemma_modified_from_a_step_on(p: Param)
    requires
        p.value.finite(),
        p.initial.finite(),
        p.step.finite(),
        single::of_fraction(1, 1_000_000).up_to(single::absolute(p.step)),
        p.step.size() <= 0x100_0000 * single::one_in_units(),
    ensures
        ({
            let off = accuracy::distance(p.value.units(), p.initial.units());
            &&& 999 * off >= p.step.size() ==> p.modified()
            &&& 1001 * off <= p.step.size() ==> !p.modified()
        }),
{
    let off = accuracy::distance(p.value.units(), p.initial.units());
    let s = p.step.size() as int;
    let d = single::absolute(single::difference(p.value, p.initial));
    let t = p.tolerance().size() as int;
    let u = pow2(149) as int;
    lemma_tolerance(p);
    accuracy::lemma_units();
    accuracy::lemma_difference_size(p.value, p.initial);
    if 999 * off >= s {
        if off <= (0x100_0000 * pow2(200)) * 1 {
            accuracy::lemma_relative(off as nat, 1);
            assert(0x100_0000 * off <= 0x100_0001 * d.size());
        } else {
            let top = screen::lemma_representable(0x100_0000, 200);
            single::lemma_nearest_exact(1, top);
            single::lemma_rounding_monotone(
                (0x100_0000 * pow2(200)) as nat,
                1,
                top,
                off as nat,
                1,
                d.pattern(),
            );
            single::lemma_magnitude_increases(top, d.pattern());
        }
        assert(t < d.size());
    }
    if 1001 * off <= s {
        if off >= 0x100_0000 {
            accuracy::lemma_relative(off as nat, 1);
        } else {
            lemma2_to64();
            accuracy::lemma_near(off as nat, 1, 0);
        }
        assert(t >= d.size());
    }
}

/// A parameter without a range is a title; one whose range is a hundredth or
/// more is none. A smaller range makes a title exactly if it is no more than a
/// step, up to one part in a million.
#[verifier::spinoff_prover]
pub proof fn lemma_titles(p: Param)
    requires
        p.minimum.finite(),
        p.maximum.finite(),
        p.step.finite(),
    ensures
        ({
            let range = p.maximum.units() - p.minimum.units();
            let u = single::one_in_units() as int;
            &&& range <= 0 ==> p.header()
            &&& 99 * range >= u ==> !p.header()
            &&& range > 0 && 101 * range <= u && range <= p.step.size() ==> p.header()
            &&& range >= 0x100_0000 && 0x10_0000 * (range - p.step.size()) >= range ==> !p.header()
        }),
{
    let x = p.maximum.units() - p.minimum.units();
    let r = single::difference(p.maximum, p.minimum);
    lemma_range_computed(p.maximum, p.minimum);
    lemma_hundredth_is_positive();
    accuracy::lemma_zero();
    accuracy::lemma_units();
    if x > 0 {
        lemma_range_wide(x, r);
        lemma_range_small(x, r);
        lemma_range_and_step(x, r, p.step);
        let s = single::absolute(p.step);
        assert(s.pattern() == p.step.pattern() && !s.negative());
        assert(s.units() == p.step.size() && !s.nan());
        assert(r.units() == r.size());
    }
}

/// A range, as it is computed.
#[verifier::spinoff_prover]
proof fn lemma_range_computed(a: Single, b: Single)
    requires
        a.finite(),
        b.finite(),
    ensures
        ({
            let x = a.units() - b.units();
            let r = single::difference(a, b);
            &&& !r.nan()
            &&& x <= 0 ==> r.units() <= 0
            &&& x > 0 ==> rounded_range(x, r)
        }),
{
    accuracy::lemma_zero();
    accuracy::lemma_difference_size(a, b);
}

/// `r` is the range `x`, rounded.
spec fn rounded_range(x: int, r: Single) -> bool {
    &&& single::rounds_to(x as nat, 1, r.pattern())
    &&& r.pattern() == single::nearest(x as nat, 1)
    &&& !r.negative()
    &&& !r.nan()
}

#[verifier::spinoff_prover]
proof fn lemma_hundredth_is_positive()
    ensures
        ({
            let h = single::of_fraction(1, 100);
            &&& h.finite() && !h.negative()
            &&& accuracy::distance((100 * h.size()) as int, pow2(149) as int) <= 100 * pow2(125)
            &&& h.size() > 0
        }),
{
    accuracy::lemma_units();
    accuracy::lemma_near(pow2(149), 100, 125);
    assert(single::of_fraction(1, 100) == single::signed(false, single::nearest(pow2(149), 100)));
}

#[verifier::spinoff_prover]
proof fn lemma_range_wide(x: int, r: Single)
    requires
        x > 0,
        rounded_range(x, r),
    ensures
        99 * x >= pow2(149) ==> r.size() >= single::of_fraction(1, 100).size(),
{
    let h = single::of_fraction(1, 100);
    accuracy::lemma_units();
    lemma_hundredth_is_positive();
    if 99 * x >= pow2(149) {
        single::lemma_nearest_exact(1, h.pattern());
        single::lemma_rounding_monotone(h.size(), 1, h.pattern(), x as nat, 1, r.pattern());
        single::lemma_magnitude_increases(h.pattern(), r.pattern());
    }
}

#[verifier::spinoff_prover]
proof fn lemma_range_small(x: int, r: Single)
    requires
        x > 0,
        rounded_range(x, r),
    ensures
        101 * x <= pow2(149) ==> r.size() < single::of_fraction(1, 100).size(),
{
    accuracy::lemma_units();
    lemma_hundredth_is_positive();
    if 101 * x <= pow2(149) {
        accuracy::lemma_near(x as nat, 1, 125);
    }
}

#[verifier::spinoff_prover]
proof fn lemma_range_and_step(x: int, r: Single, step: Single)
    requires
        x > 0,
        rounded_range(x, r),
        step.finite(),
    ensures
        x <= step.size() ==> r.size() <= step.size(),
        x >= 0x100_0000 && 0x10_0000 * (x - step.size()) >= x ==> r.size() > step.size(),
{
    let s = single::absolute(step);
    if x <= step.size() {
        single::lemma_nearest_exact(1, s.pattern());
        single::lemma_rounding_monotone(x as nat, 1, r.pattern(), s.size(), 1, s.pattern());
        single::lemma_magnitude_increases(r.pattern(), s.pattern());
    }
    if x >= 0x100_0000 && 0x10_0000 * (x - step.size()) >= x {
        lemma_well_above(x as nat, s);
    }
}

/// A number that lies well above another stays above it when it is rounded.
proof fn lemma_well_above(x: nat, s: Single)
    requires
        s.finite(),
        !s.negative(),
        x >= 0x100_0000,
        0x10_0000 * (x - s.size()) >= x,
    ensures
        single::magnitude(single::nearest(x, 1)) > s.size(),
{
    if x <= (0x100_0000 * pow2(200)) * 1 {
        accuracy::lemma_relative(x, 1);
    } else {
        let b = single::nearest(x, 1);
        single::lemma_nearest_exists(x, 1);
        single::lemma_nearest_exact(1, s.pattern());
        single::lemma_middle(s.pattern());
        if b <= s.pattern() {
            // Then x lies below the middle of s and its successor.
            let m = s.size() as int;
            let g = pow2(single::shift(s.pattern())) as int;
            let k = single::significand(s.pattern()) as int;
            single::lemma_magnitude_increases(b, s.pattern());
            single::lemma_middle(b);
            assert(2 * x <= single::magnitude(b) + single::magnitude(b + 1));
            single::lemma_magnitude_increases(b + 1, s.pattern() + 1);
            assert((2 * k + 1) * g == 2 * m + g) by (nonlinear_arith)
                requires
                    m == k * g,
            ;
            assert(2 * x <= 2 * m + g);
            lemma_pow2_pos(single::shift(s.pattern()));
            if s.pattern() < 0x80_0000 {
                assert(g == 1) by {
                    lemma2_to64();
                }
                assert(false);
            } else {
                assert(0x80_0000 * g <= m) by (nonlinear_arith)
                    requires
                        m == k * g,
                        k >= 0x80_0000,
                        g > 0,
                ;
            }
        }
        single::lemma_magnitude_increases(s.pattern() + 1, b);
        single::lemma_magnitude_increases(s.pattern(), s.pattern() + 1);
    }
}

proof fn lemma_tolerance_positive(p: Param)
    ensures
        !p.tolerance().negative(),
{
    let a = single::larger(single::absolute(p.step), single::of_fraction(1, 1_000_000));
    let b = single::of_fraction(1, 1000);
    single::lemma_nearest_exists(1 * single::one_in_units(), 1_000_000);
    single::lemma_nearest_exists(1 * single::one_in_units(), 1000);
    assert(!a.negative() && !b.negative());
    lemma_pow2_pos(149);
    single::lemma_nearest_exists(a.size() * b.size(), single::one_in_units());
}

pub fn copy_params(v: &Vec<Param>) -> (r: Vec<Param>)
    ensures
        r@ == v@,
{
    let mut out: Vec<Param> = Vec::new();
    let mut i: usize = 0;
    while i < v.len()
        invariant
            i <= v@.len(),
            out@ == v@.take(i as int),
        decreases v@.len() - i,
    {
        out.push(v[i].copy());
        i = i + 1;
        assert(out@ == v@.take(i as int));
    }
    assert(v@.take(i as int) == v@);
    out
}

impl Output {
    pub fn copy(&self) -> (r: Output)
        ensures
            r == *self,
    {
        Output {
            size: self.size,
            picture: self.picture,
            input: self.input,
            format: self.format.clone(),
            color_space: self.color_space,
            promoted: self.promoted,
        }
    }
}

pub fn copy_outputs(v: &Vec<Output>) -> (r: Vec<Output>)
    ensures
        r@ == v@,
{
    let mut out: Vec<Output> = Vec::new();
    let mut i: usize = 0;
    while i < v.len()
        invariant
            i <= v@.len(),
            out@ == v@.take(i as int),
        decreases v@.len() - i,
    {
        out.push(v[i].copy());
        i = i + 1;
        assert(out@ == v@.take(i as int));
    }
    assert(v@.take(i as int) == v@);
    out
}

impl Capture {
    pub fn copy(&self) -> (r: Capture)
        ensures
            r == *self,
    {
        Capture {
            path: self.path.clone(),
            size: self.size,
            base: self.base,
            area: self.area,
            id: self.id,
        }
    }
}

#[derive(Debug, PartialEq)]
pub struct State {
    pub protocol: u32,
    pub pid: u32,
    pub process: String,
    pub enabled: bool,
    /// Presets currently running, one after the other.
    pub presets: Vec<String>,
    /// A preset is being compiled.
    pub loading: bool,
    /// Last load error, if any.
    pub error: Option<String>,
    pub source: SourceSettings,
    /// Swapchains being processed.
    pub outputs: Vec<Output>,
    /// Color space written by the running preset's final pass.
    pub preset_color_space: Option<ColorSpace>,
    pub hdr: HdrSettings,
    /// Frames per second the application draws.
    pub source_fps: Single,
    /// Presentations per second reaching the display (subframes included).
    pub present_fps: Single,
    /// Presentations per application frame (1 = untouched).
    pub subframes: u32,
    /// Extra subframes are black instead of running the preset.
    pub subframe_black: bool,
    /// Subframes the swapchain was created with room for.
    pub subframes_max: u32,
    /// Parameters in declaration order.
    pub params: Vec<Param>,
    /// Last picture grabbed by [`Request::Capture`].
    pub capture: Option<Capture>,
}

impl Default for State {
    fn default() -> (r: Self)
        ensures
            r.protocol == 0,
            r.pid == 0,
            r.process@ == Seq::<char>::empty(),
            !r.enabled,
            r.presets@ == Seq::<String>::empty(),
            !r.loading,
            r.error is None,
            r.source.res == SourceSize::Native,
            r.source.duplicate == (Counts { x: 1, y: 1 }),
            r.source.filter == Filter::Nearest,
            r.source.rect@ == "full"@,
            r.source.display@ == "full"@,
            r.source.display_scale == unscaled(),
            r.source.source_scale == unscaled(),
            r.outputs@ == Seq::<Output>::empty(),
            r.preset_color_space is None,
            r.hdr == default_hdr(),
            r.source_fps == single::signed(false, 0),
            r.present_fps == single::signed(false, 0),
            r.subframes == 0,
            !r.subframe_black,
            r.subframes_max == 0,
            r.params@ == Seq::<Param>::empty(),
            r.capture is None,
    {
        let process: String = String::new();
        assert(process@ == Seq::<char>::empty());
        State {
            protocol: 0,
            pid: 0,
            process,
            enabled: false,
            presets: Vec::new(),
            loading: false,
            error: None,
            source: SourceSettings::default(),
            outputs: Vec::new(),
            preset_color_space: None,
            hdr: HdrSettings::default(),
            source_fps: Single::from_bits(0),
            present_fps: Single::from_bits(0),
            subframes: 0,
            subframe_black: false,
            subframes_max: 0,
            params: Vec::new(),
            capture: None,
        }
    }
}

#[derive(Debug, PartialEq)]
pub enum Response {
    State(State),
    Error { message: String },
}

} // verus!

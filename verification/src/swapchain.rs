//! What becomes of the swapchains that an application asks for.

use crate::accuracy;
use crate::config::HdrOutput;
use crate::ipc::{self, ColorSpace, Extent, Filter, Output, Rect, SourceSize};
use crate::loader::Level;
use crate::screen;
use crate::single;
use crate::source::{self, Source};
use crate::vulkan::{
    self, FEATURE_BLIT_DST, FEATURE_BLIT_SRC, FEATURE_COLOR_ATTACHMENT, FEATURE_SAMPLED_IMAGE,
    HDR10_FORMAT, HDR10_ST2084, USAGE_COLOR_ATTACHMENT, USAGE_TRANSFER_SRC,
};
use vstd::prelude::*;

verus! {

pub const SHARED_DEMAND_REFRESH: i32 = 1_000_111_000;

pub const SHARED_CONTINUOUS_REFRESH: i32 = 1_000_111_001;

pub const IMAGE_FORMAT_LIST_CREATE_INFO: i32 = 1_000_147_000;

/// What the application asks for.
#[derive(Clone, Copy, PartialEq, Eq, Debug, Structural)]
pub struct SwapchainRequest {
    pub extent: Extent,
    pub format: i32,
    pub color_space: i32,
    pub usage: u32,
    pub present_mode: i32,
    pub array_layers: u32,
    /// The application constrains view formats with a list of its own.
    pub format_list: bool,
}

/// What the device and the surface can do.
#[derive(Clone, Copy, PartialEq, Eq, Debug, Structural)]
pub struct Abilities {
    /// Usage that the surface supports, if it said so.
    pub usage: Option<u32>,
    /// Features of the format that the application asks for.
    pub features: u32,
    /// Swapchains can be viewed in more than one format.
    pub mutable_format: bool,
}

#[derive(Clone, Copy, PartialEq, Eq, Debug, Structural)]
pub struct SurfaceFormat {
    pub format: i32,
    pub color_space: i32,
}

/// Whether a chain of structures holds a list of view formats.
pub fn has_format_list(s_types: &Vec<i32>) -> (r: bool)
    ensures
        r == s_types@.contains(IMAGE_FORMAT_LIST_CREATE_INFO),
{
    let mut i: usize = 0;
    while i < s_types.len()
        invariant
            i <= s_types@.len(),
            forall|j: int| 0 <= j < i ==> s_types@[j] != IMAGE_FORMAT_LIST_CREATE_INFO,
        decreases s_types@.len() - i,
    {
        if s_types[i] == IMAGE_FORMAT_LIST_CREATE_INFO {
            return true;
        }
        i = i + 1;
    }
    false
}

/// Usage that the layer needs.
pub const NEEDED_USAGE: u32 = 0x11;

/// Features that the layer needs of the format.
pub const NEEDED_FEATURES: u32 = 0xc81;

/// Those are color attachment and transfer source, and sampling, drawing and
/// scaling in both directions.
pub proof fn lemma_needs()
    ensures
        NEEDED_USAGE == USAGE_COLOR_ATTACHMENT | USAGE_TRANSFER_SRC,
        NEEDED_FEATURES == FEATURE_BLIT_SRC | FEATURE_BLIT_DST | FEATURE_SAMPLED_IMAGE
            | FEATURE_COLOR_ATTACHMENT,
{
    assert(0x10u32 | 0x1u32 == 0x11u32) by (bit_vector);
    assert(0x400u32 | 0x800u32 | 0x1u32 | 0x80u32 == 0xc81u32) by (bit_vector);
}

/// The swapchain can be processed.
pub open spec fn processable(request: SwapchainRequest, a: Abilities) -> bool {
    &&& request.present_mode != SHARED_DEMAND_REFRESH
    &&& request.present_mode != SHARED_CONTINUOUS_REFRESH
    &&& request.array_layers == 1
    &&& a.usage is Some
    &&& vulkan::flagged(a.usage->0, NEEDED_USAGE)
    &&& vulkan::flagged(a.features, NEEDED_FEATURES)
}

/// An sRGB swapchain is rendered through a UNORM view: the device can, and the
/// application does not constrain view formats.
pub open spec fn through_unorm(request: SwapchainRequest, a: Abilities) -> bool {
    vulkan::unorm_of(request.format) is Some && a.mutable_format && !request.format_list
}

/// Format that the preset renders to, and whether the swapchain must be made
/// mutable.
pub open spec fn rendered_as(request: SwapchainRequest, a: Abilities) -> (i32, bool) {
    if through_unorm(request, a) {
        (vulkan::unorm_of(request.format)->0, true)
    } else {
        (request.format, false)
    }
}

/// Decides whether a swapchain can be processed. Returns the format the preset
/// renders to and whether the swapchain must be made mutable.
pub fn plan_swapchain(request: &SwapchainRequest, a: &Abilities) -> (r: Option<(i32, bool)>)
    ensures
        r == if processable(*request, *a) {
            Some(rendered_as(*request, *a))
        } else {
            None
        },
{
    if request.present_mode == SHARED_DEMAND_REFRESH || request.present_mode
        == SHARED_CONTINUOUS_REFRESH || request.array_layers != 1 {
        return None;
    }
    match a.usage {
        Some(usage) => {
            if !vulkan::has_flags(usage, NEEDED_USAGE) {
                return None;
            }
        },
        None => {
            return None;
        },
    }
    if !vulkan::has_flags(a.features, NEEDED_FEATURES) {
        return None;
    }
    match vulkan::srgb_to_unorm(request.format) {
        Some(unorm) => {
            if a.mutable_format && !request.format_list {
                Some((unorm, true))
            } else {
                Some((request.format, false))
            }
        },
        None => Some((request.format, false)),
    }
}

/// On a device that can view swapchains in more than one format, the preset
/// never writes through the gamma of sRGB, unless the application constrains
/// view formats itself.
pub proof fn lemma_output_is_plain(request: SwapchainRequest, a: Abilities)
    requires
        a.mutable_format,
        !request.format_list,
    ensures
        vulkan::unorm_of(rendered_as(request, a).0) is None,
{
}

/// The surface offers HDR10.
pub open spec fn offers_hdr10(formats: Seq<SurfaceFormat>) -> bool {
    exists|i: int|
        0 <= i < formats.len() && (#[trigger] formats[i]).format == HDR10_FORMAT
            && formats[i].color_space == HDR10_ST2084
}

fn has_hdr10(formats: &Vec<SurfaceFormat>) -> (r: bool)
    ensures
        r == offers_hdr10(formats@),
{
    let mut i: usize = 0;
    while i < formats.len()
        invariant
            i <= formats@.len(),
            forall|j: int|
                0 <= j < i ==> !((#[trigger] formats@[j]).format == HDR10_FORMAT
                    && formats@[j].color_space == HDR10_ST2084),
        decreases formats@.len() - i,
    {
        if formats[i].format == HDR10_FORMAT && formats[i].color_space == HDR10_ST2084 {
            return true;
        }
        i = i + 1;
    }
    false
}

/// The application gets an HDR10 swapchain that it never asked for.
pub open spec fn promotes(
    hdr_output: HdrOutput,
    mutable_format: bool,
    preset_space: Option<ColorSpace>,
    request: SwapchainRequest,
    formats: Seq<SurfaceFormat>,
) -> bool {
    &&& hdr_output != HdrOutput::Off
    &&& mutable_format
    &&& vulkan::promotable(request.format)
    &&& hdr_output == HdrOutput::Auto ==> preset_space is Some && ipc::hdr_space(
        preset_space->0,
    )
    &&& request.color_space != HDR10_ST2084
    &&& offers_hdr10(formats)
}

/// Whether to hand the application an HDR10 swapchain it never asked for.
///
/// The application keeps rendering 8-bit SDR through a view in its own
/// format; the preset reads those pixels and writes PQ through the HDR10 view
/// of the same images.
pub fn promote_to_hdr10(
    hdr_output: HdrOutput,
    mutable_format: bool,
    preset_space: Option<ColorSpace>,
    request: &SwapchainRequest,
    formats: &Vec<SurfaceFormat>,
) -> (r: bool)
    ensures
        r == promotes(hdr_output, mutable_format, preset_space, *request, formats@),
{
    if hdr_output == HdrOutput::Off || !mutable_format || !vulkan::is_promotable(request.format) {
        return false;
    }
    if hdr_output == HdrOutput::Auto {
        // Only when the preset actually writes HDR.
        match preset_space {
            Some(cs) => {
                if !cs.is_hdr() {
                    return false;
                }
            },
            None => {
                return false;
            },
        }
    }
    if request.color_space == HDR10_ST2084 {
        return false;
    }
    has_hdr10(formats)
}

/// How a swapchain that is processed was made.
#[derive(Clone, Copy, PartialEq, Eq, Debug, Structural)]
pub struct SwapchainPlan {
    pub extent: Extent,
    /// Format the swapchain images were actually created with.
    pub format: i32,
    /// Format the application renders through (differs once promoted).
    pub app_format: i32,
    /// Format the preset renders through.
    pub output_format: i32,
    pub color_space: i32,
    /// The layer turned an SDR swapchain into an HDR10 one and the pixels
    /// must be copied through the application's format (staging image).
    pub promoted: bool,
    /// The layer promoted the swapchain to HDR10 (with or without staging).
    pub hdr_promoted: bool,
}

/// What the layer asks the next one for.
pub struct SwapchainOrder {
    pub format: i32,
    pub color_space: i32,
    pub usage: u32,
    /// The images are viewed in other formats than their own.
    pub mutable: bool,
    /// The formats they are viewed in, if so.
    pub view_formats: Vec<i32>,
    pub plan: SwapchainPlan,
}

/// How a swapchain is made.
pub open spec fn planned(request: SwapchainRequest, output_format: i32, promoted: bool) -> SwapchainPlan {
    SwapchainPlan {
        extent: request.extent,
        format: if promoted {
            HDR10_FORMAT
        } else {
            request.format
        },
        app_format: request.format,
        output_format: if promoted {
            HDR10_FORMAT
        } else {
            output_format
        },
        color_space: if promoted {
            HDR10_ST2084
        } else {
            request.color_space
        },
        promoted: promoted && request.format != HDR10_FORMAT,
        hdr_promoted: promoted,
    }
}

/// The formats that the images are viewed in: the application keeps its own on
/// a promoted swapchain, in both spellings.
pub open spec fn viewed(request: SwapchainRequest, plan: SwapchainPlan) -> Seq<i32> {
    if plan.promoted {
        match vulkan::sibling_of(request.format) {
            Some(f) => seq![HDR10_FORMAT, request.format, f],
            None => seq![HDR10_FORMAT, request.format],
        }
    } else {
        seq![request.format, plan.output_format]
    }
}

/// What the layer asks the next one for. The number of images is left alone:
/// raising it breaks applications that size their own arrays statically.
pub fn order_swapchain(
    request: &SwapchainRequest,
    output_format: i32,
    mutable: bool,
    promoted: bool,
) -> (r: SwapchainOrder)
    ensures
        r.plan == planned(*request, output_format, promoted),
        r.format == r.plan.format,
        r.color_space == r.plan.color_space,
        r.usage == request.usage | NEEDED_USAGE,
        r.mutable == (r.plan.promoted || mutable),
        r.view_formats@ == viewed(*request, r.plan),
{
    let staged: bool = promoted && request.format != HDR10_FORMAT;
    let format: i32 = if promoted {
        HDR10_FORMAT
    } else {
        request.format
    };
    let color_space: i32 = if promoted {
        HDR10_ST2084
    } else {
        request.color_space
    };
    let output: i32 = if promoted {
        HDR10_FORMAT
    } else {
        output_format
    };
    let mut views: Vec<i32> = Vec::new();
    if staged {
        views.push(HDR10_FORMAT);
        views.push(request.format);
        if let Some(f) = vulkan::format_sibling(request.format) {
            views.push(f);
        }
    } else {
        views.push(request.format);
        views.push(output);
    }
    let plan: SwapchainPlan = SwapchainPlan {
        extent: request.extent,
        format,
        app_format: request.format,
        output_format: output,
        color_space,
        promoted: staged,
        hdr_promoted: promoted,
    };
    assert(views@ =~= viewed(*request, plan));
    SwapchainOrder {
        format,
        color_space,
        usage: request.usage | NEEDED_USAGE,
        mutable: staged || mutable,
        view_formats: views,
        plan,
    }
}

/// What to do once the next layer was asked.
#[derive(Clone, Copy, PartialEq, Eq, Debug, Structural)]
pub enum SwapchainStep {
    /// Ask again, for what the application wanted.
    AskAgain,
    /// Hand the failure back.
    Fail,
    /// Process the swapchain.
    Process,
}

/// A promoted swapchain that was refused is asked for again as the application
/// wanted it.
pub fn after_create_swapchain(success: bool, promoted: bool) -> (r: SwapchainStep)
    ensures
        r == if success {
            SwapchainStep::Process
        } else if promoted {
            SwapchainStep::AskAgain
        } else {
            SwapchainStep::Fail
        },
{
    if success {
        SwapchainStep::Process
    } else if promoted {
        SwapchainStep::AskAgain
    } else {
        SwapchainStep::Fail
    }
}

// ----------------------------------------------------------------- source images

/// The image fed to the preset.
#[derive(Clone, Copy, PartialEq, Eq, Debug, Structural)]
pub struct SourceImage {
    pub extent: Extent,
    /// View format the preset samples it with (never sRGB).
    pub view_format: i32,
    /// The view format is another than the image's.
    pub mutable: bool,
    /// Region of the swapchain image holding the picture.
    pub rect: Rect,
    /// Region the preset draws into.
    pub display: Rect,
    pub filter: Filter,
}

/// The regions of the source can be placed on a screen of that size.
pub open spec fn source_fits(src: Source, extent: Extent) -> bool {
    &&& screen::placeable(extent)
    &&& screen::region_fits(src.rect, extent)
    &&& screen::region_fits(src.display, extent)
}

/// Whether the regions of the source can be placed on a screen of that size.
pub fn can_place(src: &Source, extent: Extent) -> (r: bool)
    ensures
        r == source_fits(*src, extent),
{
    0 < extent.width && extent.width <= 0x7fff_ffff && 0 < extent.height && extent.height
        <= 0x7fff_ffff && screen::fits(src.rect, extent) && screen::fits(src.display, extent)
}

/// They always can on a screen that is at most four million pixels wide and
/// high.
pub proof fn lemma_source_fits(src: Source, extent: Extent)
    requires
        src.wf(),
        1 <= extent.width <= 0x40_0000,
        1 <= extent.height <= 0x40_0000,
    ensures
        source_fits(src, extent),
{
    source::lemma_read_is_proper(src.rect_spec@);
    source::lemma_read_is_proper(src.display_spec@);
    screen::lemma_region_fits(src.rect, extent);
    screen::lemma_region_fits(src.display, extent);
}

/// View of an image without the gamma of sRGB.
pub open spec fn plain_view(format: i32) -> i32 {
    match vulkan::unorm_of(format) {
        Some(f) => f,
        None => format,
    }
}

/// The image fed to the preset on a screen of that size.
pub open spec fn source_image(format: i32, extent: Extent, src: Source) -> SourceImage {
    let base = screen::region_of(src.display, extent);
    let rect = screen::drawn_part(
        screen::region_of(src.rect, extent),
        base,
        src.display_scale,
        extent,
    );
    SourceImage {
        extent: source::input_size(src.res, rect.extent),
        view_format: plain_view(format),
        mutable: plain_view(format) != format,
        rect,
        display: screen::drawn_area(base, src.display_scale, extent),
        filter: src.filter,
    }
}

impl SourceImage {
    pub fn new(format: i32, extent: Extent, src: &Source) -> (r: SourceImage)
        requires
            src.wf(),
            source_fits(*src, extent),
        ensures
            r == source_image(format, extent, *src),
            screen::inside(r.rect, extent),
            screen::holds_pixels(r.rect),
            screen::inside(r.display, extent),
            screen::holds_pixels(r.display),
    {
        proof {
            source::lemma_read_is_proper(src.rect_spec@);
        }
        let rect: Rect = src.shown_rect(extent);
        let view_format: i32 = match vulkan::srgb_to_unorm(format) {
            Some(f) => f,
            None => format,
        };
        SourceImage {
            extent: src.size_for(rect.extent),
            view_format,
            mutable: view_format != format,
            rect,
            display: src.display_rect(extent),
            filter: src.filter,
        }
    }
}

/// The preset never samples its source with the gamma of sRGB.
pub proof fn lemma_source_is_plain(format: i32, extent: Extent, src: Source)
    ensures
        vulkan::unorm_of(source_image(format, extent, src).view_format) is None,
{
}

// ---------------------------------------------------------------------- tracking

/// A swapchain that is processed.
pub struct SwapchainState {
    /// Handle of the swapchain.
    pub handle: u64,
    /// Number of its images.
    pub images: usize,
    pub format: i32,
    /// Format of the pixels the preset reads (the application's format on a
    /// promoted swapchain).
    pub source_format: i32,
    pub extent: Extent,
    /// Format the preset renders to.
    pub output_format: i32,
    pub color_space: ColorSpace,
    /// The layer promoted this swapchain to HDR10.
    pub promoted: bool,
    /// The application's pixels are copied raw first.
    pub staged: bool,
    /// There is a black pixel to fill bars with.
    pub black: bool,
    /// The image fed to the preset, `None` if it could not be created with
    /// the current settings (frames pass through).
    pub source: Option<SourceImage>,
}

impl SwapchainState {
    /// A swapchain of `images` images that was made as planned, without an
    /// image for the preset yet.
    pub fn new(handle: u64, plan: &SwapchainPlan, images: usize, black: bool) -> (r: SwapchainState)
        ensures
            r.handle == handle,
            r.images == images,
            r.format == plan.format,
            r.source_format == if plan.promoted {
                plan.app_format
            } else {
                plan.format
            },
            r.extent == plan.extent,
            r.output_format == plan.output_format,
            r.color_space == vulkan::space_of(plan.color_space),
            r.promoted == (plan.promoted || plan.hdr_promoted),
            r.staged == plan.promoted,
            r.black == black,
            r.source is None,
    {
        SwapchainState {
            handle,
            images,
            format: plan.format,
            source_format: if plan.promoted {
                plan.app_format
            } else {
                plan.format
            },
            extent: plan.extent,
            output_format: plan.output_format,
            color_space: vulkan::color_space(plan.color_space),
            promoted: plan.promoted || plan.hdr_promoted,
            staged: plan.promoted,
            black,
            source: None,
        }
    }
}

/// What is published about a swapchain whose format has that name.
pub open spec fn published_as(s: SwapchainState, format: Seq<char>, o: Output) -> bool {
    &&& o.size == s.extent
    &&& o.picture == match s.source {
        Some(src) => src.rect.extent,
        None => s.extent,
    }
    &&& o.input == match s.source {
        Some(src) => src.extent,
        None => Extent { width: 0, height: 0 },
    }
    &&& o.format@ == format
    &&& o.color_space == s.color_space
    &&& o.promoted == s.promoted
}

/// What is published about a swapchain.
pub open spec fn published(s: SwapchainState, o: Output) -> bool {
    published_as(s, vulkan::format_label(s.format), o)
}

impl SwapchainState {
    /// What is published about the swapchain, given the name of its format.
    pub fn output_as(&self, format: String) -> (r: Output)
        ensures
            published_as(*self, format@, r),
    {
        Output {
            size: self.extent,
            picture: match self.source {
                Some(src) => src.rect.extent,
                None => self.extent,
            },
            input: match self.source {
                Some(src) => src.extent,
                None => Extent { width: 0, height: 0 },
            },
            format,
            color_space: self.color_space,
            promoted: self.promoted,
        }
    }

    /// What is published about the swapchain.
    pub fn output(&self) -> (r: Output)
        ensures
            published(*self, r),
    {
        self.output_as(vulkan::format_name(self.format))
    }

    /// What there is to say about running a preset of that color space here.
    pub fn note(&self, preset: ColorSpace) -> (r: Option<(Level, &'static str)>)
        ensures
            match r {
                Some((level, s)) => noted(preset, self.color_space, self.promoted) == Some(
                    (level, s@),
                ),
                None => noted(preset, self.color_space, self.promoted) is None,
            },
    {
        match ipc::color_space_warning(preset, self.color_space, self.promoted) {
            Some(why) => Some((Level::Warn, why)),
            None => {
                if self.promoted {
                    Some(
                        (Level::Info, "HDR10 output: the game renders SDR, the preset writes HDR"),
                    )
                } else {
                    None
                }
            },
        }
    }
}

/// What there is to say about running a preset on an output: the caveat, or
/// that all is as it should be on a promoted one.
pub open spec fn noted(preset: ColorSpace, output: ColorSpace, promoted: bool) -> Option<
    (Level, Seq<char>),
> {
    match ipc::caveat(preset, output, promoted) {
        Some(why) => Some((Level::Warn, why)),
        None => if promoted {
            Some((Level::Info, "HDR10 output: the game renders SDR, the preset writes HDR"@))
        } else {
            None
        },
    }
}

/// On a promoted swapchain the preset reads the application's SDR pixels and
/// writes HDR10.
pub proof fn lemma_promoted(request: SwapchainRequest, output_format: i32)
    requires
        vulkan::promotable(request.format),
    ensures
        planned(request, output_format, true).format == HDR10_FORMAT,
        planned(request, output_format, true).output_format == HDR10_FORMAT,
        vulkan::space_of(planned(request, output_format, true).color_space) == ColorSpace::Hdr10,
        planned(request, output_format, true).promoted ==> viewed(
            request,
            planned(request, output_format, true),
        ).contains(request.format) && viewed(
            request,
            planned(request, output_format, true),
        ).contains(vulkan::sibling_of(request.format)->0),
{
    let v = viewed(request, planned(request, output_format, true));
    if planned(request, output_format, true).promoted {
        assert(v[1] == request.format);
        assert(v[2] == vulkan::sibling_of(request.format)->0);
    }
}

/// A swapchain is processed exactly when it is not shared with the screen, has
/// one layer, and its surface and its format can be drawn to, read from, scaled
/// and sampled.
pub proof fn lemma_processed_swapchains(request: SwapchainRequest, a: Abilities)
    ensures
        processable(request, a) <==> {
            &&& request.present_mode != 1_000_111_000
            &&& request.present_mode != 1_000_111_001
            &&& request.array_layers == 1
            &&& a.usage is Some
            &&& vulkan::flagged(a.usage->0, USAGE_COLOR_ATTACHMENT)
            &&& vulkan::flagged(a.usage->0, USAGE_TRANSFER_SRC)
            &&& vulkan::flagged(a.features, FEATURE_BLIT_SRC)
            &&& vulkan::flagged(a.features, FEATURE_BLIT_DST)
            &&& vulkan::flagged(a.features, FEATURE_SAMPLED_IMAGE)
            &&& vulkan::flagged(a.features, FEATURE_COLOR_ATTACHMENT)
        },
{
    lemma_needs();
    if let Some(usage) = a.usage {
        vulkan::lemma_flags(usage, USAGE_COLOR_ATTACHMENT, USAGE_TRANSFER_SRC);
    }
    vulkan::lemma_flags(a.features, FEATURE_BLIT_SRC, FEATURE_BLIT_DST);
    vulkan::lemma_flags(
        a.features,
        FEATURE_BLIT_SRC | FEATURE_BLIT_DST,
        FEATURE_SAMPLED_IMAGE,
    );
    vulkan::lemma_flags(
        a.features,
        FEATURE_BLIT_SRC | FEATURE_BLIT_DST | FEATURE_SAMPLED_IMAGE,
        FEATURE_COLOR_ATTACHMENT,
    );
}

/// The preset renders to the format that the application asked for, or to the
/// UNORM spelling of an sRGB one; in that case only the swapchain is made
/// mutable.
pub proof fn lemma_rendered_format(request: SwapchainRequest, a: Abilities)
    ensures
        ({
            let (format, mutable) = rendered_as(request, a);
            &&& mutable <==> format != request.format
            &&& mutable ==> vulkan::unorm_of(request.format) == Some(format) && a.mutable_format
                && !request.format_list
            &&& !mutable ==> vulkan::unorm_of(request.format) is None || !a.mutable_format
                || request.format_list
        }),
{
}

/// When an SDR swapchain becomes an HDR10 one: never if it is switched off,
/// with an HDR preset if it is automatic, and whatever the preset if it is
/// forced; in each case only where the surface offers HDR10, the device can view
/// it in other formats, the application's format can share its pixels, and the
/// application has no HDR10 already.
pub proof fn lemma_promotion(
    hdr_output: HdrOutput,
    mutable_format: bool,
    preset_space: Option<ColorSpace>,
    request: SwapchainRequest,
    formats: Seq<SurfaceFormat>,
)
    ensures
        ({
            let p = promotes(hdr_output, mutable_format, preset_space, request, formats);
            let possible = {
                &&& mutable_format
                &&& vulkan::promotable(request.format)
                &&& request.color_space != 1_000_104_008
                &&& exists|i: int|
                    0 <= i < formats.len() && (#[trigger] formats[i]).format == 64
                        && formats[i].color_space == 1_000_104_008
            };
            &&& hdr_output == HdrOutput::Off ==> !p
            &&& hdr_output == HdrOutput::Force ==> (p <==> possible)
            &&& hdr_output == HdrOutput::Auto ==> (p <==> possible && preset_space is Some
                && preset_space->0 != ColorSpace::Sdr)
        }),
{
}

/// A swapchain that is not promoted is made as the application asked for, but
/// for what the preset renders through; a promoted one differs in its format and
/// its color space. The size is always the application's. The images can be
/// viewed in the application's format and in the preset's.
pub proof fn lemma_made_as_asked(request: SwapchainRequest, output_format: i32, promoted: bool)
    ensures
        ({
            let p = planned(request, output_format, promoted);
            &&& p.extent == request.extent
            &&& p.app_format == request.format
            &&& p.hdr_promoted == promoted
            &&& !promoted ==> p.format == request.format && p.color_space == request.color_space
                && p.output_format == output_format && !p.promoted
            &&& promoted ==> (p.promoted <==> request.format != 64)
            &&& viewed(request, p).contains(request.format)
            &&& viewed(request, p).contains(p.output_format)
        }),
{
    let p = planned(request, output_format, promoted);
    let v = viewed(request, p);
    if p.promoted {
        assert(v[0] == p.output_format);
        assert(v[1] == request.format);
    } else {
        assert(v[0] == request.format);
        assert(v[1] == p.output_format);
    }
}

/// The image fed to the preset is sampled with the filter asked for and has the
/// size asked for: a fixed one, that of the picture, or the picture's divided.
/// The picture lies in the region asked for, and is that region if the display
/// area is not scaled; then the display area is the region asked for too.
pub proof fn lemma_source_as_asked(format: i32, extent: Extent, src: Source)
    requires
        src.wf(),
        1 <= extent.width <= 0x40_0000,
        1 <= extent.height <= 0x40_0000,
    ensures
        ({
            let r = source_image(format, extent, src);
            let picture = screen::region_of(src.rect, extent);
            let area = screen::region_of(src.display, extent);
            let u = single::one_in_units() as int;
            &&& r.filter == src.filter
            &&& match src.res {
                SourceSize::Native => r.extent == r.rect.extent,
                SourceSize::Fixed { size } => r.extent == size,
                SourceSize::Divide { by } => source::sensible(src.res) ==> accuracy::distance(
                    r.extent.width * by.units(),
                    r.rect.extent.width * u,
                ) <= by.units() || r.extent.width == 1,
            }
            &&& picture.offset.x <= r.rect.offset.x
            &&& picture.offset.y <= r.rect.offset.y
            &&& r.rect.offset.x + r.rect.extent.width <= picture.offset.x + picture.extent.width
            &&& r.rect.offset.y + r.rect.extent.height <= picture.offset.y + picture.extent.height
            &&& src.display_scale == ipc::unscaled() ==> r.rect == picture && r.display == area
            &&& r.mutable <==> vulkan::unorm_of(format) is Some
        }),
{
    source::lemma_read_is_proper(src.rect_spec@);
    source::lemma_read_is_proper(src.display_spec@);
    screen::lemma_region_shape(src.rect, extent);
    screen::lemma_region_shape(src.display, extent);
    let picture = screen::region_of(src.rect, extent);
    let area = screen::region_of(src.display, extent);
    screen::lemma_part_inside(picture, area, src.display_scale, extent);
    screen::lemma_unscaled(area, picture, extent);
    let r = source_image(format, extent, src);
    if source::sensible(src.res) {
        source::lemma_input_divides(src.res, r.rect.extent);
    }
}

/// What is published about a swapchain is what it is: its size, the region that
/// is read, the size of what the preset gets, and its color space.
pub proof fn lemma_published(s: SwapchainState, o: Output)
    requires
        published(s, o),
    ensures
        o.size == s.extent,
        s.source is Some ==> o.picture == s.source->0.rect.extent && o.input
            == s.source->0.extent,
        s.source is None ==> o.picture == s.extent && o.input == (Extent { width: 0, height: 0 }),
        o.color_space == s.color_space,
        o.promoted == s.promoted,
{
}

/// An HDR preset on a promoted output is as it should be, and so is an SDR
/// preset on an SDR output; everything else is warned of.
pub proof fn lemma_noted(preset: ColorSpace, output: ColorSpace, promoted: bool)
    ensures
        ({
            let fine = if promoted {
                preset != ColorSpace::Sdr
            } else {
                preset == ColorSpace::Sdr && output == ColorSpace::Sdr
            };
            &&& !fine ==> (noted(preset, output, promoted) matches Some((level, _)) && level
                == Level::Warn)
            &&& fine && promoted ==> (noted(preset, output, promoted) matches Some((level, _))
                && level == Level::Info)
            &&& fine && !promoted ==> noted(preset, output, promoted) is None
        }),
{
}

} // verus!

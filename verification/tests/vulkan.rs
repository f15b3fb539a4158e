use ash::vk::{self, Handle};
use vkslang::config::HdrOutput;
use vkslang::device::{
    add_colorspace, after_create_instance, graphics_family, plan_device, DeviceRequest,
    InstanceStep, QueueFamilies,
};
use vkslang::frame::{
    bar_rects, capture_size, plan_black, plan_frame, FrameInput, Image, Layout, Step,
};
use vkslang::frame as f;
use vkslang::ipc::{ColorSpace, Extent, Filter, Offset, Rect};
use vkslang::loader::{
    self, device_hook, file_line, find_in_chain, hook_for_instance, instance_hook, log_line,
    max_level, negotiate, Hook, LayerFunction, Level, Link, NegotiateLayerStructType,
};
use vkslang::source::{Source, SourceRect};
use vkslang::swapchain::{
    self as w, after_create_swapchain, can_place, has_format_list, order_swapchain, plan_swapchain,
    promote_to_hdr10, Abilities, SourceImage, SurfaceFormat, SwapchainRequest, SwapchainState,
    SwapchainStep,
};
use vkslang::vulkan::{
    self as v, color_space, format_sibling, has_ext, has_flags, is_promotable, memory_type,
    srgb_to_unorm,
};

fn rect(x: i32, y: i32, width: u32, height: u32) -> Rect {
    Rect { offset: Offset { x, y }, extent: Extent { width, height } }
}

#[test]
fn bars_around_a_pillarboxed_picture() {
    let total = Extent { width: 3840, height: 2160 };
    let picture = Rect {
        offset: Offset { x: 480, y: 0 },
        extent: Extent { width: 2880, height: 2160 },
    };
    let bars = bar_rects(picture, total);
    assert_eq!(bars.len(), 2);
    assert_eq!(bars[0].extent, Extent { width: 480, height: 2160 });
    assert_eq!(bars[1].offset.x, 3360);
    assert_eq!(bars[1].extent, Extent { width: 480, height: 2160 });
}

#[test]
fn no_bars_when_the_picture_fills_the_image() {
    let total = Extent { width: 1920, height: 1080 };
    let picture = Rect { offset: Offset { x: 0, y: 0 }, extent: total };
    assert!(bar_rects(picture, total).is_empty());
}

#[test]
fn bars_on_all_sides() {
    let total = Extent { width: 100, height: 50 };
    assert_eq!(
        bar_rects(rect(10, 5, 60, 20), total),
        vec![rect(0, 0, 10, 50), rect(70, 0, 30, 50), rect(10, 0, 60, 5), rect(10, 25, 60, 25)]
    );
    // What of the picture lies outside of the image does not count.
    assert_eq!(bar_rects(rect(-5, 0, 10, 50), total), vec![rect(5, 0, 95, 50)]);
    assert_eq!(
        bar_rects(rect(-100, 0, 200, 100), Extent { width: 400, height: 100 }),
        vec![rect(100, 0, 300, 100)]
    );
    assert_eq!(
        bar_rects(rect(90, 40, 50, 50), total),
        vec![rect(0, 0, 90, 50), rect(90, 0, 10, 40)]
    );
    assert_eq!(bar_rects(rect(200, 0, 10, 50), total), vec![rect(0, 0, 100, 50)]);
    assert_eq!(bar_rects(rect(-20, 0, 10, 50), total), vec![rect(0, 0, 100, 50)]);
    assert_eq!(
        bar_rects(rect(i32::MIN, i32::MAX, u32::MAX, u32::MAX), total),
        vec![rect(0, 0, 100, 50)]
    );
}

#[test]
fn numbers_of_vulkan() {
    assert_eq!(v::R8G8B8A8_UNORM, vk::Format::R8G8B8A8_UNORM.as_raw());
    assert_eq!(v::R8G8B8A8_SRGB, vk::Format::R8G8B8A8_SRGB.as_raw());
    assert_eq!(v::B8G8R8A8_UNORM, vk::Format::B8G8R8A8_UNORM.as_raw());
    assert_eq!(v::B8G8R8A8_SRGB, vk::Format::B8G8R8A8_SRGB.as_raw());
    assert_eq!(v::A8B8G8R8_UNORM_PACK32, vk::Format::A8B8G8R8_UNORM_PACK32.as_raw());
    assert_eq!(v::A8B8G8R8_SRGB_PACK32, vk::Format::A8B8G8R8_SRGB_PACK32.as_raw());
    assert_eq!(v::HDR10_FORMAT, vk::Format::A2B10G10R10_UNORM_PACK32.as_raw());
    assert_eq!(v::HDR10_ST2084, vk::ColorSpaceKHR::HDR10_ST2084_EXT.as_raw());
    assert_eq!(v::EXTENDED_SRGB_LINEAR, vk::ColorSpaceKHR::EXTENDED_SRGB_LINEAR_EXT.as_raw());
    assert_eq!(v::QUEUE_GRAPHICS, vk::QueueFlags::GRAPHICS.as_raw());
    assert_eq!(v::USAGE_TRANSFER_SRC, vk::ImageUsageFlags::TRANSFER_SRC.as_raw());
    assert_eq!(v::USAGE_TRANSFER_DST, vk::ImageUsageFlags::TRANSFER_DST.as_raw());
    assert_eq!(v::USAGE_SAMPLED, vk::ImageUsageFlags::SAMPLED.as_raw());
    assert_eq!(v::USAGE_COLOR_ATTACHMENT, vk::ImageUsageFlags::COLOR_ATTACHMENT.as_raw());
    assert_eq!(v::FEATURE_SAMPLED_IMAGE, vk::FormatFeatureFlags::SAMPLED_IMAGE.as_raw());
    assert_eq!(v::FEATURE_COLOR_ATTACHMENT, vk::FormatFeatureFlags::COLOR_ATTACHMENT.as_raw());
    assert_eq!(v::FEATURE_BLIT_SRC, vk::FormatFeatureFlags::BLIT_SRC.as_raw());
    assert_eq!(v::FEATURE_BLIT_DST, vk::FormatFeatureFlags::BLIT_DST.as_raw());
    assert_eq!(v::MEMORY_DEVICE_LOCAL, vk::MemoryPropertyFlags::DEVICE_LOCAL.as_raw());
    assert_eq!(v::MEMORY_HOST_VISIBLE, vk::MemoryPropertyFlags::HOST_VISIBLE.as_raw());
    assert_eq!(v::MEMORY_HOST_COHERENT, vk::MemoryPropertyFlags::HOST_COHERENT.as_raw());
    assert_eq!(w::SHARED_DEMAND_REFRESH, vk::PresentModeKHR::SHARED_DEMAND_REFRESH.as_raw());
    assert_eq!(w::SHARED_CONTINUOUS_REFRESH, vk::PresentModeKHR::SHARED_CONTINUOUS_REFRESH.as_raw());
    assert_eq!(
        w::IMAGE_FORMAT_LIST_CREATE_INFO,
        vk::StructureType::IMAGE_FORMAT_LIST_CREATE_INFO.as_raw()
    );
    assert_eq!(
        w::NEEDED_USAGE,
        (vk::ImageUsageFlags::COLOR_ATTACHMENT | vk::ImageUsageFlags::TRANSFER_SRC).as_raw()
    );
    assert_eq!(
        w::NEEDED_FEATURES,
        (vk::FormatFeatureFlags::BLIT_SRC
            | vk::FormatFeatureFlags::BLIT_DST
            | vk::FormatFeatureFlags::SAMPLED_IMAGE
            | vk::FormatFeatureFlags::COLOR_ATTACHMENT)
            .as_raw()
    );
    assert_eq!(
        loader::LOADER_INSTANCE_CREATE_INFO,
        vk::StructureType::LOADER_INSTANCE_CREATE_INFO.as_raw()
    );
    assert_eq!(
        loader::LOADER_DEVICE_CREATE_INFO,
        vk::StructureType::LOADER_DEVICE_CREATE_INFO.as_raw()
    );
    let stage = |x: vk::PipelineStageFlags| x.as_raw();
    assert_eq!(f::STAGE_ALL_COMMANDS, stage(vk::PipelineStageFlags::ALL_COMMANDS));
    assert_eq!(f::STAGE_TRANSFER, stage(vk::PipelineStageFlags::TRANSFER));
    assert_eq!(f::STAGE_BOTTOM_OF_PIPE, stage(vk::PipelineStageFlags::BOTTOM_OF_PIPE));
    assert_eq!(f::STAGE_FRAGMENT_SHADER, stage(vk::PipelineStageFlags::FRAGMENT_SHADER));
    assert_eq!(
        f::STAGE_COLOR_ATTACHMENT_OUTPUT,
        stage(vk::PipelineStageFlags::COLOR_ATTACHMENT_OUTPUT)
    );
    assert_eq!(
        f::STAGE_PRESET,
        stage(
            vk::PipelineStageFlags::FRAGMENT_SHADER
                | vk::PipelineStageFlags::COLOR_ATTACHMENT_OUTPUT
                | vk::PipelineStageFlags::TRANSFER
        )
    );
    assert_eq!(
        f::STAGE_DRAWN,
        stage(vk::PipelineStageFlags::COLOR_ATTACHMENT_OUTPUT | vk::PipelineStageFlags::TRANSFER)
    );
    let access = |x: vk::AccessFlags| x.as_raw();
    assert_eq!(f::ACCESS_MEMORY_WRITE, access(vk::AccessFlags::MEMORY_WRITE));
    assert_eq!(f::ACCESS_TRANSFER_READ, access(vk::AccessFlags::TRANSFER_READ));
    assert_eq!(f::ACCESS_TRANSFER_WRITE, access(vk::AccessFlags::TRANSFER_WRITE));
    assert_eq!(f::ACCESS_SHADER_READ, access(vk::AccessFlags::SHADER_READ));
    assert_eq!(
        f::ACCESS_COLOR_ATTACHMENT_WRITE,
        access(vk::AccessFlags::COLOR_ATTACHMENT_WRITE)
    );
    assert_eq!(
        f::ACCESS_COLOR_ATTACHMENT,
        access(vk::AccessFlags::COLOR_ATTACHMENT_READ | vk::AccessFlags::COLOR_ATTACHMENT_WRITE)
    );
    assert_eq!(
        f::ACCESS_READ,
        access(vk::AccessFlags::SHADER_READ | vk::AccessFlags::TRANSFER_READ)
    );
    assert_eq!(
        f::ACCESS_DRAWN,
        access(vk::AccessFlags::COLOR_ATTACHMENT_WRITE | vk::AccessFlags::TRANSFER_WRITE)
    );
    assert_eq!(vk::Queue::null().as_raw(), 0);
}

#[test]
fn formats() {
    assert_eq!(srgb_to_unorm(50), Some(44));
    assert_eq!(srgb_to_unorm(43), Some(37));
    assert_eq!(srgb_to_unorm(57), Some(51));
    assert_eq!(srgb_to_unorm(44), None);
    assert_eq!(format_sibling(44), Some(50));
    assert_eq!(format_sibling(50), Some(44));
    assert_eq!(format_sibling(64), None);
    assert!(is_promotable(64) && is_promotable(37) && !is_promotable(97));
    assert_eq!(color_space(v::HDR10_ST2084), ColorSpace::Hdr10);
    assert_eq!(color_space(v::EXTENDED_SRGB_LINEAR), ColorSpace::ScRgb);
    assert_eq!(color_space(0), ColorSpace::Sdr);
    assert!(has_flags(7, 5) && !has_flags(2, 3));
    assert_eq!(memory_type(0b1110, &vec![1, 2, 1, 7], 1), Some(2));
    assert_eq!(memory_type(0b1110, &vec![1, 2, 1, 7], 6), Some(3));
    assert_eq!(memory_type(0b0001, &vec![2, 1], 1), None);
    assert!(has_ext(&vec!["a".into(), "b".into()], "b") && !has_ext(&vec![], "b"));
}

#[test]
fn recorded_frames() {
    let extent = Extent { width: 3840, height: 2160 };
    let mut i = FrameInput {
        extent,
        picture: rect(480, 0, 2880, 2160),
        input: Extent { width: 320, height: 240 },
        filter: Filter::Nearest,
        display: rect(480, 0, 2880, 2160),
        staged: false,
        black: true,
        subframe: false,
        capture: None,
    };
    let steps = plan_frame(i);
    assert!(steps.contains(&Step::Blit {
        from: Image::Screen,
        to: Image::Source,
        area: rect(480, 0, 2880, 2160),
        size: Extent { width: 320, height: 240 },
        filter: Filter::Nearest
    }));
    assert_eq!(steps.iter().filter(|s| matches!(s, Step::Fill { .. })).count(), 2);
    assert_eq!(steps.iter().filter(|s| **s == Step::Run).count(), 1);
    assert_eq!(steps.len(), 3 + 4 + 1 + 6 + 2 + 2);
    i.staged = true;
    i.capture = Some(Extent { width: 1280, height: 720 });
    i.input = i.picture.extent;
    let steps = plan_frame(i);
    assert!(steps.contains(&Step::Copy { from: Image::Screen, to: Image::Staging, area: rect(0, 0, 3840, 2160) }));
    assert!(steps.contains(&Step::Copy { from: Image::Staging, to: Image::Source, area: i.picture }));
    assert!(steps.contains(&Step::Read { image: Image::Capture, size: Extent { width: 1280, height: 720 } }));
    i.subframe = true;
    i.black = false;
    let steps = plan_frame(i);
    assert_eq!(steps.len(), 5);
    assert_eq!(
        steps[1],
        Step::Transition {
            image: Image::Screen,
            was: Layout::Undefined,
            becomes: Layout::ColorAttachment,
            before: 0,
            after: f::ACCESS_COLOR_ATTACHMENT
        }
    );
    assert_eq!(plan_black().len(), 5);
    assert_eq!(plan_black()[2], Step::Clear { image: Image::Screen });
}

#[test]
fn captures_are_scaled_down() {
    let e = |width, height| Extent { width, height };
    assert_eq!(capture_size(1280, e(3840, 2160)), e(1280, 720));
    assert_eq!(capture_size(1280, e(640, 480)), e(640, 480));
    assert_eq!(capture_size(1000, e(1366, 768)), e(1000, 562));
    assert_eq!(capture_size(0, e(100, 100)), e(1, 1));
}

fn request() -> SwapchainRequest {
    SwapchainRequest {
        extent: Extent { width: 1920, height: 1080 },
        format: v::B8G8R8A8_SRGB,
        color_space: 0,
        usage: 0x10,
        present_mode: 2,
        array_layers: 1,
        format_list: false,
    }
}

fn able() -> Abilities {
    Abilities { usage: Some(0x1f), features: 0xffff, mutable_format: true }
}

#[test]
fn swapchains_that_can_be_processed() {
    assert_eq!(plan_swapchain(&request(), &able()), Some((v::B8G8R8A8_UNORM, true)));
    let listed = SwapchainRequest { format_list: true, ..request() };
    assert_eq!(plan_swapchain(&listed, &able()), Some((v::B8G8R8A8_SRGB, false)));
    let plain = SwapchainRequest { format: 44, ..request() };
    assert_eq!(plan_swapchain(&plain, &able()), Some((44, false)));
    let fixed = Abilities { mutable_format: false, ..able() };
    assert_eq!(plan_swapchain(&request(), &fixed), Some((50, false)));
    for bad in [
        SwapchainRequest { array_layers: 2, ..request() },
        SwapchainRequest { present_mode: w::SHARED_DEMAND_REFRESH, ..request() },
        SwapchainRequest { present_mode: w::SHARED_CONTINUOUS_REFRESH, ..request() },
    ] {
        assert_eq!(plan_swapchain(&bad, &able()), None);
    }
    for bad in [
        Abilities { usage: None, ..able() },
        Abilities { usage: Some(0x10), ..able() },
        Abilities { features: 0x481, ..able() },
    ] {
        assert_eq!(plan_swapchain(&request(), &bad), None);
    }
    assert!(has_format_list(&vec![1, w::IMAGE_FORMAT_LIST_CREATE_INFO]));
    assert!(!has_format_list(&vec![1]));
}

#[test]
fn promotion_to_hdr10() {
    let offers = vec![
        SurfaceFormat { format: 44, color_space: 0 },
        SurfaceFormat { format: v::HDR10_FORMAT, color_space: v::HDR10_ST2084 },
    ];
    let hdr = Some(ColorSpace::Hdr10);
    let auto = HdrOutput::Auto;
    assert!(promote_to_hdr10(auto, true, hdr, &request(), &offers));
    assert!(!promote_to_hdr10(auto, true, Some(ColorSpace::Sdr), &request(), &offers));
    assert!(!promote_to_hdr10(auto, true, None, &request(), &offers));
    assert!(promote_to_hdr10(HdrOutput::Force, true, None, &request(), &offers));
    assert!(!promote_to_hdr10(HdrOutput::Off, true, hdr, &request(), &offers));
    assert!(!promote_to_hdr10(auto, false, hdr, &request(), &offers));
    assert!(!promote_to_hdr10(auto, true, hdr, &request(), &vec![offers[0]]));
    let already = SwapchainRequest { color_space: v::HDR10_ST2084, ..request() };
    assert!(!promote_to_hdr10(auto, true, hdr, &already, &offers));
    let odd = SwapchainRequest { format: 97, ..request() };
    assert!(!promote_to_hdr10(auto, true, hdr, &odd, &offers));

    let o = order_swapchain(&request(), 44, true, true);
    assert_eq!((o.format, o.color_space), (v::HDR10_FORMAT, v::HDR10_ST2084));
    assert_eq!(o.view_formats, vec![v::HDR10_FORMAT, 50, 44]);
    assert!(o.mutable && o.plan.promoted && o.plan.hdr_promoted);
    assert_eq!(o.plan.output_format, v::HDR10_FORMAT);
    assert_eq!(o.usage, 0x11);
    let state = SwapchainState::new(1, &o.plan, 3, false);
    assert_eq!((state.source_format, state.color_space), (50, ColorSpace::Hdr10));
    assert!(state.staged && state.promoted);

    let same = SwapchainRequest { format: v::HDR10_FORMAT, ..request() };
    let o = order_swapchain(&same, v::HDR10_FORMAT, false, true);
    assert!(!o.mutable && !o.plan.promoted && o.plan.hdr_promoted);
    let o = order_swapchain(&request(), 44, true, false);
    assert_eq!(o.view_formats, vec![50, 44]);
    assert_eq!((o.format, o.plan.output_format), (50, 44));
    assert_eq!(after_create_swapchain(true, true), SwapchainStep::Process);
    assert_eq!(after_create_swapchain(false, true), SwapchainStep::AskAgain);
    assert_eq!(after_create_swapchain(false, false), SwapchainStep::Fail);
}

#[test]
fn source_images() {
    let ratio = vkslang::single::Single::from_bits((4.0f32 / 3.0).to_bits());
    let src = Source { rect: SourceRect::Aspect(ratio), ..Default::default() };
    let image = SourceImage::new(50, Extent { width: 3840, height: 2160 }, &src);
    assert_eq!(image.rect, rect(480, 0, 2880, 2160));
    assert_eq!(image.extent, Extent { width: 2880, height: 2160 });
    assert_eq!((image.view_format, image.mutable), (44, true));
    assert_eq!(image.display, rect(0, 0, 3840, 2160));
    assert!(can_place(&src, Extent { width: 2097152, height: 1 }));
    assert!(!can_place(&src, Extent { width: 0, height: 1 }));
}

#[test]
fn devices_and_instances() {
    let names = |v: &[&str]| v.iter().map(|s| s.to_string()).collect::<Vec<_>>();
    let all = [
        ash::khr::swapchain_mutable_format::NAME.to_str().unwrap(),
        ash::khr::image_format_list::NAME.to_str().unwrap(),
        ash::khr::maintenance2::NAME.to_str().unwrap(),
    ];
    let mut r = DeviceRequest {
        queue_families: vec![9, 2, 1],
        family_flags: vec![1, 3, 4],
        enabled: names(&["x", all[1]]),
        available: names(&all),
    };
    let p = plan_device(&r, true, true);
    assert_eq!(p.added, names(&[all[0], all[2]]));
    assert!(p.mutable_format && p.wanted && p.active);
    assert_eq!(p.graphics_family, Some(1));
    let idle = plan_device(&r, false, true);
    assert!(idle.added.is_empty() && !idle.mutable_format && !idle.active);
    r.available.pop();
    assert!(!plan_device(&r, true, true).mutable_format);
    r.queue_families = vec![2];
    let queueless = plan_device(&r, true, true);
    assert!(queueless.wanted && !queueless.active);
    assert_eq!(graphics_family(&vec![], &vec![1]), None);

    let cs = ash::ext::swapchain_colorspace::NAME.to_str().unwrap();
    assert!(add_colorspace(HdrOutput::Auto, &names(&["x"])));
    assert!(!add_colorspace(HdrOutput::Auto, &names(&[cs])));
    assert!(!add_colorspace(HdrOutput::Off, &names(&[])));
    assert_eq!(after_create_instance(true, true), InstanceStep::Keep);
    assert_eq!(after_create_instance(false, true), InstanceStep::AskAgain);
    assert_eq!(after_create_instance(false, false), InstanceStep::Fail);

    let mut q = QueueFamilies::new();
    q.insert(10, 0);
    q.insert(11, 2);
    q.insert(10, 1);
    assert_eq!(q.get(10), Some(1));
    assert_eq!(q.submit_queue(10, 99, 1), 10);
    assert_eq!(q.submit_queue(11, 99, 1), 99);
    assert_eq!(q.submit_queue(12, 99, 1), 99);
}

#[test]
fn talking_to_the_loader() {
    let kind = NegotiateLayerStructType::InterfaceStruct;
    assert_eq!(negotiate(kind, 1), None);
    assert_eq!(negotiate(kind, 2), Some(2));
    assert_eq!(negotiate(kind, 7), Some(2));
    assert_eq!(negotiate(NegotiateLayerStructType::Uninitialized, 2), None);
    assert_eq!(NegotiateLayerStructType::from_code(1), Some(kind));
    assert_eq!(NegotiateLayerStructType::from_code(2), None);
    let chain = vec![
        Link { s_type: 3, function: 0 },
        Link { s_type: 47, function: 1 },
        Link { s_type: 47, function: 0 },
        Link { s_type: 47, function: 0 },
    ];
    assert_eq!(find_in_chain(&chain, 47, LayerFunction::LayerLinkInfo), Some(2));
    assert_eq!(find_in_chain(&chain, 47, LayerFunction::LoaderDataCallback), Some(1));
    assert_eq!(find_in_chain(&chain, 48, LayerFunction::LayerLinkInfo), None);
    assert_eq!(LayerFunction::LoaderFeatures.code(), 3);
    assert_eq!(device_hook("vkQueuePresentKHR"), Some(Hook::QueuePresent));
    assert_eq!(device_hook("vkGetDeviceQueue2"), Some(Hook::GetDeviceQueue2));
    assert_eq!(device_hook("vkCreateDevice"), None);
    assert_eq!(instance_hook("vkCreateDevice"), Some(Hook::CreateDevice));
    assert_eq!(hook_for_instance("vkCreateSwapchainKHR"), Some(Hook::CreateSwapchain));
    assert_eq!(hook_for_instance("vkGetInstanceProcAddr"), Some(Hook::GetInstanceProcAddr));
    assert_eq!(hook_for_instance("vkCmdDraw"), None);
}

#[test]
fn logging() {
    assert_eq!(max_level(None), Level::Info);
    assert_eq!(max_level(Some("error")), Level::Error);
    assert_eq!(max_level(Some("warn")), Level::Warn);
    assert_eq!(max_level(Some("trace")), Level::Debug);
    assert_eq!(max_level(Some("DEBUG")), Level::Info);
    assert!(Level::Error.is_shown(Level::Warn) && !Level::Debug.is_shown(Level::Info));
    assert_eq!(log_line(Level::Warn, "x"), "vkSlang warn: x");
    assert_eq!(file_line(7, "y"), "[7] y");
}

use vkslang::panel::Chain;
use vkslang::config::Config;
use vkslang::control::{preset_candidates, Control};
use vkslang::ipc::{
    ColorSpace, Extent, HdrSettings, Offset, Param, Rect, Request, Response, SourceSettings,
    SourceSize, State,
};
use vkslang::runtime::{
    capture_done, subframes_due, went_through, FramePhase, FrameRun, Loaded, Present, PresentStep, Rendered, Runtime,
    unknown_overrides, SubframeAction, SubframeEvent, Subframes, SUBOPTIMAL,
};
use vkslang::frame::{Image, Layout, Step};
use vkslang::loader::Level;
use vkslang::single::Single;
use vkslang::source::Source;
use vkslang::swapchain::{SourceImage, SwapchainPlan, SwapchainState};

fn s(x: f32) -> Single {
    Single::from_bits(x.to_bits())
}

fn param(name: &str, initial: f32) -> Param {
    Param {
        name: name.into(),
        description: String::new(),
        initial: s(initial),
        minimum: s(0.0),
        maximum: s(10.0),
        step: s(0.1),
        value: s(initial),
    }
}

fn ask(c: &mut Control, r: Request) -> Result<State, String> {
    ask_with(c, r, vec![])
}

fn ask_with(c: &mut Control, r: Request, files: Vec<bool>) -> Result<State, String> {
    match c.handle(r, &files, 42, "game") {
        Response::State(s) => Ok(s),
        Response::Error { message } => Err(message),
    }
}

#[test]
fn requests_change_the_state() {
    let mut c = Control::new(&Config::default());
    c.params = vec![param("A", 1.0), param("B", 2.0)];
    let st = ask(&mut c, Request::GetState).unwrap();
    assert_eq!((st.protocol, st.pid, st.process.as_str()), (9, 42, "game"));
    assert_eq!(st.subframes_max, 8);

    let st = ask(&mut c, Request::SetParam { name: "B".into(), value: s(3.5) }).unwrap();
    assert_eq!(st.params[1].value, s(3.5));
    assert_eq!(st.params[0].value, s(1.0));
    assert_eq!(c.params_gen, 1);
    assert_eq!(c.param_value("B", s(2.0)), s(3.5));
    assert_eq!(c.param_value("A", s(1.0)), s(1.0));
    assert_eq!(
        ask(&mut c, Request::SetParam { name: "C".into(), value: s(1.0) }).unwrap_err(),
        "unknown parameter 'C'"
    );
    assert_eq!(
        ask(&mut c, Request::SetParam { name: "A".into(), value: s(f32::NAN) }).unwrap_err(),
        "value must be finite"
    );
    assert_eq!(c.params_gen, 1);

    let st = ask(&mut c, Request::ResetParams).unwrap();
    assert_eq!(st.params[1].value, s(2.0));
    assert_eq!(c.param_value("B", s(2.0)), s(2.0));
    assert_eq!(c.params_gen, 2);

    assert!(!ask(&mut c, Request::SetEnabled { enabled: false }).unwrap().enabled);
    let hdr = HdrSettings { brightness_nits: s(1e9), expand_gamut: 7 };
    let st = ask(&mut c, Request::SetHdr { hdr }).unwrap();
    assert_eq!(st.hdr, HdrSettings { brightness_nits: s(10000.0), expand_gamut: 3 });
    let st = ask(&mut c, Request::SetSubframes { subframes: 99, black: true }).unwrap();
    assert_eq!((st.subframes, st.subframe_black), (8, true));
    ask(&mut c, Request::Capture { max_width: 1280 }).unwrap();
    assert_eq!(c.capture_request, Some(1280));
}

#[test]
fn parameters_may_be_set_before_a_preset_runs() {
    let mut c = Control::new(&Config::default());
    ask(&mut c, Request::SetParam { name: "X".into(), value: s(1.0) }).unwrap();
    assert_eq!(c.param_value("X", s(0.0)), s(1.0));
}

#[test]
fn a_chain_arrives_as_it_was_picked() {
    let mut c = Control::new(&Config::default());
    let chain = Chain { paths: vec!["/b c".into(), "/a".into(), "/b c".into()] };
    let path = chain.to_path();
    assert_eq!(path, "/b c,/a,/b c");
    assert_eq!(preset_candidates(&path)[1..], chain.paths[..]);
    let load = || Request::LoadPreset { path: path.clone() };
    assert_eq!(
        ask_with(&mut c, load(), vec![false, true, false, true]).unwrap_err(),
        "/a does not exist"
    );
    ask_with(&mut c, load(), vec![false, true, true, true]).unwrap();
    assert_eq!(c.presets, chain.paths);
    // A file that is called like the whole list is taken for one preset.
    ask_with(&mut c, load(), vec![true]).unwrap();
    assert_eq!(c.presets, vec![path]);
}

#[test]
fn presets_must_be_files() {
    let mut c = Control::new(&Config::default());
    ask(&mut c, Request::SetParam { name: "X".into(), value: s(1.0) }).unwrap();
    let load = |p: &str| Request::LoadPreset { path: p.into() };
    assert_eq!(preset_candidates("/a, /b"), vec!["/a, /b", "/a", "/b"]);
    assert_eq!(ask_with(&mut c, load("/a"), vec![false, false]).unwrap_err(), "/a does not exist");
    assert_eq!(
        ask_with(&mut c, load("/a, /b"), vec![false, true, false]).unwrap_err(),
        "/b does not exist"
    );
    assert_eq!(ask_with(&mut c, load(","), vec![false]).unwrap_err(), ", does not exist");
    assert_eq!(c.preset_gen, 0);
    let st = ask_with(&mut c, load("/a, /b"), vec![false, true, true]).unwrap();
    assert!(st.loading);
    assert_eq!(c.presets, vec!["/a", "/b"]);
    assert_eq!(c.preset_gen, 1);
    assert!(c.overrides.items.is_empty());
    ask_with(&mut c, load("/x,y"), vec![true]).unwrap();
    assert_eq!(c.presets, vec!["/x,y"]);
}

#[test]
fn the_source_is_set_once() {
    let mut c = Control::new(&Config::default());
    let source = || SourceSettings { rect: "4:3".into(), ..Default::default() };
    ask(&mut c, Request::SetSource { source: source() }).unwrap();
    assert_eq!(c.source_gen, 1);
    let st = ask(&mut c, Request::SetSource { source: source() }).unwrap();
    assert_eq!(c.source_gen, 1);
    assert_eq!(st.source.rect, "4:3");
    let bad = SourceSettings { rect: "?".into(), ..Default::default() };
    assert_eq!(
        ask(&mut c, Request::SetSource { source: bad }).unwrap_err(),
        "invalid source rect '?'"
    );
    assert_eq!(c.source_gen, 1);
    assert!(c.source.is_same(&c.source.copy()));
    assert!(!c.source.is_same(&Source::default()));
    let other = Source { res: SourceSize::Divide { by: s(2.0) }, ..c.source.copy() };
    assert!(!other.is_same(&c.source));
}

fn loaded(upload: u64) -> Loaded {
    Loaded {
        presets: vec!["/p.slangp".into()],
        params: vec![param("A", 1.0), param("B", 2.0)],
        color_space: ColorSpace::Hdr10,
        upload,
    }
}

fn plan() -> SwapchainPlan {
    SwapchainPlan {
        extent: Extent { width: 1920, height: 1080 },
        format: 44,
        app_format: 44,
        output_format: 44,
        color_space: 0,
        promoted: false,
        hdr_promoted: false,
    }
}

fn running() -> (Runtime, Control) {
    let mut cfg = Config::default();
    cfg.presets = vec!["/p.slangp".into()];
    let mut c = Control::new(&cfg);
    let mut rt = Runtime::new(c.hdr, c.source_gen);
    assert!(!rt.is_rendering());
    assert_eq!(rt.ensure_chain(&mut c), Some(vec!["/p.slangp".to_string()]));
    assert!(c.loading);
    assert_eq!(rt.ensure_chain(&mut c), None);
    c.overrides.set(&['B'], s(7.0));
    assert!(unknown_overrides(&c, &loaded(11).params).is_empty());
    assert_eq!(unknown_overrides(&c, &vec![]), vec!["B"]);
    assert!(rt.finish_load(&mut c, Ok(loaded(11))).is_empty());
    assert!(!c.loading && rt.is_rendering());
    assert_eq!(c.running_presets, vec!["/p.slangp"]);
    assert_eq!(c.params[1].value, s(7.0));
    assert_eq!(c.params[1].initial, s(2.0));
    assert_eq!(c.preset_color_space, Some(ColorSpace::Hdr10));
    let mut sw = SwapchainState::new(5, &plan(), 3, true);
    sw.source = Some(SourceImage::new(sw.source_format, sw.extent, &c.source));
    rt.track_swapchain(sw);
    (rt, c)
}

#[test]
fn changes_are_applied_once() {
    let (mut rt, mut c) = running();
    let first = rt.sync(&mut c);
    assert!(first.load.is_none() && !first.rebuild);
    assert_eq!(first.values.unwrap(), vec![("A".to_string(), s(1.0)), ("B".to_string(), s(7.0))]);
    let second = rt.sync(&mut c);
    assert!(second.load.is_none() && second.values.is_none() && !second.rebuild);

    ask(&mut c, Request::SetParam { name: "A".into(), value: s(4.0) }).unwrap();
    let source = SourceSettings { rect: "4:3".into(), ..Default::default() };
    ask(&mut c, Request::SetSource { source }).unwrap();
    ask_with(&mut c, Request::LoadPreset { path: "/q".into() }, vec![true]).unwrap();
    let third = rt.sync(&mut c);
    assert_eq!(third.load.unwrap(), vec!["/q"]);
    assert!(third.rebuild);
    assert_eq!(third.values.unwrap()[0].1, s(1.0)); // loading dropped the override
    assert!(rt.loading);
    // Another one waits for its turn.
    ask_with(&mut c, Request::LoadPreset { path: "/r".into() }, vec![true]).unwrap();
    assert!(rt.sync(&mut c).load.is_none());
    assert_eq!(rt.finish_load(&mut c, Ok(loaded(12))), vec![11]);
    assert_eq!(rt.sync(&mut c).load.unwrap(), vec!["/r"]);
    rt.load_refused(&mut c, "no threads");
    assert_eq!(c.error.as_deref(), Some("cannot spawn loader: no threads"));
    assert!(!c.loading && !rt.loading);
    rt.finish_load(&mut c, Err("broken".into()));
    assert_eq!(c.error.as_deref(), Some("broken"));
}

#[test]
fn rates_are_measured_over_a_window() {
    let (mut rt, mut c) = running();
    for _ in 0..30 {
        rt.count_frame(false);
        rt.count_frame(true);
    }
    assert!(!rt.measure(s(0.49)));
    assert_eq!((rt.frames_in_window, rt.presents_in_window), (30, 60));
    assert!(rt.measure(s(0.5)));
    assert_eq!((rt.fps, rt.present_fps), (s(60.0), s(120.0)));
    assert_eq!((rt.frames_in_window, rt.presents_in_window), (0, 0));
    rt.sync(&mut c);
    assert_eq!((c.source_fps, c.present_fps), (s(60.0), s(120.0)));
}

#[test]
fn frames_take_turns() {
    let (mut rt, _c) = running();
    let f = rt.render(5, 0, false, None).unwrap();
    assert_eq!((f.slot, f.swapchain), (0, 0));
    assert_eq!(f.steps.first(), Some(&Step::Barrier { done: 0x1_0000, waiting: 0x1000 }));
    assert_eq!(
        f.steps.last(),
        Some(&Step::Transition {
            image: Image::Screen,
            was: Layout::ColorAttachment,
            becomes: Layout::PresentSrc,
            before: 0x1100,
            after: 0
        })
    );
    // The upload goes with the first frame that is submitted.
    assert_eq!(rt.take_upload(0), Some(11));
    rt.not_submitted(0);
    assert_eq!(rt.pending_init, Some(11));
    assert_eq!(rt.take_upload(0), Some(11));
    rt.submitted();
    assert_eq!(rt.frame_count, 1);
    assert_eq!(rt.take_upload(1), None);
    assert_eq!(rt.render(5, 1, true, None).unwrap().slot, 1);
    assert_eq!(rt.present_black(5, 2), Some(2));
    assert_eq!(rt.render(5, 0, false, None).unwrap().slot, 0);
    // The slot holds its upload until its last frame is known to be over.
    assert_eq!(rt.inits[0], Some(11));
    let mut stuck = FrameRun::new(0, false);
    stuck.advance(&mut rt, false);
    assert_eq!((stuck.phase, rt.inits[0]), (FramePhase::Failed, Some(11)));
    let mut free = FrameRun::new(0, false);
    free.advance(&mut rt, true);
    assert_eq!(free.phase, FramePhase::Recording { released: Some(11) });
    assert_eq!(rt.inits[0], None);
    assert!(rt.render(5, 3, false, None).is_none());
    assert!(rt.render(6, 0, false, None).is_none());
    assert_eq!(rt.present_black(6, 0), None);
    assert_eq!(rt.present_black(5, 3), None);
    assert!(rt.presents_again(5, 2) && !rt.presents_again(5, 1) && !rt.presents_again(6, 2));
    rt.fail();
    assert!(rt.render(5, 0, false, None).is_none());
}

#[test]
fn presets_are_told_about_frames() {
    let (mut rt, _c) = running();
    rt.submitted();
    let u = rt.uniforms(0, Some(0x1_0000_0010), Some((2, 3)));
    assert_eq!(u.frametime_delta, 16);
    assert_eq!((u.current_subframe, u.total_subframes, u.frame_count), (2, 3, 1));
    assert_eq!(u.brightness_nits, s(200.0));
    assert_eq!(u.frames_per_second, s(60.0));
    let u = rt.uniforms(0, None, None);
    assert_eq!((u.frametime_delta, u.current_subframe, u.total_subframes), (0, 1, 1));
}

#[test]
fn swapchains_are_published() {
    let (mut rt, mut c) = running();
    rt.publish_outputs(&mut c);
    assert_eq!(c.outputs.len(), 1);
    assert_eq!(c.outputs[0].format, "B8G8R8A8_UNORM");
    assert_eq!(c.outputs[0].input, Extent { width: 1920, height: 1080 });
    rt.set_source(0, None);
    rt.publish_outputs(&mut c);
    assert_eq!(c.outputs[0].input, Extent { width: 0, height: 0 });
    assert!(rt.render(5, 0, false, None).is_none());
    let other = SwapchainState::new(5, &SwapchainPlan { format: 64, ..plan() }, 2, false);
    rt.track_swapchain(other);
    assert_eq!(rt.swapchains.len(), 1);
    rt.publish_outputs(&mut c);
    assert_eq!(c.outputs[0].format, "A2B10G10R10_UNORM_PACK32");
    assert!(!rt.forget_swapchain(9));
    assert!(rt.forget_swapchain(5));
    assert!(rt.swapchains.is_empty());
    assert!(rt.find(5).is_none());
}

#[test]
fn captures_are_numbered() {
    let mut c = Control::new(&Config::default());
    let e = Extent { width: 4, height: 2 };
    let area = Rect { offset: Offset { x: 0, y: 0 }, extent: e };
    c.capture_request = Some(10);
    capture_done(&mut c, Some(("/f".into(), e, e, area)));
    assert_eq!(c.capture.as_ref().unwrap().id, 1);
    assert_eq!(c.capture_request, None);
    capture_done(&mut c, Some(("/f".into(), e, e, area)));
    assert_eq!(c.capture.as_ref().unwrap().id, 2);
    c.capture_request = Some(10);
    capture_done(&mut c, None);
    assert_eq!(c.capture.as_ref().unwrap().id, 2);
    assert_eq!(c.capture_request, None);
}

#[test]
fn presents_go_through_the_layer() {
    let mut p = Present::new();
    assert!(p.waits_on_application());
    assert_eq!(p.take(1, Rendered::Untouched), PresentStep::Next);
    assert_eq!(p.take(1, Rendered::Failed(-4)), PresentStep::Forward);
    assert!(!p.is_changed());
    assert_eq!(p.take(2, Rendered::Done(77)), PresentStep::Next);
    assert!(!p.waits_on_application() && p.is_changed());
    assert_eq!(p.take(3, Rendered::Failed(-4)), PresentStep::Fail(-4));
    assert_eq!((p.waits, p.processed), (vec![77], vec![2]));
    assert!(subframes_due(2, 0) && subframes_due(2, SUBOPTIMAL));
    assert!(!subframes_due(1, 0) && !subframes_due(2, -4));
    assert!(went_through(0) && !went_through(2));
    assert_eq!(SUBOPTIMAL, ash::vk::Result::SUBOPTIMAL_KHR.as_raw());
}

#[test]
fn subframes_follow_one_another() {
    let mut x = Subframes::new(3, false);
    let mut drawn = Vec::new();
    let mut presented = 0;
    loop {
        match x.action() {
            SubframeAction::Stop => break,
            SubframeAction::Draw { current, total } => drawn.push((current, total)),
            SubframeAction::Present => presented += 1,
            _ => {}
        }
        x.advance(SubframeEvent::Done);
    }
    assert_eq!(drawn, vec![(2, 3), (3, 3)]);
    assert_eq!(presented, 2);
    let mut y = Subframes::new(8, true);
    assert_eq!(y.action(), SubframeAction::Wait);
    y.advance(SubframeEvent::Done);
    assert_eq!(y.action(), SubframeAction::Acquire);
    y.advance(SubframeEvent::Done);
    assert_eq!(y.action(), SubframeAction::DrawBlack);
    y.advance(SubframeEvent::Failed);
    assert_eq!(y.action(), SubframeAction::Stop);
    y.advance(SubframeEvent::Done);
    assert_eq!(y.action(), SubframeAction::Stop);
}

#[test]
fn outputs_and_notes() {
    let (rt, _c) = running();
    let sw = &rt.swapchains[0];
    assert_eq!(sw.output_as("X".into()).format, "X");
    assert!(sw.note(ColorSpace::Sdr).is_none());
    let (level, why) = sw.note(ColorSpace::Hdr10).unwrap();
    assert_eq!(level, Level::Warn);
    assert!(why.starts_with("HDR preset on an SDR output"));
    let hdr = SwapchainPlan { color_space: 1_000_104_008, hdr_promoted: true, ..plan() };
    let sw = SwapchainState::new(1, &hdr, 1, false);
    assert_eq!(
        sw.note(ColorSpace::Hdr10),
        Some((Level::Info, "HDR10 output: the game renders SDR, the preset writes HDR"))
    );
}

#[test]
fn frames_run_to_their_end() {
    let (mut rt, _c) = running();
    let f = rt.render(5, 0, false, None).unwrap();
    let mut run = FrameRun::new(f.slot, true);
    run.advance(&mut rt, true);
    assert_eq!(run.phase, FramePhase::Recording { released: None });
    run.advance(&mut rt, true);
    assert_eq!(run.phase, FramePhase::Submitting { upload: Some(11) });
    assert_eq!(rt.pending_init, None);
    let mut refused = run;
    refused.advance(&mut rt, false);
    assert_eq!(refused.phase, FramePhase::Failed);
    assert_eq!((rt.pending_init, rt.frame_count), (Some(11), 0));
    let mut again = FrameRun { phase: FramePhase::Recording { released: None }, ..run };
    again.advance(&mut rt, true);
    again.advance(&mut rt, true);
    assert_eq!((again.phase, rt.frame_count), (FramePhase::Reading, 1));
    again.advance(&mut rt, false);
    assert_eq!(again.phase, FramePhase::Done);
    let mut plain = FrameRun::new(1, false);
    plain.advance(&mut rt, false);
    assert_eq!(plain.phase, FramePhase::Failed);
}

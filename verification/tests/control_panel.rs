use std::time::Duration;
use vkslang::config::Places;
use vkslang::ipc::{
    Capture, ColorSpace, Extent, Factors, Filter, Offset, Output, Param, Rect, Response,
    SourceSettings, SourceSize, State,
};
use vkslang::panel::{
    area_spec, capture_due, count_idle, filter_text, find_target, frame_picture, hdr_label, hdr_matters, is_edit,
    is_found, is_new_capture, measure_grid, output_label, search_words, show_found, show_param, sizes_line, slider_step,
    target_label, Chain, Session, Shown, SourceEdit, Target,
};
use vkslang::entries::Entries;
use vkslang::presets::{
    arrange_params, declared_names, directive, nested_file, pass_offsets, Directive,
};
use vkslang::single::Single;
use vkslang::source::{parse_rect, SourceRect};
use vkslang::tree::{default_shader_root, has_all, scanned, shader_root_candidates, Found, Tree};

fn s(x: f32) -> Single {
    Single::from_bits(x.to_bits())
}

fn e(width: u32, height: u32) -> Extent {
    Extent { width, height }
}

fn strings(v: &[&str]) -> Vec<String> {
    v.iter().map(|s| s.to_string()).collect()
}

#[test]
fn editing_the_source() {
    let from = SourceSettings {
        res: SourceSize::Divide { by: s(3.0) },
        filter: Filter::Linear,
        rect: "4:3".into(),
        ..Default::default()
    };
    let mut edit = SourceEdit::from_settings(&from);
    assert_eq!(edit.to_settings(), from);
    edit.select_fixed();
    assert_eq!(edit.mode, SourceSize::Fixed { size: e(320, 240) });
    edit.set_size(640, 480);
    edit.select_native();
    edit.select_divide();
    assert_eq!(edit.mode, SourceSize::Divide { by: s(3.0) });
    edit.set_divisor(s(6.0));
    edit.select_fixed();
    assert_eq!(edit.mode, SourceSize::Fixed { size: e(640, 480) });
    edit.rect = "  16:9 ".into();
    assert_eq!(edit.to_settings().rect, "16:9");
    edit.display_scale = Factors { x: s(1.0), y: s(0.5) };
    edit.scale_width(s(2.0), true);
    assert_eq!(edit.display_scale, Factors { x: s(2.0), y: s(1.0) });
    edit.scale_height(s(3.0), false);
    assert_eq!(edit.display_scale, Factors { x: s(2.0), y: s(3.0) });
    edit.scale_height(s(0.3), true);
    assert_eq!(edit.display_scale.y, s(0.3));
    let fixed = SourceSettings { res: SourceSize::Fixed { size: e(5, 6) }, ..Default::default() };
    assert_eq!(SourceEdit::from_settings(&fixed).width, 5);
}

fn target(pid: u32, active: bool) -> Target {
    Target { pid, path: String::new(), label: target_label("game", pid), active }
}

fn places() -> Places {
    Places { config: None, config_home: None, home: Some("/h".into()) }
}

#[test]
fn sessions() {
    let mut x = Session::new();
    let targets = vec![target(1, false), target(2, true), target(3, true)];
    assert_eq!(targets[0].label, "game (1)");
    assert_eq!(count_idle(&targets), 1);
    assert_eq!(find_target(&targets, 3), Some(2));
    assert_eq!(find_target(&targets, 4), None);
    assert_eq!(x.rescan(&targets), vec![2, 3]);
    x.connect(2);
    assert!(x.rescan(&targets).is_empty());
    let state = |preset: &str| State { presets: strings(&[preset]), ..Default::default() };
    x.answered(Response::State(state("/s/a.slangp")), &places());
    assert_eq!(x.save_path, "/h/.config/vkSlang/presets/a-custom.slangp");
    let edit = x.source.as_ref().unwrap();
    assert_eq!((edit.width, edit.height, edit.divisor), (320, 240, s(2.0)));
    x.save_path = "/mine".into();
    x.answered(Response::State(state("/s/a.slangp")), &places());
    assert_eq!(x.save_path, "/mine");
    x.answered(Response::State(state("/s/b.slangp")), &places());
    assert_eq!(x.save_path, "/h/.config/vkSlang/presets/b-custom.slangp");
    x.answered(Response::Error { message: "no".into() }, &places());
    assert_eq!(x.message, Some(("no".to_string(), true)));
    assert!(x.state.is_some());
    x.request_failed(true, "old protocol");
    assert_eq!(x.message, Some(("old protocol".to_string(), true)));
    assert_eq!(x.incompatible, vec![2]);
    assert!(!x.connected && x.state.is_none() && x.source.is_none());
    assert_eq!(x.rescan(&targets), vec![3]);
    x.connect(3);
    x.request_failed(false, "gone");
    assert_eq!(x.message, Some(("connection lost: gone".to_string(), true)));
    assert_eq!(x.incompatible, vec![2]);
    x.connect(3);
    assert_eq!(x.rescan(&vec![target(2, true)]), Vec::<u32>::new());
    assert_eq!(x.selected, None);
    x.show("saved".into(), false);
    assert_eq!(x.message, Some(("saved".to_string(), false)));
}

fn param(name: &str, description: &str, max: f32) -> Param {
    Param {
        name: name.into(),
        description: description.into(),
        initial: s(0.0),
        minimum: s(0.0),
        maximum: s(max),
        step: s(0.05),
        value: s(0.0),
    }
}

#[test]
fn parameters_are_filtered() {
    let f = |t: &str| t.chars().collect::<Vec<char>>();
    let mut p = param("CRT_GAMMA", "Gamma of the TUBE", 1.0);
    assert_eq!(show_param(&p, &[]), Shown::Slider { modified: false });
    assert_eq!(show_param(&p, &f("gamma")), Shown::Slider { modified: false });
    assert_eq!(show_param(&p, &f("tube")), Shown::Slider { modified: false });
    assert_eq!(show_param(&p, &f("mask")), Shown::Hidden);
    p.value = s(0.5);
    assert_eq!(show_param(&p, &[]), Shown::Slider { modified: true });
    assert_eq!(show_param(&param("T", "Title", 0.0), &[]), Shown::Title);
    assert_eq!(show_param(&param("T", "  ", 0.0), &[]), Shown::Hidden);
    let text: String = filter_text("MASK \u{c9}").into_iter().collect();
    assert_eq!(text, "mask \u{e9}");
    assert!(is_found(&f("abc"), &f("xyz"), &f("yz")) && !is_found(&f("abc"), &f("xyz"), &f("bx")));
    assert!(is_found(&[], &[], &[]));
    assert_eq!(show_found(&p, false), Shown::Hidden);
    assert!(is_edit(&p, s(0.5), s(0.55)));
    assert!(!is_edit(&p, s(0.5), s(0.50001)));
    assert_eq!(slider_step(&p), s(0.05));
    assert_eq!(slider_step(&Param { step: s(0.0), ..param("x", "", 1.0) }), s(0.0001));
    let words: Vec<String> =
        search_words(" CRT  Royale\t\u{c9}").iter().map(|w| w.iter().collect()).collect();
    assert_eq!(words, vec!["crt", "royale", "\u{e9}"]);
}

#[test]
fn outputs_are_described() {
    let mut o = Output {
        size: e(3840, 2160),
        picture: e(2880, 2160),
        input: e(320, 240),
        format: "F".into(),
        color_space: ColorSpace::Hdr10,
        promoted: true,
    };
    assert_eq!(sizes_line(&o), "base 3840×2160, picture 2880×2160, input 320×240, output 3840×2160");
    assert_eq!(output_label(&o), "3840×2160 HDR10");
    assert_eq!(hdr_label(&o), "output HDR10 (F, promoted by vkSlang)");
    o.picture = o.size;
    o.promoted = false;
    assert_eq!(sizes_line(&o), "base 3840×2160, input 320×240, output 3840×2160");
    assert_eq!(hdr_label(&o), "output HDR10 (F)");
    assert!(hdr_matters(Some(ColorSpace::Sdr), Some(ColorSpace::Hdr10)));
    assert!(hdr_matters(Some(ColorSpace::ScRgb), None));
    assert!(!hdr_matters(None, Some(ColorSpace::Sdr)));
}

fn capture() -> Capture {
    Capture {
        path: String::new(),
        size: e(1280, 720),
        base: e(3840, 2160),
        area: Rect { offset: Offset { x: 480, y: 0 }, extent: e(2880, 2160) },
        id: 3,
    }
}

#[test]
fn grids_measure_pixels() {
    let m = measure_grid(&capture(), Factors { x: s(3.0), y: s(3.0) });
    assert_eq!(m.cell, Factors { x: s(9.0), y: s(9.0) });
    assert_eq!(m.native, e(320, 240));
    assert!(m.square);
    assert_eq!(m.as_fixed(), SourceSize::Fixed { size: e(320, 240) });
    assert_eq!(m.as_divisor(), Some(SourceSize::Divide { by: s(9.0) }));
    let m = measure_grid(&capture(), Factors { x: s(3.0), y: s(3.6) });
    assert_eq!(m.native, e(320, 200));
    assert_eq!(m.as_divisor(), None);
    let waited = |t: Duration| capture_due(false, Some(t.as_nanos()));
    assert!(capture_due(false, None) && waited(Duration::from_secs(3)));
    assert!(waited(Duration::from_millis(2500)) && waited(Duration::from_nanos(2_000_000_001)));
    assert!(!waited(Duration::from_secs(2)) && !waited(Duration::from_millis(1999)));
    assert!(!capture_due(true, None) && !capture_due(true, Some(3_000_000_000)));
    assert!(is_new_capture(None, 3) && is_new_capture(Some(2), 3) && !is_new_capture(Some(3), 3));
}

#[test]
fn pictures_are_framed() {
    let r = frame_picture(&capture(), e(160, 0), e(1120, 720));
    assert_eq!(r, Rect { offset: Offset { x: 480, y: 0 }, extent: e(2880, 2160) });
    assert_eq!(area_spec(r), "480,0,2880x2160");
    assert_eq!(parse_rect(&area_spec(r)), Some(SourceRect::Explicit(r)));
    let odd = Rect { offset: Offset { x: i32::MIN, y: -1 }, extent: e(1, u32::MAX) };
    assert_eq!(area_spec(odd), "-2147483648,-1,1x4294967295");
    assert_eq!(parse_rect(&area_spec(odd)), Some(SourceRect::Explicit(odd)));
}

fn same_tree(a: &Tree, b: &Tree) -> bool {
    a.presets == b.presets
        && a.folders.len() == b.folders.len()
        && a.folders.iter().zip(b.folders.iter()).all(|(x, y)| x.0 == y.0 && same_tree(&x.1, &y.1))
}

#[test]
fn the_order_of_paths_does_not_count() {
    let given = ["crt/z.slangp", "b.slangp", "crt/royale/r.slangp", "crt/a.slangp", "b.slangp"];
    let mut back = given;
    back.reverse();
    let t = Tree::build(&strings(&given));
    let u = Tree::build(&strings(&back));
    assert!(same_tree(&t, &u));
    assert_eq!(t.count(), 5);
    assert_eq!(t.presets.len(), 2);
    // Two spellings of one path stay as they come.
    let t = Tree::build(&strings(&["a//x", "a/x"]));
    let u = Tree::build(&strings(&["a/x", "a//x"]));
    assert_eq!(t.folders[0].1.presets[0].1, "a//x");
    assert_eq!(u.folders[0].1.presets[0].1, "a/x");
    assert!(!same_tree(&t, &u));
}

#[test]
fn the_first_of_equal_presets_is_dropped() {
    let mut chain = Chain { paths: strings(&["/a", "/b", "/a"]) };
    chain.toggle("/a");
    assert_eq!(chain.paths, strings(&["/b", "/a"]));
}

#[test]
fn words_are_found_in_one_path() {
    let t = Tree::build(&strings(&["crt/Royale.slangp", "mask/dots.slangp"]));
    assert!(t.matches(&search_words("CRT royale")));
    assert!(t.matches(&search_words("dots mask/")));
    assert!(!t.matches(&search_words("royale dots")));
    assert!(!t.matches(&search_words("crt mask")));
}

#[test]
fn presets_are_arranged_as_folders() {
    let paths = strings(&["crt/z.slangp", "b.slangp", "crt/royale/Crt-Royale.slangp", "crt/a.slangp", "a.slangp", ""]);
    let t = Tree::build(&paths);
    assert_eq!(t.count(), 5);
    assert_eq!(t.presets, vec![
        ("a.slangp".to_string(), "a.slangp".to_string()),
        ("b.slangp".to_string(), "b.slangp".to_string())
    ]);
    assert_eq!(t.folders.len(), 1);
    assert_eq!(t.folders[0].0, "crt");
    let crt = &t.folders[0].1;
    assert_eq!(crt.presets[0].1, "crt/a.slangp");
    assert_eq!(crt.presets[1].0, "z.slangp");
    assert_eq!(crt.folders[0].0, "royale");
    assert_eq!(crt.folders[0].1.presets.len(), 1);
    let words = |v: &str| search_words(v);
    assert!(t.matches(&words("")));
    assert!(t.matches(&words("ROYALE crt")));
    assert!(crt.matches(&words("crt-royale")));
    assert!(!t.matches(&words("royale mask")));
    let c = |t: &str| t.chars().collect::<Vec<char>>();
    assert!(has_all(&c("crt/royale"), &vec![c("roy"), c("crt/")]));
    assert!(!has_all(&c("crt/royale"), &vec![c("roy"), c("mask")]));
    assert!(Tree::new().matches(&words("")) && !Tree::new().matches(&words("a")));
    assert_eq!(scanned("a.slangp", false, 9), Found::Preset);
    assert_eq!(scanned("a.slangp", true, 0), Found::Folder);
    assert_eq!(scanned("dir", true, 8), Found::Other);
    assert_eq!(scanned("a.slang", false, 0), Found::Other);
    assert_eq!(shader_root_candidates("/h")[0], "/h/.config/retroarch/shaders/shaders_slang");
    assert_eq!(
        default_shader_root("/h", (false, true)),
        "/h/.local/share/libretro/shaders/shaders_slang"
    );
    assert_eq!(
        default_shader_root("", (false, false)),
        "/usr/share/libretro/shaders/shaders_slang"
    );
}

#[test]
fn chains_are_picked() {
    let mut chain = Chain { paths: vec![] };
    for p in ["/a", "/b", "/c", "/b"] {
        chain.toggle(p);
    }
    assert_eq!(chain.paths, vec!["/a", "/c"]);
    chain.toggle("/b");
    chain.raise(2);
    assert_eq!(chain.paths, vec!["/a", "/b", "/c"]);
    assert_eq!(chain.position("/b"), Some(1));
    assert_eq!(chain.position("/x"), None);
    assert_eq!(chain.to_path(), "/a,/b,/c");
}

#[test]
fn passes_of_a_chain_are_numbered() {
    assert_eq!(pass_offsets(&vec![3, 0, 5, 2]), Some(vec![0, 3, 3, 8]));
    assert_eq!(pass_offsets(&vec![]), Some(vec![]));
    assert_eq!(pass_offsets(&vec![i32::MAX, 0]), Some(vec![0, i32::MAX]));
    assert_eq!(pass_offsets(&vec![i32::MAX, 1]), None);
    assert_eq!(pass_offsets(&vec![1, -1]), None);
}

#[test]
fn shaders_declare_parameters() {
    let text = "  #include \"../x/y.inc\" // \"\n#pragma parameter  GAMMA \"Gamma\" 1 0 2 0.1\n#pragma parameter\n#include nothing\n#include \"one\nvoid main\r\n#pragma parameterX 1";
    let said: Vec<Directive> =
        text.lines().map(|l| directive(&l.chars().collect::<Vec<char>>())).collect();
    assert_eq!(said, vec![
        Directive::File("../x/y.inc\" // ".into()),
        Directive::Parameter("GAMMA".into()),
        Directive::Nothing,
        Directive::Nothing,
        Directive::Nothing,
        Directive::Nothing,
        Directive::Parameter("X".into()),
    ]);
    assert_eq!(nested_file("/s/a.slang", "../x.inc", 0).unwrap(), "/s/../x.inc");
    assert_eq!(nested_file("a.slang", "x.inc", 15).unwrap(), "x.inc");
    assert_eq!(nested_file("", "x.inc", 0).unwrap(), "./x.inc");
    assert_eq!(nested_file("/s/a.slang", "x.inc", 16), None);
}

#[test]
fn declarations_are_followed_through_files() {
    let passes = strings(&["/s/a.slang", "/s/b.slang"]);
    let mut files = Entries::new();
    assert_eq!(declared_names(&files, &passes), Err("/s/a.slang".to_string()));
    files.insert(
        "/s/a.slang".into(),
        "#pragma parameter A\n#include \"i/c.inc\"\n#pragma parameter B\n".into(),
    );
    assert_eq!(declared_names(&files, &passes), Err("/s/i/c.inc".to_string()));
    files.insert("/s/i/c.inc".into(), "#pragma parameter C\n#pragma parameter A".into());
    assert_eq!(declared_names(&files, &passes), Err("/s/b.slang".to_string()));
    files.insert("/s/b.slang".into(), String::new());
    assert_eq!(declared_names(&files, &passes), Ok(strings(&["A", "C", "B"])));
    // A file that stands for itself comes to an end.
    files.insert("/s/b.slang".into(), "#pragma parameter D\n#include \"b.slang\"\n".into());
    assert_eq!(declared_names(&files, &passes), Ok(strings(&["A", "C", "B", "D"])));
}

#[test]
fn parameters_are_shown_in_their_order() {
    let p = |n: &str, d: &str| param(n, d, 1.0);
    let meta = vec![p("z", ""), p("B", "old"), p("a", ""), p("C", ""), p("B", "new")];
    let shown = arrange_params(&meta, &strings(&["C", "missing", "B", "C"]));
    let names: Vec<&str> = shown.iter().map(|p| p.name.as_str()).collect();
    assert_eq!(names, vec!["C", "B", "a", "z"]);
    assert_eq!(shown[1].description, "new");
}

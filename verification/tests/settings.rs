use vkslang::config::{
    clamp_subframes, config_path, exe_name, host_path, parse_hdr, resolve_path, sanitize_hdr,
    read_settings, split_items, warnings, Config, HdrOutput, Places,
};
use vkslang::entries::{parse_file, Entries};
use vkslang::ipc::{Counts, Extent, Factors, Filter, HdrSettings, Offset, Rect, SourceSettings, SourceSize};
use vkslang::single::Single;
use vkslang::source::{parse_extent, parse_rect, parse_source_size, Source, SourceRect};

fn s(x: f32) -> Single {
    Single::from_bits(x.to_bits())
}

fn extent(width: u32, height: u32) -> Extent {
    Extent { width, height }
}

#[test]
fn config_extent() {
    assert_eq!(parse_extent("320x240"), Some(Extent { width: 320, height: 240 }));
    assert_eq!(parse_extent(" 640 X 480 "), Some(Extent { width: 640, height: 480 }));
    assert_eq!(parse_extent("0x240"), None);
    assert_eq!(parse_extent("native"), None);
    assert_eq!(parse_source_size("native"), Some(SourceSize::Native));
    assert_eq!(parse_source_size("/2"), Some(SourceSize::Divide { by: s(2.0) }));
    assert_eq!(parse_source_size("1/3"), Some(SourceSize::Divide { by: s(3.0) }));
    assert_eq!(parse_source_size("50%"), Some(SourceSize::Divide { by: s(2.0) }));
    assert_eq!(parse_source_size("320x240"), Some(SourceSize::Fixed { size: extent(320, 240) }));
    assert_eq!(parse_source_size("/0.5"), None);

    let src = Source { res: SourceSize::Divide { by: s(3.0) }, ..Default::default() };
    assert_eq!(
        src.size_for(Extent { width: 3840, height: 2160 }),
        Extent { width: 1280, height: 720 }
    );
}

#[test]
fn config_rect() {
    assert_eq!(parse_rect("full"), Some(SourceRect::Full));
    assert_eq!(parse_rect("4:3"), Some(SourceRect::Aspect(s(4.0 / 3.0))));
    let scaled = Source {
        display: SourceRect::Aspect(s(4.0 / 3.0)),
        display_scale: Factors { x: s(0.5), y: s(0.5) },
        ..Default::default()
    };
    let d = scaled.display_rect(Extent { width: 3840, height: 2160 });
    assert_eq!(d.extent, Extent { width: 1440, height: 1080 });
    assert_eq!((d.offset.x, d.offset.y), (480 + 720, 540));

    let src = Source { rect: SourceRect::Aspect(s(4.0 / 3.0)), ..Default::default() };
    let r = src.picture_rect(Extent { width: 3840, height: 2160 });
    assert_eq!((r.offset.x, r.offset.y, r.extent.width, r.extent.height), (480, 0, 2880, 2160));
    let cfg = Config { source: src, ..Default::default() };
    let r = cfg.source_rect_for(Extent { width: 3840, height: 2160 });
    assert_eq!((r.offset.x, r.offset.y, r.extent.width, r.extent.height), (480, 0, 2880, 2160));
}

#[test]
fn hdr() {
    let kv = parse_file("brightness_nits = 400\nexpand_gamut = 9\n");
    let hdr = parse_hdr(&kv);
    assert_eq!((hdr.brightness_nits, hdr.expand_gamut), (s(400.0), 3));
    let hdr = parse_hdr(&Entries::new());
    assert_eq!((hdr.brightness_nits, hdr.expand_gamut), (s(200.0), 0));
}

#[test]
fn config_file() {
    let kv = parse_file("preset = /a/b.slangp # comment\n# x = y\nparam.GAMMA=2.4\n");
    assert_eq!(kv.value("preset").unwrap(), "/a/b.slangp");
    assert_eq!(kv.value("param.GAMMA").unwrap(), "2.4");
    assert!(!kv.contains_key("x"));
}

#[test]
fn extent_as_written() {
    assert_eq!(parse_extent("320x240"), Some(Extent { width: 320, height: 240 }));
    assert_eq!(parse_extent(" 640 X 480 "), Some(Extent { width: 640, height: 480 }));
    assert_eq!(parse_extent("0x240"), None);
    assert_eq!(parse_extent("native"), None);
}

#[test]
fn file() {
    let kv = parse_file("preset = /a/b.slangp # comment\n# x = y\nparam.GAMMA=2.4\n");
    let get = |key: &str| kv.value(key).map(|v| v.as_str());
    assert_eq!(get("preset"), Some("/a/b.slangp"));
    assert_eq!(get("param.GAMMA"), Some("2.4"));
    assert!(!kv.contains_key("x"));
}

#[test]
fn odd_lines_of_a_file() {
    let kv = parse_file("a=1\r\n  b  =  2 = 3 \n = 4\nc\na = 5#6\n\nd=");
    assert_eq!(kv.value("a").unwrap(), "5");
    assert_eq!(kv.value("b").unwrap(), "2 = 3");
    assert_eq!(kv.value("d").unwrap(), "");
    assert!(!kv.contains_key("c"));
    assert!(!kv.contains_key(""));
}

#[test]
fn hdr_settings_stay_in_range() {
    let clean = |nits: f32, gamut: u32| {
        sanitize_hdr(HdrSettings { brightness_nits: s(nits), expand_gamut: gamut })
    };
    assert_eq!(clean(f32::NAN, 1), HdrSettings { brightness_nits: s(200.0), expand_gamut: 1 });
    assert_eq!(clean(f32::INFINITY, 3).brightness_nits, s(200.0));
    assert_eq!(clean(-5.0, 4), HdrSettings { brightness_nits: s(0.0), expand_gamut: 3 });
    assert_eq!(clean(20000.0, 0).brightness_nits, s(10000.0));
    assert_eq!(clamp_subframes(0), 1);
    assert_eq!(clamp_subframes(5), 5);
    assert_eq!(clamp_subframes(9), 8);
}

#[test]
fn sizes_and_regions_in_every_spelling() {
    assert_eq!(parse_source_size(""), Some(SourceSize::Native));
    assert_eq!(parse_source_size(" Native "), Some(SourceSize::Native));
    assert_eq!(parse_source_size("25 %"), Some(SourceSize::Divide { by: s(4.0) }));
    assert_eq!(parse_source_size("0%"), None);
    assert_eq!(parse_source_size("-5%"), None);
    assert_eq!(parse_source_size("nan%"), None);
    assert_eq!(parse_source_size("/inf"), None);
    assert_eq!(parse_source_size("/"), None);
    assert_eq!(parse_source_size("2"), None);
    assert_eq!(parse_rect(""), Some(SourceRect::Full));
    assert_eq!(parse_rect("FULL"), Some(SourceRect::Full));
    assert_eq!(parse_rect("1.5"), Some(SourceRect::Aspect(s(1.5))));
    assert_eq!(
        parse_rect("480, 0 , 2880x2160"),
        Some(SourceRect::Explicit(Rect { offset: Offset { x: 480, y: 0 }, extent: extent(2880, 2160) }))
    );
    assert_eq!(
        parse_rect("-5,+3,1x1"),
        Some(SourceRect::Explicit(Rect { offset: Offset { x: -5, y: 3 }, extent: extent(1, 1) }))
    );
    for bad in ["0:3", "4:0", "-1", "nan", "1,2", "1,2,3", "1,2,0x3", "a,2,3x4", "4:3:2"] {
        assert_eq!(parse_rect(bad), None, "{bad}");
    }
}

#[test]
fn regions_match_the_floating_point_formula() {
    for (w, h) in [(3840u32, 2160u32), (1920, 1080), (1366, 768), (1, 1), (7, 1000), (4194304, 3), (4194304, 4194304)] {
        for ratio in [4.0f32 / 3.0, 16.0 / 9.0, 1.0, 5.0 / 4.0, 0.1, 100.0, 2.39] {
            let (fw, fh) = (w as f32, h as f32);
            let (rw, rh) = if fw / fh > ratio { (fh * ratio, fh) } else { (fw, fw / ratio) };
            let (rw, rh) = (rw.round().max(1.0) as u32, rh.round().max(1.0) as u32);
            let src = Source { rect: SourceRect::Aspect(s(ratio)), ..Default::default() };
            let r = src.picture_rect(extent(w, h));
            assert_eq!(r.extent, extent(rw, rh));
            assert_eq!(r.offset.x as u32, (w - rw) / 2);
            assert_eq!(r.offset.y as u32, (h - rh) / 2);
        }
    }
    let r = Rect { offset: Offset { x: -10, y: 5000 }, extent: extent(9999, 50) };
    let src = Source { rect: SourceRect::Explicit(r), ..Default::default() };
    let got = src.picture_rect(extent(1920, 1080));
    assert_eq!(got, Rect { offset: Offset { x: 0, y: 1079 }, extent: extent(1920, 1) });
}

#[test]
fn a_grown_area_stays_on_the_screen() {
    let scale = |x: f32, y: f32| Factors { x: s(x), y: s(y) };
    let screen = extent(3840, 2160);
    let grown = Source {
        display: SourceRect::Aspect(s(4.0 / 3.0)),
        display_scale: scale(1.2, 1.2),
        ..Default::default()
    };
    // It widens, and loses its top and bottom.
    let d = grown.display_rect(screen);
    assert_eq!(d, Rect { offset: Offset { x: 192, y: 0 }, extent: extent(3456, 2160) });
    let p = grown.shown_rect(screen);
    assert_eq!(p, Rect { offset: Offset { x: 0, y: 180 }, extent: extent(3840, 1800) });
    // However large, it never loses its sides.
    let large = Source { display_scale: scale(2.0, 2.0), ..grown };
    assert_eq!(large.display_rect(screen), Rect { offset: Offset { x: 0, y: 0 }, extent: screen });
    assert_eq!(
        large.shown_rect(screen),
        Rect { offset: Offset { x: 0, y: 540 }, extent: extent(3840, 1080) }
    );
    let grown = large;
    // One axis alone.
    let wide = Source { display_scale: scale(1.2, 1.0), ..grown };
    assert_eq!(wide.display_rect(screen).extent, extent(3456, 2160));
    assert_eq!(wide.shown_rect(screen), Rect { offset: Offset { x: 0, y: 0 }, extent: screen });
    // As good as one is one.
    let same = Source { display_scale: scale(1.0005, 0.9995), ..wide };
    assert_eq!(same.display_rect(screen).extent, extent(2880, 2160));
}

#[test]
fn settings_are_checked() {
    let ok = SourceSettings { rect: " 4:3 ".into(), ..Default::default() };
    let src = Source::from_ipc(&ok).unwrap();
    assert_eq!(src.rect_spec, "4:3");
    assert_eq!(src.to_ipc().rect, "4:3");
    assert_eq!(src.rect, SourceRect::Aspect(s(4.0 / 3.0)));
    let fails = |x: SourceSettings| Source::from_ipc(&x).unwrap_err();
    let d = SourceSettings::default;
    assert_eq!(fails(SourceSettings { rect: "x".into(), ..d() }), "invalid source rect 'x'");
    assert_eq!(fails(SourceSettings { display: "y".into(), ..d() }), "invalid display area 'y'");
    assert_eq!(
        fails(SourceSettings { res: SourceSize::Fixed { size: extent(0, 5) }, ..d() }),
        "source resolution must be non-zero"
    );
    assert_eq!(
        fails(SourceSettings { res: SourceSize::Divide { by: s(0.5) }, ..d() }),
        "the divisor must be at least 1"
    );
    for bad in [f32::NAN, 0.05, 4.5] {
        let display_scale = Factors { x: s(1.0), y: s(bad) };
        assert_eq!(
            fails(SourceSettings { display_scale, ..d() }),
            "the display scale must be between 0.1 and 4"
        );
    }
    assert!(Source::from_ipc(&SourceSettings {
        display_scale: Factors { x: s(0.1), y: s(4.0) },
        ..d()
    })
    .is_ok());
}

fn vars(v: &[(&str, &str)]) -> Vec<(String, String)> {
    v.iter().map(|(a, b)| (a.to_string(), b.to_string())).collect()
}

#[test]
fn the_environment_wins_over_the_file() {
    let file = "source_res = 320x240\nsource_filter = linear\nprocess = a, b,,c\nparam.X = 1.5\nparam.Y = no\nipc = 0\nhdr_output = force\nsubframes = 20\nsubframe_mode = BFI\ndisplay_scale = 1.2, 9\npixel_duplicate = 2,3\nsource_scale=0.5\npreset = /a.slangp, /b.slangp\nsource_rect = bad\ndisplay_rect = 5:4\n";
    let env = vars(&[
        ("VKSLANG_SOURCE_RES", "/2"),
        ("VKSLANG_CONFIG", "/ignored"),
        ("VKSLANG_LOG", "debug"),
        ("HOME", "/home/u"),
        ("VKSLANG_BRIGHTNESS_NITS", "300"),
    ]);
    let c = Config::load(Some(file), &env, &Config::default());
    assert_eq!(c.source.res, SourceSize::Divide { by: s(2.0) });
    assert_eq!(c.source.filter, Filter::Linear);
    assert_eq!(c.process, vec!["a", "b", "c"]);
    assert_eq!(c.params.items, vec![("X".to_string(), s(1.5))]);
    assert!(!c.ipc);
    assert_eq!(c.hdr_output, HdrOutput::Force);
    assert_eq!(c.subframes, 8);
    assert!(c.subframe_black);
    assert_eq!(c.source.display_scale, Factors { x: s(1.2), y: s(4.0) });
    assert_eq!(c.source.duplicate, Counts { x: 2, y: 3 });
    assert_eq!(c.source.source_scale, Factors { x: s(0.5), y: s(0.5) });
    assert_eq!(c.presets, vec!["/a.slangp", "/b.slangp"]);
    assert_eq!(c.source.rect_spec, "full");
    assert_eq!(c.source.display_spec, "5:4");
    assert_eq!(c.hdr.brightness_nits, s(300.0));
    assert_eq!(
        warnings(&read_settings(Some(file), &env)),
        vec!["invalid source_rect 'bad', using full"]
    );
    assert_eq!(warnings(&parse_file("source_res = 2\ndisplay_rect = ?")), vec![
        "invalid source_res '2', expected WxH, /N or native",
        "invalid display_rect '?', using full"
    ]);
    assert!(c.active_for_process("b"));
    assert!(!c.active_for_process("d"));

    let d = Config::load(None, &vars(&[]), &Config::default());
    assert!(d.presets.is_empty() && d.ipc && d.active_for_process("anything"));
    assert_eq!(d.hdr_output, HdrOutput::Auto);
    assert_eq!(d.subframes, 1);
    let off = Config::load(Some("hdr_output = OFF\nipc = False"), &vars(&[]), &Config::default());
    assert_eq!(off.hdr_output, HdrOutput::Off);
    assert!(!off.ipc);
}

#[test]
fn files_have_their_places() {
    let p = |config: Option<&str>, config_home: Option<&str>, home: Option<&str>| Places {
        config: config.map(String::from),
        config_home: config_home.map(String::from),
        home: home.map(String::from),
    };
    assert_eq!(config_path(&p(Some("/c"), Some("/x"), None)).unwrap(), "/c");
    assert_eq!(config_path(&p(None, Some("/x"), Some("/h"))).unwrap(), "/x/vkSlang/vkSlang.conf");
    assert_eq!(config_path(&p(None, None, Some("/h"))).unwrap(), "/h/.config/vkSlang/vkSlang.conf");
    assert_eq!(config_path(&p(None, None, None)), None);
    assert_eq!(host_path("/usr/share/x").unwrap(), "/run/host/usr/share/x");
    assert_eq!(host_path("a/b"), None);
    assert_eq!(resolve_path("/usr/x", true, true), "/usr/x");
    assert_eq!(resolve_path("/usr/x", false, true), "/run/host/usr/x");
    assert_eq!(resolve_path("/usr/x", false, false), "/usr/x");
    assert_eq!(exe_name(Some("/usr/bin/gamescope")), "gamescope");
    assert_eq!(exe_name(Some("/")), "");
    assert_eq!(exe_name(None), "");
    assert_eq!(split_items(" a , ,b"), vec!["a", "b"]);
}

use vkslang::capture::{capture_name, encode_capture, load_capture};
use vkslang::ipc::{
    color_space_mismatch, color_space_warning, gamut_name, Extent, Filter, HdrSettings, Param,
    SourceSettings, SourceSize, State,
};
use vkslang::ipc::ColorSpace;
use vkslang::single::Single;
use vkslang::socket::{
    list_sockets, pid_of, socket_dir, socket_dirs, socket_path, version_mismatch, Surroundings,
};

fn s(x: f32) -> Single {
    Single::from_bits(x.to_bits())
}

#[test]
fn headers() {
    let p = |initial: f32, min: f32, max: f32, step: f32| Param {
        name: "p".into(),
        description: "d".into(),
        initial: s(initial),
        minimum: s(min),
        maximum: s(max),
        step: s(step),
        value: s(initial),
    };
    assert!(p(0.0, 0.0, 0.0, 0.0).is_header());
    // Sony Megatron section title
    assert!(p(0.0, 0.0, 0.0001, 0.0001).is_header());
    // On/off toggle and ordinary sliders stay adjustable
    assert!(!p(1.0, 0.0, 1.0, 1.0).is_header());
    assert!(!p(2.2, 1.0, 3.0, 0.05).is_header());
}

#[test]
fn mismatch() {
    let (sdr, hdr10, sc_rgb) = (ColorSpace::Sdr, ColorSpace::Hdr10, ColorSpace::ScRgb);
    assert!(color_space_mismatch(sdr, sdr).is_none());
    assert!(color_space_mismatch(hdr10, sdr).is_some());
    assert!(color_space_mismatch(sdr, hdr10).is_some());
    // HDR10 vs scRGB is fine, only the input caveat remains.
    assert_eq!(color_space_mismatch(sc_rgb, hdr10), color_space_mismatch(hdr10, hdr10));
}

#[test]
fn promoted_outputs_want_hdr_presets() {
    assert!(color_space_warning(ColorSpace::Hdr10, ColorSpace::Hdr10, true).is_none());
    assert!(color_space_warning(ColorSpace::Sdr, ColorSpace::Hdr10, true)
        .unwrap()
        .contains("hdr_output = off"));
    assert_eq!(ColorSpace::PqScRgb.label(), "PQ scRGB");
    assert_eq!(ColorSpace::ScRgb.label(), "scRGB");
    assert_eq!(ColorSpace::Hdr10.label(), "HDR10");
    assert_eq!(ColorSpace::default().label(), "SDR");
    assert!(ColorSpace::ScRgb.is_hdr() && !ColorSpace::Sdr.is_hdr());
}

#[test]
fn edits_below_the_tolerance_do_not_count() {
    let mut p = Param {
        name: "GAMMA".into(),
        description: String::new(),
        initial: s(2.2),
        minimum: s(1.0),
        maximum: s(3.0),
        step: s(0.1),
        value: s(2.2),
    };
    assert_eq!(p.epsilon().bits, (0.1f32 * 1e-3).to_bits());
    assert!(!p.is_modified());
    p.value = s(2.20005);
    assert!(!p.is_modified());
    p.value = s(2.3);
    assert!(p.is_modified());
    p.step = s(0.0);
    assert_eq!(p.epsilon().bits, (1e-6f32 * 1e-3).to_bits());
}

#[test]
fn sizes_as_written() {
    assert_eq!(SourceSize::Native.to_config(), "native");
    assert_eq!(SourceSize::Divide { by: s(2.5) }.to_config(), "/2.5");
    assert_eq!(
        SourceSize::Fixed { size: Extent { width: 320, height: 240 } }.to_config(),
        "320x240"
    );
}

#[test]
fn defaults() {
    let d = State::default();
    assert_eq!(d.source, SourceSettings::default());
    assert_eq!(d.source.rect, "full");
    assert_eq!(d.source.filter, Filter::Nearest);
    assert_eq!(HdrSettings::default().brightness_nits, s(200.0));
    assert_eq!(HdrSettings::default().expand_gamut, 0);
    assert_eq!(gamut_name(3), Some("Super"));
    assert_eq!(gamut_name(0), Some("Accurate"));
    assert_eq!(gamut_name(4), None);
}

fn around() -> Surroundings {
    Surroundings {
        socket_dir: None,
        in_container: false,
        home: Some("/home/u".into()),
        runtime_dir: Some("/run/user/1000".into()),
        temp_dir: "/tmp".into(),
        uid: 1000,
    }
}

#[test]
fn sockets_have_a_place() {
    assert_eq!(socket_dir(&around()), "/run/user/1000/vkslang");
    assert_eq!(socket_path(&around(), 42), "/run/user/1000/vkslang/42.sock");
    assert_eq!(
        socket_dirs(&around()),
        vec!["/run/user/1000/vkslang".to_string(), "/home/u/.local/state/vkslang".to_string()]
    );
    let container = Surroundings { in_container: true, ..around() };
    assert_eq!(socket_dir(&container), "/home/u/.local/state/vkslang");
    let chosen = Surroundings { socket_dir: Some("/x".into()), in_container: true, ..around() };
    assert_eq!(socket_dir(&chosen), "/x");
    assert_eq!(socket_dirs(&chosen).len(), 3);
    let bare = Surroundings { runtime_dir: None, home: None, ..around() };
    assert_eq!(socket_dir(&bare), "/tmp/vkslang-1000");
    assert_eq!(socket_dirs(&bare), vec!["/tmp/vkslang-1000".to_string()]);
    // The same directory in another spelling is not searched twice.
    let twice = Surroundings { socket_dir: Some("/run/user//1000/vkslang/".into()), ..around() };
    assert_eq!(socket_dirs(&twice).len(), 2);
}

#[test]
fn sockets_are_listed_by_process() {
    let dirs = vec!["/a".to_string(), "/b".to_string()];
    let names = vec![
        vec!["30.sock".to_string(), "x.sock".into(), "7.txt".into(), "4.sock".into()],
        vec!["30.sock".to_string(), "5.sock".into()],
    ];
    assert_eq!(
        list_sockets(&dirs, &names),
        vec![(4, "/a/4.sock".to_string()), (5, "/b/5.sock".into()), (30, "/a/30.sock".into())]
    );
    let pid = |t: &str| pid_of(&t.chars().collect::<Vec<char>>());
    assert_eq!(pid("42.sock"), Some(42));
    assert_eq!(pid("sock"), None);
    assert_eq!(pid(".sock"), None);
    assert_eq!(pid("4294967296.sock"), None);
}

#[test]
fn other_versions_are_named() {
    assert_eq!(
        version_mismatch(Some(8)).unwrap(),
        "layer speaks protocol v8, this build expects v9 (restart the application with the updated layer)"
    );
    assert_eq!(version_mismatch(Some(9)), None);
    assert_eq!(version_mismatch(None), None);
}

#[test]
fn captures_round_trip() {
    let size = Extent { width: 2, height: 3 };
    let pixels: Vec<u8> = (0..24).collect();
    let file = encode_capture(size, &pixels);
    assert_eq!(&file[..12], b"VKSC\x02\0\0\0\x03\0\0\0");
    let back = load_capture(&file).unwrap();
    assert_eq!(back.size, size);
    assert_eq!(back.pixels, pixels);
    assert!(load_capture(&file[..35]).is_none());
    assert!(load_capture(&file[..11]).is_none());
    assert!(load_capture(b"VKSX\x02\0\0\0\x03\0\0\0").is_none());
    assert!(load_capture(b"VKSC\xff\xff\xff\xff\xff\xff\xff\xff").is_none());
    let mut longer = file.clone();
    longer.push(9);
    assert_eq!(load_capture(&longer).unwrap().pixels, pixels);
    let big = Extent { width: 0x0102_0304, height: 0 };
    assert_eq!(load_capture(&encode_capture(big, &[])).unwrap().size, big);
    assert_eq!(capture_name(12), "12-capture.bin");
}

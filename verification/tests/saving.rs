use vkslang::config::{Config, Places};
use vkslang::entries::parse_file;
use vkslang::ipc::{
    Counts, Extent, Factors, Filter, Param, Request, Response, SourceSettings, SourceSize, State,
};
use vkslang::control::Control;
use vkslang::profile::{clean_name, dir, file_name, is_profile_file, list, list_by, path_in, Profile};
use vkslang::save::{
    assignments_in, config_path, default_preset_path, default_profile_for, find_key,
    keep_lines_without, profile_key, set_default_profile, slangp_text, starting_profile,
    update_config_text,
};
use vkslang::single::Single;

fn s(x: f32) -> Single {
    Single::from_bits(x.to_bits())
}

fn ones() -> Factors {
    Factors { x: s(1.0), y: s(1.0) }
}

fn state() -> State {
    let p = |name: &str, initial: f32, value: f32, min: f32, max: f32| Param {
        name: name.into(),
        description: name.into(),
        initial: s(initial),
        minimum: s(min),
        maximum: s(max),
        step: s(0.1),
        value: s(value),
    };
    State {
        presets: vec!["/s/crt.slangp".into()],
        source: SourceSettings {
            res: SourceSize::Fixed { size: Extent { width: 320, height: 240 } },
            duplicate: Counts { x: 1, y: 1 },
            filter: Filter::Nearest,
            rect: "4:3".into(),
            display: "full".into(),
            display_scale: ones(),
            source_scale: ones(),
        },
        params: vec![
            p("HEADER", 0.0, 0.0, 0.0, 0.0),
            p("GAMMA", 2.2, 2.4, 1.0, 3.0),
            p("MASK", 1.0, 1.0, 0.0, 3.0),
        ],
        ..Default::default()
    }
}

#[test]
fn slangp_only_changed() {
    assert_eq!(slangp_text(&state()).unwrap(), "#reference \"/s/crt.slangp\"\nGAMMA = \"2.4\"\n");
}

#[test]
fn only_a_single_preset_becomes_a_slangp() {
    let none = State { presets: vec![], ..state() };
    assert_eq!(slangp_text(&none), None);
    let two = State { presets: vec!["/a".into(), "/b".into()], ..state() };
    assert_eq!(slangp_text(&two), None);
}

#[test]
fn default_profile_line_is_rewritten() {
    let old = "# mine\nprofile.soh.exe = Old\nprocess = gamescope\n";
    let kept: Vec<String> = keep_lines_without(old, &profile_key("soh.exe"))
        .into_iter()
        .map(|line| line.into_iter().collect())
        .collect();
    assert_eq!(kept, vec!["# mine", "process = gamescope"]);
    assert_eq!(profile_key("soh.exe"), "profile.soh.exe");
}

#[test]
fn default_profiles_are_set_and_found() {
    let old = "# mine\nProfile.SOH.exe = Old # note\nprocess = gamescope\n";
    assert_eq!(default_profile_for(old, "soh.exe").unwrap(), "Old");
    assert_eq!(default_profile_for(old, "other"), None);
    let new = set_default_profile(old, " soh.exe ", Some("Amiga 4:3"));
    assert_eq!(new, "# mine\nprocess = gamescope\nprofile.soh.exe = Amiga 4:3\n");
    assert_eq!(default_profile_for(&new, "soh.exe").unwrap(), "Amiga 4:3");
    let cleared = set_default_profile(&new, "soh.exe", None);
    assert_eq!(cleared, "# mine\nprocess = gamescope\n");
    assert_eq!(default_profile_for(&cleared, "soh.exe"), None);
    assert_eq!(set_default_profile("", "x", None), "\n");
    let file = "profile = any\nprofile.game = own\n";
    assert_eq!(starting_profile(file, "game").unwrap(), "own");
    assert_eq!(starting_profile(file, "other").unwrap(), "any");
    assert_eq!(starting_profile("", "game"), None);
    assert_eq!(assignments_in("a=1\n#\nb = 2"), vec![
        ("a".to_string(), "1".to_string()),
        ("b".to_string(), "2".to_string())
    ]);
    assert_eq!(find_key(&vec![vec!['x'], vec!['y'], vec!['y']], &['y']), 1);
    assert_eq!(find_key(&vec![vec!['x']], &['y']), 1);
    // Letters outside ASCII are found in either case, but only replaced in
    // their own.
    assert_eq!(default_profile_for("profile.\u{c9} = a\n", "\u{e9}").unwrap(), "a");
    let both = set_default_profile("profile.\u{c9} = a\n", "\u{e9}", Some("b"));
    assert_eq!(both, "profile.\u{c9} = a\nprofile.\u{e9} = b\n");
}

#[test]
fn default_profiles_of_other_processes_stay() {
    let old = "Profile.Game.EXE = Own\nprofile.soh.exe = Old\nPROFILE.SOH.EXE = Older\n";
    let new = set_default_profile(old, "Soh.exe", Some("Amiga"));
    assert_eq!(new, "Profile.Game.EXE = Own\nprofile.Soh.exe = Amiga\n");
    for p in ["soh.exe", "SOH.EXE", " sOh.Exe "] {
        assert_eq!(default_profile_for(&new, p).unwrap(), "Amiga");
    }
    for p in ["game.exe", "GAME.EXE"] {
        assert_eq!(default_profile_for(old, p).unwrap(), "Own");
        assert_eq!(default_profile_for(&new, p).unwrap(), "Own");
    }
    let cleared = set_default_profile(&new, "SOH.exe", None);
    assert_eq!(default_profile_for(&cleared, "soh.exe"), None);
    assert_eq!(default_profile_for(&cleared, "game.exe").unwrap(), "Own");
}

#[test]
fn saved_lists_keep_their_text() {
    let mut st = state();
    st.presets = vec!["/a,b.slangp".into(), "".into(), "/c.slangp".into()];
    st.params[1].name = "".into();
    st.subframes = 0;
    let file = parse_file(&update_config_text("param.MASK = 2\n", &st));
    assert_eq!(file.value("preset").unwrap(), "/a,b.slangp, , /c.slangp");
    assert_eq!(file.value("source_res").unwrap(), "320x240");
    assert_eq!(file.value("subframes").unwrap(), "1");
    assert_eq!(file.value("subframe_mode").unwrap(), "shader");
    assert_eq!(file.value("param.").unwrap(), "2.4");
    assert!(file.value("param.MASK").is_none() && file.value("param.HEADER").is_none());
    // The blank behind the last comma goes.
    st.presets = vec!["/a".into(), "".into()];
    assert_eq!(parse_file(&update_config_text("", &st)).value("preset").unwrap(), "/a,");
}

#[test]
fn a_later_save_leaves_nothing_of_an_earlier_one() {
    let mut first = state();
    first.presets = vec!["/a = b # c".into()];
    first.source.rect = " = # x".into();
    first.params[1].name = " process = 1 #".into();
    first.params[2].value = s(2.0);
    let mut second = state();
    second.presets = vec![];
    second.params[1].value = s(2.2);
    let old = "process = gamescope\nparam.OLD = 3\n# note\n";
    let once = update_config_text(old, &first);
    let twice = parse_file(&update_config_text(&once, &second));
    let alone = parse_file(&update_config_text(old, &second));
    for key in [
        "process", "preset", "source_res", "source_filter", "pixel_duplicate", "source_rect",
        "display_rect", "display_scale", "source_scale", "brightness_nits", "expand_gamut",
        "subframes", "subframe_mode", "param.GAMMA", "param.MASK", "param.OLD", "param. process",
    ] {
        assert_eq!(twice.value(key), alone.value(key), "{}", key);
    }
    assert_eq!(alone.value("process").unwrap(), "gamescope");
    assert_eq!(parse_file(&once).value("param.MASK").unwrap(), "2");
    assert!(alone.value("param.MASK").is_none() && alone.value("preset").is_none());
    let again = parse_file(&update_config_text(&once, &first));
    assert_eq!(again.value("preset"), parse_file(&once).value("preset"));
    assert_eq!(again.value("source_rect"), parse_file(&once).value("source_rect"));
}

#[test]
fn config_keeps_user_lines() {
    let old = "# my conf\nprocess = gamescope\npreset = /old.slangp\nparam.X = 1\n";
    let new = update_config_text(old, &state());
    assert!(new.contains("process = gamescope"));
    assert!(new.contains("# my conf"));
    assert!(!new.contains("/old.slangp"));
    assert!(!new.contains("param.X"));
    assert!(new.contains("preset = /s/crt.slangp"));
    assert!(new.contains("source_res = 320x240"));
    assert!(new.contains("source_rect = 4:3"));
    assert!(new.contains("brightness_nits = 200"));
    assert!(new.contains("expand_gamut = 0"));
    assert!(new.contains("subframes = 1"));
    assert!(new.contains("param.GAMMA = 2.4"));
    assert!(!new.contains("param.MASK"));
}

#[test]
fn saved_settings_in_full() {
    let new = update_config_text("a = 1\n\n \n", &state());
    assert_eq!(
        new,
        "a = 1\n\n# --- written by vkslang-ui ---\npreset = /s/crt.slangp\nsource_res = 320x240\n\
         pixel_duplicate = 1\nsource_filter = nearest\nsource_rect = 4:3\ndisplay_rect = full\n\
         display_scale = 1\nsource_scale = 1\nbrightness_nits = 200\nexpand_gamut = 0\n\
         subframes = 1\nsubframe_mode = shader\nparam.GAMMA = 2.4\n"
    );
    let empty = update_config_text("", &State { presets: vec![], ..state() });
    assert!(empty.starts_with("# --- written by vkslang-ui ---\nsource_res = 320x240\n"));
}

#[test]
fn what_is_saved_is_loaded_again() {
    let mut st = state();
    st.presets = vec!["/a b.slangp".into(), "/c.slangp".into()];
    st.source.duplicate = Counts { x: 2, y: 3 };
    st.source.filter = Filter::Linear;
    st.source.display = "5:4".into();
    st.source.display_scale = Factors { x: s(1.2), y: s(0.7) };
    st.source.source_scale = Factors { x: s(0.33333334), y: s(0.5) };
    st.source.res = SourceSize::Divide { by: s(2.7182817) };
    st.hdr.brightness_nits = s(203.7);
    st.hdr.expand_gamut = 2;
    st.subframes = 3;
    st.subframe_black = true;
    let text = update_config_text("process = gamescope\nhdr_output = off\nsubframes = 7\n", &st);
    let c = Config::load(Some(&text), &Vec::new(), &Config::default());
    assert_eq!(c.presets, st.presets);
    assert_eq!(c.source.to_ipc(), st.source);
    assert_eq!(c.hdr, st.hdr);
    assert_eq!(c.subframes, 3);
    assert!(c.subframe_black);
    assert_eq!(c.params.items, vec![("GAMMA".to_string(), s(2.4))]);
    assert_eq!(c.process, vec!["gamescope"]);
    // Saving again changes no setting.
    let again = update_config_text(&text, &st);
    assert_eq!(
        parse_file(&again).value("source_scale").unwrap(),
        parse_file(&text).value("source_scale").unwrap()
    );
    // Factors that are close are written once.
    st.source.display_scale = Factors { x: s(1.0), y: s(1.0005) };
    assert!(update_config_text("", &st).contains("display_scale = 1\n"));
}

fn places() -> Places {
    Places { config: None, config_home: None, home: Some("/h".into()) }
}

#[test]
fn presets_are_saved_beside_the_configuration() {
    let p = places();
    assert_eq!(config_path(&p), "/h/.config/vkSlang/vkSlang.conf");
    assert_eq!(
        default_preset_path(&p, Some("/s/crt.royale.slangp")),
        "/h/.config/vkSlang/presets/crt.royale-custom.slangp"
    );
    assert_eq!(default_preset_path(&p, None), "/h/.config/vkSlang/presets/preset-custom.slangp");
    let none = Places { config: None, config_home: None, home: None };
    assert_eq!(config_path(&none), "/.config/vkSlang/vkSlang.conf");
    let own = Places { config: Some("/etc/v.conf".into()), config_home: None, home: None };
    assert_eq!(default_preset_path(&own, Some("a")), "/etc/presets/a-custom.slangp");
}

#[test]
fn names_become_safe_file_names() {
    assert_eq!(file_name("Ma config 4:3"), "Ma config 4_3.json");
    // Slashes are the only real danger: the result is one file name.
    assert_eq!(file_name("  ../escape  "), ".._escape.json");
    assert!(!file_name("a/b/c").contains('/'));
}

#[test]
fn letters_of_any_script_are_kept() {
    assert_eq!(file_name("\u{c9}t\u{e9} \u{30b2}1"), "\u{c9}t\u{e9} \u{30b2}1.json");
    assert_eq!(file_name("a\u{2028}b"), "a_b.json");
    assert_eq!(file_name(""), ".json");
    assert_eq!(clean_name(&['a', '/', '.'], &vec![true, false, false]), "a_..json");
    assert_eq!(clean_name(&['a'], &vec![false]), "_.json");
}

fn sample_state() -> State {
    let param = |name: &str, initial: f32, value: f32| Param {
        name: name.into(),
        description: name.into(),
        initial: s(initial),
        minimum: s(0.0),
        maximum: s(10.0),
        step: s(0.1),
        value: s(value),
    };
    State {
        presets: vec!["/a.slangp".into(), "/b.slangp".into()],
        subframes: 3,
        params: vec![param("KEPT", 1.0, 2.0), param("SAME", 1.0, 1.0)],
        ..Default::default()
    }
}

#[test]
fn a_profile_keeps_only_changed_parameters() {
    let profile = Profile::from_state("  test  ", &sample_state());
    assert_eq!(profile.name, "test");
    assert_eq!(profile.presets.len(), 2);
    assert_eq!(profile.params.items.len(), 1);
    assert_eq!(profile.params.get(&"KEPT".chars().collect::<Vec<char>>()), Some(s(2.0)));
}

#[test]
fn a_profile_is_where_a_process_starts_from() {
    let profile = Profile::from_state("p", &sample_state());
    assert_eq!(profile.copy(), profile);
    assert_eq!(profile.subframes, 3);
    let base = profile.to_config();
    let c = Config::load(Some("subframes = 2\n"), &Vec::new(), &base);
    assert_eq!(c.presets, vec!["/a.slangp", "/b.slangp"]);
    assert_eq!(c.subframes, 2);
    assert_eq!(c.params.items, vec![("KEPT".to_string(), s(2.0))]);
    let mut broken = Profile::from_state("q", &sample_state());
    broken.source.rect = "?".into();
    assert_eq!(broken.to_config().source.rect_spec, "full");
}

#[test]
fn a_profile_is_put_back() {
    let mut st = sample_state();
    st.source.rect = "4:3".into();
    st.hdr.expand_gamut = 2;
    st.subframe_black = true;
    let profile = Profile::from_state("p", &st);
    let mut c = Control::new(&Config::default());
    for request in profile.requests() {
        assert!(matches!(
            c.handle(request, &vec![false, true, true], 1, "g"),
            Response::State(_)
        ));
    }
    assert!(c.loading);
    assert_eq!(c.presets, vec!["/a.slangp", "/b.slangp"]);
    assert_eq!(c.source.rect_spec, "4:3");
    assert_eq!((c.hdr.expand_gamut, c.subframes, c.subframe_black), (2, 3, true));
    for request in profile.param_requests() {
        assert_eq!(request, Request::SetParam { name: "KEPT".into(), value: s(2.0) });
        c.handle(request, &vec![], 1, "g");
    }
    assert_eq!(c.param_value("KEPT", s(0.0)), s(2.0));
    let none = Profile { presets: vec![], ..Profile::from_state("q", &st) };
    assert_eq!(none.requests().len(), 3);
}

#[test]
fn profiles_are_listed_by_name() {
    let named = |n: &str| Profile::from_state(n, &sample_state());
    let all = list(&vec![named("b"), named("C"), named("a"), named("B")]);
    let names: Vec<&str> = all.iter().map(|p| p.name.as_str()).collect();
    assert_eq!(names, vec!["a", "b", "B", "C"]);
    let some = vec![named("x"), named("y")];
    let by = list_by(&some, &vec![vec!['2'], vec!['1']]);
    assert_eq!(by[0].name, "y");
    assert_eq!(path_in("/d", &named("x/y")).unwrap(), "/d/x_y.json");
    assert_eq!(path_in("/d", &named("  ")).unwrap_err(), "a profile needs a name");
    assert_eq!(dir(&places()), "/h/.config/vkSlang/profiles");
    let none = Places { config: None, config_home: None, home: None };
    assert_eq!(dir(&none), "./vkSlang/profiles");
    assert!(is_profile_file("a.json") && !is_profile_file("json") && !is_profile_file(".json"));
}

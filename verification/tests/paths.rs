use jofi::history::History;
use jofi::paths::{
    applications_dirs, default_telemetry_path, font_paths, jofi_history_path, join_path,
    resolve_font_path, split_paths, state_home, telemetry_path, tofi_history_path, Environment,
    FontError,
};

fn empty() -> Environment {
    Environment {
        home: None,
        xdg_state_home: None,
        xdg_data_home: None,
        xdg_data_dirs: None,
        jofi_font: None,
    }
}

fn with_home() -> Environment {
    Environment { home: Some(b"/home/me".to_vec()), ..empty() }
}

fn text(path: Vec<u8>) -> String {
    String::from_utf8(path).unwrap()
}

fn texts(paths: Vec<Vec<u8>>) -> Vec<String> {
    paths.into_iter().map(text).collect()
}

#[test]
fn joins_like_the_operating_system() {
    for (base, part) in [
        ("/a", "b"),
        ("/a/", "b"),
        ("", "b"),
        ("a", "/b"),
        ("/", "b/c"),
        ("a", ""),
        ("", ""),
        ("a/", "/"),
    ] {
        let expected = std::path::Path::new(base).join(part);
        assert_eq!(text(join_path(base.as_bytes(), part)), expected.to_str().unwrap());
    }
}

#[test]
fn splits_at_colons() {
    assert_eq!(texts(split_paths(b"/a:/b")), vec!["/a", "/b"]);
    assert_eq!(texts(split_paths(b"")), vec![""]);
    assert_eq!(texts(split_paths(b":x:")), vec!["", "x", ""]);
}

#[test]
fn state_files() {
    let xdg = Environment { xdg_state_home: Some(b"/state".to_vec()), ..with_home() };
    assert_eq!(text(state_home(&xdg)), "/state");
    assert_eq!(text(state_home(&with_home())), "/home/me/.local/state");
    assert_eq!(text(state_home(&empty())), ".jofi-state");
    assert_eq!(text(default_telemetry_path(&xdg)), "/state/jofi/telemetry.jsonl");
    assert_eq!(text(default_telemetry_path(&empty())), ".jofi-state/jofi/telemetry.jsonl");
    assert_eq!(text(jofi_history_path(&with_home())), "/home/me/.local/state/jofi/history");
    assert_eq!(text(tofi_history_path(&xdg)), "/state/tofi-drun-history");
    assert_eq!(text(tofi_history_path(&with_home())), "/home/me/.local/state/tofi-drun-history");
    assert_eq!(text(tofi_history_path(&empty())), ".local/state/tofi-drun-history");
}

#[test]
fn history_is_saved_to_its_own_file() {
    let mut history = History::default();
    history.increment("Firefox");
    let file = history.save(&with_home());
    assert_eq!(text(file.path), "/home/me/.local/state/jofi/history");
    assert_eq!(file.text, "1 Firefox\n");
}

#[test]
fn telemetry_log() {
    let given = Some(b"/tmp/x".to_vec());
    assert_eq!(telemetry_path(&empty(), true, given.clone()), None);
    assert_eq!(telemetry_path(&empty(), false, given.clone()), given);
    assert_eq!(
        telemetry_path(&with_home(), false, None).map(text),
        Some("/home/me/.local/state/jofi/telemetry.jsonl".to_string())
    );
}

#[test]
fn applications() {
    assert_eq!(
        texts(applications_dirs(&empty())),
        vec!["/usr/local/share/applications", "/usr/share/applications"]
    );
    assert_eq!(
        texts(applications_dirs(&with_home()))[0],
        "/home/me/.local/share/applications"
    );
    let all = Environment {
        xdg_data_home: Some(b"/data".to_vec()),
        xdg_data_dirs: Some(b"/x:/y/".to_vec()),
        ..with_home()
    };
    assert_eq!(
        texts(applications_dirs(&all)),
        vec!["/data/applications", "/x/applications", "/y/applications"]
    );
}

#[test]
fn fonts() {
    let known = font_paths(&None, &empty());
    assert_eq!(known.len(), 8);
    assert_eq!(
        text(known[0].clone()),
        "/usr/share/fonts/TTF/JetBrainsMonoNerdFont-Regular.ttf"
    );
    assert_eq!(text(known[7].clone()), "/usr/share/fonts/TTF/DejaVuSans.ttf");
    let there = vec![false, false, true, true, false, false, false, false];
    assert_eq!(resolve_font_path(None, &empty(), &there).unwrap(), known[2]);
    assert!(matches!(
        resolve_font_path(None, &empty(), &vec![false; 8]),
        Err(FontError::NoneFound)
    ));
}

#[test]
fn configured_fonts() {
    let by_variable = Environment { jofi_font: Some(b"/f/env.ttf".to_vec()), ..empty() };
    let by_option = Some(b"/f/opt.ttf".to_vec());
    assert_eq!(texts(font_paths(&by_option, &by_variable)), vec!["/f/opt.ttf"]);
    assert_eq!(texts(font_paths(&None, &by_variable)), vec!["/f/env.ttf"]);
    assert_eq!(
        resolve_font_path(by_option.clone(), &by_variable, &vec![true]).unwrap(),
        b"/f/opt.ttf"
    );
    match resolve_font_path(by_option, &by_variable, &vec![false]) {
        Err(FontError::NotAFile { path }) => assert_eq!(path, b"/f/opt.ttf"),
        _ => panic!("expected an error"),
    }
    match resolve_font_path(None, &by_variable, &vec![false]) {
        Err(FontError::NotAFile { path }) => assert_eq!(path, b"/f/env.ttf"),
        _ => panic!("expected an error"),
    }
}

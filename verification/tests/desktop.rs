use jofi::desktop::{
    current_desktops, desktop_id, discover_desktop_entries, discover_desktop_entries_in_dirs,
    is_desktop_file, parse_desktop_file, unescape_value, ApplicationsDir, DesktopEntry,
    DiscoveryError, DiscoveryOptions, FoundFile,
};

fn file(relative: &str, text: &str) -> FoundFile {
    FoundFile {
        relative_path: relative.as_bytes().to_vec(),
        path: format!("/apps/{}", relative).into_bytes(),
        text: Some(text.to_string()),
    }
}

fn app(name: &str, more: &str) -> String {
    format!(
        "[Desktop Entry]\nType=Application\nName={}\nExec=/bin/true\n{}",
        name, more
    )
}

fn dir(files: Vec<FoundFile>) -> Vec<ApplicationsDir> {
    vec![ApplicationsDir::Files(files)]
}

fn discover(dirs: Vec<ApplicationsDir>) -> Vec<DesktopEntry> {
    discover_desktop_entries_in_dirs(dirs, &DiscoveryOptions::default(), &Vec::new()).unwrap()
}

fn names(entries: &[DesktopEntry]) -> Vec<String> {
    entries.iter().map(|entry| entry.name.clone()).collect()
}

fn unescape(value: &str) -> String {
    let chars: Vec<char> = value.chars().collect();
    unescape_value(&chars)
}

#[test]
fn discovers_basic_desktop_entry() {
    let text = "[Desktop Entry]\nType=Application\nName=Play Song\nExec=/home/jeremy/.local/bin/play-song\nKeywords=music;song;audio;\nTerminal=false\n";
    let entries = discover(dir(vec![file("play-song.desktop", text)]));
    assert_eq!(entries.len(), 1);
    assert_eq!(entries[0].id, "play-song.desktop");
    assert_eq!(entries[0].name, "Play Song");
    assert_eq!(entries[0].keywords, vec!["music", "song", "audio"]);
}

#[test]
fn skips_no_display_by_default() {
    let text =
        "[Desktop Entry]\nType=Application\nName=Hidden\nExec=/bin/true\nNoDisplay=true\n";
    let entries = discover(dir(vec![file("hidden.desktop", text)]));
    assert!(entries.is_empty());
}

#[test]
fn keeps_no_display_on_request() {
    let options = DiscoveryOptions { include_hidden: true };
    let files = vec![
        file("a.desktop", &app("Quiet", "NoDisplay=TRUE\n")),
        file("b.desktop", &app("Gone", "Hidden=true\n")),
    ];
    let entries = discover_desktop_entries_in_dirs(dir(files), &options, &Vec::new()).unwrap();
    assert_eq!(names(&entries), vec!["Quiet"]);
}

#[test]
fn reads_every_field() {
    let more = "GenericName= Browser \nComment=Surf\\sthe web\nIcon=fox\nTerminal=True\nCategories=Network; ;Web\nPath=ignored\n";
    let entries = discover(dir(vec![file("sub/fox.desktop", &app("Fox", more))]));
    assert_eq!(
        entries,
        vec![DesktopEntry {
            id: "sub-fox.desktop".to_string(),
            path: b"/apps/sub/fox.desktop".to_vec(),
            name: "Fox".to_string(),
            generic_name: Some("Browser".to_string()),
            comment: Some("Surf the web".to_string()),
            keywords: Vec::new(),
            exec_line: "/bin/true".to_string(),
            icon: Some("fox".to_string()),
            terminal: true,
            categories: vec!["Network".to_string(), "Web".to_string()],
            source_rank: 0,
        }]
    );
    assert_eq!(entries[0].clone(), entries[0]);
}

#[test]
fn leaves_out_what_is_no_application() {
    let files = vec![
        file("a.desktop", "[Desktop Entry]\nType=Link\nName=L\nExec=x\n"),
        file("b.desktop", "[Desktop Entry]\nName=NoType\nExec=x\n"),
        file("c.desktop", "[Desktop Entry]\nType=Application\nExec=x\n"),
        file("d.desktop", "[Desktop Entry]\nType=Application\nName= \nExec=x\n"),
        file("e.desktop", "[Desktop Entry]\nType=Application\nName=NoExec\n"),
        file("f.desktop", "[Desktop Entry]\nType=Application\nName=Blank\nExec=\n"),
        file("readme.txt", &app("Not Desktop", "")),
        file(".desktop", &app("Dot", "")),
        file("sub/.desktop", &app("Dot Below", "")),
    ];
    assert!(discover(dir(files)).is_empty());
}

#[test]
fn ignores_comments_other_sections_and_localised_keys() {
    let raw = parse_desktop_file(
        b"p".to_vec(),
        "Name=Before\n# Name=Comment\n[Desktop Entry]\n Name = One = Two \nName[de]=Eins\nnothing\n\n[Desktop Action X]\nName=Action\n[Desktop Entry]\nExec=a\r\nExec=b\r\n",
    );
    assert_eq!(raw.path, b"p");
    assert_eq!(raw.fields.get("Name").unwrap(), "One = Two");
    assert_eq!(raw.fields.get("Exec").unwrap(), "b");
    assert_eq!(raw.fields.len(), 2);
}

#[test]
fn unescapes_values() {
    assert_eq!(unescape("plain"), "plain");
    assert_eq!(unescape("a\\sb\\nc\\td\\re\\\\f\\;g"), "a b\nc\td\re\\f;g");
    assert_eq!(unescape("end\\"), "end\\");
    assert_eq!(unescape(""), "");
}

#[test]
fn first_directory_with_an_id_wins() {
    let dirs = vec![
        ApplicationsDir::Files(vec![
            file("same.desktop", &app("First", "")),
            file("masked.desktop", &app("Masked", "Hidden=true\n")),
        ]),
        ApplicationsDir::Absent,
        ApplicationsDir::Files(vec![
            file("same.desktop", &app("Second", "")),
            file("masked.desktop", &app("Shown", "")),
            file("own.desktop", &app("Own", "")),
        ]),
    ];
    let entries = discover(dirs);
    assert_eq!(names(&entries), vec!["First", "Own"]);
    assert_eq!(entries[0].source_rank, 0);
    assert_eq!(entries[1].source_rank, 2);
}

#[test]
fn files_are_taken_part_by_part() {
    let files = vec![
        file("a-b.desktop", &app("Dash", "")),
        file("a/b.desktop", &app("Slash", "")),
    ];
    let entries = discover(dir(files));
    assert_eq!(names(&entries), vec!["Slash"]);
    assert_eq!(entries[0].id, "a-b.desktop");
}

#[test]
fn entries_are_listed_by_lowercase_name() {
    let files = vec![
        file("1.desktop", &app("beta", "")),
        file("2.desktop", &app("Alpha", "")),
        file("3.desktop", &app("alpha", "")),
        file("4.desktop", &app("Gamma", "")),
    ];
    let entries = discover(dir(files));
    assert_eq!(names(&entries), vec!["Alpha", "alpha", "beta", "Gamma"]);
}

#[test]
fn ranks_stop_at_the_greatest_byte() {
    let mut dirs: Vec<ApplicationsDir> = Vec::new();
    for _ in 0..300 {
        dirs.push(ApplicationsDir::Absent);
    }
    dirs.push(ApplicationsDir::Files(vec![file("x.desktop", &app("X", ""))]));
    assert_eq!(discover(dirs)[0].source_rank, 255);
}

#[test]
fn unreadable_directory_stops_discovery() {
    let dirs = vec![
        ApplicationsDir::Absent,
        ApplicationsDir::Unreadable,
        ApplicationsDir::Files(vec![file("x.desktop", &app("X", ""))]),
    ];
    let res = discover_desktop_entries_in_dirs(dirs, &DiscoveryOptions::default(), &Vec::new());
    assert!(matches!(res, Err(DiscoveryError::Directory { index: 1 })));
}

#[test]
fn unreadable_file_stops_discovery_unless_hidden() {
    let unreadable = || FoundFile {
        relative_path: b"x.desktop".to_vec(),
        path: b"/late/x.desktop".to_vec(),
        text: None,
    };
    let options = DiscoveryOptions::default();
    let shadowed = vec![
        ApplicationsDir::Files(vec![file("x.desktop", &app("X", ""))]),
        ApplicationsDir::Files(vec![unreadable()]),
    ];
    assert_eq!(names(&discover(shadowed)), vec!["X"]);
    let res = discover_desktop_entries_in_dirs(dir(vec![unreadable()]), &options, &Vec::new());
    match res {
        Err(DiscoveryError::File { path }) => assert_eq!(path, b"/late/x.desktop".to_vec()),
        _ => panic!("expected an error"),
    }
}

#[test]
fn only_and_not_show_in() {
    let files = || {
        dir(vec![
            file("a.desktop", &app("Only Sway", "OnlyShowIn=sway;GNOME;\n")),
            file("b.desktop", &app("Not Sway", "NotShowIn=SWAY\n")),
            file("c.desktop", &app("Any", "OnlyShowIn=\n")),
            file("d.desktop", &app("Both", "OnlyShowIn=Sway\nNotShowIn=sway\n")),
        ])
    };
    let options = DiscoveryOptions::default();
    let on_sway = discover_desktop_entries(files(), &options, Some(" Sway : wlroots")).unwrap();
    assert_eq!(names(&on_sway), vec!["Any", "Only Sway"]);
    let nowhere = discover_desktop_entries(files(), &options, None).unwrap();
    assert_eq!(names(&nowhere), vec!["Any", "Not Sway"]);
}

#[test]
fn desktops_are_trimmed_and_not_empty() {
    assert_eq!(current_desktops(Some(" a ::b: ")), vec!["a", "b"]);
    assert!(current_desktops(Some("")).is_empty());
    assert!(current_desktops(None).is_empty());
}

#[test]
fn ids_replace_separators_and_bad_bytes() {
    assert_eq!(desktop_id(b"a/b/c.desktop"), "a-b-c.desktop");
    assert_eq!(desktop_id(b"a\xff.desktop"), "a\u{fffd}.desktop");
    assert_eq!(desktop_id("\u{e9}.desktop".as_bytes()), "\u{e9}.desktop");
}

#[test]
fn desktop_files_have_a_name_and_the_extension() {
    assert!(is_desktop_file(b"a.desktop"));
    assert!(is_desktop_file(b"x/..desktop"));
    assert!(!is_desktop_file(b".desktop"));
    assert!(!is_desktop_file(b"x/.desktop"));
    assert!(!is_desktop_file(b"a.desktop.bak"));
    assert!(!is_desktop_file(b"adesktop"));
    assert!(!is_desktop_file(b""));
}

#[test]
fn paths_are_kept_byte_for_byte() {
    let found = FoundFile {
        relative_path: b"a\xff.desktop".to_vec(),
        path: b"/apps\xfe/a\xff.desktop".to_vec(),
        text: Some(app("Odd", "")),
    };
    let entries = discover(dir(vec![found]));
    assert_eq!(entries[0].path, b"/apps\xfe/a\xff.desktop".to_vec());
    assert_eq!(entries[0].id, "a\u{fffd}.desktop");
}

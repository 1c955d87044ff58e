use jofi::canvas::Color;
use jofi::desktop::DesktopEntry;
use jofi::history::History;
use jofi::launcher::LaunchError;
use jofi::search::SearchIndex;
use jofi::ui::{is_printable_text, Frame, Key, KeyOutcome, Launcher, LineRole};

fn entry(name: &str, exec_line: &str) -> DesktopEntry {
    DesktopEntry {
        id: format!("{}.desktop", name.to_lowercase()),
        path: b"/tmp/fake.desktop".to_vec(),
        name: name.to_string(),
        generic_name: None,
        comment: None,
        keywords: Vec::new(),
        exec_line: exec_line.to_string(),
        icon: None,
        terminal: false,
        categories: Vec::new(),
        source_rank: 0,
    }
}

fn launcher(max_results: usize) -> Launcher {
    let entries = vec![
        entry("Alpha", "alpha --x"),
        entry("Beta", "beta"),
        entry("Gamma", "'gamma"),
    ];
    Launcher::new(SearchIndex::new(entries), History::default(), max_results)
}

fn json(record: jofi::telemetry::Record) -> String {
    serde_json::Value::Object(record).to_string()
}

fn press(launcher: &mut Launcher, key: Key) -> KeyOutcome {
    launcher.handle_key(key, None, None)
}

fn type_text(launcher: &mut Launcher, text: &str) -> KeyOutcome {
    launcher.handle_key(Key::Other, Some(text), None)
}

fn shown(launcher: &Launcher) -> Vec<String> {
    launcher.results().0.iter().map(|result| result.entry.name.clone()).collect()
}

fn selected(launcher: &Launcher) -> String {
    launcher.selected_entry().unwrap().name.clone()
}

#[test]
fn printable_text_rejects_controls() {
    assert!(is_printable_text("abc"));
    assert!(!is_printable_text("\u{1b}"));
    assert!(is_printable_text(""));
    assert!(!is_printable_text("a\u{85}b"));
}

#[test]
fn starts_with_everything_listed() {
    let launcher = launcher(5);
    assert_eq!(launcher.query(), "");
    assert_eq!(shown(&launcher), vec!["Alpha", "Beta", "Gamma"]);
    assert_eq!(selected(&launcher), "Alpha");
    assert_eq!(launcher.entries(), 3);
    assert!(!launcher.exits());
}

#[test]
fn lists_at_least_one_result() {
    assert_eq!(shown(&launcher(0)), vec!["Alpha"]);
    assert_eq!(shown(&launcher(2)), vec!["Alpha", "Beta"]);
}

#[test]
fn selection_goes_round() {
    let mut launcher = launcher(5);
    assert!(matches!(press(&mut launcher, Key::Down), KeyOutcome::Redraw));
    assert_eq!(selected(&launcher), "Beta");
    press(&mut launcher, Key::Up);
    press(&mut launcher, Key::Up);
    assert_eq!(selected(&launcher), "Gamma");
    press(&mut launcher, Key::Down);
    assert_eq!(selected(&launcher), "Alpha");
    launcher.move_selection(isize::MAX);
    launcher.move_selection(-isize::MAX);
    assert_eq!(selected(&launcher), "Alpha");
    launcher.move_selection(-4);
    assert_eq!(selected(&launcher), "Gamma");
    launcher.move_selection(isize::MIN);
    let expected = (2i128 + isize::MIN as i128).rem_euclid(3);
    assert_eq!(launcher.results().1 as i128, expected);
}

#[test]
fn typing_and_taking_back() {
    let mut launcher = launcher(5);
    press(&mut launcher, Key::Down);
    assert!(matches!(type_text(&mut launcher, "b"), KeyOutcome::Redraw));
    assert!(matches!(type_text(&mut launcher, "et"), KeyOutcome::Redraw));
    assert_eq!(launcher.query(), "bet");
    assert_eq!(shown(&launcher)[0], "Beta");
    assert_eq!(launcher.results().1, 0);
    press(&mut launcher, Key::BackSpace);
    assert_eq!(launcher.query(), "be");
    press(&mut launcher, Key::BackSpace);
    press(&mut launcher, Key::BackSpace);
    assert!(matches!(press(&mut launcher, Key::BackSpace), KeyOutcome::Redraw));
    assert_eq!(launcher.query(), "");
    assert_eq!(shown(&launcher), vec!["Alpha", "Beta", "Gamma"]);
}

#[test]
fn controls_are_not_typed() {
    let mut launcher = launcher(5);
    assert!(matches!(type_text(&mut launcher, "\t"), KeyOutcome::Nothing));
    assert!(matches!(press(&mut launcher, Key::Other), KeyOutcome::Nothing));
    assert_eq!(launcher.query(), "");
}

#[test]
fn control_key_needs_focus() {
    let mut launcher = launcher(5);
    launcher.update_modifiers(true);
    assert!(!launcher.current_ctrl());
    launcher.handle_key(Key::U, Some("u"), None);
    assert_eq!(launcher.query(), "u");
    launcher.enter();
    assert!(launcher.current_ctrl());
    launcher.handle_key(Key::U, Some("\u{15}"), None);
    assert_eq!(launcher.query(), "");
    launcher.handle_key(Key::Other, Some("x"), None);
    assert_eq!(launcher.query(), "");
    launcher.leave();
    launcher.enter();
    assert!(!launcher.current_ctrl());
}

#[test]
fn control_shortcuts() {
    let mut launcher = launcher(5);
    type_text(&mut launcher, "a");
    launcher.enter();
    launcher.update_modifiers(true);
    press(&mut launcher, Key::H);
    assert_eq!(launcher.query(), "");
    press(&mut launcher, Key::J);
    assert_eq!(selected(&launcher), "Beta");
    press(&mut launcher, Key::K);
    assert_eq!(selected(&launcher), "Alpha");
    assert!(!launcher.exits());
    press(&mut launcher, Key::C);
    assert!(launcher.exits());
}

#[test]
fn letters_without_control_are_typed() {
    let mut launcher = launcher(5);
    for (key, text) in [(Key::H, "h"), (Key::U, "u"), (Key::C, "c"), (Key::J, "j"), (Key::K, "k")]
    {
        launcher.handle_key(key, Some(text), None);
    }
    assert_eq!(launcher.query(), "hucjk");
    assert!(!launcher.exits());
}

#[test]
fn escape_closes() {
    let mut launcher = launcher(5);
    assert!(matches!(press(&mut launcher, Key::Escape), KeyOutcome::Nothing));
    assert!(launcher.exits());
}

#[test]
fn return_launches_the_highlighted_entry() {
    let mut launcher = launcher(5);
    type_text(&mut launcher, "alp");
    match press(&mut launcher, Key::Return) {
        KeyOutcome::Launch(plan) => {
            assert_eq!(plan.entry.name, "Alpha");
            assert_eq!(plan.query, "alp");
            assert_eq!(
                json(plan.fields()),
                "{\"command\":[\"alpha\",\"--x\"],\"entry\":\"Alpha\",\"query\":\"alp\"}"
            );
            assert_eq!(plan.command.unwrap().as_vec(), vec!["alpha", "--x"]);
            assert_eq!(plan.history_text, "1 Alpha\n");
        }
        _ => panic!("expected a launch"),
    }
    assert!(launcher.exits());
}

#[test]
fn return_reports_a_bad_command() {
    let mut launcher = launcher(5);
    launcher.move_selection(2);
    match press(&mut launcher, Key::Return) {
        KeyOutcome::Launch(plan) => {
            assert!(matches!(plan.command, Err(LaunchError::ExecSyntax)));
            assert_eq!(
                json(plan.fields()),
                "{\"command\":[],\"entry\":\"Gamma\",\"query\":\"\"}"
            );
            assert_eq!(plan.history_text, "1 Gamma\n");
        }
        _ => panic!("expected a launch"),
    }
}

#[test]
fn return_without_results_closes() {
    let mut launcher = launcher(5);
    type_text(&mut launcher, "qqqqqqqqqqqq");
    assert!(shown(&launcher).is_empty());
    assert!(launcher.selected_entry().is_none());
    press(&mut launcher, Key::Down);
    assert_eq!(launcher.results().1, 0);
    assert!(matches!(press(&mut launcher, Key::Return), KeyOutcome::Nothing));
    assert!(launcher.exits());
}

#[test]
fn sizes_default_where_they_are_open() {
    let mut launcher = launcher(5);
    assert_eq!(
        launcher.frame(0),
        Some(Frame {
            width: 1,
            height: 1,
            render_scale: 1,
            buffer_width: 1,
            buffer_height: 1,
            stride: 4,
        })
    );
    assert!(launcher.configure(0, 0));
    assert!(!launcher.configure(0, 700));
    assert_eq!(
        launcher.frame(3),
        Some(Frame {
            width: 1920,
            height: 700,
            render_scale: 3,
            buffer_width: 5760,
            buffer_height: 2100,
            stride: 23040,
        })
    );
    launcher.configure(u32::MAX, 2);
    let frame = launcher.frame(2).unwrap();
    assert_eq!(frame.buffer_width, u32::MAX);
    assert_eq!(frame.buffer_height, 4);
}

#[test]
fn lines_show_query_and_highlight() {
    let mut launcher = launcher(5);
    launcher.move_selection(1);
    let lines = launcher.visible_lines();
    assert_eq!(lines.len(), 3);
    assert_eq!(lines[0].text, "Alpha");
    assert_eq!(lines[0].role, LineRole::Result);
    assert_eq!(lines[0].color, Color::rgb(255, 255, 255));
    assert_eq!(lines[1].color, Color::rgb(255, 99, 71));
    type_text(&mut launcher, "gam");
    let lines = launcher.visible_lines();
    assert_eq!(lines[0].text, "gam");
    assert_eq!(lines[0].role, LineRole::Query);
    assert_eq!(lines[0].color, Color::rgb(245, 247, 255));
    assert_eq!(lines[1].text, "Gamma");
    assert_eq!(lines[1].color, Color::rgb(255, 99, 71));
}

#[test]
fn closing_the_window() {
    let mut launcher = launcher(5);
    launcher.close();
    assert!(launcher.exits());
}

#[test]
fn events_of_the_window() {
    let mut launcher = launcher(5);
    launcher.configure(100, 50);
    type_text(&mut launcher, "b\u{e9}ta");
    let frame = launcher.frame(2).unwrap();
    assert_eq!(
        json(launcher.draw_fields(frame, 9)),
        "{\"buffer_height\":100,\"buffer_width\":200,\"duration_ns\":9,\"height\":50,\"query_len\":4,\"render_scale\":2,\"results\":1,\"width\":100}"
    );
    assert_eq!(
        json(launcher.configure_fields(8)),
        "{\"height\":50,\"startup_to_configure_ns\":8,\"width\":100}"
    );
}

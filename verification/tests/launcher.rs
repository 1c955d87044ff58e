use jofi::desktop::DesktopEntry;
use jofi::launcher::{
    build_launch_command, decide_launch, expand_args, launch_step, wrap_in_terminal, LaunchCommand,
    LaunchError, LaunchStep,
};
use jofi::search::{SearchIndex, SearchResult};

fn entry(exec_line: &str) -> DesktopEntry {
    DesktopEntry {
        id: "example.desktop".to_string(),
        path: b"/tmp/example.desktop".to_vec(),
        name: "Example App".to_string(),
        generic_name: None,
        comment: None,
        keywords: Vec::new(),
        exec_line: exec_line.to_string(),
        icon: None,
        terminal: false,
        categories: Vec::new(),
        source_rank: 0,
    }
}

fn terminal_entry(exec_line: &str) -> DesktopEntry {
    let mut entry = entry(exec_line);
    entry.terminal = true;
    entry
}

fn strings(words: &[&str]) -> Vec<String> {
    words.iter().map(|word| word.to_string()).collect()
}

fn built(exec_line: &str) -> Vec<String> {
    build_launch_command(&entry(exec_line), None).unwrap().as_vec()
}

#[test]
fn strips_file_field_codes() {
    let command =
        build_launch_command(&entry("/usr/bin/app --open %U --name %c %%"), None).unwrap();
    assert_eq!(
        command.as_vec(),
        vec!["/usr/bin/app", "--open", "--name", "Example App", "%"]
    );
}

#[test]
fn preserves_quoted_arguments() {
    let command =
        build_launch_command(&entry("/usr/bin/app --profile 'Default User'"), None).unwrap();
    assert_eq!(
        command.as_vec(),
        vec!["/usr/bin/app", "--profile", "Default User"]
    );
}

#[test]
fn every_field_code() {
    assert_eq!(built("app %f%F%u%U%d%D%n%N%v%m"), vec!["app"]);
    assert_eq!(built("app a%fb"), vec!["app", "ab"]);
    assert_eq!(built("app %k"), vec!["app", "/tmp/example.desktop"]);
    assert_eq!(built("app %i x"), vec!["app", "x"]);
    assert_eq!(built("app =%i"), vec!["app", "=%i"]);
    assert_eq!(built("app %z 50%"), vec!["app", "%z", "50%"]);
    assert_eq!(built("app 100%% %c%c"), vec!["app", "100%", "Example AppExample App"]);
}

#[test]
fn plain_lines_are_split_at_blanks() {
    assert_eq!(built(" app \t--one\n two "), vec!["app", "--one", "two"]);
}

#[test]
fn expands_given_words() {
    let words = strings(&["%c", "%i", "", "%f", "a b"]);
    assert_eq!(expand_args(&words, &entry("")), vec!["Example App", "a b"]);
}

#[test]
fn open_quotes_are_an_error() {
    assert_eq!(
        build_launch_command(&entry("app 'x"), None),
        Err(LaunchError::ExecSyntax)
    );
}

#[test]
fn nothing_to_start_is_an_error() {
    assert_eq!(build_launch_command(&entry(""), None), Err(LaunchError::EmptyExec));
    assert_eq!(build_launch_command(&entry("%f %i"), None), Err(LaunchError::EmptyExec));
    assert_eq!(
        build_launch_command(&terminal_entry("%u"), Some("'")),
        Err(LaunchError::EmptyExec)
    );
}

#[test]
fn runs_in_the_terminal() {
    let command = build_launch_command(&terminal_entry("htop -d 5"), None).unwrap();
    assert_eq!(command.as_vec(), vec!["foot", "-e", "htop", "-d", "5"]);
    let command =
        build_launch_command(&terminal_entry("htop"), Some("kitty --title 'My Term'")).unwrap();
    assert_eq!(command.as_vec(), vec!["kitty", "--title", "My Term", "-e", "htop"]);
    let command = build_launch_command(&entry("htop"), Some("kitty")).unwrap();
    assert_eq!(command.as_vec(), vec!["htop"]);
}

#[test]
fn bad_terminals_are_errors() {
    let entry = terminal_entry("htop");
    assert_eq!(build_launch_command(&entry, Some("\"x")), Err(LaunchError::TerminalSyntax));
    assert_eq!(build_launch_command(&entry, Some("  ")), Err(LaunchError::EmptyTerminal));
    assert_eq!(
        wrap_in_terminal(Vec::new(), strings(&["x"])),
        Err(LaunchError::EmptyTerminal)
    );
    assert_eq!(
        wrap_in_terminal(strings(&["t", "-a"]), strings(&["x", "y"])).unwrap().as_vec(),
        vec!["t", "-a", "-e", "x", "y"]
    );
}

#[test]
fn shell_line_splits_back() {
    let command = LaunchCommand {
        program: "/opt/my app".to_string(),
        args: strings(&["", "it's", "#x", "a\nb", "%", "\\", "\"q\"", "plain", "~", "\ttab"]),
    };
    let line = command.shell_line();
    assert_eq!(shell_words::split(&line).unwrap(), command.as_vec());
    let simple = LaunchCommand { program: "app".to_string(), args: strings(&["a b"]) };
    assert_eq!(simple.shell_line(), "app 'a b'");
    assert_eq!(simple.clone(), simple);
}

#[test]
fn path_code_shows_bad_bytes() {
    let mut odd = entry("app %k");
    odd.path = b"/x\xff.desktop".to_vec();
    let command = build_launch_command(&odd, None).unwrap();
    assert_eq!(command.as_vec(), vec!["app", "/x\u{fffd}.desktop"]);
}

fn results(exec_line: &str, query: &str) -> Vec<SearchResult> {
    SearchIndex::new(vec![entry(exec_line)]).search(query, 1)
}

#[test]
fn launches_the_best_match() {
    match launch_step(results("app --x", "example"), false, None) {
        LaunchStep::Start { result, command } => {
            assert_eq!(result.entry.name, "Example App");
            assert_eq!(command.as_vec(), vec!["app", "--x"]);
        }
        _ => panic!("expected a start"),
    }
    let mut two = results("first", "example");
    two.append(&mut results("second", "example"));
    match launch_step(two, false, None) {
        LaunchStep::Start { command, .. } => assert_eq!(command.program, "first"),
        _ => panic!("expected a start"),
    }
}

#[test]
fn dry_runs_only_show() {
    match launch_step(results("app --x", "example"), true, None) {
        LaunchStep::Show { result, command } => {
            assert_eq!(result.entry.name, "Example App");
            assert_eq!(command.as_vec(), vec!["app", "--x"]);
        }
        _ => panic!("expected to show"),
    }
}

#[test]
fn nothing_is_launched_without_a_match_or_a_command() {
    assert!(matches!(
        launch_step(results("app", "qqqqqqqqqq"), false, None),
        LaunchStep::NoMatch
    ));
    for dry_run in [false, true] {
        match launch_step(results("'app", "example"), dry_run, None) {
            LaunchStep::Failed { result, error } => {
                assert_eq!(result.entry.id, "example.desktop");
                assert_eq!(error, LaunchError::ExecSyntax);
            }
            _ => panic!("expected a failure"),
        }
    }
    let result = results("app", "example").remove(0);
    assert!(matches!(
        decide_launch(result, Err(LaunchError::EmptyTerminal), false),
        LaunchStep::Failed { error: LaunchError::EmptyTerminal, .. }
    ));
}

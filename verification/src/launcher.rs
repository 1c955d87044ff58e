//! What is started for an entry.
use vstd::prelude::*;

use crate::desktop::{DesktopEntry, EntryView};
use crate::search::{ResultView, SearchResult};
use crate::text::{clone_strings, string_views, to_chars};
use crate::unicode::{from_utf8_lossy, lossy_text};

verus! {

// ---------------------------------------------------------------------------------------------
// Shell words
// ---------------------------------------------------------------------------------------------

/// The error of `shell_words::split`.
#[verifier::external_type_specification]
#[verifier::external_body]
pub struct ExParseError(shell_words::ParseError);

/// The words of a command line, by `shell_words::split`; `None` where a quote is not closed.
pub uninterp spec fn shell_split(line: Seq<char>) -> Option<Seq<Seq<char>>>;

/// The command line of some words, by `shell_words::join`.
pub uninterp spec fn shell_join(words: Seq<Seq<char>>) -> Seq<char>;

/// What separates words outside quotes.
pub open spec fn blank(ch: char) -> bool {
    ch == ' ' || ch == '\t' || ch == '\n'
}

/// Whether a command line has neither quotes nor backslashes nor comments.
pub open spec fn plain_line(line: Seq<char>) -> bool {
    !line.contains('\'') && !line.contains('"') && !line.contains('\\') && !line.contains('#')
}

/// The words of a line up to its last blank, and what follows that blank.
pub open spec fn blank_split(line: Seq<char>) -> (Seq<Seq<char>>, Seq<char>)
    decreases line.len(),
{
    if line.len() == 0 {
        (seq![], seq![])
    } else {
        let (words, word) = blank_split(line.drop_last());
        if !blank(line.last()) {
            (words, word.push(line.last()))
        } else if word.len() > 0 {
            (words.push(word), seq![])
        } else {
            (words, word)
        }
    }
}

/// The runs of characters between the blanks of a line.
pub open spec fn plain_words(line: Seq<char>) -> Seq<Seq<char>> {
    let (words, word) = blank_split(line);
    if word.len() > 0 {
        words.push(word)
    } else {
        words
    }
}

/// The model of what splitting returns.
pub open spec fn split_view(
    res: Result<Vec<String>, shell_words::ParseError>,
) -> Option<Seq<Seq<char>>> {
    match res {
        Ok(words) => Some(string_views(words@)),
        Err(_) => None,
    }
}

/// Calls `shell_words::split`. The result depends on the line alone; a line without quotes is
/// always split, and a plain one into its runs between blanks.
#[verifier::external_body]
fn split_words(line: &str) -> (res: Result<Vec<String>, shell_words::ParseError>)
    ensures
        split_view(res) == shell_split(line@),
        !line@.contains('\'') && !line@.contains('"') ==> res is Ok,
        plain_line(line@) ==> split_view(res) == Some(plain_words(line@)),
{
    shell_words::split(line)
}

/// Calls `shell_words::join`. The result depends on the words alone, and `shell_words::split` gives
/// the words back.
#[verifier::external_body]
fn join_words(words: &Vec<String>) -> (res: String)
    ensures
        res@ == shell_join(string_views(words@)),
        shell_split(res@) == Some(string_views(words@)),
{
    shell_words::join(words)
}

// ---------------------------------------------------------------------------------------------
// Commands
// ---------------------------------------------------------------------------------------------

/// A program and its arguments.
#[derive(Debug, PartialEq, Eq)]
pub struct LaunchCommand {
    pub program: String,
    pub args: Vec<String>,
}

/// The model of a [`LaunchCommand`].
#[verifier::ext_equal]
pub struct CommandView {
    pub program: Seq<char>,
    pub args: Seq<Seq<char>>,
}

impl View for LaunchCommand {
    type V = CommandView;

    open spec fn view(&self) -> CommandView {
        CommandView { program: self.program@, args: string_views(self.args@) }
    }
}

impl Clone for LaunchCommand {
    fn clone(&self) -> (res: Self)
        ensures
            res@ == self@,
    {
        LaunchCommand { program: self.program.clone(), args: clone_strings(&self.args) }
    }
}

/// A command as one list: the program, then its arguments.
pub open spec fn command_words(command: CommandView) -> Seq<Seq<char>> {
    seq![command.program] + command.args
}

impl LaunchCommand {
    /// The command as one list: the program, then its arguments.
    pub fn as_vec(&self) -> (res: Vec<String>)
        ensures
            string_views(res@) == command_words(self@),
    {
        let mut out: Vec<String> = Vec::new();
        out.push(self.program.clone());
        let mut args: Vec<String> = clone_strings(&self.args);
        let ghost tail = args@;
        out.append(&mut args);
        assert(string_views(out@) =~= seq![self.program@] + string_views(tail));
        out
    }

    /// The command as a line that a shell reads as this command.
    pub fn shell_line(&self) -> (res: String)
        ensures
            res@ == shell_join(command_words(self@)),
            shell_split(res@) == Some(command_words(self@)),
    {
        let words: Vec<String> = self.as_vec();
        join_words(&words)
    }
}

/// Why an entry has no command.
#[derive(Debug, Clone, Copy, PartialEq, Eq, Structural)]
pub enum LaunchError {
    /// A quote in the `Exec` line is not closed.
    ExecSyntax,
    /// The `Exec` line comes to nothing.
    EmptyExec,
    /// A quote in the terminal's command line is not closed.
    TerminalSyntax,
    /// The terminal's command line is empty.
    EmptyTerminal,
}

// ---------------------------------------------------------------------------------------------
// Field codes
// ---------------------------------------------------------------------------------------------

/// Whether a field code stands for files or URLs, or is out of use. Nothing is opened, so such a
/// code stands for nothing.
pub open spec fn vanishing_code(code: char) -> bool {
    code == 'f' || code == 'F' || code == 'u' || code == 'U' || code == 'd' || code == 'D' || code
        == 'n' || code == 'N' || code == 'v' || code == 'm'
}

/// What a field code stands for. An unknown one stands for itself; in the path, U+FFFD stands for what
/// is not UTF-8.
pub open spec fn code_text(code: char, entry: EntryView) -> Seq<char> {
    if code == '%' {
        seq!['%']
    } else if code == 'c' {
        entry.name
    } else if code == 'k' {
        lossy_text(entry.path)
    } else if vanishing_code(code) {
        seq![]
    } else {
        seq!['%', code]
    }
}

/// An argument with its field codes replaced. A percent sign at the end stands for itself.
pub open spec fn expanded_arg(arg: Seq<char>, entry: EntryView) -> Seq<char>
    decreases arg.len(),
{
    if arg.len() == 0 {
        seq![]
    } else if arg[0] != '%' {
        seq![arg[0]] + expanded_arg(arg.drop_first(), entry)
    } else if arg.len() == 1 {
        seq!['%']
    } else {
        code_text(arg[1], entry) + expanded_arg(arg.skip(2), entry)
    }
}

/// Arguments with their field codes replaced, without the icon code and without those that come to
/// nothing.
pub open spec fn expanded_args(args: Seq<Seq<char>>, entry: EntryView) -> Seq<Seq<char>>
    decreases args.len(),
{
    if args.len() == 0 {
        seq![]
    } else {
        let before = expanded_args(args.drop_last(), entry);
        if args.last() == "%i"@ || expanded_arg(args.last(), entry).len() == 0 {
            before
        } else {
            before.push(expanded_arg(args.last(), entry))
        }
    }
}

fn expand_arg(arg: &str, entry: &DesktopEntry) -> (res: String)
    ensures
        res@ == expanded_arg(arg@, entry@),
{
    let chars: Vec<char> = to_chars(arg);
    let mut out: String = String::new();
    let mut i: usize = 0;
    assert(chars@.skip(0) =~= chars@);
    assert(out@ + expanded_arg(chars@, entry@) =~= expanded_arg(chars@, entry@));
    while i < chars.len()
        invariant
            i <= chars@.len(),
            out@ + expanded_arg(chars@.skip(i as int), entry@) == expanded_arg(chars@, entry@),
        decreases chars@.len() - i,
    {
        let ghost rest = chars@.skip(i as int);
        let ghost before = out@;
        let ch: char = chars[i];
        if ch != '%' {
            out.push(ch);
            i += 1;
            assert(rest.drop_first() =~= chars@.skip(i as int));
        } else if i + 1 < chars.len() {
            let code: char = chars[i + 1];
            match code {
                '%' => out.push('%'),
                'c' => out.append(entry.name.as_str()),
                'k' => {
                    let path: String = from_utf8_lossy(entry.path.as_slice());
                    out.append(path.as_str());
                },
                'f' | 'F' | 'u' | 'U' | 'd' | 'D' | 'n' | 'N' | 'v' | 'm' => {},
                other => {
                    out.push('%');
                    out.push(other);
                },
            }
            i += 2;
            assert(rest.skip(2) =~= chars@.skip(i as int));
            assert(out@ =~= before + code_text(code, entry@));
        } else {
            out.push('%');
            i += 1;
            assert(chars@.skip(i as int) =~= seq![]);
        }
        assert(out@ + expanded_arg(chars@.skip(i as int), entry@) =~= before + expanded_arg(
            rest,
            entry@,
        ));
    }
    assert(chars@.skip(i as int) =~= seq![]);
    assert(out@ + expanded_arg(chars@.skip(i as int), entry@) =~= out@);
    out
}

/// The arguments of an entry's command, from the words of its `Exec` line.
pub fn expand_args(raw_args: &Vec<String>, entry: &DesktopEntry) -> (res: Vec<String>)
    ensures
        string_views(res@) == expanded_args(string_views(raw_args@), entry@),
{
    let ghost views = string_views(raw_args@);
    let icon_code: String = "%i".to_owned();
    let mut out: Vec<String> = Vec::new();
    let mut i: usize = 0;
    assert(views.take(0) =~= seq![]);
    assert(string_views(out@) =~= seq![]);
    while i < raw_args.len()
        invariant
            i <= raw_args@.len(),
            views == string_views(raw_args@),
            icon_code@ == "%i"@,
            string_views(out@) == expanded_args(views.take(i as int), entry@),
        decreases raw_args@.len() - i,
    {
        let ghost before = out@;
        proof {
            assert(views.take(i + 1).drop_last() =~= views.take(i as int));
            assert(views.take(i + 1).last() == raw_args@[i as int]@);
        }
        if raw_args[i] != icon_code {
            let expanded: String = expand_arg(raw_args[i].as_str(), entry);
            if !expanded.as_str().is_empty() {
                out.push(expanded);
                assert(string_views(out@) =~= string_views(before).push(expanded@));
            }
        }
        i += 1;
    }
    assert(views.take(i as int) =~= views);
    out
}

/// The model of arguments that may be missing.
pub open spec fn args_view(res: Result<Vec<String>, LaunchError>) -> Result<
    Seq<Seq<char>>,
    LaunchError,
> {
    match res {
        Ok(args) => Ok(string_views(args@)),
        Err(error) => Err(error),
    }
}

/// The arguments of an entry's command, from the words of a command line.
pub open spec fn exec_args(
    words: Option<Seq<Seq<char>>>,
    entry: EntryView,
) -> Result<Seq<Seq<char>>, LaunchError> {
    match words {
        Some(words) => Ok(expanded_args(words, entry)),
        None => Err(LaunchError::ExecSyntax),
    }
}

/// The arguments of an entry's command, from a command line.
pub fn expand_exec(exec_line: &str, entry: &DesktopEntry) -> (res: Result<Vec<String>, LaunchError>)
    ensures
        args_view(res) == exec_args(shell_split(exec_line@), entry@),
        plain_line(exec_line@) ==> args_view(res) == Ok::<_, LaunchError>(
            expanded_args(plain_words(exec_line@), entry@),
        ),
{
    match split_words(exec_line) {
        Ok(raw_args) => Ok(expand_args(&raw_args, entry)),
        Err(_) => Err(LaunchError::ExecSyntax),
    }
}

// ---------------------------------------------------------------------------------------------
// Launching
// ---------------------------------------------------------------------------------------------

/// The model of a command that may be missing.
pub open spec fn command_view(res: Result<LaunchCommand, LaunchError>) -> Result<
    CommandView,
    LaunchError,
> {
    match res {
        Ok(command) => Ok(command@),
        Err(error) => Err(error),
    }
}

/// The command whose words are these.
pub open spec fn command_of(words: Seq<Seq<char>>) -> CommandView {
    CommandView { program: words[0], args: words.skip(1) }
}

/// A command run in a terminal, whose own command line has these words.
pub open spec fn terminal_command(
    terminal: Option<Seq<Seq<char>>>,
    command: Seq<Seq<char>>,
) -> Result<CommandView, LaunchError> {
    match terminal {
        Some(words) => if words.len() == 0 {
            Err(LaunchError::EmptyTerminal)
        } else {
            Ok(
                CommandView {
                    program: words[0],
                    args: words.skip(1) + seq!["-e"@] + command,
                },
            )
        },
        None => Err(LaunchError::TerminalSyntax),
    }
}

/// The command line of the terminal.
pub open spec fn terminal_line(terminal: Option<Seq<char>>) -> Seq<char> {
    match terminal {
        Some(line) => line,
        None => "foot"@,
    }
}

/// What is started for an entry, from the arguments of its command and the words of the terminal's
/// command line.
pub open spec fn launch_of(
    args: Result<Seq<Seq<char>>, LaunchError>,
    terminal: Option<Seq<Seq<char>>>,
    in_terminal: bool,
) -> Result<CommandView, LaunchError> {
    match args {
        Ok(args) => if args.len() == 0 {
            Err(LaunchError::EmptyExec)
        } else if in_terminal {
            terminal_command(terminal, args)
        } else {
            Ok(command_of(args))
        },
        Err(error) => Err(error),
    }
}

/// What is started for an entry, where `terminal` is the terminal's command line, if one is set.
pub open spec fn started(entry: EntryView, terminal: Option<Seq<char>>) -> Result<
    CommandView,
    LaunchError,
> {
    launch_of(
        exec_args(shell_split(entry.exec_line), entry),
        shell_split(terminal_line(terminal)),
        entry.terminal,
    )
}

/// A command run in a terminal, whose own command line has these words.
pub fn wrap_in_terminal(terminal_args: Vec<String>, command: Vec<String>) -> (res: Result<
    LaunchCommand,
    LaunchError,
>)
    ensures
        command_view(res) == terminal_command(
            Some(string_views(terminal_args@)),
            string_views(command@),
        ),
{
    if terminal_args.len() == 0 {
        assert(string_views(terminal_args@).len() == 0);
        return Err(LaunchError::EmptyTerminal);
    }
    let ghost words = string_views(terminal_args@);
    let ghost tail = string_views(command@);
    let mut args: Vec<String> = terminal_args;
    let mut command: Vec<String> = command;
    let program: String = args.remove(0);
    args.push("-e".to_owned());
    args.append(&mut command);
    assert(string_views(args@) =~= words.skip(1) + seq!["-e"@] + tail);
    Ok(LaunchCommand { program, args })
}

proof fn lemma_foot()
    ensures
        plain_line("foot"@),
        plain_words("foot"@) == seq!["foot"@],
{
    reveal_strlit("foot");
    let foot = "foot"@;
    assert(foot =~= seq!['f', 'o', 'o', 't']);
    reveal_with_fuel(blank_split, 5);
    assert(foot.drop_last() =~= seq!['f', 'o', 'o']);
    assert(foot.drop_last().drop_last() =~= seq!['f', 'o']);
    assert(foot.drop_last().drop_last().drop_last() =~= seq!['f']);
    assert(blank_split(foot).0 =~= seq![]);
    assert(blank_split(foot).1 =~= foot);
}

/// A command run in a terminal. Without a command line for the terminal, `foot` is used.
pub fn wrap_terminal(command: Vec<String>, terminal: Option<&str>) -> (res: Result<
    LaunchCommand,
    LaunchError,
>)
    ensures
        command_view(res) == terminal_command(
            shell_split(
                terminal_line(
                    match terminal {
                        Some(line) => Some(line@),
                        None => None,
                    },
                ),
            ),
            string_views(command@),
        ),
        terminal is None ==> command_view(res) == Ok::<_, LaunchError>(
            CommandView { program: "foot"@, args: seq!["-e"@] + string_views(command@) },
        ),
{
    let line: &str = match terminal {
        Some(line) => line,
        None => "foot",
    };
    proof {
        if terminal is None {
            lemma_foot();
            assert(seq!["foot"@].skip(1) + seq!["-e"@] + string_views(command@) =~= seq!["-e"@]
                + string_views(command@));
        }
    }
    match split_words(line) {
        Ok(terminal_args) => wrap_in_terminal(terminal_args, command),
        Err(_) => Err(LaunchError::TerminalSyntax),
    }
}

/// What is started for an entry. `terminal` is the terminal's command line, if one is set.
pub fn build_launch_command(entry: &DesktopEntry, terminal: Option<&str>) -> (res: Result<
    LaunchCommand,
    LaunchError,
>)
    ensures
        command_view(res) == started(
            entry@,
            match terminal {
                Some(line) => Some(line@),
                None => None,
            },
        ),
        plain_line(entry.exec_line@) ==> command_view(res) == launch_of(
            Ok(expanded_args(plain_words(entry.exec_line@), entry@)),
            shell_split(
                terminal_line(
                    match terminal {
                        Some(line) => Some(line@),
                        None => None,
                    },
                ),
            ),
            entry.terminal,
        ),
{
    match expand_exec(entry.exec_line.as_str(), entry) {
        Ok(expanded) => {
            let ghost words = string_views(expanded@);
            if expanded.len() == 0 {
                assert(words.len() == 0);
                return Err(LaunchError::EmptyExec);
            }
            if entry.terminal {
                wrap_terminal(expanded, terminal)
            } else {
                let mut args: Vec<String> = expanded;
                let program: String = args.remove(0);
                assert(string_views(args@) =~= words.skip(1));
                Ok(LaunchCommand { program, args })
            }
        },
        Err(error) => Err(error),
    }
}

/// What a request to launch the best match of a query comes to.
#[derive(Debug)]
pub enum LaunchStep {
    /// Nothing matched.
    NoMatch,
    /// The best match has no command.
    Failed { result: SearchResult, error: LaunchError },
    /// The best match and its command are only to be shown.
    Show { result: SearchResult, command: LaunchCommand },
    /// The best match is to be started by its command, and the launch counted.
    Start { result: SearchResult, command: LaunchCommand },
}

/// The model of a [`LaunchStep`].
#[verifier::ext_equal]
pub enum StepView {
    NoMatch,
    Failed(ResultView, LaunchError),
    Show(ResultView, CommandView),
    Start(ResultView, CommandView),
}

impl View for LaunchStep {
    type V = StepView;

    open spec fn view(&self) -> StepView {
        match self {
            LaunchStep::NoMatch => StepView::NoMatch,
            LaunchStep::Failed { result, error } => StepView::Failed(result@, *error),
            LaunchStep::Show { result, command } => StepView::Show(result@, command@),
            LaunchStep::Start { result, command } => StepView::Start(result@, command@),
        }
    }
}

/// What a request to launch the best of some results comes to, from that result and its command.
pub open spec fn step_of(
    result: ResultView,
    command: Result<CommandView, LaunchError>,
    dry_run: bool,
) -> StepView {
    match command {
        Ok(command) => if dry_run {
            StepView::Show(result, command)
        } else {
            StepView::Start(result, command)
        },
        Err(error) => StepView::Failed(result, error),
    }
}

/// What a request to launch the best of some results comes to, from that result and its command.
pub fn decide_launch(
    result: SearchResult,
    command: Result<LaunchCommand, LaunchError>,
    dry_run: bool,
) -> (res: LaunchStep)
    ensures
        res@ == step_of(result@, command_view(command), dry_run),
{
    match command {
        Ok(command) => if dry_run {
            LaunchStep::Show { result, command }
        } else {
            LaunchStep::Start { result, command }
        },
        Err(error) => LaunchStep::Failed { result, error },
    }
}

/// What a request to launch the best of some results comes to. The results stand best first.
pub fn launch_step(results: Vec<SearchResult>, dry_run: bool, terminal: Option<&str>) -> (res:
    LaunchStep)
    ensures
        res@ == if results@.len() == 0 {
            StepView::NoMatch
        } else {
            step_of(
                results@[0]@,
                started(
                    results@[0].entry@,
                    match terminal {
                        Some(line) => Some(line@),
                        None => None,
                    },
                ),
                dry_run,
            )
        },
{
    let mut results: Vec<SearchResult> = results;
    if results.len() == 0 {
        return LaunchStep::NoMatch;
    }
    let best: SearchResult = results.remove(0);
    let command: Result<LaunchCommand, LaunchError> = build_launch_command(&best.entry, terminal);
    decide_launch(best, command, dry_run)
}

// ---------------------------------------------------------------------------------------------
// What holds of commands
// ---------------------------------------------------------------------------------------------

/// The words of a plain line are not empty and have no blanks in them; their characters are the
/// line's.
pub proof fn lemma_plain_words(line: Seq<char>)
    ensures
        forall|i: int|
            0 <= i < plain_words(line).len() ==> (#[trigger] plain_words(line)[i]).len() > 0,
        forall|i: int, k: int|
            0 <= i < plain_words(line).len() && 0 <= k < plain_words(line)[i].len() ==> !blank(
                #[trigger] plain_words(line)[i][k],
            ) && line.contains(plain_words(line)[i][k]),
{
    lemma_blank_split(line);
}

proof fn lemma_blank_split(line: Seq<char>)
    ensures
        forall|i: int|
            0 <= i < blank_split(line).0.len() ==> (#[trigger] blank_split(line).0[i]).len() > 0,
        forall|i: int, k: int|
            0 <= i < blank_split(line).0.len() && 0 <= k < blank_split(line).0[i].len() ==> !blank(
                #[trigger] blank_split(line).0[i][k],
            ) && line.contains(blank_split(line).0[i][k]),
        forall|k: int|
            0 <= k < blank_split(line).1.len() ==> !blank(#[trigger] blank_split(line).1[k])
                && line.contains(blank_split(line).1[k]),
    decreases line.len(),
{
    if line.len() > 0 {
        let head = line.drop_last();
        lemma_blank_split(head);
        let before = blank_split(head);
        let after = blank_split(line);
        assert forall|ch: char| head.contains(ch) implies #[trigger] line.contains(ch) by {
            let i = choose|i: int| 0 <= i < head.len() && head[i] == ch;
            assert(line[i] == ch);
        }
        assert(line[line.len() - 1] == line.last());
        assert forall|i: int, k: int|
            0 <= i < after.0.len() && 0 <= k < after.0[i].len() implies !blank(
            #[trigger] after.0[i][k],
        ) && line.contains(after.0[i][k]) by {
            if i < before.0.len() {
                assert(after.0[i] == before.0[i]);
                assert(head.contains(before.0[i][k]));
            } else {
                assert(after.0[i] == before.1);
                assert(head.contains(before.1[k]));
            }
        }
        assert forall|k: int| 0 <= k < after.1.len() implies !blank(#[trigger] after.1[k])
            && line.contains(after.1[k]) by {
            if k < before.1.len() {
                assert(after.1[k] == before.1[k]);
                assert(head.contains(before.1[k]));
            }
        }
    }
}

/// An argument without a percent sign is taken as it is.
pub proof fn lemma_plain_arg(arg: Seq<char>, entry: EntryView)
    requires
        !arg.contains('%'),
    ensures
        expanded_arg(arg, entry) == arg,
    decreases arg.len(),
{
    if arg.len() > 0 {
        assert(arg[0] != '%');
        let rest = arg.drop_first();
        assert forall|i: int| 0 <= i < rest.len() implies rest[i] != '%' by {
            assert(arg[i + 1] == rest[i]);
        }
        lemma_plain_arg(rest, entry);
        assert(seq![arg[0]] + rest =~= arg);
    } else {
        assert(expanded_arg(arg, entry) =~= arg);
    }
}

/// No argument of a command is empty.
pub proof fn lemma_expanded_args(args: Seq<Seq<char>>, entry: EntryView)
    ensures
        forall|i: int|
            0 <= i < expanded_args(args, entry).len() ==> (#[trigger] expanded_args(
                args,
                entry,
            )[i]).len() > 0,
        expanded_args(args, entry).len() <= args.len(),
    decreases args.len(),
{
    if args.len() > 0 {
        lemma_expanded_args(args.drop_last(), entry);
    }
}

/// Arguments that are not empty and have no percent sign are taken as they are.
pub proof fn lemma_plain_args(args: Seq<Seq<char>>, entry: EntryView)
    requires
        forall|i: int| 0 <= i < args.len() ==> (#[trigger] args[i]).len() > 0 && !args[i].contains('%'),
    ensures
        expanded_args(args, entry) == args,
    decreases args.len(),
{
    if args.len() > 0 {
        let head = args.drop_last();
        assert forall|i: int| 0 <= i < head.len() implies (#[trigger] head[i]).len() > 0
            && !head[i].contains('%') by {
            assert(head[i] == args[i]);
        }
        lemma_plain_args(head, entry);
        let last = args[args.len() - 1];
        lemma_plain_arg(last, entry);
        reveal_strlit("%i");
        if last == "%i"@ {
            assert(last[0] == '%');
        }
        assert(head.push(last) =~= args);
    } else {
        assert(expanded_args(args, entry) =~= args);
    }
}

/// An entry outside a terminal whose plain command line has no percent sign is started by the words
/// of that line.
pub proof fn lemma_plain_launch(line: Seq<char>, entry: EntryView, terminal: Option<Seq<Seq<char>>>)
    requires
        plain_line(line),
        !line.contains('%'),
        plain_words(line).len() > 0,
    ensures
        launch_of(Ok(expanded_args(plain_words(line), entry)), terminal, false) == Ok::<
            _,
            LaunchError,
        >(command_of(plain_words(line))),
{
    let args = plain_words(line);
    lemma_plain_words(line);
    assert forall|i: int| 0 <= i < args.len() implies (#[trigger] args[i]).len() > 0
        && !args[i].contains('%') by {
        if args[i].contains('%') {
            let k = choose|k: int| 0 <= k < args[i].len() && args[i][k] == '%';
            assert(line.contains(args[i][k]));
        }
    }
    lemma_plain_args(args, entry);
}

/// What is started: outside a terminal the arguments themselves, in a terminal the terminal's words,
/// `-e` and the arguments. Only where there are no arguments is nothing started.
pub proof fn lemma_launch_of(
    args: Seq<Seq<char>>,
    terminal: Seq<Seq<char>>,
    in_terminal: bool,
)
    requires
        terminal.len() > 0,
    ensures
        launch_of(Ok(args), Some(terminal), in_terminal) is Ok <==> args.len() > 0,
        args.len() > 0 ==> command_words(launch_of(Ok(args), Some(terminal), in_terminal)->Ok_0)
            == if in_terminal {
            terminal + seq!["-e"@] + args
        } else {
            args
        },
{
    if args.len() > 0 {
        let command = launch_of(Ok(args), Some(terminal), in_terminal)->Ok_0;
        if in_terminal {
            assert(command_words(command) =~= terminal + seq!["-e"@] + args);
        } else {
            assert(command_words(command) =~= args);
        }
    }
}

} // verus!

//! What holds of the commands that entries are started by.
use vstd::prelude::*;

use crate::desktop::EntryView;
use crate::launcher::{
    args_view, blank, blank_split, code_text, command_view, command_words, exec_args, expanded_arg,
    expanded_args, launch_of, plain_line, plain_words, shell_split, started, step_of,
    terminal_command, terminal_line, CommandView, LaunchCommand, LaunchError, LaunchStep, StepView,
};
use crate::search::ResultView;
use crate::unicode::lossy_text;

verus! {

/// A character other than the percent sign stands for itself, at the start of every argument; so
/// does a percent sign that nothing follows.
pub proof fn lemma_plain_start(ch: char, rest: Seq<char>, entry: EntryView)
    requires
        ch != '%',
    ensures
        expanded_arg(seq![], entry) == Seq::<char>::empty(),
        expanded_arg(seq!['%'], entry) == seq!['%'],
        expanded_arg(seq![ch] + rest, entry) == seq![ch] + expanded_arg(rest, entry),
{
    assert((seq![ch] + rest).drop_first() =~= rest);
}

/// At the start of every argument `%c` comes to the name of the entry, `%k` to its path, `%%` to a
/// percent sign, and each code for files, URLs and what is out of use to nothing. A code that is not
/// known stays. Then comes the rest of the argument.
pub proof fn lemma_code_start(code: char, rest: Seq<char>, entry: EntryView)
    ensures
        expanded_arg(seq!['%', 'c'] + rest, entry) == entry.name + expanded_arg(rest, entry),
        expanded_arg(seq!['%', 'k'] + rest, entry) == lossy_text(entry.path) + expanded_arg(
            rest,
            entry,
        ),
        expanded_arg(seq!['%', '%'] + rest, entry) == seq!['%'] + expanded_arg(rest, entry),
        seq!['f', 'F', 'u', 'U', 'd', 'D', 'n', 'N', 'v', 'm'].contains(code) ==> expanded_arg(
            seq!['%', code] + rest,
            entry,
        ) == expanded_arg(rest, entry),
        !seq!['f', 'F', 'u', 'U', 'd', 'D', 'n', 'N', 'v', 'm', 'c', 'k', '%'].contains(code)
            ==> expanded_arg(seq!['%', code] + rest, entry) == seq!['%', code] + expanded_arg(
            rest,
            entry,
        ),
{
    let none = seq!['f', 'F', 'u', 'U', 'd', 'D', 'n', 'N', 'v', 'm'];
    let known = seq!['f', 'F', 'u', 'U', 'd', 'D', 'n', 'N', 'v', 'm', 'c', 'k', '%'];
    assert((seq!['%', 'c'] + rest).skip(2) =~= rest);
    assert((seq!['%', 'k'] + rest).skip(2) =~= rest);
    assert((seq!['%', '%'] + rest).skip(2) =~= rest);
    assert((seq!['%', code] + rest).skip(2) =~= rest);
    if none.contains(code) {
        assert(code_text(code, entry) + expanded_arg(rest, entry) =~= expanded_arg(rest, entry));
    }
    if !known.contains(code) {
        assert(known[0] == 'f' && known[1] == 'F' && known[2] == 'u' && known[3] == 'U' && known[4]
            == 'd' && known[5] == 'D' && known[6] == 'n' && known[7] == 'N' && known[8] == 'v'
            && known[9] == 'm' && known[10] == 'c' && known[11] == 'k' && known[12] == '%');
        assert(code != known[0] && code != known[1] && code != known[2] && code != known[3] && code
            != known[4] && code != known[5] && code != known[6] && code != known[7] && code
            != known[8] && code != known[9] && code != known[10] && code != known[11] && code
            != known[12]);
    }
}

/// The argument `%c` is the name of the entry, `%k` its path, `%%` a percent sign, and each code for
/// files and URLs is nothing, for every entry.
pub proof fn lemma_whole_codes(entry: EntryView)
    ensures
        expanded_arg(seq!['%', 'c'], entry) == entry.name,
        expanded_arg(seq!['%', 'k'], entry) == lossy_text(entry.path),
        expanded_arg(seq!['%', '%'], entry) == seq!['%'],
        expanded_arg(seq!['%', 'f'], entry) == Seq::<char>::empty(),
        expanded_arg(seq!['%', 'F'], entry) == Seq::<char>::empty(),
        expanded_arg(seq!['%', 'u'], entry) == Seq::<char>::empty(),
        expanded_arg(seq!['%', 'U'], entry) == Seq::<char>::empty(),
{
    let none = Seq::<char>::empty();
    lemma_plain_start('a', none, entry);
    let vanishing = seq!['f', 'F', 'u', 'U', 'd', 'D', 'n', 'N', 'v', 'm'];
    assert(vanishing[0] == 'f' && vanishing[1] == 'F' && vanishing[2] == 'u' && vanishing[3]
        == 'U');
    lemma_code_start('f', none, entry);
    lemma_code_start('F', none, entry);
    lemma_code_start('u', none, entry);
    lemma_code_start('U', none, entry);
    assert(seq!['%', 'c'] + none =~= seq!['%', 'c']);
    assert(seq!['%', 'k'] + none =~= seq!['%', 'k']);
    assert(seq!['%', '%'] + none =~= seq!['%', '%']);
    assert(seq!['%', 'f'] + none =~= seq!['%', 'f']);
    assert(seq!['%', 'F'] + none =~= seq!['%', 'F']);
    assert(seq!['%', 'u'] + none =~= seq!['%', 'u']);
    assert(seq!['%', 'U'] + none =~= seq!['%', 'U']);
    assert(entry.name + none =~= entry.name);
    assert(lossy_text(entry.path) + none =~= lossy_text(entry.path));
    assert(seq!['%'] + none =~= seq!['%']);
}

/// Each argument is replaced by itself, in order: the icon code is left out, and so is an argument
/// that comes to nothing.
pub proof fn lemma_args_in_order(before: Seq<Seq<char>>, arg: Seq<char>, entry: EntryView)
    ensures
        expanded_args(seq![], entry) == Seq::<Seq<char>>::empty(),
        expanded_args(before.push(arg), entry) == if arg == seq!['%', 'i'] || expanded_arg(
            arg,
            entry,
        ) == Seq::<char>::empty() {
            expanded_args(before, entry)
        } else {
            expanded_args(before, entry).push(expanded_arg(arg, entry))
        },
{
    reveal_strlit("%i");
    assert("%i"@ =~= seq!['%', 'i']);
    assert(before.push(arg).drop_last() =~= before);
    if expanded_arg(arg, entry).len() == 0 {
        assert(expanded_arg(arg, entry) =~= seq![]);
    }
}

/// An argument depends on no other part of the entry than its name and path.
proof fn lemma_same_arg(arg: Seq<char>, a: EntryView, b: EntryView)
    requires
        a.name == b.name,
        a.path == b.path,
    ensures
        expanded_arg(arg, a) == expanded_arg(arg, b),
    decreases arg.len(),
{
    if arg.len() > 0 {
        lemma_same_arg(arg.drop_first(), a, b);
        if arg.len() > 1 {
            lemma_same_arg(arg.skip(2), a, b);
        }
    }
}

proof fn lemma_same_args(args: Seq<Seq<char>>, a: EntryView, b: EntryView)
    requires
        a.name == b.name,
        a.path == b.path,
    ensures
        expanded_args(args, a) == expanded_args(args, b),
    decreases args.len(),
{
    if args.len() > 0 {
        lemma_same_args(args.drop_last(), a, b);
        lemma_same_arg(args.last(), a, b);
    }
}

/// What is started depends on no other part of an entry than its `Exec` line, its name, its path and
/// whether it runs in a terminal; outside a terminal it does not depend on the terminal's command
/// line.
pub proof fn lemma_same_command(
    a: EntryView,
    b: EntryView,
    terminal: Option<Seq<char>>,
    other: Option<Seq<char>>,
)
    requires
        a.exec_line == b.exec_line,
        a.name == b.name,
        a.path == b.path,
        a.terminal == b.terminal,
    ensures
        started(a, terminal) == started(b, terminal),
        !a.terminal ==> started(a, terminal) == started(b, other),
{
    match shell_split(a.exec_line) {
        Some(words) => lemma_same_args(words, a, b),
        None => {},
    }
}

/// What is started for an entry outside a terminal whose `Exec` line has these words: its arguments.
pub proof fn lemma_started(entry: EntryView, terminal: Option<Seq<char>>, words: Seq<Seq<char>>)
    requires
        shell_split(entry.exec_line) == Some(words),
        expanded_args(words, entry).len() > 0,
        !entry.terminal,
    ensures
        started(entry, terminal) is Ok,
        started(entry, terminal)->Ok_0.program == expanded_args(words, entry)[0],
        started(entry, terminal)->Ok_0.args == expanded_args(words, entry).skip(1),
{
}

/// What is started for an entry in a terminal: the words of the terminal's command line, `-e` and the
/// arguments of the entry. Where no terminal is set, it is `foot`.
pub proof fn lemma_started_in_terminal(
    entry: EntryView,
    terminal: Option<Seq<char>>,
    line: Seq<char>,
    t: Seq<Seq<char>>,
    words: Seq<Seq<char>>,
)
    requires
        shell_split(entry.exec_line) == Some(words),
        expanded_args(words, entry).len() > 0,
        entry.terminal,
        terminal == Some(line) || (terminal is None && line == seq!['f', 'o', 'o', 't']),
        shell_split(line) == Some(t),
        t.len() > 0,
    ensures
        started(entry, terminal) is Ok,
        started(entry, terminal)->Ok_0.program == t[0],
        seq![started(entry, terminal)->Ok_0.program] + started(entry, terminal)->Ok_0.args == t
            + seq![seq!['-', 'e']] + expanded_args(words, entry),
{
    reveal_strlit("-e");
    reveal_strlit("foot");
    assert("-e"@ =~= seq!['-', 'e']);
    assert("foot"@ =~= seq!['f', 'o', 'o', 't']);
    let command = started(entry, terminal)->Ok_0;
    assert(seq![command.program] + command.args =~= t + seq![seq!['-', 'e']] + expanded_args(
        words,
        entry,
    ));
}

/// When nothing is started, and why: a quote left open in the `Exec` line, an `Exec` line that comes
/// to nothing, and, of an entry in a terminal only, a quote left open in the terminal's command line
/// or an empty one. In this order, and for no other reason.
pub proof fn lemma_not_started(entry: EntryView, terminal: Option<Seq<char>>)
    ensures
        ({
            let line = match terminal {
                Some(line) => line,
                None => seq!['f', 'o', 'o', 't'],
            };
            let res = started(entry, terminal);
            let no_args = shell_split(entry.exec_line) is Some && expanded_args(
                shell_split(entry.exec_line)->0,
                entry,
            ).len() == 0;
            let args = shell_split(entry.exec_line) is Some && !no_args;
            &&& (res == Err::<CommandView, LaunchError>(LaunchError::ExecSyntax) <==> shell_split(
                entry.exec_line,
            ) is None)
            &&& (res == Err::<CommandView, LaunchError>(LaunchError::EmptyExec) <==> no_args)
            &&& (res == Err::<CommandView, LaunchError>(LaunchError::TerminalSyntax) <==> args
                && entry.terminal && shell_split(line) is None)
            &&& (res == Err::<CommandView, LaunchError>(LaunchError::EmptyTerminal) <==> args
                && entry.terminal && shell_split(line) == Some(Seq::<Seq<char>>::empty()))
            &&& (res is Ok <==> args && (!entry.terminal || (shell_split(line) is Some
                && shell_split(line)->0.len() > 0)))
        }),
{
    reveal_strlit("foot");
    assert("foot"@ =~= seq!['f', 'o', 'o', 't']);
    match shell_split(terminal_line(terminal)) {
        Some(words) => {
            if words.len() == 0 {
                assert(words =~= Seq::<Seq<char>>::empty());
            }
        },
        None => {},
    }
}

/// A command is the program and then its arguments, each as it was.
pub proof fn lemma_command_words(command: CommandView)
    ensures
        command_words(command).len() == command.args.len() + 1,
        command_words(command)[0] == command.program,
        forall|i: int|
            0 <= i < command.args.len() ==> command_words(command)[i + 1]
                == #[trigger] command.args[i],
{
}

/// The best result is started, or only shown in a dry run, by its own command; where it has none, it
/// fails for the reason that there is none.
pub proof fn lemma_step(result: ResultView, command: CommandView, error: LaunchError)
    ensures
        step_of(result, Ok(command), true) == StepView::Show(result, command),
        step_of(result, Ok(command), false) == StepView::Start(result, command),
        step_of(result, Err(error), true) == StepView::Failed(result, error),
        step_of(result, Err(error), false) == StepView::Failed(result, error),
{
}

/// What the models of commands and launches hold: all of their parts.
pub proof fn lemma_command_models(command: LaunchCommand, error: LaunchError, step: LaunchStep)
    ensures
        command@.program == command.program@,
        command@.args.len() == command.args@.len(),
        forall|i: int|
            0 <= i < command.args@.len() ==> #[trigger] command@.args[i] == command.args@[i]@,
        command_view(Ok(command)) == Ok::<CommandView, LaunchError>(command@),
        command_view(Err(error)) == Err::<CommandView, LaunchError>(error),
        args_view(Err(error)) == Err::<Seq<Seq<char>>, LaunchError>(error),
        args_view(Ok(command.args)) == Ok::<Seq<Seq<char>>, LaunchError>(command@.args),
        match step {
            LaunchStep::NoMatch => step@ == StepView::NoMatch,
            LaunchStep::Failed { result, error } => step@ == StepView::Failed(result@, error),
            LaunchStep::Show { result, command } => step@ == StepView::Show(result@, command@),
            LaunchStep::Start { result, command } => step@ == StepView::Start(result@, command@),
        },
{
}

/// The arguments of a line are the words of the line with their codes replaced, and there are none
/// just where a quote is left open.
pub proof fn lemma_exec_args(words: Seq<Seq<char>>, entry: EntryView)
    ensures
        exec_args(None, entry) == Err::<Seq<Seq<char>>, LaunchError>(LaunchError::ExecSyntax),
        exec_args(Some(words), entry) == Ok::<Seq<Seq<char>>, LaunchError>(
            expanded_args(words, entry),
        ),
{
}

proof fn lemma_blank_split_at(before: Seq<char>, ch: char, after: Seq<char>)
    requires
        blank(ch),
    ensures
        blank_split(before + seq![ch] + after) == (
            plain_words(before) + blank_split(after).0,
            blank_split(after).1,
        ),
    decreases after.len(),
{
    let whole = before + seq![ch] + after;
    if after.len() == 0 {
        assert(whole.drop_last() =~= before);
        assert(plain_words(before) + blank_split(after).0 =~= plain_words(before));
    } else {
        lemma_blank_split_at(before, ch, after.drop_last());
        assert(whole.drop_last() =~= before + seq![ch] + after.drop_last());
        let (some, word) = blank_split(after.drop_last());
        assert(plain_words(before) + some.push(word) =~= (plain_words(before) + some).push(word));
    }
}

/// The words of a plain line: a space, a tab or a newline ends a word, what holds none of these is
/// one word, and of nothing there are no words. A plain line has no quotes, backslashes or hashes.
pub proof fn lemma_plain_split(before: Seq<char>, ch: char, after: Seq<char>)
    ensures
        ch == ' ' || ch == '\t' || ch == '\n' ==> plain_words(before + seq![ch] + after)
            == plain_words(before) + plain_words(after),
        plain_words(seq![]) == Seq::<Seq<char>>::empty(),
        before.len() > 0 && (forall|k: int|
            0 <= k < before.len() ==> #[trigger] before[k] != ' ' && before[k] != '\t' && before[k]
                != '\n') ==> plain_words(before) == seq![before],
        plain_line(before) <==> forall|k: int|
            0 <= k < before.len() ==> #[trigger] before[k] != '\'' && before[k] != '"' && before[k]
                != '\\' && before[k] != '#',
{
    if blank(ch) {
        lemma_blank_split_at(before, ch, after);
        assert(plain_words(before + seq![ch] + after) =~= plain_words(before) + plain_words(after));
    }
    lemma_one_run(before);
    assert(plain_words(seq![]) =~= seq![]);
    if plain_line(before) {
        assert forall|k: int| 0 <= k < before.len() implies #[trigger] before[k] != '\''
            && before[k] != '"' && before[k] != '\\' && before[k] != '#' by {
            assert(before.contains(before[k]));
        }
    }
}

proof fn lemma_one_run(text: Seq<char>)
    ensures
        (forall|k: int|
            0 <= k < text.len() ==> #[trigger] text[k] != ' ' && text[k] != '\t' && text[k]
                != '\n') ==> blank_split(text) == (Seq::<Seq<char>>::empty(), text),
    decreases text.len(),
{
    if text.len() > 0 {
        let head = text.drop_last();
        lemma_one_run(head);
        if forall|k: int|
            0 <= k < text.len() ==> #[trigger] text[k] != ' ' && text[k] != '\t' && text[k]
                != '\n' {
            assert forall|k: int| 0 <= k < head.len() implies #[trigger] head[k] != ' ' && head[k]
                != '\t' && head[k] != '\n' by {
                assert(head[k] == text[k]);
            }
            assert(text[text.len() - 1] != ' ');
            assert(head.push(text.last()) =~= text);
        }
    } else {
        assert(text =~= seq![]);
    }
}

/// A command in a terminal is the terminal's words, `-e` and the command, whatever the command is; it
/// fails just where the terminal's command line has an open quote or no words.
pub proof fn lemma_terminal_command(t: Seq<Seq<char>>, command: Seq<Seq<char>>)
    ensures
        t.len() > 0 ==> terminal_command(Some(t), command) is Ok && seq![
            terminal_command(Some(t), command)->Ok_0.program,
        ] + terminal_command(Some(t), command)->Ok_0.args == t + seq![seq!['-', 'e']] + command,
        t.len() == 0 ==> terminal_command(Some(t), command) == Err::<CommandView, LaunchError>(
            LaunchError::EmptyTerminal,
        ),
        terminal_command(None, command) == Err::<CommandView, LaunchError>(
            LaunchError::TerminalSyntax,
        ),
{
    reveal_strlit("-e");
    assert("-e"@ =~= seq!['-', 'e']);
    if t.len() > 0 {
        let whole = terminal_command(Some(t), command)->Ok_0;
        assert(seq![whole.program] + whole.args =~= t + seq![seq!['-', 'e']] + command);
    }
}

/// What is started, from the arguments and the terminal's words: nothing without arguments; the
/// arguments alone outside a terminal; and in a terminal what the terminal makes of them. Where there
/// are no arguments for a reason, it fails for this reason.
pub proof fn lemma_launch_cases(
    args: Seq<Seq<char>>,
    t: Option<Seq<Seq<char>>>,
    error: LaunchError,
    in_terminal: bool,
)
    ensures
        args.len() > 0 ==> launch_of(Ok(args), t, true) == terminal_command(t, args),
        args.len() > 0 ==> launch_of(Ok(args), t, false) is Ok && seq![
            launch_of(Ok(args), t, false)->Ok_0.program,
        ] + launch_of(Ok(args), t, false)->Ok_0.args == args,
        args.len() == 0 ==> launch_of(Ok(args), t, in_terminal) == Err::<CommandView, LaunchError>(
            LaunchError::EmptyExec,
        ),
        launch_of(Err(error), t, in_terminal) == Err::<CommandView, LaunchError>(error),
{
    if args.len() > 0 {
        let whole = launch_of(Ok(args), t, false)->Ok_0;
        assert(seq![whole.program] + whole.args =~= args);
    }
}

} // verus!

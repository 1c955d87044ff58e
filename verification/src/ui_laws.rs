//! What every key does, and what the window shows.
use vstd::prelude::*;

use crate::canvas::Color;
use crate::history::saved_text;
use crate::launcher::{expanded_args, shell_split, started, CommandView, LaunchError};
use crate::launcher_laws::lemma_started_in_terminal;
use crate::search::search_results;
use crate::telemetry::FieldView;
use crate::text::control;
use crate::ui::{
    after_key, after_launch, configure_view, draw_view, frame_of, highlighted, key_command,
    launch_plan, line_models, maybe_text, moved, printable, settled, shown_lines, words_or_none,
    Frame, Key, KeyCommand, KeyOutcome, LaunchPlan, LauncherView, Line, LineRole, OutcomeView,
};

verus! {

// ---------------------------------------------------------------------------------------------
// Launching
// ---------------------------------------------------------------------------------------------

/// The return key starts the highlighted entry by the command that this entry has in this very
/// terminal. The query stands in the plan, and so does the history file with one launch more of the
/// entry's name and nothing else changed. The window closes.
pub proof fn lemma_return(
    view: LauncherView,
    text: Option<Seq<char>>,
    terminal: Option<Seq<char>>,
    other: Seq<char>,
)
    requires
        0 <= view.selected < view.results.len(),
    ensures
        ({
            let entry = view.results[view.selected].entry;
            let (next, outcome) = after_key(view, Key::Return, text, terminal);
            &&& highlighted(view) == Some(entry)
            &&& outcome is Launch
            &&& outcome->Launch_0.entry == entry
            &&& outcome->Launch_0.query == view.query
            &&& outcome->Launch_0.command == started(entry, terminal)
            &&& outcome->Launch_0.history_text == saved_text(next.counts)
            &&& launch_plan(view, terminal) == Some(outcome->Launch_0)
            &&& next == (LauncherView { counts: next.counts, exit: true, ..view })
            &&& after_launch(view) == next
            &&& next.counts.dom() == view.counts.dom().insert(entry.name)
            &&& next.counts[entry.name] == if !view.counts.contains_key(entry.name) {
                1int
            } else if view.counts[entry.name] < u32::MAX {
                view.counts[entry.name] + 1
            } else {
                u32::MAX as int
            }
            &&& other != entry.name ==> next.counts.contains_key(other)
                == view.counts.contains_key(other) && next.counts[other] == view.counts[other]
        }),
{
    let entry = view.results[view.selected].entry;
    let next = after_key(view, Key::Return, text, terminal).0;
    assert(next.counts.dom() =~= view.counts.dom().insert(entry.name));
}

/// So the return key on an entry in a terminal starts the words of the terminal's command line, then
/// `-e`, then the arguments of the entry.
pub proof fn lemma_return_in_terminal(
    view: LauncherView,
    text: Option<Seq<char>>,
    line: Seq<char>,
    t: Seq<Seq<char>>,
    words: Seq<Seq<char>>,
)
    requires
        0 <= view.selected < view.results.len(),
        view.results[view.selected].entry.terminal,
        shell_split(view.results[view.selected].entry.exec_line) == Some(words),
        expanded_args(words, view.results[view.selected].entry).len() > 0,
        shell_split(line) == Some(t),
        t.len() > 0,
    ensures
        ({
            let outcome = after_key(view, Key::Return, text, Some(line)).1;
            &&& outcome is Launch
            &&& outcome->Launch_0.command is Ok
            &&& seq![outcome->Launch_0.command->Ok_0.program]
                + outcome->Launch_0.command->Ok_0.args == t + seq![seq!['-', 'e']] + expanded_args(
                words,
                view.results[view.selected].entry,
            )
        }),
{
    let entry = view.results[view.selected].entry;
    lemma_return(view, text, Some(line), entry.name);
    lemma_started_in_terminal(entry, Some(line), line, t, words);
}

/// Where nothing is highlighted, the return key only closes the window.
pub proof fn lemma_return_on_nothing(
    view: LauncherView,
    text: Option<Seq<char>>,
    terminal: Option<Seq<char>>,
)
    requires
        view.selected >= view.results.len(),
    ensures
        highlighted(view) is None,
        launch_plan(view, terminal) is None,
        after_launch(view) == (LauncherView { exit: true, ..view }),
        after_key(view, Key::Return, text, terminal) == (
            LauncherView { exit: true, ..view },
            OutcomeView::Nothing,
        ),
{
}

/// The words of a command are its program and arguments; of no command there are none.
pub proof fn lemma_plan_words(command: CommandView, error: LaunchError)
    ensures
        words_or_none(Ok(command)) == seq![command.program] + command.args,
        words_or_none(Err(error)) == Seq::<Seq<char>>::empty(),
{
}

// ---------------------------------------------------------------------------------------------
// Keys
// ---------------------------------------------------------------------------------------------

/// The escape key closes the window, and so does C while the control key is held. Nothing else
/// changes.
pub proof fn lemma_close_keys(
    view: LauncherView,
    text: Option<Seq<char>>,
    terminal: Option<Seq<char>>,
)
    ensures
        after_key(view, Key::Escape, text, terminal) == (
            LauncherView { exit: true, ..view },
            OutcomeView::Nothing,
        ),
        view.ctrl_active && view.keyboard_focus ==> after_key(view, Key::C, text, terminal) == (
            LauncherView { exit: true, ..view },
            OutcomeView::Nothing,
        ),
{
}

/// The backspace key takes the last character off the query, and so does H while the control key is
/// held; U empties the query then. What is listed is what the new query finds, at least one result
/// if any is found, and the first of it is highlighted. Nothing else changes.
pub proof fn lemma_editing_keys(
    view: LauncherView,
    query: Seq<char>,
    text: Option<Seq<char>>,
    terminal: Option<Seq<char>>,
)
    requires
        view.query.len() > 0 ==> query == view.query.take(view.query.len() - 1),
        view.query.len() == 0 ==> query.len() == 0,
    ensures
        ({
            let limit = if view.max_results == 0 {
                1
            } else {
                view.max_results
            };
            let ctrl = view.ctrl_active && view.keyboard_focus;
            let shorter = (
                LauncherView {
                    query,
                    results: search_results(view.index, query, limit),
                    selected: 0,
                    ..view
                },
                OutcomeView::Redraw,
            );
            let none = Seq::<char>::empty();
            let cleared = (
                LauncherView {
                    query: none,
                    results: search_results(view.index, none, limit),
                    selected: 0,
                    ..view
                },
                OutcomeView::Redraw,
            );
            &&& after_key(view, Key::BackSpace, text, terminal) == shorter
            &&& ctrl ==> after_key(view, Key::H, text, terminal) == shorter
            &&& ctrl ==> after_key(view, Key::U, text, terminal) == cleared
        }),
{
    if view.query.len() > 0 {
        assert(view.query.drop_last() =~= query);
    } else {
        assert(view.query =~= query);
    }
    assert(Seq::<char>::empty() =~= seq![]);
}

/// The down key moves the highlight to the next result and from the last to the first, the up key to
/// the one before and from the first to the last; so do J and K while the control key is held.
/// Nothing else changes.
pub proof fn lemma_moving_keys(
    view: LauncherView,
    text: Option<Seq<char>>,
    terminal: Option<Seq<char>>,
)
    requires
        0 <= view.selected,
        view.selected < view.results.len() || (view.selected == 0 && view.results.len() == 0),
    ensures
        ({
            let ctrl = view.ctrl_active && view.keyboard_focus;
            let last = view.results.len() - 1;
            let down = (
                LauncherView {
                    selected: if view.selected >= last {
                        0
                    } else {
                        view.selected + 1
                    },
                    ..view
                },
                OutcomeView::Redraw,
            );
            let up = (
                LauncherView {
                    selected: if view.selected > 0 {
                        view.selected - 1
                    } else if last > 0 {
                        last
                    } else {
                        0
                    },
                    ..view
                },
                OutcomeView::Redraw,
            );
            &&& after_key(view, Key::Down, text, terminal) == down
            &&& after_key(view, Key::Up, text, terminal) == up
            &&& ctrl ==> after_key(view, Key::J, text, terminal) == down
            &&& ctrl ==> after_key(view, Key::K, text, terminal) == up
        }),
{
    let len = view.results.len() as int;
    if len > 0 {
        let at = view.selected;
        if at == len - 1 {
            vstd::arithmetic::div_mod::lemma_mod_self_0(len);
        } else {
            vstd::arithmetic::div_mod::lemma_small_mod((at + 1) as nat, len as nat);
        }
        if at == 0 {
            vstd::arithmetic::div_mod::lemma_mod_add_multiples_vanish(-1, len);
            vstd::arithmetic::div_mod::lemma_small_mod((len - 1) as nat, len as nat);
        } else {
            vstd::arithmetic::div_mod::lemma_small_mod((at - 1) as nat, len as nat);
        }
    }
}

/// Moving the highlight by any number of places leaves it in the list, whole rounds away from where
/// that many places lead; nothing else changes.
pub proof fn lemma_moved_by(view: LauncherView, delta: int)
    requires
        view.results.len() > 0,
    ensures
        moved(view, delta) == (LauncherView { selected: moved(view, delta).selected, ..view }),
        0 <= moved(view, delta).selected < view.results.len(),
        moved(view, delta).selected == (view.selected + delta) % (view.results.len() as int),
{
    vstd::arithmetic::div_mod::lemma_mod_bound(view.selected + delta, view.results.len() as int);
}

/// Without the control key every other key adds its text to the query, unless it holds a control
/// character. What is listed is what the new query finds, and the first of it is highlighted. A
/// key without such a text changes nothing.
pub proof fn lemma_typing_keys(
    view: LauncherView,
    key: Key,
    text: Seq<char>,
    terminal: Option<Seq<char>>,
)
    requires
        !(view.ctrl_active && view.keyboard_focus),
        key != Key::Escape,
        key != Key::Return,
        key != Key::BackSpace,
        key != Key::Up,
        key != Key::Down,
    ensures
        (forall|i: int| 0 <= i < text.len() ==> !control(#[trigger] text[i])) ==> after_key(
            view,
            key,
            Some(text),
            terminal,
        ) == (
            LauncherView {
                query: view.query + text,
                results: search_results(
                    view.index,
                    view.query + text,
                    if view.max_results == 0 {
                        1
                    } else {
                        view.max_results
                    },
                ),
                selected: 0,
                ..view
            },
            OutcomeView::Redraw,
        ),
        forall|i: int|
            0 <= i < text.len() && control(#[trigger] text[i]) ==> after_key(
                view,
                key,
                Some(text),
                terminal,
            ) == (view, OutcomeView::Nothing),
        after_key(view, key, None, terminal) == (view, OutcomeView::Nothing),
{
}

/// While the control key is held, a key that has no meaning of its own then changes nothing.
pub proof fn lemma_idle_keys(
    view: LauncherView,
    text: Option<Seq<char>>,
    terminal: Option<Seq<char>>,
)
    requires
        view.ctrl_active,
        view.keyboard_focus,
    ensures
        after_key(view, Key::Other, text, terminal) == (view, OutcomeView::Nothing),
{
}

/// A window is settled just where what is listed is what the query finds, up to the greatest number
/// of results or one where that is none, and what is highlighted is listed; of an empty list the
/// first place is highlighted.
pub proof fn lemma_settled_window(view: LauncherView)
    ensures
        settled(view) <==> {
            &&& view.results == search_results(
                view.index,
                view.query,
                if view.max_results == 0 {
                    1
                } else {
                    view.max_results
                },
            )
            &&& view.results.len() > 0 ==> 0 <= view.selected < view.results.len()
            &&& view.results.len() == 0 ==> view.selected == 0
        },
{
}

/// A text is printable just where none of its characters is a control character.
pub proof fn lemma_printable(text: Seq<char>)
    ensures
        printable(text) <==> forall|i: int| 0 <= i < text.len() ==> !control(#[trigger] text[i]),
{
}

/// What each key asks for, with and without the control key.
pub proof fn lemma_key_commands(ctrl: bool)
    ensures
        key_command(Key::Escape, ctrl) == KeyCommand::Close,
        key_command(Key::Return, ctrl) == KeyCommand::Launch,
        key_command(Key::BackSpace, ctrl) == KeyCommand::Shorten,
        key_command(Key::Up, ctrl) == KeyCommand::Up,
        key_command(Key::Down, ctrl) == KeyCommand::Down,
        key_command(Key::H, true) == KeyCommand::Shorten,
        key_command(Key::U, true) == KeyCommand::Clear,
        key_command(Key::C, true) == KeyCommand::Close,
        key_command(Key::J, true) == KeyCommand::Down,
        key_command(Key::K, true) == KeyCommand::Up,
        key_command(Key::Other, true) == KeyCommand::Ignore,
        key_command(Key::H, false) == KeyCommand::Type,
        key_command(Key::U, false) == KeyCommand::Type,
        key_command(Key::C, false) == KeyCommand::Type,
        key_command(Key::J, false) == KeyCommand::Type,
        key_command(Key::K, false) == KeyCommand::Type,
        key_command(Key::Other, false) == KeyCommand::Type,
{
}

// ---------------------------------------------------------------------------------------------
// Drawing
// ---------------------------------------------------------------------------------------------

/// The window shows the query, if anything was typed, and below it the names of the results in
/// order: the highlighted one in its own colour, all others in white.
pub proof fn lemma_shown(view: LauncherView, i: int)
    requires
        0 <= i < view.results.len(),
    ensures
        ({
            let lines = shown_lines(view);
            let head: int = if view.query.len() > 0 {
                1
            } else {
                0
            };
            &&& lines.len() == head + view.results.len()
            &&& view.query.len() > 0 ==> lines[0].text == view.query && lines[0].role
                == LineRole::Query && lines[0].color == (Color { r: 245, g: 247, b: 255 })
            &&& lines[head + i].text == view.results[i].entry.name
            &&& lines[head + i].role == LineRole::Result
            &&& i == view.selected ==> lines[head + i].color == (Color { r: 255, g: 99, b: 71 })
            &&& i != view.selected ==> lines[head + i].color == (Color { r: 255, g: 255, b: 255 })
        }),
{
}

/// Where nothing is listed the window shows the query alone, and nothing before anything was typed.
pub proof fn lemma_shown_alone(view: LauncherView)
    requires
        view.results.len() == 0,
    ensures
        view.query.len() == 0 ==> shown_lines(view).len() == 0,
        view.query.len() > 0 ==> shown_lines(view).len() == 1 && shown_lines(view)[0].text
            == view.query && shown_lines(view)[0].role == LineRole::Query
            && shown_lines(view)[0].color == (Color { r: 245, g: 247, b: 255 }),
{
}

/// A buffer has the size of the window times the scale, which is at least one, and no side that is
/// too long for 32 bits; a row of a usual size has four bytes for each of its pixels.
pub proof fn lemma_frame_size(width: u32, height: u32, render_scale: u32)
    ensures
        ({
            let frame = frame_of(width, height, render_scale);
            let scale: int = if render_scale == 0 {
                1
            } else {
                render_scale as int
            };
            &&& frame.width == width
            &&& frame.height == height
            &&& frame.render_scale == scale
            &&& frame.buffer_width == if width * scale <= 0xffff_ffff {
                width * scale
            } else {
                0xffff_ffff
            }
            &&& frame.buffer_height == if height * scale <= 0xffff_ffff {
                height * scale
            } else {
                0xffff_ffff
            }
            &&& frame.stride == (frame.buffer_width as i32).wrapping_mul(4)
            &&& width * scale <= 0x1fff_ffff ==> frame.stride == 4 * (width * scale)
        }),
{
}

proof fn lemma_draw_labels()
    ensures
        "width"@ != "height"@,
        "width"@ != "buffer_width"@,
        "width"@ != "buffer_height"@,
        "width"@ != "render_scale"@,
        "width"@ != "duration_ns"@,
        "width"@ != "query_len"@,
        "width"@ != "results"@,
        "height"@ != "buffer_width"@,
        "height"@ != "buffer_height"@,
        "height"@ != "render_scale"@,
        "height"@ != "duration_ns"@,
        "height"@ != "query_len"@,
        "height"@ != "results"@,
        "buffer_width"@ != "buffer_height"@,
        "buffer_width"@ != "render_scale"@,
        "buffer_width"@ != "duration_ns"@,
        "buffer_width"@ != "query_len"@,
        "buffer_width"@ != "results"@,
        "buffer_height"@ != "render_scale"@,
        "buffer_height"@ != "duration_ns"@,
        "buffer_height"@ != "query_len"@,
        "buffer_height"@ != "results"@,
        "render_scale"@ != "duration_ns"@,
        "render_scale"@ != "query_len"@,
        "render_scale"@ != "results"@,
        "duration_ns"@ != "query_len"@,
        "duration_ns"@ != "results"@,
        "query_len"@ != "results"@,
        "startup_to_configure_ns"@ != "width"@,
        "startup_to_configure_ns"@ != "height"@,
{
    reveal_strlit("width");
    reveal_strlit("height");
    reveal_strlit("buffer_width");
    reveal_strlit("buffer_height");
    reveal_strlit("render_scale");
    reveal_strlit("duration_ns");
    reveal_strlit("query_len");
    reveal_strlit("results");
    reveal_strlit("startup_to_configure_ns");
    assert("width"@[0] == 'w' && "height"@[0] == 'h' && "buffer_width"@[0] == 'b'
        && "buffer_height"@[0] == 'b' && "render_scale"@[0] == 'r' && "duration_ns"@[0] == 'd'
        && "query_len"@[0] == 'q' && "results"@[0] == 'r' && "startup_to_configure_ns"@[0] == 's');
    assert("buffer_width"@.len() == 12 && "buffer_height"@.len() == 13);
    assert("render_scale"@.len() == 12 && "results"@.len() == 7);
}

/// The event that the window was drawn tells the size of the window and of its buffer, the scale,
/// the time it took, the length of the query in characters and how many results are listed.
pub proof fn lemma_draw_event(view: LauncherView, frame: Frame, duration_ns: u64)
    ensures
        ({
            let fields = draw_view(view, frame, duration_ns);
            &&& fields.dom() == set![
                "width"@,
                "height"@,
                "buffer_width"@,
                "buffer_height"@,
                "render_scale"@,
                "duration_ns"@,
                "query_len"@,
                "results"@,
            ]
            &&& fields["width"@] == FieldView::Number(frame.width as int)
            &&& fields["height"@] == FieldView::Number(frame.height as int)
            &&& fields["buffer_width"@] == FieldView::Number(frame.buffer_width as int)
            &&& fields["buffer_height"@] == FieldView::Number(frame.buffer_height as int)
            &&& fields["render_scale"@] == FieldView::Number(frame.render_scale as int)
            &&& fields["duration_ns"@] == FieldView::Number(duration_ns as int)
            &&& fields["query_len"@] == FieldView::Number(view.query.len() as int)
            &&& fields["results"@] == FieldView::Number(view.results.len() as int)
        }),
{
    lemma_draw_labels();
    assert(draw_view(view, frame, duration_ns).dom() =~= set![
        "width"@,
        "height"@,
        "buffer_width"@,
        "buffer_height"@,
        "render_scale"@,
        "duration_ns"@,
        "query_len"@,
        "results"@,
    ]);
}

/// The event that the window has its first size tells this size and how long it took.
pub proof fn lemma_configure_event(view: LauncherView, startup_ns: u64)
    ensures
        ({
            let fields = configure_view(view, startup_ns);
            &&& fields.dom() == set!["width"@, "height"@, "startup_to_configure_ns"@]
            &&& fields["width"@] == FieldView::Number(view.width as int)
            &&& fields["height"@] == FieldView::Number(view.height as int)
            &&& fields["startup_to_configure_ns"@] == FieldView::Number(startup_ns as int)
        }),
{
    lemma_draw_labels();
    assert(configure_view(view, startup_ns).dom() =~= set![
        "width"@,
        "height"@,
        "startup_to_configure_ns"@,
    ]);
}

/// What the models of plans, outcomes and lines hold: all of their parts.
pub proof fn lemma_window_models(
    plan: LaunchPlan,
    outcome: KeyOutcome,
    line: Line,
    lines: Seq<Line>,
    text: &str,
)
    ensures
        plan@.entry == plan.entry@,
        plan@.query == plan.query@,
        plan.command is Ok ==> plan@.command == Ok::<CommandView, LaunchError>(plan.command->Ok_0@),
        plan.command is Err ==> plan@.command == Err::<CommandView, LaunchError>(
            plan.command->Err_0,
        ),
        plan@.history_text == plan.history_text@,
        match outcome {
            KeyOutcome::Nothing => outcome@ == OutcomeView::Nothing,
            KeyOutcome::Redraw => outcome@ == OutcomeView::Redraw,
            KeyOutcome::Launch(plan) => outcome@ == OutcomeView::Launch(plan@),
        },
        line@.text == line.text@,
        line@.role == line.role,
        line@.color == line.color,
        line_models(lines).len() == lines.len(),
        forall|i: int| 0 <= i < lines.len() ==> #[trigger] line_models(lines)[i] == lines[i]@,
        maybe_text(Some(text)) == Some(text@),
        maybe_text(None) is None,
{
}

} // verus!

//! The state of the launcher window: what was typed, what is listed and what is highlighted.
use vstd::arithmetic::div_mod::lemma_fundamental_div_mod_converse;
use vstd::prelude::*;

use crate::canvas::Color;
use crate::desktop::{DesktopEntry, EntryView};
use crate::events::{selected_fields, selected_view};
use crate::history::{incremented, saved_text, History};
use crate::launcher::{
    build_launch_command, command_view, command_words, started, CommandView, LaunchCommand,
    LaunchError,
};
use crate::search::{
    result_views, search_results, DocView, ResultView, SearchIndex, SearchResult,
};
use crate::telemetry::{
    insert_field, new_record, no_fields, record_fields, FieldValue, FieldView, Record,
};
use crate::text::{control, from_chars, is_control, string_views, to_chars};

verus! {

// ---------------------------------------------------------------------------------------------
// Model
// ---------------------------------------------------------------------------------------------

/// What was typed, what is listed for it and which of that is highlighted.
#[derive(Debug)]
struct Shown {
    query: String,
    results: Vec<SearchResult>,
    selected: usize,
}

/// An index and what is listed of it.
#[derive(Debug)]
struct Listing {
    index: SearchIndex,
    max_results: usize,
    shown: Shown,
}

/// The state of the launcher window.
#[derive(Debug)]
pub struct Launcher {
    listing: Listing,
    history: History,
    ctrl_active: bool,
    keyboard_focus: bool,
    width: u32,
    height: u32,
    first_configure: bool,
    exit: bool,
}

/// The model of a [`Launcher`].
#[verifier::ext_equal]
pub struct LauncherView {
    pub index: Seq<DocView>,
    pub counts: Map<Seq<char>, u32>,
    pub max_results: nat,
    pub query: Seq<char>,
    pub results: Seq<ResultView>,
    pub selected: int,
    pub ctrl_active: bool,
    pub keyboard_focus: bool,
    pub width: u32,
    pub height: u32,
    pub first_configure: bool,
    pub exit: bool,
}

impl View for Launcher {
    type V = LauncherView;

    closed spec fn view(&self) -> LauncherView {
        LauncherView {
            index: self.listing.index@,
            counts: self.history@,
            max_results: self.listing.max_results as nat,
            query: self.listing.shown.query@,
            results: result_views(self.listing.shown.results@),
            selected: self.listing.shown.selected as int,
            ctrl_active: self.ctrl_active,
            keyboard_focus: self.keyboard_focus,
            width: self.width,
            height: self.height,
            first_configure: self.first_configure,
            exit: self.exit,
        }
    }
}

/// How many results are listed at most: one, however few are asked for.
pub open spec fn listed_at_most(max_results: nat) -> nat {
    if max_results > 1 {
        max_results
    } else {
        1
    }
}

/// What is listed for a query.
pub open spec fn listing(view: LauncherView, query: Seq<char>) -> Seq<ResultView> {
    search_results(view.index, query, listed_at_most(view.max_results))
}

/// Whether a place is in a list; of an empty list only the first is.
pub open spec fn in_list(selected: int, len: nat) -> bool {
    0 <= selected && (selected < len || (selected == 0 && len == 0))
}

/// Whether what is listed is what the query finds, and what is highlighted is listed.
pub open spec fn settled(view: LauncherView) -> bool {
    &&& view.results == listing(view, view.query)
    &&& in_list(view.selected, view.results.len())
}

/// The window after the query changed to this one: the first result is highlighted.
pub open spec fn with_query(view: LauncherView, query: Seq<char>) -> LauncherView {
    LauncherView { query, results: listing(view, query), selected: 0, ..view }
}

/// The window after the highlight moved down by `delta`, round the ends of the list.
pub open spec fn moved(view: LauncherView, delta: int) -> LauncherView {
    LauncherView {
        selected: if view.results.len() == 0 {
            0
        } else {
            (view.selected + delta) % view.results.len() as int
        },
        ..view
    }
}

/// The query without its last character.
pub open spec fn shortened(query: Seq<char>) -> Seq<char> {
    if query.len() == 0 {
        query
    } else {
        query.drop_last()
    }
}

/// The entry that is highlighted.
pub open spec fn highlighted(view: LauncherView) -> Option<EntryView> {
    if 0 <= view.selected < view.results.len() {
        Some(view.results[view.selected].entry)
    } else {
        None
    }
}

/// Whether a text holds no control characters.
pub open spec fn printable(text: Seq<char>) -> bool {
    forall|i: int| 0 <= i < text.len() ==> !control(#[trigger] text[i])
}

/// Whether a text holds no control characters.
pub fn is_printable_text(text: &str) -> (res: bool)
    ensures
        res == printable(text@),
{
    let chars: Vec<char> = to_chars(text);
    let mut i: usize = 0;
    while i < chars.len()
        invariant
            i <= chars@.len(),
            chars@ == text@,
            forall|k: int| 0 <= k < i ==> !control(#[trigger] text@[k]),
        decreases chars@.len() - i,
    {
        if is_control(chars[i]) {
            return false;
        }
        i += 1;
    }
    true
}

// ---------------------------------------------------------------------------------------------
// Keys
// ---------------------------------------------------------------------------------------------

/// The keys that do more than type.
#[derive(Debug, Clone, Copy, PartialEq, Eq, Structural)]
pub enum Key {
    Escape,
    Return,
    BackSpace,
    Up,
    Down,
    H,
    U,
    C,
    J,
    K,
    Other,
}

/// What a key asks for.
#[derive(Debug, Clone, Copy, PartialEq, Eq, Structural)]
pub enum KeyCommand {
    /// Close the window.
    Close,
    /// Start the highlighted entry.
    Launch,
    /// Take the last character off the query.
    Shorten,
    /// Empty the query.
    Clear,
    /// Move the highlight up.
    Up,
    /// Move the highlight down.
    Down,
    /// Add the key's text to the query.
    Type,
    /// Nothing.
    Ignore,
}

/// What a key asks for. The control key gives some letters a meaning of their own and takes all
/// others theirs.
pub open spec fn key_command(key: Key, ctrl: bool) -> KeyCommand {
    match key {
        Key::Escape => KeyCommand::Close,
        Key::Return => KeyCommand::Launch,
        Key::BackSpace => KeyCommand::Shorten,
        Key::Up => KeyCommand::Up,
        Key::Down => KeyCommand::Down,
        Key::H if ctrl => KeyCommand::Shorten,
        Key::U if ctrl => KeyCommand::Clear,
        Key::C if ctrl => KeyCommand::Close,
        Key::J if ctrl => KeyCommand::Down,
        Key::K if ctrl => KeyCommand::Up,
        _ => if ctrl {
            KeyCommand::Ignore
        } else {
            KeyCommand::Type
        },
    }
}

/// What a key asks for.
pub fn command_for(key: Key, ctrl: bool) -> (res: KeyCommand)
    ensures
        res == key_command(key, ctrl),
{
    match key {
        Key::Escape => KeyCommand::Close,
        Key::Return => KeyCommand::Launch,
        Key::BackSpace => KeyCommand::Shorten,
        Key::Up => KeyCommand::Up,
        Key::Down => KeyCommand::Down,
        Key::H if ctrl => KeyCommand::Shorten,
        Key::U if ctrl => KeyCommand::Clear,
        Key::C if ctrl => KeyCommand::Close,
        Key::J if ctrl => KeyCommand::Down,
        Key::K if ctrl => KeyCommand::Up,
        _ => if ctrl {
            KeyCommand::Ignore
        } else {
            KeyCommand::Type
        },
    }
}

/// What is left to do to start an entry.
#[derive(Debug)]
pub struct LaunchPlan {
    /// The entry to start.
    pub entry: DesktopEntry,
    /// What was typed.
    pub query: String,
    /// What is started, or why nothing can be.
    pub command: Result<LaunchCommand, LaunchError>,
    /// The history file to write.
    pub history_text: String,
}

/// The model of a [`LaunchPlan`].
#[verifier::ext_equal]
pub struct PlanView {
    pub entry: EntryView,
    pub query: Seq<char>,
    pub command: Result<CommandView, LaunchError>,
    pub history_text: Seq<char>,
}

impl View for LaunchPlan {
    type V = PlanView;

    open spec fn view(&self) -> PlanView {
        PlanView {
            entry: self.entry@,
            query: self.query@,
            command: command_view(self.command),
            history_text: self.history_text@,
        }
    }
}

/// The words of a command, or none where there is no command.
pub open spec fn words_or_none(command: Result<CommandView, LaunchError>) -> Seq<Seq<char>> {
    match command {
        Ok(command) => command_words(command),
        Err(_) => seq![],
    }
}

impl LaunchPlan {
    /// The fields of the event that the entry was chosen.
    pub fn fields(&self) -> (res: Record)
        ensures
            record_fields(res) == selected_view(
                self@.entry.name,
                self@.query,
                words_or_none(self@.command),
            ),
    {
        let command: Vec<String> = match &self.command {
            Ok(command) => command.as_vec(),
            Err(_) => Vec::new(),
        };
        assert(string_views(command@) =~= words_or_none(self@.command));
        selected_fields(self.entry.name.as_str(), self.query.as_str(), &command)
    }
}

/// What is left to do after a key.
#[derive(Debug)]
pub enum KeyOutcome {
    /// Nothing.
    Nothing,
    /// Draw the window.
    Redraw,
    /// Start an entry.
    Launch(LaunchPlan),
}

/// The model of a [`KeyOutcome`].
#[verifier::ext_equal]
pub enum OutcomeView {
    Nothing,
    Redraw,
    Launch(PlanView),
}

impl View for KeyOutcome {
    type V = OutcomeView;

    open spec fn view(&self) -> OutcomeView {
        match self {
            KeyOutcome::Nothing => OutcomeView::Nothing,
            KeyOutcome::Redraw => OutcomeView::Redraw,
            KeyOutcome::Launch(plan) => OutcomeView::Launch(plan@),
        }
    }
}

/// The window after an entry was started: the launch is counted, and the window closes.
pub open spec fn after_launch(view: LauncherView) -> LauncherView {
    LauncherView {
        counts: match highlighted(view) {
            Some(entry) => incremented(view.counts, entry.name),
            None => view.counts,
        },
        exit: true,
        ..view
    }
}

/// What is left to do to start the highlighted entry, if there is one.
pub open spec fn launch_plan(view: LauncherView, terminal: Option<Seq<char>>) -> Option<PlanView> {
    match highlighted(view) {
        Some(entry) => Some(
            PlanView {
                entry,
                query: view.query,
                command: started(entry, terminal),
                history_text: saved_text(incremented(view.counts, entry.name)),
            },
        ),
        None => None,
    }
}

/// The window and what is left to do after a key.
pub open spec fn after_key(
    view: LauncherView,
    key: Key,
    text: Option<Seq<char>>,
    terminal: Option<Seq<char>>,
) -> (LauncherView, OutcomeView) {
    match key_command(key, view.ctrl_active && view.keyboard_focus) {
        KeyCommand::Close => (LauncherView { exit: true, ..view }, OutcomeView::Nothing),
        KeyCommand::Launch => (
            after_launch(view),
            match launch_plan(view, terminal) {
                Some(plan) => OutcomeView::Launch(plan),
                None => OutcomeView::Nothing,
            },
        ),
        KeyCommand::Shorten => (with_query(view, shortened(view.query)), OutcomeView::Redraw),
        KeyCommand::Clear => (with_query(view, seq![]), OutcomeView::Redraw),
        KeyCommand::Up => (moved(view, -1), OutcomeView::Redraw),
        KeyCommand::Down => (moved(view, 1), OutcomeView::Redraw),
        KeyCommand::Type => match text {
            Some(text) => if printable(text) {
                (with_query(view, view.query + text), OutcomeView::Redraw)
            } else {
                (view, OutcomeView::Nothing)
            },
            None => (view, OutcomeView::Nothing),
        },
        KeyCommand::Ignore => (view, OutcomeView::Nothing),
    }
}

// ---------------------------------------------------------------------------------------------
// Drawing
// ---------------------------------------------------------------------------------------------

/// What a line of the window shows.
#[derive(Debug, Clone, Copy, PartialEq, Eq, Structural)]
pub enum LineRole {
    Query,
    Result,
}

/// A line of the window.
#[derive(Debug)]
pub struct Line {
    pub text: String,
    pub role: LineRole,
    pub color: Color,
}

/// The model of a [`Line`].
#[verifier::ext_equal]
pub struct LineView {
    pub text: Seq<char>,
    pub role: LineRole,
    pub color: Color,
}

impl View for Line {
    type V = LineView;

    open spec fn view(&self) -> LineView {
        LineView { text: self.text@, role: self.role, color: self.color }
    }
}

/// The models of a list of lines.
pub open spec fn line_models(lines: Seq<Line>) -> Seq<LineView> {
    Seq::new(lines.len(), |i: int| lines[i]@)
}

/// The colour of what was typed.
pub open spec fn query_color() -> Color {
    Color { r: 245, g: 247, b: 255 }
}

/// The colour of a result.
pub open spec fn result_color(is_selected: bool) -> Color {
    if is_selected {
        Color { r: 255, g: 99, b: 71 }
    } else {
        Color { r: 255, g: 255, b: 255 }
    }
}

/// The line of what was typed, if anything was.
pub open spec fn query_lines(view: LauncherView) -> Seq<LineView> {
    if view.query.len() > 0 {
        seq![LineView { text: view.query, role: LineRole::Query, color: query_color() }]
    } else {
        seq![]
    }
}

/// The line of a result.
pub open spec fn result_line(view: LauncherView, i: int) -> LineView {
    LineView {
        text: view.results[i].entry.name,
        role: LineRole::Result,
        color: result_color(i == view.selected),
    }
}

/// The lines of the window: what was typed, then the names of the results.
pub open spec fn shown_lines(view: LauncherView) -> Seq<LineView> {
    query_lines(view) + Seq::new(view.results.len(), |i: int| result_line(view, i))
}

/// How large the window and its buffer are.
#[derive(Debug, Clone, Copy, PartialEq, Eq, Structural)]
pub struct Frame {
    pub width: u32,
    pub height: u32,
    pub render_scale: u32,
    pub buffer_width: u32,
    pub buffer_height: u32,
    pub stride: i32,
}

/// The product of two sizes, or the greatest size.
pub open spec fn scaled(size: u32, scale: u32) -> u32 {
    if size * scale <= u32::MAX {
        (size * scale) as u32
    } else {
        u32::MAX
    }
}

/// A scale that is at least one.
pub open spec fn proper_scale(scale: u32) -> u32 {
    if scale > 1 {
        scale
    } else {
        1
    }
}

/// How large the window and its buffer are at a scale.
pub open spec fn frame_of(width: u32, height: u32, render_scale: u32) -> Frame {
    let scale = proper_scale(render_scale);
    Frame {
        width,
        height,
        render_scale: scale,
        buffer_width: scaled(width, scale),
        buffer_height: scaled(height, scale),
        stride: (scaled(width, scale) as i32).wrapping_mul(4),
    }
}

/// The fields of the event that the window was drawn.
pub open spec fn draw_view(view: LauncherView, frame: Frame, duration_ns: u64) -> Map<
    Seq<char>,
    FieldView,
> {
    no_fields().insert("width"@, FieldView::Number(frame.width as int)).insert(
        "height"@,
        FieldView::Number(frame.height as int),
    ).insert("buffer_width"@, FieldView::Number(frame.buffer_width as int)).insert(
        "buffer_height"@,
        FieldView::Number(frame.buffer_height as int),
    ).insert("render_scale"@, FieldView::Number(frame.render_scale as int)).insert(
        "duration_ns"@,
        FieldView::Number(duration_ns as int),
    ).insert("query_len"@, FieldView::Number(view.query.len() as int)).insert(
        "results"@,
        FieldView::Number(view.results.len() as int),
    )
}

/// The fields of the event that the window has its first size.
pub open spec fn configure_view(view: LauncherView, startup_ns: u64) -> Map<Seq<char>, FieldView> {
    no_fields().insert("width"@, FieldView::Number(view.width as int)).insert(
        "height"@,
        FieldView::Number(view.height as int),
    ).insert("startup_to_configure_ns"@, FieldView::Number(startup_ns as int))
}

fn scale_size(size: u32, scale: u32) -> (res: u32)
    ensures
        res == scaled(size, scale),
{
    match size.checked_mul(scale) {
        Some(product) => product,
        None => u32::MAX,
    }
}

// ---------------------------------------------------------------------------------------------
// The launcher
// ---------------------------------------------------------------------------------------------

/// The model of a text that may be missing.
pub open spec fn maybe_text(text: Option<&str>) -> Option<Seq<char>> {
    match text {
        Some(text) => Some(text@),
        None => None,
    }
}

impl Listing {
    #[verifier::type_invariant]
    spec fn inv(self) -> bool {
        &&& result_views(self.shown.results@) == search_results(
            self.index@,
            self.shown.query@,
            listed_at_most(self.max_results as nat),
        )
        &&& in_list(self.shown.selected as int, self.shown.results@.len())
    }

    fn search(index: &SearchIndex, max_results: usize, query: &str) -> (res: Vec<SearchResult>)
        ensures
            result_views(res@) == search_results(
                index@,
                query@,
                listed_at_most(max_results as nat),
            ),
    {
        let limit: usize = if max_results > 1 {
            max_results
        } else {
            1
        };
        index.search(query, limit)
    }

    /// Lists what a query finds and highlights the first result.
    fn show(&mut self, query: String)
        ensures
            final(self).index == old(self).index,
            final(self).max_results == old(self).max_results,
            final(self).shown.query@ == query@,
            result_views(final(self).shown.results@) == search_results(
                old(self).index@,
                query@,
                listed_at_most(old(self).max_results as nat),
            ),
            final(self).shown.selected == 0,
    {
        let results: Vec<SearchResult> = Self::search(
            &self.index,
            self.max_results,
            query.as_str(),
        );
        self.shown = Shown { query, results, selected: 0 };
    }
}

/// Moves a place in a list by `delta`, round its ends.
fn rotate(selected: usize, delta: isize, len: usize) -> (res: usize)
    requires
        selected < len,
    ensures
        res == (selected + delta) % len as int,
        res < len,
{
    let step: usize = if delta >= 0 {
        delta as usize % len
    } else {
        len - 1 - (-(delta + 1)) as usize % len
    };
    proof {
        vstd::arithmetic::div_mod::lemma_mod_bound(selected + delta, len as int);
        lemma_step(delta as int, step as int, len as int);
    }
    let room: usize = len - step;
    let res: usize = if selected < room {
        selected + step
    } else {
        selected - room
    };
    proof {
        let turns = (delta - step) / len as int;
        vstd::arithmetic::div_mod::lemma_fundamental_div_mod(delta - step, len as int);
        if selected < room {
            assert(selected + delta == turns * len + res) by (nonlinear_arith)
                requires
                    delta - step == len * turns,
                    res == selected + step,
            ;
            lemma_fundamental_div_mod_converse(selected + delta, len as int, turns, res as int);
        } else {
            assert(selected + delta == (turns + 1) * len + res) by (nonlinear_arith)
                requires
                    delta - step == len * turns,
                    res == selected + step - len,
            ;
            lemma_fundamental_div_mod_converse(selected + delta, len as int, turns + 1, res as int);
        }
    }
    res
}

/// A step forward that comes to the same place as `delta`.
proof fn lemma_step(delta: int, step: int, len: int)
    requires
        len > 0,
        delta >= 0 ==> step == delta % len,
        delta < 0 ==> step == len - 1 - (-(delta + 1)) % len,
    ensures
        0 <= step < len,
        (delta - step) % len == 0,
{
    if delta >= 0 {
        vstd::arithmetic::div_mod::lemma_fundamental_div_mod(delta, len);
        vstd::arithmetic::div_mod::lemma_mod_bound(delta, len);
        let turns = delta / len;
        assert(delta - step == turns * len + 0) by (nonlinear_arith)
            requires
                delta == len * turns + step,
        ;
        lemma_fundamental_div_mod_converse(delta - step, len, turns, 0);
    } else {
        let back = -(delta + 1);
        vstd::arithmetic::div_mod::lemma_fundamental_div_mod(back, len);
        vstd::arithmetic::div_mod::lemma_mod_bound(back, len);
        let turns = back / len;
        assert(delta - step == (-turns - 1) * len + 0) by (nonlinear_arith)
            requires
                back == len * turns + back % len,
                step == len - 1 - back % len,
                back == -(delta + 1),
        ;
        lemma_fundamental_div_mod_converse(delta - step, len, -turns - 1, 0);
    }
}

impl Launcher {
    /// The window before anything was typed.
    pub fn new(index: SearchIndex, history: History, max_results: usize) -> (res: Self)
        ensures
            settled(res@),
            res@ == (LauncherView {
                index: index@,
                counts: history@,
                max_results: max_results as nat,
                query: seq![],
                results: search_results(index@, seq![], listed_at_most(max_results as nat)),
                selected: 0,
                ctrl_active: false,
                keyboard_focus: false,
                width: 1,
                height: 1,
                first_configure: true,
                exit: false,
            }),
    {
        let query: String = String::new();
        assert(query@ =~= seq![]);
        let results: Vec<SearchResult> = Listing::search(&index, max_results, query.as_str());
        let res = Launcher {
            listing: Listing { index, max_results, shown: Shown { query, results, selected: 0 } },
            history,
            ctrl_active: false,
            keyboard_focus: false,
            width: 1,
            height: 1,
            first_configure: true,
            exit: false,
        };
        res
    }

    /// Whether the window is to be closed.
    pub fn exits(&self) -> (res: bool)
        ensures
            res == self@.exit,
    {
        self.exit
    }

    /// Closes the window.
    pub fn close(&mut self)
        ensures
            final(self)@ == (LauncherView { exit: true, ..old(self)@ }),
    {
        self.exit = true;
    }

    /// The number of entries in the index.
    pub fn entries(&self) -> (res: usize)
        ensures
            res == self@.index.len(),
    {
        self.listing.index.len()
    }

    /// What was typed.
    pub fn query(&self) -> (res: &str)
        ensures
            res@ == self@.query,
    {
        self.listing.shown.query.as_str()
    }

    /// What is listed, with the place that is highlighted.
    pub fn results(&self) -> (res: (&Vec<SearchResult>, usize))
        ensures
            result_views(res.0@) == self@.results,
            res.1 == self@.selected,
            settled(self@),
    {
        proof {
            use_type_invariant(&self.listing);
        }
        (&self.listing.shown.results, self.listing.shown.selected)
    }

    /// The entry that is highlighted.
    pub fn selected_entry(&self) -> (res: Option<&DesktopEntry>)
        ensures
            match res {
                Some(entry) => highlighted(self@) == Some(entry@),
                None => highlighted(self@) is None,
            },
    {
        let shown: &Shown = &self.listing.shown;
        if shown.selected < shown.results.len() {
            Some(&shown.results[shown.selected].entry)
        } else {
            None
        }
    }

    /// Moves the highlight down by `delta`, round the ends of the list.
    pub fn move_selection(&mut self, delta: isize)
        ensures
            settled(old(self)@),
            final(self)@ == moved(old(self)@, delta as int),
    {
        proof {
            use_type_invariant(&self.listing);
        }
        let len: usize = self.listing.shown.results.len();
        let selected: usize = if len == 0 {
            0
        } else {
            rotate(self.listing.shown.selected, delta, len)
        };
        self.listing.shown.selected = selected;
    }

    /// Starts the highlighted entry: counts the launch and closes the window. Without a highlighted
    /// entry, only closes the window.
    pub fn launch_selected(&mut self, terminal: Option<&str>) -> (res: Option<LaunchPlan>)
        ensures
            final(self)@ == after_launch(old(self)@),
            match res {
                Some(plan) => launch_plan(old(self)@, maybe_text(terminal)) == Some(plan@),
                None => launch_plan(old(self)@, maybe_text(terminal)) is None,
            },
    {
        self.exit = true;
        let entry: DesktopEntry = match self.selected_entry() {
            Some(entry) => entry.clone(),
            None => {
                return None;
            },
        };
        let command: Result<LaunchCommand, LaunchError> = build_launch_command(&entry, terminal);
        self.history.increment(entry.name.as_str());
        Some(
            LaunchPlan {
                query: self.listing.shown.query.clone(),
                command,
                history_text: self.history.to_text(),
                entry,
            },
        )
    }

    /// Whether the control key is held.
    pub fn current_ctrl(&self) -> (res: bool)
        ensures
            res == (self@.ctrl_active && self@.keyboard_focus),
    {
        self.ctrl_active && self.keyboard_focus
    }

    /// Takes in a key. `text` is what the key types, and `terminal` the terminal's command line, if
    /// one is set.
    pub fn handle_key(&mut self, key: Key, text: Option<&str>, terminal: Option<&str>) -> (res:
        KeyOutcome)
        ensures
            settled(old(self)@),
            settled(final(self)@),
            (final(self)@, res@) == after_key(
                old(self)@,
                key,
                maybe_text(text),
                maybe_text(terminal),
            ),
    {
        proof {
            use_type_invariant(&self.listing);
        }
        let res: KeyOutcome = match command_for(key, self.current_ctrl()) {
            KeyCommand::Close => {
                self.close();
                KeyOutcome::Nothing
            },
            KeyCommand::Launch => match self.launch_selected(terminal) {
                Some(plan) => KeyOutcome::Launch(plan),
                None => KeyOutcome::Nothing,
            },
            KeyCommand::Shorten => {
                let query: String = without_last(self.query());
                self.listing.show(query);
                KeyOutcome::Redraw
            },
            KeyCommand::Clear => {
                let query: String = String::new();
                assert(query@ =~= seq![]);
                self.listing.show(query);
                KeyOutcome::Redraw
            },
            KeyCommand::Up => {
                self.move_selection(-1);
                KeyOutcome::Redraw
            },
            KeyCommand::Down => {
                self.move_selection(1);
                KeyOutcome::Redraw
            },
            KeyCommand::Type => match text {
                Some(text) => if is_printable_text(text) {
                    let mut query: String = self.listing.shown.query.clone();
                    query.append(text);
                    self.listing.show(query);
                    KeyOutcome::Redraw
                } else {
                    KeyOutcome::Nothing
                },
                None => KeyOutcome::Nothing,
            },
            KeyCommand::Ignore => KeyOutcome::Nothing,
        };
        proof {
            use_type_invariant(&self.listing);
        }
        res
    }

    /// Takes in that the window has the keyboard.
    pub fn enter(&mut self)
        ensures
            final(self)@ == (LauncherView { keyboard_focus: true, ..old(self)@ }),
    {
        self.keyboard_focus = true;
    }

    /// Takes in that the window no longer has the keyboard.
    pub fn leave(&mut self)
        ensures
            final(self)@ == (LauncherView {
                keyboard_focus: false,
                ctrl_active: false,
                ..old(self)@
            }),
    {
        self.keyboard_focus = false;
        self.ctrl_active = false;
    }

    /// Takes in whether the control key is held.
    pub fn update_modifiers(&mut self, ctrl: bool)
        ensures
            final(self)@ == (LauncherView { ctrl_active: ctrl, ..old(self)@ }),
    {
        self.ctrl_active = ctrl;
    }

    /// Takes in the size of the window, where 0 leaves a side open, and says whether this is the
    /// first time.
    pub fn configure(&mut self, width: u32, height: u32) -> (res: bool)
        ensures
            res == old(self)@.first_configure,
            final(self)@ == (LauncherView {
                width: if width == 0 {
                    1920
                } else {
                    width
                },
                height: if height == 0 {
                    1080
                } else {
                    height
                },
                first_configure: false,
                ..old(self)@
            }),
    {
        self.width = if width == 0 {
            1920
        } else {
            width
        };
        self.height = if height == 0 {
            1080
        } else {
            height
        };
        let first: bool = self.first_configure;
        self.first_configure = false;
        first
    }

    /// How large the window and its buffer are at a scale, if there is anything to draw on.
    pub fn frame(&self, render_scale: u32) -> (res: Option<Frame>)
        ensures
            res == if self@.width == 0 || self@.height == 0 {
                None
            } else {
                Some(frame_of(self@.width, self@.height, render_scale))
            },
    {
        if self.width == 0 || self.height == 0 {
            return None;
        }
        let scale: u32 = if render_scale > 1 {
            render_scale
        } else {
            1
        };
        let buffer_width: u32 = scale_size(self.width, scale);
        let buffer_height: u32 = scale_size(self.height, scale);
        Some(
            Frame {
                width: self.width,
                height: self.height,
                render_scale: scale,
                buffer_width,
                buffer_height,
                stride: (buffer_width as i32).wrapping_mul(4),
            },
        )
    }

    /// The fields of the event that the window was drawn.
    pub fn draw_fields(&self, frame: Frame, duration_ns: u64) -> (res: Record)
        ensures
            record_fields(res) == draw_view(self@, frame, duration_ns),
    {
        let query_len: usize = to_chars(self.listing.shown.query.as_str()).len();
        let results: usize = self.listing.shown.results.len();
        let mut record: Record = new_record();
        insert_field(&mut record, "width".to_owned(), FieldValue::Count(frame.width as u64));
        insert_field(&mut record, "height".to_owned(), FieldValue::Count(frame.height as u64));
        insert_field(
            &mut record,
            "buffer_width".to_owned(),
            FieldValue::Count(frame.buffer_width as u64),
        );
        insert_field(
            &mut record,
            "buffer_height".to_owned(),
            FieldValue::Count(frame.buffer_height as u64),
        );
        insert_field(
            &mut record,
            "render_scale".to_owned(),
            FieldValue::Count(frame.render_scale as u64),
        );
        insert_field(&mut record, "duration_ns".to_owned(), FieldValue::Count(duration_ns));
        insert_field(&mut record, "query_len".to_owned(), FieldValue::Count(query_len as u64));
        insert_field(&mut record, "results".to_owned(), FieldValue::Count(results as u64));
        record
    }

    /// The fields of the event that the window has its first size.
    pub fn configure_fields(&self, startup_ns: u64) -> (res: Record)
        ensures
            record_fields(res) == configure_view(self@, startup_ns),
    {
        let mut record: Record = new_record();
        insert_field(&mut record, "width".to_owned(), FieldValue::Count(self.width as u64));
        insert_field(&mut record, "height".to_owned(), FieldValue::Count(self.height as u64));
        insert_field(
            &mut record,
            "startup_to_configure_ns".to_owned(),
            FieldValue::Count(startup_ns),
        );
        record
    }

    /// The lines of the window: what was typed, then the names of the results.
    pub fn visible_lines(&self) -> (res: Vec<Line>)
        ensures
            line_models(res@) == shown_lines(self@),
    {
        let shown: &Shown = &self.listing.shown;
        let mut out: Vec<Line> = Vec::new();
        if !shown.query.as_str().is_empty() {
            out.push(
                Line {
                    text: shown.query.clone(),
                    role: LineRole::Query,
                    color: Color::rgb(245, 247, 255),
                },
            );
        }
        let ghost view = self@;
        let ghost head = line_models(out@);
        let ghost tail = Seq::new(view.results.len(), |k: int| result_line(view, k));
        assert(head =~= query_lines(view));
        let mut i: usize = 0;
        assert(line_models(out@) =~= head + tail.take(0));
        while i < shown.results.len()
            invariant
                i <= shown.results@.len(),
                shown == self.listing.shown,
                view == self@,
                tail == Seq::new(view.results.len(), |k: int| result_line(view, k)),
                line_models(out@) == head + tail.take(i as int),
            decreases shown.results@.len() - i,
        {
            let ghost before = out@;
            assert(view.results[i as int] == shown.results@[i as int]@);
            let color: Color = if i == shown.selected {
                Color::rgb(255, 99, 71)
            } else {
                Color::rgb(255, 255, 255)
            };
            let line = Line {
                text: shown.results[i].entry.name.clone(),
                role: LineRole::Result,
                color,
            };
            assert(line@ =~= tail[i as int]);
            out.push(line);
            i += 1;
            assert(line_models(out@) =~= line_models(before).push(tail[i - 1]));
            assert(line_models(out@) =~= head + tail.take(i as int));
        }
        assert(tail.take(i as int) =~= tail);
        out
    }
}

/// A text without its last character.
fn without_last(text: &str) -> (res: String)
    ensures
        res@ == shortened(text@),
{
    let chars: Vec<char> = to_chars(text);
    if chars.len() == 0 {
        return String::new();
    }
    let head = vstd::slice::slice_subrange(chars.as_slice(), 0, chars.len() - 1);
    assert(head@ =~= text@.drop_last());
    from_chars(head)
}

// ---------------------------------------------------------------------------------------------
// What holds of the launcher
// ---------------------------------------------------------------------------------------------

/// After every key what is listed is what the query finds, and what is highlighted is listed.
pub proof fn lemma_settled(
    view: LauncherView,
    key: Key,
    text: Option<Seq<char>>,
    terminal: Option<Seq<char>>,
)
    requires
        settled(view),
    ensures
        settled(after_key(view, key, text, terminal).0),
{
    if view.results.len() > 0 {
        vstd::arithmetic::div_mod::lemma_mod_bound(view.selected + 1, view.results.len() as int);
        vstd::arithmetic::div_mod::lemma_mod_bound(view.selected - 1, view.results.len() as int);
    }
}

/// Moving the highlight by two steps is moving it by their sum; so up undoes down, and going once
/// round the list changes nothing.
pub proof fn lemma_moved(view: LauncherView, first: int, second: int)
    requires
        settled(view),
    ensures
        moved(moved(view, first), second) == moved(view, first + second),
        moved(view, 0) == view,
        moved(moved(view, first), -first) == view,
        moved(view, view.results.len() as int) == view,
{
    let len = view.results.len() as int;
    if len > 0 {
        let at = view.selected;
        vstd::arithmetic::div_mod::lemma_add_mod_noop(at + first, second, len);
        vstd::arithmetic::div_mod::lemma_add_mod_noop((at + first) % len, second, len);
        vstd::arithmetic::div_mod::lemma_mod_twice(at + first, len);
        vstd::arithmetic::div_mod::lemma_add_mod_noop(at + first, -first, len);
        vstd::arithmetic::div_mod::lemma_add_mod_noop((at + first) % len, -first, len);
        vstd::arithmetic::div_mod::lemma_small_mod(at as nat, len as nat);
        vstd::arithmetic::div_mod::lemma_mod_add_multiples_vanish(at, len);
        assert((at + first) + second == at + (first + second));
        assert((at + first) + (-first) == at);
    }
    assert(moved(moved(view, first), second) =~= moved(view, first + second));
    assert(moved(view, 0) =~= view);
    assert(moved(moved(view, first), -first) =~= view);
    assert(moved(view, len) =~= view);
}

/// The down key and then the up key leave the window as it was.
pub proof fn lemma_down_up(view: LauncherView, terminal: Option<Seq<char>>)
    requires
        settled(view),
    ensures
        after_key(after_key(view, Key::Down, None, terminal).0, Key::Up, None, terminal).0 == view,
        after_key(after_key(view, Key::Up, None, terminal).0, Key::Down, None, terminal).0 == view,
{
    lemma_moved(view, 1, -1);
    lemma_moved(view, -1, 1);
}

/// A character and then the backspace key leave what was typed and what is listed as they were,
/// with the first result highlighted.
pub proof fn lemma_type_and_take_back(view: LauncherView, ch: char, terminal: Option<Seq<char>>)
    requires
        settled(view),
        !control(ch),
        !(view.ctrl_active && view.keyboard_focus),
    ensures
        after_key(
            after_key(view, Key::Other, Some(seq![ch]), terminal).0,
            Key::BackSpace,
            None,
            terminal,
        ).0 == (LauncherView { selected: 0, ..view }),
{
    let typed = view.query + seq![ch];
    assert(printable(seq![ch]));
    assert(shortened(typed) =~= view.query);
}

/// The window closes for the escape key, the return key and control with C only.
pub proof fn lemma_exit(
    view: LauncherView,
    key: Key,
    text: Option<Seq<char>>,
    terminal: Option<Seq<char>>,
)
    ensures
        after_key(view, key, text, terminal).0.exit <==> view.exit || key == Key::Escape || key
            == Key::Return || (key == Key::C && view.ctrl_active && view.keyboard_focus),
{
}

/// Only the return key changes the history, and it adds one launch of the highlighted entry's name.
pub proof fn lemma_counts(
    view: LauncherView,
    key: Key,
    text: Option<Seq<char>>,
    terminal: Option<Seq<char>>,
)
    ensures
        after_key(view, key, text, terminal).0.counts == match highlighted(view) {
            Some(entry) => if key == Key::Return {
                incremented(view.counts, entry.name)
            } else {
                view.counts
            },
            None => view.counts,
        },
{
}

/// Just one line has the colour of the highlight, if anything is listed: that of the entry which
/// the return key starts.
pub proof fn lemma_highlight(view: LauncherView, terminal: Option<Seq<char>>, i: int)
    requires
        settled(view),
        0 <= i < shown_lines(view).len(),
    ensures
        shown_lines(view)[i].color == result_color(true) <==> i == query_lines(view).len()
            + view.selected && view.results.len() > 0,
        shown_lines(view)[i].color == result_color(true) ==> launch_plan(view, terminal) is Some
            && launch_plan(view, terminal)->0.entry.name == shown_lines(view)[i].text,
{
    let head = query_lines(view);
    if i < head.len() {
        assert(shown_lines(view)[i] == head[i]);
    } else {
        assert(shown_lines(view)[i] == result_line(view, i - head.len()));
    }
}

/// A buffer of a usual size has four bytes for each pixel of a row.
pub proof fn lemma_frame(width: u32, height: u32, render_scale: u32)
    requires
        width * proper_scale(render_scale) <= 0x1fff_ffff,
        height * proper_scale(render_scale) <= u32::MAX,
    ensures
        ({
            let frame = frame_of(width, height, render_scale);
            &&& frame.buffer_width == width * frame.render_scale
            &&& frame.buffer_height == height * frame.render_scale
            &&& frame.stride == 4 * frame.buffer_width
        }),
{
}

} // verus!

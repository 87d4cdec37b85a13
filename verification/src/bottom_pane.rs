//! The state and decisions of the lower pane of the chat UI: the text
//! input with its slash-command popup, the status indicator shown while a
//! task runs, and the queue of approval requests.
//!
//! The pane's widgets (the text area, the status indicator, the approval
//! dialogs) and the redraw channel are driven by the caller; the functions
//! here decide what happens and say which of those effects to perform.

use vstd::prelude::*;

use crate::slash_command_overlay::{
    command_rows, is_ranked_for, law_listing_names, law_wrap_wider_no_more_lines, lemma_ranking_unique, lemma_listing_len, lemma_wrapped_lines_count, listed_commands,
    min_int, normalized_filter, sat_sub, Area,
    SlashCommandOverlay,
};
use crate::slash_commands::{
    command_table, commands, lemma_description_lengths, typed_name, max_name_len, name_column_width,
    CommandInfo,
};
use crate::text::{join_lines, join_with, string_views, trim, trim_chars};

verus! {

broadcast use vstd::seq::group_seq_axioms;

/// Minimum number of visible text rows inside the text area.
pub const MIN_TEXTAREA_ROWS: usize = 3;

/// Number of terminal rows taken by the text area's border (top and bottom).
pub const TEXTAREA_BORDER_LINES: u16 = 2;

/// What a key press produced.
pub enum InputResult {
    /// The user pressed Enter: the text to send and append to the history.
    Submitted(String),
    /// The user picked a slash command from the popup: its name.
    ExecuteCommand(String),
    /// Nothing to report.
    Nothing,
}

/// What the pane shows.
pub enum PaneState {
    /// The status indicator of a running task.
    StatusIndicator,
    /// The text input.
    TextInput,
    /// An approval dialog for request `current`, with the requests queued
    /// behind it, oldest first.
    ApprovalModal { current: u64, queue: Vec<u64> },
}

/// The key of a key press, as far as the pane tells keys apart.
#[derive(Debug, Clone, Copy, PartialEq, Eq, Structural)]
pub enum KeyKind {
    Up,
    Down,
    Enter,
    Other,
}

/// A key press: its key, and whether it is Enter with no Shift, Alt or Ctrl.
#[derive(Debug, Clone, Copy, PartialEq, Eq, Structural)]
pub struct PaneKey {
    pub kind: KeyKind,
    pub plain_enter: bool,
}

/// What the caller does with a key press after [`BottomPane::handle_key_event`].
pub enum KeyStep {
    /// Hand the key to the status indicator; redraw if it used it.
    ToStatusView,
    /// Hand the key to the current approval dialog, then call
    /// [`BottomPane::approval_key_handled`].
    ToApprovalModal,
    /// Redraw and return the result.
    Done(InputResult),
    /// Clear the text area, redraw, and return the result.
    ClearInput(InputResult),
    /// Hand the key to the text area, then call
    /// [`BottomPane::after_textarea_input`].
    ToTextarea,
}

/// How the pane changed state. On `ToStatus` and `ToTextInput` the caller
/// re-applies [`BottomPane::border`] and redraws.
pub enum StateChange {
    Unchanged,
    /// Now showing a new status indicator of this height.
    ToStatus(u16),
    ToTextInput,
}

/// What follows when the current approval dialog has handled a key. In every
/// case the caller redraws afterwards.
pub enum ModalStep {
    /// The dialog is still open.
    StillOpen,
    /// The dialog finished; the next queued request is now shown.
    NextRequest(u64),
    /// The dialog finished with nothing queued.
    Closed(StateChange),
}

/// The text-area border: bottom titles and whether it is dimmed.
pub struct BorderLook {
    pub title: &'static str,
    pub right_title: &'static str,
    pub dimmed: bool,
}

/// Where the text input and the popup go inside the pane's area.
pub struct PaneLayout {
    pub input: Area,
    pub overlay: Option<Area>,
}

/// Everything that is decided in the lower half of the chat UI.
pub struct BottomPane {
    pub state: PaneState,
    pub has_input_focus: bool,
    pub is_task_running: bool,
    /// Whether the slash command overlay is currently shown.
    pub show_slash_overlay: bool,
    /// The current filter string for slash commands (after the '/').
    pub slash_filter: String,
    pub slash_selected: usize,
    pub slash_scroll_offset: usize,
    pub slash_overlay_height: Option<u16>,
    pub slash_overlay_locked: bool,
}

/// Whether the pane takes text input in `state`.
pub open spec fn accepts_input(state: PaneState) -> bool {
    !(state is StatusIndicator)
}

/// Height of the text area for `text_rows` lines of text: at least
/// [`MIN_TEXTAREA_ROWS`] rows, truncated to `u16` by an `as` cast, plus the
/// border.
pub open spec fn textarea_height(text_rows: usize) -> int {
    (if text_rows > 3 {
        text_rows
    } else {
        3
    }) as u16 + 2
}

/// Sum of the rows that the commands of `t` take at `desc_width`.
pub open spec fn rows_sum(t: Seq<CommandInfo>, desc_width: int) -> int
    decreases t.len(),
{
    if t.len() == 0 {
        0
    } else {
        rows_sum(t.drop_last(), desc_width) + command_rows(t.last(), desc_width)
    }
}

/// Width of the description column in an area `width` columns wide.
pub open spec fn desc_width_for(width: int) -> int {
    sat_sub(width, (1 + 2 + max_name_len(command_table()) + 1) as int)
}

/// Height of the popup listing every command at `area_width`, at most 20.
pub open spec fn all_commands_height(area_width: u16) -> int {
    min_int(rows_sum(command_table(), desc_width_for(area_width as int)), 20)
}

/// Height of the popup in `area`: 0 when it is hidden or lists nothing;
/// else the locked height, or the rows all commands take, capped by the
/// area's height less 5.
pub open spec fn overlay_height_in(
    show: bool,
    listed: int,
    locked: Option<u16>,
    area: Area,
) -> int {
    let available = sat_sub(area.height as int, 5);
    if !show || listed == 0 {
        0
    } else {
        match locked {
            Some(h) => min_int(h as int, available),
            None => min_int(rows_sum(command_table(), desc_width_for(area.width as int)), available),
        }
    }
}

/// Each command takes at least one row, so the sum is at least the count.
pub proof fn lemma_rows_sum_lower(t: Seq<CommandInfo>, desc_width: int)
    ensures
        rows_sum(t, desc_width) >= t.len(),
    decreases t.len(),
{
    if t.len() > 0 {
        lemma_rows_sum_lower(t.drop_last(), desc_width);
    }
}

/// With a wider description column the commands take no more rows.
proof fn lemma_rows_sum_wider(t: Seq<CommandInfo>, d1: int, d2: int)
    requires
        d1 <= d2,
    ensures
        rows_sum(t, d2) <= rows_sum(t, d1),
    decreases t.len(),
{
    if t.len() > 0 {
        lemma_rows_sum_wider(t.drop_last(), d1, d2);
        law_wrap_wider_no_more_lines(t.last().description@, d1, d2);
    }
}

/// The popup for every command takes at most twenty rows, and at least one
/// row per command.
pub proof fn law_all_commands_height_bounds(area_width: u16)
    ensures
        command_table().len() <= all_commands_height(area_width) <= 20,
        all_commands_height(area_width) <= rows_sum(command_table(), desc_width_for(area_width as int)),
{
    lemma_rows_sum_lower(command_table(), desc_width_for(area_width as int));
}

/// A wider area never needs a taller popup to list every command.
pub proof fn law_wider_area_no_taller(w1: u16, w2: u16)
    requires
        w1 <= w2,
    ensures
        all_commands_height(w2) <= all_commands_height(w1),
{
    lemma_rows_sum_wider(command_table(), desc_width_for(w1 as int), desc_width_for(w2 as int));
}

/// Enter in a shown popup with the selection inside the listing runs the
/// command shown selected: the one at the selected index of the listing for
/// the filter, which is the command its name names.
pub proof fn law_enter_runs_selected_command(
    b: BottomPane,
    key: PaneKey,
    input: Seq<char>,
    a: BottomPane,
    step: KeyStep,
    r: Seq<CommandInfo>,
)
    requires
        text_input_key(b, key, input, a, step),
        is_ranked_for(r, b.slash_filter@),
        b.show_slash_overlay,
        key.kind == KeyKind::Enter,
        b.slash_selected < r.len(),
    ensures
        step matches KeyStep::ClearInput(res) && res matches InputResult::ExecuteCommand(name)
            && name@ == r[b.slash_selected as int].name@ && name@ == typed_name(
            r[b.slash_selected as int].command,
        ),
        !a.show_slash_overlay,
{
    lemma_ranking_unique(r, r, b.slash_filter@);
    law_listing_names(r, b.slash_filter@);
    assert(typed_name(r[b.slash_selected as int].command) == r[b.slash_selected as int].name@);
}

/// The popup never takes more than the area's height less the five rows
/// kept for the text area; a locked height that fits is used as it is, and
/// an unlocked one gives every command at least one row where the area
/// allows it and never more rows than all commands take.
pub proof fn law_overlay_height_bounds(show: bool, listed: int, locked: Option<u16>, area: Area)
    ensures
        0 <= overlay_height_in(show, listed, locked, area) <= sat_sub(area.height as int, 5),
        !show || listed == 0 ==> overlay_height_in(show, listed, locked, area) == 0,
        show && listed != 0 && locked is Some && locked->0 <= sat_sub(area.height as int, 5)
            ==> overlay_height_in(show, listed, locked, area) == locked->0,
        show && listed != 0 && locked is None ==> min_int(
            command_table().len() as int,
            sat_sub(area.height as int, 5),
        ) <= overlay_height_in(show, listed, locked, area) <= rows_sum(
            command_table(),
            desc_width_for(area.width as int),
        ),
{
    lemma_rows_sum_lower(command_table(), desc_width_for(area.width as int));
}

/// The popup's height is never negative.
pub proof fn lemma_overlay_height_nonneg(show: bool, listed: int, locked: Option<u16>, area: Area)
    ensures
        overlay_height_in(show, listed, locked, area) >= 0,
{
    lemma_rows_sum_lower(command_table(), desc_width_for(area.width as int));
}

/// Selection after Up in a list of `n`: one row up, wrapping to the last.
pub open spec fn select_up(selected: int, n: int) -> int {
    if n == 0 {
        selected
    } else if selected == 0 {
        n - 1
    } else {
        selected - 1
    }
}

/// Scroll position after Up: moved to the selection when it went above.
pub open spec fn scroll_after_up(selected: int, scroll: int, n: int) -> int {
    let s = select_up(selected, n);
    if n > 0 && s < scroll {
        s
    } else {
        scroll
    }
}

/// Selection after Down in a list of `n`: one row down, wrapping to the first.
pub open spec fn select_down(selected: int, n: int) -> int {
    if n == 0 {
        selected
    } else if selected + 1 >= n {
        0
    } else {
        selected + 1
    }
}

/// Scroll position after Down, with `h` rows shown: moved so the selection
/// is the last row shown when it went below.
pub open spec fn scroll_after_down(selected: int, scroll: int, n: int, h: int) -> int {
    let s = select_down(selected, n);
    if n > 0 && s >= scroll + h {
        s + 1 - h
    } else {
        scroll
    }
}

/// Rows the popup shows while navigating: the listed commands, at most 12.
pub open spec fn nav_rows(n: int) -> int {
    min_int(n, 12)
}

/// The popup fields as they are after a command was picked or the text sent.
pub open spec fn overlay_reset(before: BottomPane, after: BottomPane) -> bool {
    &&& !after.show_slash_overlay
    &&& after.slash_filter@ == Seq::<char>::empty()
    &&& after.slash_selected == 0
    &&& after.slash_scroll_offset == 0
    &&& after.slash_overlay_height == before.slash_overlay_height
    &&& after.slash_overlay_locked == before.slash_overlay_locked
    &&& after.state == before.state
    &&& after.has_input_focus == before.has_input_focus
    &&& after.is_task_running == before.is_task_running
}

/// `a` is `b` with only the popup selection and scroll position changed.
pub open spec fn only_selection_changed(b: BottomPane, a: BottomPane) -> bool {
    &&& a.state == b.state
    &&& a.has_input_focus == b.has_input_focus
    &&& a.is_task_running == b.is_task_running
    &&& a.show_slash_overlay == b.show_slash_overlay
    &&& a.slash_filter == b.slash_filter
    &&& a.slash_overlay_height == b.slash_overlay_height
    &&& a.slash_overlay_locked == b.slash_overlay_locked
}

/// `a` is `b` with only the popup fields changed.
pub open spec fn only_popup_changed(b: BottomPane, a: BottomPane) -> bool {
    &&& a.state == b.state
    &&& a.has_input_focus == b.has_input_focus
    &&& a.is_task_running == b.is_task_running
}

/// `a` is `b` with only the pane state and the running flag changed.
pub open spec fn only_state_changed(b: BottomPane, a: BottomPane) -> bool {
    &&& a.has_input_focus == b.has_input_focus
    &&& a.show_slash_overlay == b.show_slash_overlay
    &&& a.slash_filter == b.slash_filter
    &&& a.slash_selected == b.slash_selected
    &&& a.slash_scroll_offset == b.slash_scroll_offset
    &&& a.slash_overlay_height == b.slash_overlay_height
    &&& a.slash_overlay_locked == b.slash_overlay_locked
}

/// A key press in the text input, from pane `b` with text `input` to pane
/// `a` and step `step`. With the popup shown, Up and Down move the
/// selection (wrapping) and keep it in view, and Enter on a listed command
/// picks it. Otherwise plain Enter sends the text, and any other key goes to
/// the text area. Picking a command or sending the text hides and resets
/// the popup.
pub open spec fn text_input_key(
    b: BottomPane,
    key: PaneKey,
    input: Seq<char>,
    a: BottomPane,
    step: KeyStep,
) -> bool {
    let listed = listed_commands(b.slash_filter@);
    let n = listed.len() as int;
    let sel = b.slash_selected as int;
    let scroll = b.slash_scroll_offset as int;
    if b.show_slash_overlay && key.kind == KeyKind::Up {
        &&& step matches KeyStep::Done(r) && r is Nothing
        &&& a.slash_selected == select_up(sel, n)
        &&& a.slash_scroll_offset == scroll_after_up(sel, scroll, n)
        &&& only_selection_changed(b, a)
    } else if b.show_slash_overlay && key.kind == KeyKind::Down {
        &&& step matches KeyStep::Done(r) && r is Nothing
        &&& a.slash_selected == select_down(sel, n)
        &&& a.slash_scroll_offset == scroll_after_down(sel, scroll, n, nav_rows(n))
        &&& only_selection_changed(b, a)
    } else if b.show_slash_overlay && key.kind == KeyKind::Enter && sel < n {
        &&& step matches KeyStep::ClearInput(r) && r matches InputResult::ExecuteCommand(name)
            && name@ == listed[sel].name@
        &&& overlay_reset(b, a)
    } else if key.plain_enter {
        &&& step matches KeyStep::ClearInput(r) && r matches InputResult::Submitted(text) && text@
            == input
        &&& overlay_reset(b, a)
    } else {
        &&& step is ToTextarea
        &&& a == b
    }
}

/// The popup after the text area changed to `input`, from pane `b` to pane
/// `a`. Text starting with `/` becomes the filter: the popup shows when the
/// filter is blank or lists something, locking its height at the height for
/// 80 columns; the selection is clamped to the list (0 when it is empty).
/// Other text hides and resets the popup.
pub open spec fn popup_after_input(b: BottomPane, input: Seq<char>, a: BottomPane) -> bool {
    &&& only_popup_changed(b, a)
    &&& if input.len() > 0 && input[0] == '/' {
        let f = input.skip(1);
        let n = listed_commands(f).len() as int;
        let show = trim(f).len() == 0 || n > 0;
        &&& a.slash_filter@ == f
        &&& a.show_slash_overlay == show
        &&& show ==> a.slash_overlay_locked && a.slash_overlay_height == (if b.slash_overlay_locked {
            b.slash_overlay_height
        } else {
            Some(all_commands_height(80) as u16)
        })
        &&& !show ==> a.slash_overlay_height is None && !a.slash_overlay_locked
        &&& a.slash_selected == (if n > 0 {
            min_int(b.slash_selected as int, n - 1)
        } else {
            0
        })
        &&& a.slash_scroll_offset == 0
    } else {
        &&& !a.show_slash_overlay
        &&& a.slash_filter@ == Seq::<char>::empty()
        &&& a.slash_selected == 0
        &&& a.slash_scroll_offset == 0
        &&& a.slash_overlay_height is None
        &&& !a.slash_overlay_locked
    }
}


/// While the popup is shown it lists something (from a ranking of its
/// filter), the selection is inside the list, and the list is not scrolled.
pub open spec fn popup_consistent(p: BottomPane) -> bool {
    p.show_slash_overlay ==> {
        let r = listed_commands(p.slash_filter@);
        &&& is_ranked_for(r, p.slash_filter@)
        &&& r.len() > 0
        &&& p.slash_selected < r.len()
        &&& p.slash_scroll_offset == 0
    }
}

/// Whether a key press can be handled without arithmetic overflow: moving
/// down needs room above the selection and the scroll position.
pub open spec fn key_fits(p: BottomPane, key: PaneKey) -> bool {
    let n = listed_commands(p.slash_filter@).len() as int;
    (p.state is TextInput && p.show_slash_overlay && key.kind == KeyKind::Down && n > 0) ==> (
    p.slash_selected < usize::MAX && p.slash_scroll_offset + nav_rows(n) <= usize::MAX)
}

/// Up and Down keep a selection inside a non-empty list, and each undoes
/// the other.
pub proof fn law_navigation_round_trip(selected: int, n: int)
    requires
        0 <= selected < n,
    ensures
        0 <= select_up(selected, n) < n,
        0 <= select_down(selected, n) < n,
        select_up(select_down(selected, n), n) == selected,
        select_down(select_up(selected, n), n) == selected,
{
}

/// After Up the scroll position is never below the selection. After a Down
/// that does not wrap, from a selection that was not above the scroll
/// position, the selection is among the `h` rows shown.
pub proof fn law_navigation_keeps_selection_visible(selected: int, scroll: int, n: int, h: int)
    requires
        0 <= selected < n,
        0 <= scroll,
        h >= 1,
    ensures
        scroll_after_up(selected, scroll, n) <= select_up(selected, n),
        scroll <= selected && selected + 1 < n ==> scroll_after_down(selected, scroll, n, h)
            <= select_down(selected, n) < scroll_after_down(selected, scroll, n, h) + h,
{
}

/// The requests waiting for approval, the one shown first.
pub open spec fn pending_requests(state: PaneState) -> Seq<u64> {
    match state {
        PaneState::ApprovalModal { current, queue } => seq![current] + queue@,
        _ => Seq::empty(),
    }
}

/// Approval requests are shown in the order in which they came: pushing a
/// request appends it to the pending ones, and finishing a dialog with
/// requests waiting shows the oldest of them.
pub proof fn law_approval_order(b: BottomPane, a: BottomPane, c: BottomPane, request: u64)
    requires
        b.state is ApprovalModal,
        a.state is ApprovalModal,
        a.state->current == b.state->current,
        a.state->queue@ == b.state->queue@.push(request),
        b.state->queue@.len() > 0,
        c.state is ApprovalModal,
        c.state->current == a.state->queue@[0],
        c.state->queue@ == a.state->queue@.drop_first(),
    ensures
        pending_requests(a.state) == pending_requests(b.state).push(request),
        pending_requests(c.state) == pending_requests(a.state).drop_first(),
        c.state->current == b.state->queue@[0],
{
    assert(pending_requests(a.state) =~= pending_requests(b.state).push(request));
    assert(pending_requests(c.state) =~= pending_requests(a.state).drop_first());
}

/// The text-area border for `state` and focus: titled and bright while the
/// pane has focus and takes input, else untitled and dimmed.
pub fn border_for_input_focus(state: &PaneState, has_focus: bool) -> (b: BorderLook)
    ensures
        (has_focus && accepts_input(*state)) ==> b.title@
            == "use Enter to send for now (Ctrl-D to quit)"@ && b.right_title@
            == "press enter to send"@ && !b.dimmed,
        !(has_focus && accepts_input(*state)) ==> b.title@ == ""@ && b.right_title@ == ""@
            && b.dimmed,
{
    let accepting_input = match state {
        PaneState::TextInput => true,
        PaneState::ApprovalModal { .. } => true,
        PaneState::StatusIndicator => false,
    };
    if has_focus && accepting_input {
        BorderLook {
            title: "use Enter to send for now (Ctrl-D to quit)",
            right_title: "press enter to send",
            dimmed: false,
        }
    } else {
        BorderLook { title: "", right_title: "", dimmed: true }
    }
}

/// Height of the text area for `text_rows` lines of text.
fn textarea_height_for(text_rows: usize) -> (h: u16)
    requires
        textarea_height(text_rows) <= u16::MAX,
    ensures
        h == textarea_height(text_rows),
{
    let rows = if text_rows > MIN_TEXTAREA_ROWS {
        text_rows
    } else {
        MIN_TEXTAREA_ROWS
    };
    rows as u16 + TEXTAREA_BORDER_LINES
}

/// Rows all commands take at `desc_width`, with the bound that keeps the
/// sum small.
fn all_commands_rows(desc_width: usize) -> (total: usize)
    ensures
        total == rows_sum(command_table(), desc_width as int),
        total <= 9 * 120,
{
    proof {
        lemma_description_lengths();
    }
    let all_cmds = commands();
    let mut total_lines: usize = 0;
    let mut i: usize = 0;
    while i < all_cmds.len()
        invariant
            i <= all_cmds@.len(),
            all_cmds@ == command_table(),
            total_lines == rows_sum(command_table().take(i as int), desc_width as int),
            total_lines <= 120 * i,
            forall|j: int|
                0 <= j < command_table().len() ==> (#[trigger] command_table()[j]).description@.len()
                    <= 120,
        decreases all_cmds@.len() - i,
    {
        let desc_lines = SlashCommandOverlay::wrap_text(all_cmds[i].description, desc_width);
        proof {
            assert(desc_lines@.len() == string_views(desc_lines@).len());
            lemma_wrapped_lines_count(all_cmds@[i as int].description@, desc_width as int);
            assert(command_table().take(i + 1).drop_last() =~= command_table().take(i as int));
        }
        let n = if desc_lines.len() > 1 {
            desc_lines.len()
        } else {
            1
        };
        total_lines = total_lines + n;
        i = i + 1;
    }
    assert(command_table().take(all_cmds@.len() as int) =~= command_table());
    total_lines
}

impl BottomPane {
    /// A pane showing the text input, with the popup hidden.
    pub fn new(has_input_focus: bool) -> (p: Self)
        ensures
            p.state is TextInput,
            p.has_input_focus == has_input_focus,
            !p.is_task_running,
            !p.show_slash_overlay,
            p.slash_filter@ == Seq::<char>::empty(),
            p.slash_selected == 0,
            p.slash_scroll_offset == 0,
            p.slash_overlay_height is None,
            !p.slash_overlay_locked,
            popup_consistent(p),
    {
        BottomPane {
            state: PaneState::TextInput,
            has_input_focus,
            is_task_running: false,
            show_slash_overlay: false,
            slash_filter: String::new(),
            slash_selected: 0,
            slash_scroll_offset: 0,
            slash_overlay_height: None,
            slash_overlay_locked: false,
        }
    }

    /// The text-area border for the current state and focus.
    pub fn border(&self) -> (b: BorderLook)
        ensures
            (self.has_input_focus && accepts_input(self.state)) ==> b.title@
                == "use Enter to send for now (Ctrl-D to quit)"@ && b.right_title@
                == "press enter to send"@ && !b.dimmed,
            !(self.has_input_focus && accepts_input(self.state)) ==> b.title@ == ""@
                && b.right_title@ == ""@ && b.dimmed,
    {
        border_for_input_focus(&self.state, self.has_input_focus)
    }

    /// Whether a new status line goes to the status indicator (followed by
    /// a redraw): only while it is shown.
    pub fn update_status_text(&self) -> (b: bool)
        ensures
            b == (self.state is StatusIndicator),
    {
        match self.state {
            PaneState::StatusIndicator => true,
            _ => false,
        }
    }

    /// Records the input focus; the caller re-applies the border.
    pub fn set_input_focus(&mut self, has_input_focus: bool)
        ensures
            final(self).has_input_focus == has_input_focus,
            final(self).state == old(self).state,
            final(self).is_task_running == old(self).is_task_running,
            final(self).show_slash_overlay == old(self).show_slash_overlay,
            final(self).slash_filter == old(self).slash_filter,
            final(self).slash_selected == old(self).slash_selected,
            final(self).slash_scroll_offset == old(self).slash_scroll_offset,
            final(self).slash_overlay_height == old(self).slash_overlay_height,
            final(self).slash_overlay_locked == old(self).slash_overlay_locked,
    {
        self.has_input_focus = has_input_focus;
    }

    /// The text of the text area: its lines joined with newlines.
    pub fn current_input(lines: &[String]) -> (text: String)
        ensures
            text@ == join_with(string_views(lines@), seq!['\n']),
    {
        join_lines(lines)
    }

    /// The commands the popup lists for the current filter.
    pub fn filtered_slash_commands(&self) -> (r: Vec<CommandInfo>)
        ensures
            r@ == listed_commands(self.slash_filter@),
            is_ranked_for(r@, self.slash_filter@),
    {
        SlashCommandOverlay::filter_and_rank_commands(self.slash_filter.as_str())
    }

    /// Height of the popup listing every command, for an area `area_width`
    /// columns wide, at most 20.
    pub fn calculate_overlay_height_for_all_commands(&self, area_width: u16) -> (h: u16)
        ensures
            h == all_commands_height(area_width),
    {
        let chevron_width: usize = 2;
        let cmd_max_len = name_column_width();
        let desc_start_x = 1 + chevron_width + cmd_max_len + 1;
        let desc_width = area_width.saturating_sub(desc_start_x as u16) as usize;
        let total_lines = all_commands_rows(desc_width);
        if total_lines < 20 {
            total_lines as u16
        } else {
            20
        }
    }

    /// Height of the popup inside `area`.
    pub fn calc_overlay_height(&self, area: Area) -> (h: u16)
        ensures
            h == overlay_height_in(
                self.show_slash_overlay,
                listed_commands(self.slash_filter@).len() as int,
                self.slash_overlay_height,
                area,
            ),
    {
        let filtered = self.filtered_slash_commands();
        if !self.show_slash_overlay || filtered.len() == 0 {
            return 0;
        }
        let available_height = area.height.saturating_sub(5);
        if let Some(h) = self.slash_overlay_height {
            return if h < available_height {
                h
            } else {
                available_height
            };
        }
        let chevron_width: usize = 2;
        let cmd_max_len = name_column_width();
        let desc_start_x = 1 + chevron_width + cmd_max_len + 1;
        let desc_width = area.width.saturating_sub(desc_start_x as u16) as usize;
        let total_lines = all_commands_rows(desc_width);
        if total_lines < available_height as usize {
            total_lines as u16
        } else {
            available_height
        }
    }

    /// Locks the popup height, at the height for `area_width`, unless it is
    /// locked already.
    pub fn lock_overlay_height(&mut self, area_width: u16)
        ensures
            old(self).slash_overlay_locked ==> final(self).slash_overlay_height == old(
                self,
            ).slash_overlay_height,
            !old(self).slash_overlay_locked ==> final(self).slash_overlay_height == Some(
                all_commands_height(area_width) as u16,
            ),
            final(self).slash_overlay_locked,
            final(self).state == old(self).state,
            final(self).has_input_focus == old(self).has_input_focus,
            final(self).is_task_running == old(self).is_task_running,
            final(self).show_slash_overlay == old(self).show_slash_overlay,
            final(self).slash_filter == old(self).slash_filter,
            final(self).slash_selected == old(self).slash_selected,
            final(self).slash_scroll_offset == old(self).slash_scroll_offset,
    {
        if !self.slash_overlay_locked {
            let h = self.calculate_overlay_height_for_all_commands(area_width);
            self.slash_overlay_height = Some(h);
            self.slash_overlay_locked = true;
        }
    }

    /// Resets the popup height lock.
    pub fn reset_overlay_height_lock(&mut self)
        ensures
            final(self).slash_overlay_height is None,
            !final(self).slash_overlay_locked,
            final(self).state == old(self).state,
            final(self).has_input_focus == old(self).has_input_focus,
            final(self).is_task_running == old(self).is_task_running,
            final(self).show_slash_overlay == old(self).show_slash_overlay,
            final(self).slash_filter == old(self).slash_filter,
            final(self).slash_selected == old(self).slash_selected,
            final(self).slash_scroll_offset == old(self).slash_scroll_offset,
    {
        self.slash_overlay_height = None;
        self.slash_overlay_locked = false;
    }

    /// Decides what a key press does; `current_input` is the text in the
    /// text area.
    pub fn handle_key_event(&mut self, key: PaneKey, current_input: &str) -> (step: KeyStep)
        requires
            key_fits(*old(self), key),
        ensures
            old(self).state is StatusIndicator ==> step is ToStatusView && *final(self) == *old(
                self,
            ),
            old(self).state is ApprovalModal ==> step is ToApprovalModal && *final(self) == *old(
                self,
            ),
            old(self).state is TextInput ==> text_input_key(
                *old(self),
                key,
                current_input@,
                *final(self),
                step,
            ),
            popup_consistent(*old(self)) ==> popup_consistent(*final(self)),
    {
        match self.state {
            PaneState::StatusIndicator => {
                return KeyStep::ToStatusView;
            },
            PaneState::ApprovalModal { .. } => {
                return KeyStep::ToApprovalModal;
            },
            PaneState::TextInput => {},
        }
        if self.show_slash_overlay {
            let filtered = self.filtered_slash_commands();
            proof {
                lemma_listing_len(filtered@, self.slash_filter@);
            }
            let overlay_height = if filtered.len() < 12 {
                filtered.len()
            } else {
                12
            };
            match key.kind {
                KeyKind::Up => {
                    if filtered.len() > 0 {
                        if self.slash_selected == 0 {
                            self.slash_selected = filtered.len() - 1;
                        } else {
                            self.slash_selected = self.slash_selected - 1;
                        }
                        if self.slash_selected < self.slash_scroll_offset {
                            self.slash_scroll_offset = self.slash_selected;
                        }
                    }
                    return KeyStep::Done(InputResult::Nothing);
                },
                KeyKind::Down => {
                    if filtered.len() > 0 {
                        if self.slash_selected + 1 >= filtered.len() {
                            self.slash_selected = 0;
                        } else {
                            self.slash_selected = self.slash_selected + 1;
                        }
                        if self.slash_selected >= self.slash_scroll_offset + overlay_height {
                            self.slash_scroll_offset = self.slash_selected + 1 - overlay_height;
                        }
                    }
                    return KeyStep::Done(InputResult::Nothing);
                },
                KeyKind::Enter => {
                    if self.slash_selected < filtered.len() {
                        let cmd = filtered[self.slash_selected];
                        self.show_slash_overlay = false;
                        self.slash_filter = String::new();
                        self.slash_selected = 0;
                        self.slash_scroll_offset = 0;
                        return KeyStep::ClearInput(InputResult::ExecuteCommand(cmd.name.to_owned()));
                    }
                },
                KeyKind::Other => {},
            }
        }
        if key.plain_enter {
            let text = current_input.to_owned();
            self.show_slash_overlay = false;
            self.slash_filter = String::new();
            self.slash_selected = 0;
            self.slash_scroll_offset = 0;
            KeyStep::ClearInput(InputResult::Submitted(text))
        } else {
            KeyStep::ToTextarea
        }
    }

    /// Updates the popup after the text area took a key; `current_input` is
    /// its new text. The caller redraws.
    pub fn after_textarea_input(&mut self, current_input: &str) -> (r: InputResult)
        ensures
            r is Nothing,
            popup_after_input(*old(self), current_input@, *final(self)),
            popup_consistent(*final(self)),
    {
        let len = current_input.unicode_len();
        if len > 0 && current_input.get_char(0) == '/' {
            let stripped = current_input.substring_char(1, len);
            self.slash_filter = stripped.to_owned();
            let filter_trimmed = trim_chars(self.slash_filter.as_str());
            let filtered = self.filtered_slash_commands();
            proof {
                assert(stripped@ =~= current_input@.skip(1));
                if filter_trimmed@.len() == 0 {
                    assert(normalized_filter(self.slash_filter@).len() == 0);
                    assert(command_table().len() > 0);
                }
            }
            if filter_trimmed.len() == 0 || filtered.len() > 0 {
                self.lock_overlay_height(80);
                self.show_slash_overlay = true;
            } else {
                self.show_slash_overlay = false;
                self.reset_overlay_height_lock();
            }
            // Clamp the selected index to the filtered length.
            if filtered.len() == 0 {
                self.slash_selected = 0;
            } else if self.slash_selected >= filtered.len() {
                self.slash_selected = filtered.len() - 1;
            }
            self.slash_scroll_offset = 0;
        } else {
            self.show_slash_overlay = false;
            self.slash_filter = String::new();
            self.slash_selected = 0;
            self.slash_scroll_offset = 0;
            self.reset_overlay_height_lock();
        }
        InputResult::Nothing
    }

    /// Decides what follows once the current approval dialog has handled a
    /// key: a finished dialog gives way to the next queued request, else to
    /// the status indicator while a task runs, else to the text input.
    pub fn approval_key_handled(&mut self, complete: bool, text_rows: usize) -> (step: ModalStep)
        requires
            old(self).state is ApprovalModal,
            complete && old(self).state->queue@.len() == 0 && old(self).is_task_running
                ==> textarea_height(text_rows) <= u16::MAX,
        ensures
            only_state_changed(*old(self), *final(self)),
            final(self).is_task_running == old(self).is_task_running,
            !complete ==> step is StillOpen && final(self).state == old(self).state,
            complete && old(self).state->queue@.len() > 0 ==> {
                &&& step matches ModalStep::NextRequest(id) && id == old(self).state->queue@[0]
                &&& final(self).state is ApprovalModal
                &&& final(self).state->current == old(self).state->queue@[0]
                &&& final(self).state->queue@ == old(self).state->queue@.drop_first()
                &&& pending_requests(final(self).state) == pending_requests(
                    old(self).state,
                ).drop_first()
            },
            complete && old(self).state->queue@.len() == 0 && old(self).is_task_running ==> {
                &&& step matches ModalStep::Closed(c) && c matches StateChange::ToStatus(h) && h
                    == textarea_height(text_rows)
                &&& final(self).state is StatusIndicator
            },
            complete && old(self).state->queue@.len() == 0 && !old(self).is_task_running ==> {
                &&& step matches ModalStep::Closed(c) && c is ToTextInput
                &&& final(self).state is TextInput
            },
    {
        if !complete {
            return ModalStep::StillOpen;
        }
        let mut state = PaneState::TextInput;
        std::mem::swap(&mut state, &mut self.state);
        match state {
            PaneState::ApprovalModal { current, mut queue } => {
                if queue.len() > 0 {
                    let next = queue.remove(0);
                    proof {
                        assert(queue@ =~= old(self).state->queue@.drop_first());
                    }
                    self.state = PaneState::ApprovalModal { current: next, queue };
                    assert(pending_requests(self.state) =~= pending_requests(
                        old(self).state,
                    ).drop_first());
                    ModalStep::NextRequest(next)
                } else if self.is_task_running {
                    let h = textarea_height_for(text_rows);
                    self.state = PaneState::StatusIndicator;
                    ModalStep::Closed(StateChange::ToStatus(h))
                } else {
                    self.state = PaneState::TextInput;
                    ModalStep::Closed(StateChange::ToTextInput)
                }
            },
            other => {
                self.state = other;
                ModalStep::StillOpen
            },
        }
    }

    /// Records whether a task runs. The text input gives way to the status
    /// indicator when a task starts, and the status indicator to the text
    /// input when it stops; an approval dialog stays.
    pub fn set_task_running(&mut self, is_task_running: bool, text_rows: usize) -> (c: StateChange)
        requires
            old(self).state is TextInput && is_task_running ==> textarea_height(text_rows)
                <= u16::MAX,
        ensures
            final(self).is_task_running == is_task_running,
            only_state_changed(*old(self), *final(self)),
            old(self).state is TextInput && is_task_running ==> (c matches StateChange::ToStatus(h)
                && h == textarea_height(text_rows)) && final(self).state is StatusIndicator,
            old(self).state is StatusIndicator && !is_task_running ==> c is ToTextInput
                && final(self).state is TextInput,
            !(old(self).state is TextInput && is_task_running) && !(old(
                self,
            ).state is StatusIndicator && !is_task_running) ==> c is Unchanged && final(self).state
                == old(self).state,
    {
        self.is_task_running = is_task_running;
        match self.state {
            PaneState::TextInput => {
                if is_task_running {
                    let h = textarea_height_for(text_rows);
                    self.state = PaneState::StatusIndicator;
                    StateChange::ToStatus(h)
                } else {
                    StateChange::Unchanged
                }
            },
            PaneState::StatusIndicator => {
                if is_task_running {
                    StateChange::Unchanged
                } else {
                    self.state = PaneState::TextInput;
                    StateChange::ToTextInput
                }
            },
            PaneState::ApprovalModal { .. } => StateChange::Unchanged,
        }
    }

    /// Enqueues an approval request. Returns whether the pane switched to
    /// the approval dialog (the caller then re-applies the border and
    /// redraws); an open dialog queues the request behind the others.
    pub fn push_approval_request(&mut self, request: u64) -> (switched: bool)
        ensures
            only_state_changed(*old(self), *final(self)),
            final(self).is_task_running == old(self).is_task_running,
            final(self).state is ApprovalModal,
            old(self).state is ApprovalModal ==> !switched && final(self).state->current == old(
                self,
            ).state->current && final(self).state->queue@ == old(self).state->queue@.push(request),
            !(old(self).state is ApprovalModal) ==> switched && final(self).state->current
                == request && final(self).state->queue@ == Seq::<u64>::empty(),
            old(self).state is ApprovalModal ==> pending_requests(final(self).state)
                == pending_requests(old(self).state).push(request),
            !(old(self).state is ApprovalModal) ==> pending_requests(final(self).state) == seq![
                request,
            ],
    {
        let mut state = PaneState::TextInput;
        std::mem::swap(&mut state, &mut self.state);
        match state {
            PaneState::ApprovalModal { current, mut queue } => {
                queue.push(request);
                self.state = PaneState::ApprovalModal { current, queue };
                assert(pending_requests(self.state) =~= pending_requests(old(self).state).push(
                    request,
                ));
                false
            },
            _ => {
                self.state = PaneState::ApprovalModal { current: request, queue: Vec::new() };
                assert(pending_requests(self.state) =~= seq![request]);
                true
            },
        }
    }

    /// Height the pane needs in `area`: the active widget's height while the
    /// status indicator or an approval dialog is shown, else the text area
    /// for `text_rows` lines plus the popup, at most the area's height.
    pub fn required_height(&self, area: Area, text_rows: usize, widget_height: u16) -> (h: u16)
        requires
            self.state is TextInput ==> textarea_height(text_rows) + overlay_height_in(
                self.show_slash_overlay,
                listed_commands(self.slash_filter@).len() as int,
                self.slash_overlay_height,
                area,
            ) <= u16::MAX,
        ensures
            !(self.state is TextInput) ==> h == widget_height,
            self.state is TextInput ==> h == min_int(
                textarea_height(text_rows) + overlay_height_in(
                    self.show_slash_overlay,
                    listed_commands(self.slash_filter@).len() as int,
                    self.slash_overlay_height,
                    area,
                ),
                area.height as int,
            ),
    {
        match self.state {
            PaneState::TextInput => {
                proof {
                    lemma_overlay_height_nonneg(
                        self.show_slash_overlay,
                        listed_commands(self.slash_filter@).len() as int,
                        self.slash_overlay_height,
                        area,
                    );
                }
                let input_height = textarea_height_for(text_rows);
                let overlay_height = self.calc_overlay_height(area);
                let total = input_height + overlay_height;
                if total < area.height {
                    total
                } else {
                    area.height
                }
            },
            _ => widget_height,
        }
    }

    /// Where the text input and the popup go in `area` while the text input
    /// is shown: the text area sits above the popup, the two at the bottom
    /// of `area`.
    pub fn text_input_layout(&self, area: Area, text_rows: usize) -> (l: PaneLayout)
        requires
            area.y + area.height <= u16::MAX,
            textarea_height(text_rows) + overlay_height_in(
                self.show_slash_overlay,
                listed_commands(self.slash_filter@).len() as int,
                self.slash_overlay_height,
                area,
            ) <= area.y + area.height,
        ensures
            ({
                let th = textarea_height(text_rows);
                let oh = overlay_height_in(
                    self.show_slash_overlay,
                    listed_commands(self.slash_filter@).len() as int,
                    self.slash_overlay_height,
                    area,
                );
                &&& l.input.x == area.x
                &&& l.input.y == area.y + area.height - th - oh
                &&& l.input.width == area.width
                &&& l.input.height == th
                &&& oh > 0 ==> l.overlay == Some(
                    Area {
                        x: area.x,
                        y: (area.y + area.height - oh) as u16,
                        width: area.width,
                        height: oh as u16,
                    },
                )
                &&& oh == 0 ==> l.overlay is None
            }),
    {
        proof {
            lemma_overlay_height_nonneg(
                self.show_slash_overlay,
                listed_commands(self.slash_filter@).len() as int,
                self.slash_overlay_height,
                area,
            );
        }
        let textarea_height = textarea_height_for(text_rows);
        let filtered = self.filtered_slash_commands();
        let overlay_height = if self.show_slash_overlay && filtered.len() > 0 {
            self.calc_overlay_height(area)
        } else {
            0
        };
        let total_height = textarea_height + overlay_height;
        let input_area = Area {
            x: area.x,
            y: area.y + area.height - total_height,
            width: area.width,
            height: textarea_height,
        };
        let overlay_area = if self.show_slash_overlay && overlay_height > 0 && filtered.len() > 0 {
            Some(
                Area {
                    x: area.x,
                    y: input_area.y + input_area.height,
                    width: area.width,
                    height: overlay_height,
                },
            )
        } else {
            None
        };
        PaneLayout { input: input_area, overlay: overlay_area }
    }
}

} // verus!

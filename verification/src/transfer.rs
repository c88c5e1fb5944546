//! The decisions of the destination field while the user types: which kind of
//! completion each edit asks for, which answers are still current, and what a
//! poll of the folder-search index shows.
use vstd::prelude::*;
use crate::text::{
    contains_char, is_white_space, lemma_leading_white_space, lemma_trailing_white_space,
    starts_with_char, trim, trim_start, trimmed,
};

verus! {

/// Whether the text is completed from the folder it names rather than by
/// searching: after trimming it contains a separator, starts with `~`, or is
/// empty.
pub open spec fn looks_like_path(input: Seq<char>) -> bool {
    let t = trim(input);
    t.contains('/') || (t.len() > 0 && t[0] == '~') || t.len() == 0
}

/// The request number after `generation`; it stops at the largest value.
pub open spec fn next_generation(generation: u64) -> u64 {
    if generation < u64::MAX {
        (generation + 1) as u64
    } else {
        generation
    }
}

/// What an edit of the field asks the dialog to do.
pub enum InputAction {
    /// List the folder the text names; the answer belongs to `request`.
    ListFolders { request: u64 },
    /// Send the text to the folder-search index.
    Search,
}

/// The state after an edit and what to do about it.
pub struct InputChange {
    /// The request number now current.
    pub generation: u64,
    /// Whether completions now come from the search index.
    pub search_mode: bool,
    pub action: InputAction,
}

/// The outcome of an edit, as a spec value: every edit takes a fresh request
/// number; text that looks like a path is listed under that number and ends
/// search mode, other text starts search mode.
pub open spec fn input_outcome(generation: u64, input: Seq<char>) -> (u64, bool, Option<u64>) {
    let request = next_generation(generation);
    if looks_like_path(input) {
        (request, false, Some(request))
    } else {
        (request, true, None)
    }
}

/// The spec view of an `InputChange`.
pub open spec fn change_view(c: InputChange) -> (u64, bool, Option<u64>) {
    (
        c.generation,
        c.search_mode,
        match c.action {
            InputAction::ListFolders { request } => Some(request),
            InputAction::Search => None,
        },
    )
}

/// Whether `input` is completed from the folder it names.
pub fn is_path_input(input: &str) -> (r: bool)
    ensures
        r == looks_like_path(input@),
{
    let t = trimmed(input);
    contains_char(t, '/') || starts_with_char(t, '~') || t.unicode_len() == 0
}

/// Decides what the edit that left the field holding `input` does, when the
/// current request number is `generation`.
pub fn input_changed(generation: u64, input: &str) -> (c: InputChange)
    ensures
        change_view(c) == input_outcome(generation, input@),
{
    let request = generation.saturating_add(1);
    if is_path_input(input) {
        InputChange {
            generation: request,
            search_mode: false,
            action: InputAction::ListFolders { request },
        }
    } else {
        InputChange { generation: request, search_mode: true, action: InputAction::Search }
    }
}

/// Whether the folder listing made for `request` may still be shown: no edit
/// has come since.
pub fn listing_is_current(generation: u64, request: u64) -> (r: bool)
    ensures
        r == (generation == request),
{
    generation == request
}

/// Law: a listing is superseded by the next edit; once the field changes
/// again, the answer to the earlier request is never shown. (It holds while
/// request numbers have not run out.)
pub proof fn lemma_next_edit_supersedes_listing(
    generation: u64,
    first: Seq<char>,
    second: Seq<char>,
)
    requires
        generation < u64::MAX - 1,
        looks_like_path(first),
    ensures
        ({
            let (g1, _, listed) = input_outcome(generation, first);
            let (g2, _, _) = input_outcome(g1, second);
            listed == Some(g1) && g2 != g1
        }),
{
}

/// Law: request numbers never go backwards, and each edit takes a new one
/// until they run out.
pub proof fn lemma_requests_increase(generation: u64, input: Seq<char>)
    ensures
        input_outcome(generation, input).0 >= generation,
        generation < u64::MAX ==> input_outcome(generation, input).0 == generation + 1,
{
}

/// Law: text is listed as a path exactly when it contains a `/` anywhere, or
/// its first character that is not white space is `~`, or it is nothing but
/// white space; all other text (a single letter, a name) is searched.
pub proof fn lemma_path_input_characterized(input: Seq<char>)
    ensures
        looks_like_path(input) <==> (input.contains('/') || (exists|i: int|
            0 <= i < input.len() && input[i] == '~' && forall|j: int|
                0 <= j < i ==> is_white_space(#[trigger] input[j])) || forall|j: int|
            0 <= j < input.len() ==> is_white_space(#[trigger] input[j])),
{
    let k = lemma_leading_white_space(input);
    let u = trim_start(input);
    let m = lemma_trailing_white_space(u);
    let t = trim(input);
    assert(t == u.take(m));
    assert(!is_white_space('/'));
    assert(!is_white_space('~'));
    assert forall|x: int| 0 <= x < t.len() implies t[x] == input[k + x] by {
    }
    // the trimmed text keeps every `/` of the input
    if input.contains('/') {
        let i = choose|i: int| 0 <= i < input.len() && input[i] == '/';
        if i < k {
            assert(is_white_space(input[i]));
        }
        if i >= k + m {
            assert(u[i - k] == input[i]);
            assert(is_white_space(u[i - k]));
        }
        assert(t[i - k] == '/');
        assert(t.contains('/'));
    }
    if t.contains('/') {
        let x = choose|x: int| 0 <= x < t.len() && t[x] == '/';
        assert(input[k + x] == '/');
    }
    // the trimmed text is empty exactly when the input is all white space
    if t.len() == 0 {
        if k < input.len() {
            assert(u[0] == input[k]);
            assert(is_white_space(u[0]));
        }
        assert forall|j: int| 0 <= j < input.len() implies is_white_space(#[trigger] input[j]) by {
        }
    }
    if forall|j: int| 0 <= j < input.len() ==> is_white_space(#[trigger] input[j]) {
        if k < input.len() {
            assert(is_white_space(input[k]));
        }
    }
    // the trimmed text starts with `~` exactly when the first visible character is `~`
    if t.len() > 0 && t[0] == '~' {
        assert(input[k] == '~');
    }
    if exists|i: int|
        0 <= i < input.len() && input[i] == '~' && forall|j: int|
            0 <= j < i ==> is_white_space(#[trigger] input[j]) {
        let i = choose|i: int|
            0 <= i < input.len() && input[i] == '~' && forall|j: int|
                0 <= j < i ==> is_white_space(#[trigger] input[j]);
        if i < k {
            assert(is_white_space(input[i]));
        }
        if k < i {
            assert(is_white_space(input[k]));
        }
        assert(k == i);
        assert(u[0] == '~');
        if m == 0 {
            assert(is_white_space(u[0]));
        }
        assert(t[0] == '~');
    }
}

/// One folder reported by the search index.
pub struct SearchHit {
    pub path: String,
    pub is_directory: bool,
}

/// An update from the search index: results for a query, or anything else it
/// reports.
pub enum SearchUpdate {
    Results { query: String, hits: Vec<SearchHit> },
    Other,
}

/// What one non-blocking receive from the search index gave.
pub enum Received {
    Update(SearchUpdate),
    Empty,
    Disconnected,
}

/// The updates taken so far in one poll.
pub struct EventDrain {
    pub latest: Option<SearchUpdate>,
    pub taken: usize,
}

/// How a poll goes on after a receive.
pub enum DrainProgress {
    /// Receive again.
    More(EventDrain),
    /// Stop receiving; the latest update taken, if any.
    Done(Option<SearchUpdate>),
    /// The index is gone; stop polling for good.
    Closed,
}

/// The most updates one poll takes.
pub const MAX_UPDATES_PER_POLL: usize = 8;

/// A poll that has taken nothing yet.
pub fn start_drain() -> (d: EventDrain)
    ensures
        d.latest is None,
        d.taken == 0,
{
    EventDrain { latest: None, taken: 0 }
}

/// Takes one receive into the poll: an update becomes the latest and the poll
/// stops after `MAX_UPDATES_PER_POLL` of them; an empty channel ends the poll
/// with the latest update so far; a closed channel ends polling.
pub fn drain_step(drain: EventDrain, received: Received) -> (p: DrainProgress)
    requires
        drain.taken < MAX_UPDATES_PER_POLL,
    ensures
        match received {
            Received::Update(u) => if drain.taken + 1 == MAX_UPDATES_PER_POLL {
                p == DrainProgress::Done(Some(u))
            } else {
                p == DrainProgress::More(EventDrain { latest: Some(u), taken: (drain.taken + 1) as usize })
            },
            Received::Empty => p == DrainProgress::Done(drain.latest),
            Received::Disconnected => p is Closed,
        },
{
    match received {
        Received::Update(u) => {
            let taken = drain.taken + 1;
            if taken == MAX_UPDATES_PER_POLL {
                DrainProgress::Done(Some(u))
            } else {
                DrainProgress::More(EventDrain { latest: Some(u), taken })
            }
        },
        Received::Empty => DrainProgress::Done(drain.latest),
        Received::Disconnected => DrainProgress::Closed,
    }
}

/// What a poll tick does before receiving anything.
pub enum PollGate {
    /// The field is gone or no longer in a window: stop polling.
    Stop,
    /// Completions come from folder listings now: receive nothing.
    Idle,
    /// Receive updates from the index.
    Drain,
}

/// Decides a poll tick from whether the field and the suggestion list still
/// exist, whether the field is in a window, and whether search mode is on.
pub fn poll_gate(widgets_alive: bool, field_in_window: bool, search_mode: bool) -> (g: PollGate)
    ensures
        !widgets_alive || !field_in_window ==> g is Stop,
        widgets_alive && field_in_window && !search_mode ==> g is Idle,
        widgets_alive && field_in_window && search_mode ==> g is Drain,
{
    if !widgets_alive || !field_in_window {
        PollGate::Stop
    } else if !search_mode {
        PollGate::Idle
    } else {
        PollGate::Drain
    }
}

/// The results to show after a poll: those of the latest update, when it holds
/// results for exactly the text now in the field (trimmed).
pub fn results_to_show(latest: Option<SearchUpdate>, field_text: &str) -> (r: Option<
    Vec<SearchHit>,
>)
    ensures
        match latest {
            Some(SearchUpdate::Results { query, hits }) => if query@ == trim(field_text@) {
                r == Some(hits)
            } else {
                r is None
            },
            _ => r is None,
        },
{
    match latest {
        Some(SearchUpdate::Results { query, hits }) => {
            let current = trimmed(field_text).to_owned();
            if query == current {
                Some(hits)
            } else {
                None
            }
        },
        _ => None,
    }
}

} // verus!

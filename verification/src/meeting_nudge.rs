//! The meeting-detection nudge.
//!
//! When a meeting app takes the microphone, a small overlay offers to start recording. It never
//! forks a second recording path: its button drives the flow that the tray uses.

use crate::json::{Json, JsonTree};
use crate::text::chars_of;
use vstd::prelude::*;

verus! {

/// Label of the overlay window.
pub const NUDGE_LABEL: &'static str = "meeting-nudge";

/// Nudge state of a session. `dismissed` guards against nudging again in the same meeting after a
/// click on Start or Ignore; it is reset when the meeting ends, so that the next meeting nudges
/// again.
#[derive(Debug, Clone, Copy, PartialEq, Eq, Structural)]
pub struct NudgeState {
    pub dismissed: bool,
}

impl Default for NudgeState {
    fn default() -> (r: Self)
        ensures
            !r.dismissed,
    {
        NudgeState { dismissed: false }
    }
}

/// Something to do to the app's windows and its store.
#[derive(Debug, Clone, Copy, PartialEq, Eq, Structural)]
pub enum NudgeAction {
    /// Bring the main window to the front.
    FocusMain,
    /// Have the main window start recording when it shows its first page, and go there.
    AutoStartRecording,
    /// Close the overlay, where it is open.
    CloseOverlay,
    /// Store whether the feature is on.
    StoreEnabled(bool),
}

/// Whether the feature is on, by the stored entry: it is, unless the entry says no.
pub open spec fn enabled_by(entry: Option<JsonTree>) -> bool {
    entry != Some(JsonTree::Bool(false))
}

/// Whether the feature is on (default: on). `entry` is the stored toggle, if the store could be
/// opened and has one.
pub fn is_enabled(entry: Option<&Json>) -> (r: bool)
    ensures
        r == enabled_by(
            match entry {
                Some(v) => Some(v.tree()),
                None => None,
            },
        ),
{
    match entry {
        Some(Json::Bool(b)) => *b,
        _ => true,
    }
}

/// Whether a meeting that has just started may be nudged about, as far as that is known before asking
/// whether a recording is running.
pub open spec fn may_nudge(state: NudgeState, enabled: bool, overlay_open: bool) -> bool {
    enabled && !state.dismissed && !overlay_open
}

/// A meeting has just started: whether to go on and ask if a recording is running. Not where the
/// feature is off, the meeting was dismissed, or the overlay is open already.
pub fn handle_started(state: &NudgeState, enabled: bool, overlay_open: bool) -> (r: bool)
    ensures
        r == may_nudge(*state, enabled, overlay_open),
{
    if !enabled {
        return false;
    }
    if state.dismissed {
        return false;
    }
    if overlay_open {
        return false;
    }
    true
}

/// The address of the overlay to show, unless a recording is running already.
pub fn overlay_to_show(recording: bool, platform_label: &str) -> (r: Option<String>)
    ensures
        match r {
            Some(url) => !recording && url@ == overlay_address(platform_label@),
            None => recording,
        },
{
    if recording {
        None
    } else {
        Some(overlay_url(platform_label))
    }
}

/// The meeting has ended: nudge about the next one again, and close the overlay.
pub fn handle_ended(state: &mut NudgeState) -> (r: Vec<NudgeAction>)
    ensures
        *final(state) == NudgeEvent::MeetingEnded.after(),
        r@ == seq![NudgeAction::CloseOverlay],
{
    state.dismissed = false;
    let mut out: Vec<NudgeAction> = Vec::new();
    out.push(NudgeAction::CloseOverlay);
    out
}

/// Start recording by the path that the tray uses, then close the overlay.
pub fn nudge_start_recording(state: &mut NudgeState) -> (r: Vec<NudgeAction>)
    ensures
        *final(state) == NudgeEvent::StartClicked.after(),
        r@ == seq![
            NudgeAction::FocusMain,
            NudgeAction::AutoStartRecording,
            NudgeAction::CloseOverlay,
        ],
{
    state.dismissed = true;
    let mut out: Vec<NudgeAction> = Vec::new();
    out.push(NudgeAction::FocusMain);
    out.push(NudgeAction::AutoStartRecording);
    out.push(NudgeAction::CloseOverlay);
    out
}

/// Dismiss the nudge for the present meeting.
pub fn nudge_dismiss(state: &mut NudgeState) -> (r: Vec<NudgeAction>)
    ensures
        *final(state) == NudgeEvent::IgnoreClicked.after(),
        r@ == seq![NudgeAction::CloseOverlay],
{
    state.dismissed = true;
    let mut out: Vec<NudgeAction> = Vec::new();
    out.push(NudgeAction::CloseOverlay);
    out
}

/// The toggle, for a settings page.
pub fn nudge_get_enabled(entry: Option<&Json>) -> (r: bool)
    ensures
        r == enabled_by(
            match entry {
                Some(v) => Some(v.tree()),
                None => None,
            },
        ),
{
    is_enabled(entry)
}

/// Store the toggle; an open overlay is closed when the feature is turned off. `opened` says whether the
/// store could be opened: nothing is done where it could not.
pub fn nudge_set_enabled(enabled: bool, opened: Result<(), String>) -> (r: Result<
    Vec<NudgeAction>,
    String,
>)
    ensures
        match opened {
            Ok(_) => r is Ok && r->Ok_0@ == if enabled {
                seq![NudgeAction::StoreEnabled(true)]
            } else {
                seq![NudgeAction::StoreEnabled(false), NudgeAction::CloseOverlay]
            },
            Err(e) => r == Err::<Vec<NudgeAction>, String>(e),
        },
{
    match opened {
        Ok(_) => {
            let mut out: Vec<NudgeAction> = Vec::new();
            out.push(NudgeAction::StoreEnabled(enabled));
            if !enabled {
                out.push(NudgeAction::CloseOverlay);
            }
            Ok(out)
        },
        Err(e) => Err(e),
    }
}

// ---- the overlay's address -------------------------------------------------------------------

/// A label with its spaces percent-encoded.
pub open spec fn encoded(label: Seq<char>) -> Seq<char>
    decreases label.len(),
{
    if label.len() == 0 {
        Seq::empty()
    } else if label.last() == ' ' {
        encoded(label.drop_last()) + "%20"@
    } else {
        encoded(label.drop_last()).push(label.last())
    }
}

/// The address of the overlay for a platform.
pub open spec fn overlay_address(platform_label: Seq<char>) -> Seq<char> {
    NUDGE_LABEL@ + ".html?platform="@ + encoded(platform_label)
}

/// The address of the overlay for a platform. Spaces are percent-encoded, so that the query
/// survives the round trip.
pub fn overlay_url(platform_label: &str) -> (r: String)
    ensures
        r@ == overlay_address(platform_label@),
{
    let chars = chars_of(platform_label);
    let mut label = String::new();
    for i in 0..chars.len()
        invariant
            label@ == encoded(chars@.take(i as int)),
    {
        assert(chars@.take(i + 1).drop_last() == chars@.take(i as int));
        if chars[i] == ' ' {
            label.append("%20");
        } else {
            label.push(chars[i]);
        }
    }
    assert(chars@.take(chars@.len() as int) == chars@);
    let mut url = NUDGE_LABEL.to_owned();
    url.append(".html?platform=");
    url.append(label.as_str());
    url
}

/// The overlay's address has no space in it.
pub proof fn addresses_have_no_space(platform_label: Seq<char>)
    ensures
        !overlay_address(platform_label).contains(' '),
{
    lemma_encoded(platform_label);
    let label = NUDGE_LABEL@;
    let middle = ".html?platform="@;
    let rest = encoded(platform_label);
    reveal_strlit("meeting-nudge");
    reveal_strlit(".html?platform=");
    let url = overlay_address(platform_label);
    assert forall|i: int| 0 <= i < url.len() implies #[trigger] url[i] != ' ' by {
        if i < label.len() {
            assert(url[i] == label[i]);
        } else if i < label.len() + middle.len() {
            assert(url[i] == middle[i - label.len()]);
        } else {
            assert(url[i] == rest[i - label.len() - middle.len()]);
        }
    }
}

proof fn lemma_encoded(label: Seq<char>)
    ensures
        forall|i: int| 0 <= i < encoded(label).len() ==> #[trigger] encoded(label)[i] != ' ',
    decreases label.len(),
{
    if label.len() > 0 {
        lemma_encoded(label.drop_last());
        reveal_strlit("%20");
        let before = encoded(label.drop_last());
        let code = "%20"@;
        assert forall|i: int| 0 <= i < encoded(label).len() implies #[trigger] encoded(label)[i]
            != ' ' by {
            if i < before.len() {
                assert(encoded(label)[i] == before[i]);
            } else if label.last() == ' ' {
                assert(encoded(label)[i] == code[i - before.len()]);
            }
        }
    }
}

// ---- what holds of every session ---------------------------------------------------------------

/// Something that happens in a session.
pub enum NudgeEvent {
    /// Start was clicked.
    StartClicked,
    /// Ignore was clicked.
    IgnoreClicked,
    /// The meeting ended.
    MeetingEnded,
}

impl NudgeEvent {
    /// The state after this event, as the handlers leave it.
    pub open spec fn after(self) -> NudgeState {
        match self {
            NudgeEvent::StartClicked => NudgeState { dismissed: true },
            NudgeEvent::IgnoreClicked => NudgeState { dismissed: true },
            NudgeEvent::MeetingEnded => NudgeState { dismissed: false },
        }
    }
}

/// The state after some events.
pub open spec fn state_after(start: NudgeState, events: Seq<NudgeEvent>) -> NudgeState {
    if events.len() == 0 {
        start
    } else {
        events.last().after()
    }
}

/// Once a meeting was started or ignored, nothing nudges about it again until it has ended.
pub proof fn same_meeting_is_not_nudged_again(
    start: NudgeState,
    before: Seq<NudgeEvent>,
    click: NudgeEvent,
    since: Seq<NudgeEvent>,
    enabled: bool,
    overlay_open: bool,
)
    requires
        click !is MeetingEnded,
        forall|i: int| 0 <= i < since.len() ==> #[trigger] since[i] !is MeetingEnded,
    ensures
        !may_nudge(state_after(start, before.push(click) + since), enabled, overlay_open),
{
    let events = before.push(click) + since;
    if since.len() > 0 {
        assert(events.last() == since[since.len() - 1]);
    } else {
        assert(events.last() == click);
    }
}

/// After a meeting has ended, the next one is nudged about, where the feature is on and no overlay is
/// open.
pub proof fn next_meeting_is_nudged(start: NudgeState, before: Seq<NudgeEvent>)
    ensures
        may_nudge(state_after(start, before.push(NudgeEvent::MeetingEnded)), true, false),
{
}

/// A nudge comes wherever nothing stands against it, and only there: the feature is on, the meeting was not
/// dismissed, and no overlay is open.
pub proof fn nothing_else_stands_against_a_nudge(state: NudgeState)
    ensures
        !state.dismissed ==> may_nudge(state, true, false),
        state.dismissed ==> !may_nudge(state, true, false),
        !may_nudge(state, false, false),
        !may_nudge(state, false, true),
        !may_nudge(state, true, true),
{
}

/// Only a stored "no" turns the feature off.
pub proof fn only_a_stored_no_turns_it_off(t: JsonTree, b: bool)
    ensures
        enabled_by(None),
        enabled_by(Some(JsonTree::Bool(b))) == b,
        t !is Bool ==> enabled_by(Some(t)),
{
}

/// A session has the state that its last event left; without events, the one that it began with.
pub proof fn the_last_event_counts(start: NudgeState, before: Seq<NudgeEvent>, e: NudgeEvent)
    ensures
        state_after(start, Seq::empty()) == start,
        state_after(start, before.push(e)).dismissed <==> e !is MeetingEnded,
{
}

/// A label is encoded character by character: a space as "%20", any other character as it is.
pub proof fn labels_are_encoded_by_character(a: Seq<char>, b: Seq<char>, c: char)
    ensures
        encoded(a + b) == encoded(a) + encoded(b),
        c == ' ' ==> encoded(seq![c]) == seq!['%', '2', '0'],
        c != ' ' ==> encoded(seq![c]) == seq![c],
    decreases b.len(),
{
    if b.len() == 0 {
        assert(a + b =~= a);
        assert(encoded(a) + encoded(b) =~= encoded(a));
    } else {
        labels_are_encoded_by_character(a, b.drop_last(), c);
        assert((a + b).drop_last() =~= a + b.drop_last());
        assert((a + b).last() == b.last());
        assert(encoded(a + b) =~= encoded(a) + encoded(b));
    }
    assert(seq![c].drop_last() =~= Seq::empty());
    reveal_with_fuel(encoded, 2);
    reveal_strlit("%20");
    assert("%20"@ =~= seq!['%', '2', '0']);
    assert(Seq::<char>::empty() + "%20"@ =~= seq!['%', '2', '0']);
    assert(Seq::<char>::empty().push(c) =~= seq![c]);
}

/// A label without spaces is in the address as it is, behind the name of the page.
pub proof fn addresses_hold_the_label(label: Seq<char>)
    ensures
        overlay_address(label) == "meeting-nudge.html?platform="@ + encoded(label),
        !label.contains(' ') ==> encoded(label) == label,
{
    reveal_strlit("meeting-nudge");
    reveal_strlit(".html?platform=");
    reveal_strlit("meeting-nudge.html?platform=");
    assert(NUDGE_LABEL@ + ".html?platform="@ =~= "meeting-nudge.html?platform="@);
    if !label.contains(' ') {
        lemma_plain_labels(label);
    }
}

proof fn lemma_plain_labels(label: Seq<char>)
    requires
        !label.contains(' '),
    ensures
        encoded(label) == label,
    decreases label.len(),
{
    if label.len() > 0 {
        let before = label.drop_last();
        assert forall|i: int| 0 <= i < before.len() implies before[i] != ' ' by {
            assert(label.contains(label[i]));
        }
        assert(label.contains(label.last()));
        lemma_plain_labels(before);
        assert(before.push(label.last()) =~= label);
    }
}

} // verus!

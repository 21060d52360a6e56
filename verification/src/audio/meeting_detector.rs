//! Meeting auto-detection.
//!
//! The signal: a known meeting app is capturing the microphone. That means a call has been joined,
//! which is far more precise than "some app is producing sound".

use crate::text::{ascii_lowercase, contains_text, lowercase, occurs, same_text};
use vstd::prelude::*;
use vstd::utf8::is_ascii_chars;

verus! {

/// A meeting platform inferred from the app that holds the microphone.
#[derive(Debug, Clone, Copy, PartialEq, Eq, Structural)]
pub enum MeetingPlatform {
    Zoom,
    Teams,
    GoogleMeet,
    Webex,
    Slack,
    Discord,
    /// A browser-based call that cannot be attributed more precisely.
    Browser,
}

impl MeetingPlatform {
    /// The name of the platform, as shown to people.
    pub open spec fn name(self) -> Seq<char> {
        match self {
            MeetingPlatform::Zoom => "Zoom"@,
            MeetingPlatform::Teams => "Teams"@,
            MeetingPlatform::GoogleMeet => "Google Meet"@,
            MeetingPlatform::Webex => "Webex"@,
            MeetingPlatform::Slack => "Slack"@,
            MeetingPlatform::Discord => "Discord"@,
            MeetingPlatform::Browser => "a video call"@,
        }
    }

    /// Human-facing label shown in the nudge.
    pub fn label(self) -> (r: &'static str)
        ensures
            r@ == self.name(),
    {
        match self {
            MeetingPlatform::Zoom => "Zoom",
            MeetingPlatform::Teams => "Teams",
            MeetingPlatform::GoogleMeet => "Google Meet",
            MeetingPlatform::Webex => "Webex",
            MeetingPlatform::Slack => "Slack",
            MeetingPlatform::Discord => "Discord",
            MeetingPlatform::Browser => "a video call",
        }
    }
}

/// Whether a lower-case app name is that of a browser.
pub open spec fn browser_name(n: Seq<char>) -> bool {
    ||| occurs(n, "google chrome"@)
    ||| occurs(n, "chromium"@)
    ||| occurs(n, "brave browser"@)
    ||| occurs(n, "microsoft edge"@)
    ||| occurs(n, "arc"@)
    ||| occurs(n, "safari"@)
    ||| occurs(n, "firefox"@)
    ||| occurs(n, "vivaldi"@)
    ||| occurs(n, "opera"@)
}

/// The platform of an app with this lower-case name. Native meeting clients come first.
pub open spec fn platform_of(n: Seq<char>) -> Option<MeetingPlatform> {
    if occurs(n, "zoom"@) {
        Some(MeetingPlatform::Zoom)
    } else if occurs(n, "microsoft teams"@) || n == "teams"@ {
        Some(MeetingPlatform::Teams)
    } else if occurs(n, "webex"@) || occurs(n, "cisco"@) {
        Some(MeetingPlatform::Webex)
    } else if occurs(n, "google meet"@) || n == "meet"@ {
        Some(MeetingPlatform::GoogleMeet)
    } else if occurs(n, "slack"@) {
        Some(MeetingPlatform::Slack)
    } else if occurs(n, "discord"@) {
        Some(MeetingPlatform::Discord)
    } else if browser_name(n) {
        Some(MeetingPlatform::Browser)
    } else {
        None
    }
}

/// The platform of an app with this lower-case name.
pub fn classify_lowered(n: &str) -> (r: Option<MeetingPlatform>)
    ensures
        r == platform_of(n@),
{
    // Native meeting clients first (most specific).
    if contains_text(n, "zoom") {
        return Some(MeetingPlatform::Zoom);
    }
    if contains_text(n, "microsoft teams") || same_text(n, "teams") {
        return Some(MeetingPlatform::Teams);
    }
    if contains_text(n, "webex") || contains_text(n, "cisco") {
        return Some(MeetingPlatform::Webex);
    }
    if contains_text(n, "google meet") || same_text(n, "meet") {
        return Some(MeetingPlatform::GoogleMeet);
    }
    if contains_text(n, "slack") {
        return Some(MeetingPlatform::Slack);
    }
    if contains_text(n, "discord") {
        return Some(MeetingPlatform::Discord);
    }
    // A browser that holds the microphone is in a call.
    if contains_text(n, "google chrome") || contains_text(n, "chromium") || contains_text(
        n,
        "brave browser",
    ) || contains_text(n, "microsoft edge") || contains_text(n, "arc") || contains_text(n, "safari")
        || contains_text(n, "firefox") || contains_text(n, "vivaldi") || contains_text(n, "opera") {
        return Some(MeetingPlatform::Browser);
    }
    None
}

/// Classify an app's localized name into a meeting platform.
///
/// Native meeting apps are unambiguous. Browsers are treated as a generic call only because they
/// hold the microphone, which is nearly always a live call.
pub fn classify_app(name: &str) -> (r: Option<MeetingPlatform>)
    ensures
        r == platform_of(lowercase(name@)),
        is_ascii_chars(name@) ==> r == platform_of(ascii_lowercase(name@)),
{
    classify_lowered(name.to_lowercase().as_str())
}

/// Emitted as the meeting state changes.
#[derive(Debug, Clone)]
pub enum MeetingEvent {
    Started { platform: MeetingPlatform, app: String },
    Ended,
}

/// What is known of a running process.
#[derive(Debug)]
pub struct MicProcess {
    /// Whether it is capturing the microphone.
    pub running_input: bool,
    /// The localized name of its app, where it has one.
    pub name: Option<String>,
}

/// A meeting app that holds the microphone.
pub struct MeetingApp {
    pub name: Seq<char>,
    pub platform: MeetingPlatform,
}

/// The meeting app that a process stands for, if it is one that holds the microphone.
pub open spec fn meeting_app(p: MicProcess) -> Option<MeetingApp> {
    if p.running_input {
        match p.name {
            Some(n) => match platform_of(lowercase(n@)) {
                Some(platform) => Some(MeetingApp { name: n@, platform }),
                None => None,
            },
            None => None,
        }
    } else {
        None
    }
}

/// The meeting apps among some processes, in order.
pub open spec fn meeting_apps(processes: Seq<MicProcess>) -> Seq<MeetingApp>
    decreases processes.len(),
{
    if processes.len() == 0 {
        Seq::empty()
    } else {
        let before = meeting_apps(processes.drop_last());
        match meeting_app(processes.last()) {
            Some(a) => before.push(a),
            None => before,
        }
    }
}

/// What a list of apps says.
pub open spec fn app_views(v: Seq<(String, MeetingPlatform)>) -> Seq<MeetingApp> {
    Seq::new(v.len(), |i: int| MeetingApp { name: v[i].0@, platform: v[i].1 })
}

/// The meeting apps that hold the microphone.
pub fn meeting_apps_using_mic(processes: &Vec<MicProcess>) -> (r: Vec<(String, MeetingPlatform)>)
    ensures
        app_views(r@) == meeting_apps(processes@),
{
    let mut out: Vec<(String, MeetingPlatform)> = Vec::new();
    for i in 0..processes.len()
        invariant
            app_views(out@) == meeting_apps(processes@.take(i as int)),
    {
        assert(processes@.take(i + 1).drop_last() == processes@.take(i as int));
        let ghost o = out@;
        if processes[i].running_input {
            if let Some(name) = &processes[i].name {
                if let Some(platform) = classify_app(name.as_str()) {
                    out.push((name.clone(), platform));
                    assert(app_views(out@) == app_views(o).push(
                        MeetingApp { name: name@, platform },
                    ));
                }
            }
        }
    }
    assert(processes@.take(processes@.len() as int) == processes@);
    out
}

/// Consecutive polls without a meeting app after which the meeting counts as ended, so that a
/// momentary release of the microphone in mid-call does not end it.
pub const ABSENT_POLLS_TO_END: u32 = 2;

/// Watches for meeting apps that take the microphone. One poll is one call of
/// [`MeetingDetector::poll`].
#[derive(Debug)]
pub struct MeetingDetector {
    running: bool,
    in_meeting: bool,
    absent: u32,
}

/// The state of a detector.
pub struct DetectorView {
    /// Whether it watches at all.
    pub running: bool,
    /// Whether a meeting has been reported as started and not yet as ended.
    pub in_meeting: bool,
    /// How many polls in a row have found no meeting app during the meeting.
    pub absent: nat,
}

/// What an event says.
pub enum EventView {
    Started { platform: MeetingPlatform, app: Seq<char> },
    Ended,
}

impl View for MeetingEvent {
    type V = EventView;

    open spec fn view(&self) -> EventView {
        match *self {
            MeetingEvent::Started { platform, app } => EventView::Started { platform, app: app@ },
            MeetingEvent::Ended => EventView::Ended,
        }
    }
}

impl DetectorView {
    /// Whether this is a state that a detector can be in.
    pub open spec fn is_valid(self) -> bool {
        &&& self.absent < ABSENT_POLLS_TO_END
        &&& !self.in_meeting ==> self.absent == 0
    }

    /// The state after a poll that found these apps.
    pub open spec fn after_poll(self, apps: Seq<MeetingApp>) -> DetectorView {
        if !self.running {
            self
        } else if apps.len() > 0 {
            DetectorView { running: true, in_meeting: true, absent: 0 }
        } else if self.in_meeting && self.absent + 1 < ABSENT_POLLS_TO_END {
            DetectorView { running: true, in_meeting: true, absent: self.absent + 1 }
        } else {
            DetectorView { running: true, in_meeting: false, absent: 0 }
        }
    }

    /// What a poll that found these apps reports.
    pub open spec fn poll_event(self, apps: Seq<MeetingApp>) -> Option<EventView> {
        if !self.running {
            None
        } else if apps.len() > 0 && !self.in_meeting {
            Some(EventView::Started { platform: apps[0].platform, app: apps[0].name })
        } else if apps.len() == 0 && self.in_meeting && self.absent + 1 >= ABSENT_POLLS_TO_END {
            Some(EventView::Ended)
        } else {
            None
        }
    }
}

impl View for MeetingDetector {
    type V = DetectorView;

    closed spec fn view(&self) -> DetectorView {
        DetectorView {
            running: self.running,
            in_meeting: self.in_meeting,
            absent: self.absent as nat,
        }
    }
}

impl MeetingDetector {
    #[verifier::type_invariant]
    spec fn valid(self) -> bool {
        self@.is_valid()
    }

    /// A detector that does not watch yet.
    pub fn new() -> (r: Self)
        ensures
            r@ == (DetectorView { running: false, in_meeting: false, absent: 0 }),
            r@.is_valid(),
    {
        MeetingDetector { running: false, in_meeting: false, absent: 0 }
    }

    /// Begin to watch, out of any meeting.
    pub fn start(&mut self)
        ensures
            final(self)@ == (DetectorView { running: true, in_meeting: false, absent: 0 }),
            final(self)@.is_valid(),
    {
        *self = MeetingDetector { running: true, in_meeting: false, absent: 0 };
    }

    /// Stop watching.
    pub fn stop(&mut self)
        ensures
            final(self)@ == (DetectorView { running: false, ..old(self)@ }),
            final(self)@.is_valid(),
    {
        proof {
            use_type_invariant(&*self);
        }
        self.running = false;
    }

    /// Whether the detector watches.
    pub fn is_running(&self) -> (r: bool)
        ensures
            r == self@.running,
    {
        self.running
    }

    /// One poll: take in the meeting apps that hold the microphone now, and report a meeting that
    /// has started or ended.
    pub fn poll(&mut self, apps: &Vec<(String, MeetingPlatform)>) -> (r: Option<MeetingEvent>)
        ensures
            final(self)@ == old(self)@.after_poll(app_views(apps@)),
            final(self)@.is_valid(),
            match r {
                Some(e) => old(self)@.poll_event(app_views(apps@)) == Some(e@),
                None => old(self)@.poll_event(app_views(apps@)) is None,
            },
    {
        proof {
            use_type_invariant(&*self);
        }
        if !self.running {
            return None;
        }
        if apps.len() > 0 {
            let fresh = !self.in_meeting;
            *self = MeetingDetector { running: true, in_meeting: true, absent: 0 };
            if fresh {
                Some(MeetingEvent::Started { platform: apps[0].1, app: apps[0].0.clone() })
            } else {
                None
            }
        } else if self.in_meeting {
            let absent: u32 = self.absent + 1;
            if absent >= ABSENT_POLLS_TO_END {
                *self = MeetingDetector { running: true, in_meeting: false, absent: 0 };
                Some(MeetingEvent::Ended)
            } else {
                *self = MeetingDetector { running: true, in_meeting: true, absent };
                None
            }
        } else {
            None
        }
    }
}

// ---- what holds of every watch ---------------------------------------------------------------------

/// The state after some polls.
pub open spec fn after_polls(start: DetectorView, polls: Seq<Seq<MeetingApp>>) -> DetectorView
    decreases polls.len(),
{
    if polls.len() == 0 {
        start
    } else {
        after_polls(start, polls.drop_last()).after_poll(polls.last())
    }
}

/// What some polls report, in order.
pub open spec fn reports(start: DetectorView, polls: Seq<Seq<MeetingApp>>) -> Seq<EventView>
    decreases polls.len(),
{
    if polls.len() == 0 {
        Seq::empty()
    } else {
        let before = reports(start, polls.drop_last());
        match after_polls(start, polls.drop_last()).poll_event(polls.last()) {
            Some(e) => before.push(e),
            None => before,
        }
    }
}

/// A meeting is reported as started and as ended by turns, and a detector is in a meeting exactly where
/// the last report says so.
pub proof fn starts_and_ends_alternate(start: DetectorView, polls: Seq<Seq<MeetingApp>>)
    requires
        start.is_valid(),
    ensures
        after_polls(start, polls).is_valid(),
        after_polls(start, polls).running == start.running,
        forall|i: int, j: int|
            0 <= i && j == i + 1 && j < reports(start, polls).len() ==> (#[trigger] reports(
                start,
                polls,
            )[i] is Started <==> #[trigger] reports(start, polls)[j] is Ended),
        reports(start, polls).len() > 0 ==> {
            &&& reports(start, polls)[0] is Started <==> !start.in_meeting
            &&& reports(start, polls).last() is Started <==> after_polls(start, polls).in_meeting
        },
        reports(start, polls).len() == 0 ==> after_polls(start, polls).in_meeting
            == start.in_meeting,
    decreases polls.len(),
{
    if polls.len() > 0 {
        let before = polls.drop_last();
        starts_and_ends_alternate(start, before);
        let was = reports(start, before);
        let now = reports(start, polls);
        assert forall|i: int, j: int| 0 <= i && j == i + 1 && j < now.len() implies (
        #[trigger] now[i] is Started <==> #[trigger] now[j] is Ended) by {
            if j < was.len() {
                assert(now[i] == was[i] && now[j] == was[j]);
            } else {
                assert(now[i] == was[was.len() - 1]);
            }
        }
    }
}

/// A momentary release of the microphone does not end a meeting: fewer polls without a meeting app than
/// [`ABSENT_POLLS_TO_END`], after one with one, report nothing.
pub proof fn momentary_release_is_forgiven(
    start: DetectorView,
    apps: Seq<MeetingApp>,
    polls: Seq<Seq<MeetingApp>>,
)
    requires
        start.is_valid(),
        start.running,
        start.in_meeting,
        apps.len() > 0,
        polls.len() < ABSENT_POLLS_TO_END,
        forall|i: int| 0 <= i < polls.len() ==> (#[trigger] polls[i]).len() == 0,
    ensures
        reports(start.after_poll(apps), polls).len() == 0,
        after_polls(start.after_poll(apps), polls).in_meeting,
{
    lemma_absent_polls(start.after_poll(apps), polls);
}

/// As many polls in a row without a meeting app as [`ABSENT_POLLS_TO_END`] end the meeting, and report
/// that once.
pub proof fn lasting_release_ends_the_meeting(
    start: DetectorView,
    apps: Seq<MeetingApp>,
    polls: Seq<Seq<MeetingApp>>,
)
    requires
        start.is_valid(),
        start.running,
        apps.len() > 0,
        polls.len() == ABSENT_POLLS_TO_END,
        forall|i: int| 0 <= i < polls.len() ==> (#[trigger] polls[i]).len() == 0,
    ensures
        reports(start.after_poll(apps), polls) == seq![EventView::Ended],
        !after_polls(start.after_poll(apps), polls).in_meeting,
{
    let before = polls.drop_last();
    assert forall|i: int| 0 <= i < before.len() implies (#[trigger] before[i]).len() == 0 by {
        assert(before[i] == polls[i]);
    }
    lemma_absent_polls(start.after_poll(apps), before);
    assert(polls.last() == polls[polls.len() - 1]);
    assert(reports(start.after_poll(apps), polls) =~= seq![EventView::Ended]);
}

proof fn lemma_absent_polls(start: DetectorView, polls: Seq<Seq<MeetingApp>>)
    requires
        start.running,
        start.in_meeting,
        start.absent == 0,
        polls.len() < ABSENT_POLLS_TO_END,
        forall|i: int| 0 <= i < polls.len() ==> (#[trigger] polls[i]).len() == 0,
    ensures
        reports(start, polls).len() == 0,
        after_polls(start, polls) == (DetectorView {
            running: true,
            in_meeting: true,
            absent: polls.len(),
        }),
    decreases polls.len(),
{
    if polls.len() > 0 {
        let before = polls.drop_last();
        assert forall|i: int| 0 <= i < before.len() implies (#[trigger] before[i]).len() == 0 by {
            assert(before[i] == polls[i]);
        }
        lemma_absent_polls(start, before);
        assert(polls.last() == polls[polls.len() - 1]);
    }
}

// ---- what is taken for a meeting -------------------------------------------------------------------

/// A known name is never missed, whatever else an app's name holds.
pub proof fn known_names_are_recognised(n: Seq<char>)
    requires
        occurs(n, "zoom"@) || occurs(n, "microsoft teams"@) || n == "teams"@ || occurs(n, "webex"@)
            || occurs(n, "cisco"@) || occurs(n, "google meet"@) || n == "meet"@ || occurs(n, "slack"@)
            || occurs(n, "discord"@) || occurs(n, "google chrome"@) || occurs(n, "chromium"@)
            || occurs(n, "brave browser"@) || occurs(n, "microsoft edge"@) || occurs(n, "arc"@)
            || occurs(n, "safari"@) || occurs(n, "firefox"@) || occurs(n, "vivaldi"@) || occurs(
            n,
            "opera"@,
        ),
    ensures
        platform_of(n) is Some,
{
}

/// An app is taken for one of a platform only where its name says so.
pub proof fn platforms_are_named(n: Seq<char>)
    ensures
        match platform_of(n) {
            Some(MeetingPlatform::Zoom) => occurs(n, "zoom"@),
            Some(MeetingPlatform::Teams) => occurs(n, "microsoft teams"@) || n == "teams"@,
            Some(MeetingPlatform::Webex) => occurs(n, "webex"@) || occurs(n, "cisco"@),
            Some(MeetingPlatform::GoogleMeet) => occurs(n, "google meet"@) || n == "meet"@,
            Some(MeetingPlatform::Slack) => occurs(n, "slack"@),
            Some(MeetingPlatform::Discord) => occurs(n, "discord"@),
            Some(MeetingPlatform::Browser) => occurs(n, "google chrome"@) || occurs(n, "chromium"@)
                || occurs(n, "brave browser"@) || occurs(n, "microsoft edge"@) || occurs(n, "arc"@)
                || occurs(n, "safari"@) || occurs(n, "firefox"@) || occurs(n, "vivaldi"@) || occurs(
                n,
                "opera"@,
            ),
            None => true,
        },
{
}

/// Native meeting apps come first, in this order: Zoom, Teams, Webex, Google Meet, Slack, Discord. A browser is
/// taken for a call only where no such app is named.
pub proof fn native_apps_come_first(n: Seq<char>)
    ensures
        occurs(n, "zoom"@) ==> platform_of(n) == Some(MeetingPlatform::Zoom),
        occurs(n, "microsoft teams"@) || n == "teams"@ ==> seq![
            Some(MeetingPlatform::Zoom),
            Some(MeetingPlatform::Teams),
        ].contains(platform_of(n)),
        occurs(n, "webex"@) || occurs(n, "cisco"@) ==> seq![
            Some(MeetingPlatform::Zoom),
            Some(MeetingPlatform::Teams),
            Some(MeetingPlatform::Webex),
        ].contains(platform_of(n)),
        occurs(n, "google meet"@) || n == "meet"@ ==> seq![
            Some(MeetingPlatform::Zoom),
            Some(MeetingPlatform::Teams),
            Some(MeetingPlatform::Webex),
            Some(MeetingPlatform::GoogleMeet),
        ].contains(platform_of(n)),
        occurs(n, "slack"@) ==> platform_of(n) is Some && platform_of(n) != Some(
            MeetingPlatform::Discord,
        ) && platform_of(n) != Some(MeetingPlatform::Browser),
        occurs(n, "discord"@) ==> platform_of(n) is Some && platform_of(n) != Some(
            MeetingPlatform::Browser,
        ),
{
    let two = seq![Some(MeetingPlatform::Zoom), Some(MeetingPlatform::Teams)];
    let three = seq![
        Some(MeetingPlatform::Zoom),
        Some(MeetingPlatform::Teams),
        Some(MeetingPlatform::Webex),
    ];
    let four = seq![
        Some(MeetingPlatform::Zoom),
        Some(MeetingPlatform::Teams),
        Some(MeetingPlatform::Webex),
        Some(MeetingPlatform::GoogleMeet),
    ];
    assert(two[0] == Some(MeetingPlatform::Zoom) && two[1] == Some(MeetingPlatform::Teams));
    assert(three[0] == two[0] && three[1] == two[1] && three[2] == Some(MeetingPlatform::Webex));
    assert(four[0] == two[0] && four[1] == two[1] && four[2] == three[2] && four[3] == Some(
        MeetingPlatform::GoogleMeet,
    ));
}

/// Every platform has a name of its own.
pub proof fn platforms_have_names_of_their_own(a: MeetingPlatform, b: MeetingPlatform)
    ensures
        a.name() == b.name() <==> a == b,
        a.name().len() > 0,
{
    reveal_strlit("Zoom");
    reveal_strlit("Teams");
    reveal_strlit("Google Meet");
    reveal_strlit("Webex");
    reveal_strlit("Slack");
    reveal_strlit("Discord");
    reveal_strlit("a video call");
    assert("Zoom"@.len() == 4 && "Teams"@.len() == 5 && "Google Meet"@.len() == 11);
    assert("Webex"@.len() == 5 && "Slack"@.len() == 5 && "Discord"@.len() == 7);
    assert("a video call"@.len() == 12);
    assert("Teams"@[0] == 'T' && "Webex"@[0] == 'W' && "Slack"@[0] == 'S');
}

/// The apps among some processes and then some others are those among the first, then those among the others.
pub proof fn apps_come_in_order(a: Seq<MicProcess>, b: Seq<MicProcess>)
    ensures
        meeting_apps(a + b) == meeting_apps(a) + meeting_apps(b),
    decreases b.len(),
{
    if b.len() == 0 {
        assert(a + b =~= a);
    } else {
        apps_come_in_order(a, b.drop_last());
        assert((a + b).drop_last() =~= a + b.drop_last());
        assert((a + b).last() == b.last());
    }
}

/// A process stands for a meeting exactly where it captures the microphone, has a name, and that name, in lower
/// case, is that of a platform; and it is shown under its own name.
pub proof fn a_process_stands_for_its_app(p: MicProcess)
    ensures
        ({
            let apps = meeting_apps(seq![p]);
            let meets = p.running_input && p.name is Some && platform_of(lowercase(p.name->0@)) is Some;
            &&& apps.len() == if meets { 1nat } else { 0nat }
            &&& meets ==> apps[0].name == p.name->0@ && platform_of(lowercase(apps[0].name)) == Some(
                apps[0].platform,
            )
        }),
{
    assert(seq![p].drop_last() =~= Seq::empty());
    reveal_with_fuel(meeting_apps, 2);
}

/// No app is missed: every process that captures the microphone under the name of a platform is among the
/// apps, however many there are.
pub proof fn no_app_is_missed(processes: Seq<MicProcess>, i: int)
    requires
        0 <= i < processes.len(),
        processes[i].running_input,
        processes[i].name is Some,
        platform_of(lowercase(processes[i].name->0@)) is Some,
    ensures
        meeting_apps(processes).contains(
            MeetingApp {
                name: processes[i].name->0@,
                platform: platform_of(lowercase(processes[i].name->0@))->0,
            },
        ),
{
    let app = MeetingApp {
        name: processes[i].name->0@,
        platform: platform_of(lowercase(processes[i].name->0@))->0,
    };
    let before = processes.take(i);
    let here = seq![processes[i]];
    let after = processes.skip(i + 1);
    assert(processes =~= before + here + after);
    apps_come_in_order(before + here, after);
    apps_come_in_order(before, here);
    a_process_stands_for_its_app(processes[i]);
    assert(meeting_apps(processes)[meeting_apps(before).len() as int] == app);
}

/// What a list of apps says is all there.
pub proof fn apps_are_seen_whole(v: Seq<(String, MeetingPlatform)>, i: int)
    requires
        0 <= i < v.len(),
    ensures
        app_views(v).len() == v.len(),
        app_views(v)[i].name == v[i].0@,
        app_views(v)[i].platform == v[i].1,
{
}

// ---- what is reported ------------------------------------------------------------------------------

/// A meeting is reported as soon as it starts, with the first app that holds the microphone; while it lasts,
/// nothing more is.
pub proof fn starts_are_reported_at_once(d: DetectorView, apps: Seq<MeetingApp>, more: Seq<MeetingApp>)
    requires
        d.running,
        !d.in_meeting,
        apps.len() > 0,
        more.len() > 0,
    ensures
        d.poll_event(apps) == Some(
            EventView::Started { platform: apps[0].platform, app: apps[0].name },
        ),
        d.after_poll(apps).in_meeting,
        d.after_poll(apps).running,
        d.after_poll(apps).poll_event(more) is None,
        d.after_poll(apps).after_poll(more) == d.after_poll(apps),
{
}

/// The second poll in a row that finds no app ends a meeting, and not the first; then the next meeting is
/// reported again.
pub proof fn the_second_empty_poll_ends_a_meeting(d: DetectorView, apps: Seq<MeetingApp>)
    requires
        d.running,
        apps.len() > 0,
    ensures
        ({
            let none = Seq::<MeetingApp>::empty();
            let met = d.after_poll(apps);
            let once = met.after_poll(none);
            let twice = once.after_poll(none);
            &&& met.poll_event(none) is None
            &&& once.in_meeting
            &&& once.poll_event(none) == Some(EventView::Ended)
            &&& !twice.in_meeting
            &&& twice.poll_event(none) is None
            &&& twice.poll_event(apps) is Some
            &&& once.after_poll(apps) == met
        }),
{
}

/// A detector that does not watch reports nothing, and stays as it is; one that watches goes on watching.
pub proof fn a_stopped_detector_reports_nothing(d: DetectorView, apps: Seq<MeetingApp>)
    ensures
        !d.running ==> d.poll_event(apps) is None && d.after_poll(apps) == d,
        d.after_poll(apps).running == d.running,
        apps.len() == 0 && !d.in_meeting ==> d.poll_event(apps) is None,
{
}

} // verus!

use meetily::audio::meeting_detector::{
    classify_app, classify_lowered, meeting_apps_using_mic, MeetingDetector, MeetingEvent, MeetingPlatform, MicProcess,
    ABSENT_POLLS_TO_END,
};

#[test]
fn classifies_native_meeting_apps() {
    assert_eq!(classify_app("zoom.us"), Some(MeetingPlatform::Zoom));
    assert_eq!(classify_app("Microsoft Teams"), Some(MeetingPlatform::Teams));
    assert_eq!(classify_app("Webex"), Some(MeetingPlatform::Webex));
    assert_eq!(classify_app("Slack"), Some(MeetingPlatform::Slack));
}

#[test]
fn classifies_browsers_as_generic_call() {
    assert_eq!(classify_app("Google Chrome"), Some(MeetingPlatform::Browser));
    assert_eq!(classify_app("Arc"), Some(MeetingPlatform::Browser));
    assert_eq!(classify_app("Safari"), Some(MeetingPlatform::Browser));
}

#[test]
fn ignores_non_meeting_apps() {
    assert_eq!(classify_app("meetily"), None);
    assert_eq!(classify_app("Spotify"), None);
    assert_eq!(classify_app("Music"), None);
    assert_eq!(classify_app("QuickTime Player"), None);
}

#[test]
fn classifies_every_platform() {
    for (name, platform) in [
        ("ZOOM", MeetingPlatform::Zoom),
        ("Teams", MeetingPlatform::Teams),
        ("Cisco Webex", MeetingPlatform::Webex),
        ("cisco thing", MeetingPlatform::Webex),
        ("Google Meet", MeetingPlatform::GoogleMeet),
        ("Meet", MeetingPlatform::GoogleMeet),
        ("Discord", MeetingPlatform::Discord),
        ("Chromium", MeetingPlatform::Browser),
        ("Brave Browser", MeetingPlatform::Browser),
        ("Microsoft Edge", MeetingPlatform::Browser),
        ("Firefox", MeetingPlatform::Browser),
        ("Vivaldi", MeetingPlatform::Browser),
        ("Opera", MeetingPlatform::Browser),
    ] {
        assert_eq!(classify_app(name), Some(platform), "{}", name);
        assert_eq!(classify_lowered(&name.to_lowercase()), Some(platform));
    }
    assert_eq!(classify_app("my teams"), None);
    assert_eq!(classify_app(""), None);
    assert_eq!(classify_app("Zoom in Google Chrome"), Some(MeetingPlatform::Zoom));
    assert_eq!(classify_app("\u{212a}slac\u{212a}"), Some(MeetingPlatform::Slack));
}

#[test]
fn platforms_have_labels() {
    assert_eq!(MeetingPlatform::Zoom.label(), "Zoom");
    assert_eq!(MeetingPlatform::Teams.label(), "Teams");
    assert_eq!(MeetingPlatform::GoogleMeet.label(), "Google Meet");
    assert_eq!(MeetingPlatform::Webex.label(), "Webex");
    assert_eq!(MeetingPlatform::Slack.label(), "Slack");
    assert_eq!(MeetingPlatform::Discord.label(), "Discord");
    assert_eq!(MeetingPlatform::Browser.label(), "a video call");
}

fn process(running_input: bool, name: Option<&str>) -> MicProcess {
    MicProcess { running_input, name: name.map(|n| n.to_string()) }
}

fn zoom() -> Vec<(String, MeetingPlatform)> {
    meeting_apps_using_mic(&vec![process(true, Some("zoom.us"))])
}

#[test]
fn only_meeting_apps_that_hold_the_microphone_count() {
    let apps = meeting_apps_using_mic(&vec![
        process(false, Some("zoom.us")),
        process(true, None),
        process(true, Some("Spotify")),
        process(true, Some("Safari")),
        process(true, Some("Slack")),
    ]);
    assert_eq!(
        apps,
        vec![("Safari".to_string(), MeetingPlatform::Browser), ("Slack".to_string(), MeetingPlatform::Slack)]
    );
}

#[test]
fn a_detector_reports_nothing_before_it_starts_or_after_it_stops() {
    let mut d = MeetingDetector::new();
    assert!(!d.is_running());
    assert!(d.poll(&zoom()).is_none());
    d.start();
    assert!(d.is_running());
    assert!(d.poll(&zoom()).is_some());
    d.stop();
    assert!(!d.is_running());
    assert!(d.poll(&Vec::new()).is_none());
    assert!(d.poll(&Vec::new()).is_none());
    d.start();
    assert!(d.poll(&zoom()).is_some());
}

#[test]
fn a_momentary_release_does_not_end_the_meeting() {
    let mut d = MeetingDetector::new();
    d.start();
    match d.poll(&zoom()) {
        Some(MeetingEvent::Started { platform, app }) => {
            assert_eq!((platform, app.as_str()), (MeetingPlatform::Zoom, "zoom.us"));
        },
        other => panic!("{:?}", other),
    }
    for _ in 0..3 {
        assert!(d.poll(&Vec::new()).is_none());
        assert!(d.poll(&zoom()).is_none());
    }
}

#[test]
fn starts_and_ends_come_by_turns() {
    let mut d = MeetingDetector::new();
    d.start();
    let polls = [0, 1, 1, 0, 1, 0, 0, 0, 1, 0, 0];
    let mut seen = String::new();
    for p in polls {
        let apps = if p == 1 { zoom() } else { Vec::new() };
        match d.poll(&apps) {
            Some(MeetingEvent::Started { .. }) => seen.push('S'),
            Some(MeetingEvent::Ended) => seen.push('E'),
            None => seen.push('.'),
        }
    }
    assert_eq!(seen, ".S....E.S.E");
    assert_eq!(ABSENT_POLLS_TO_END, 2);
}

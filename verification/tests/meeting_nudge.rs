use meetily::json::Json;
use meetily::meeting_nudge::{
    handle_ended, handle_started, is_enabled, nudge_dismiss, nudge_get_enabled, nudge_set_enabled,
    nudge_start_recording, overlay_to_show, overlay_url, NudgeAction, NudgeState, NUDGE_LABEL,
};

#[test]
fn the_feature_is_on_unless_the_store_says_no() {
    assert!(is_enabled(None));
    assert!(is_enabled(Some(&Json::Bool(true))));
    assert!(!is_enabled(Some(&Json::Bool(false))));
    assert!(is_enabled(Some(&Json::Null)));
    assert!(is_enabled(Some(&Json::Text("false".to_string()))));
    assert!(!nudge_get_enabled(Some(&Json::Bool(false))));
}

#[test]
fn a_meeting_is_nudged_about_where_nothing_stands_against_it() {
    let fresh = NudgeState::default();
    assert!(handle_started(&fresh, true, false));
    assert!(!handle_started(&fresh, false, false));
    assert!(!handle_started(&fresh, true, true));
    assert!(!handle_started(&NudgeState { dismissed: true }, true, false));
}

#[test]
fn no_overlay_during_a_recording() {
    assert_eq!(overlay_to_show(true, "Zoom"), None);
    assert_eq!(overlay_to_show(false, "Zoom"), Some("meeting-nudge.html?platform=Zoom".to_string()));
}

#[test]
fn overlay_addresses_have_no_space() {
    assert_eq!(overlay_url("a video call"), "meeting-nudge.html?platform=a%20video%20call");
    assert_eq!(overlay_url(""), format!("{}.html?platform=", NUDGE_LABEL));
    assert!(!overlay_url("  x ").contains(' '));
}

#[test]
fn the_same_meeting_is_not_nudged_about_again() {
    let mut state = NudgeState::default();
    let actions = nudge_start_recording(&mut state);
    assert_eq!(actions, vec![NudgeAction::FocusMain, NudgeAction::AutoStartRecording, NudgeAction::CloseOverlay]);
    assert!(!handle_started(&state, true, false));
    let actions = nudge_dismiss(&mut state);
    assert_eq!(actions, vec![NudgeAction::CloseOverlay]);
    assert!(!handle_started(&state, true, false));
}

#[test]
fn the_next_meeting_is_nudged_about() {
    let mut state = NudgeState::default();
    nudge_dismiss(&mut state);
    assert_eq!(handle_ended(&mut state), vec![NudgeAction::CloseOverlay]);
    assert!(handle_started(&state, true, false));
}

#[test]
fn the_toggle_is_stored() {
    assert_eq!(nudge_set_enabled(true, Ok(())), Ok(vec![NudgeAction::StoreEnabled(true)]));
    assert_eq!(
        nudge_set_enabled(false, Ok(())),
        Ok(vec![NudgeAction::StoreEnabled(false), NudgeAction::CloseOverlay])
    );
    assert_eq!(nudge_set_enabled(false, Err("locked".to_string())), Err("locked".to_string()));
}

use meetily::audio::diarize::cluster::{assign_labels, plan_turns, Levels, SegEmbed};
use meetily::audio::diarize::{
    drain_buffer, finalize_meeting, is_stream_label, nearest_row, record_segment, reset_buffer, TranscriptRow, Write,
    MATCH_LIMIT,
};
use std::collections::HashMap;

fn row(id: &str, speaker: &str) -> TranscriptRow {
    TranscriptRow { id: id.to_string(), speaker: speaker.to_string() }
}

fn seg(start: f64, speaker: &str, embedded: bool) -> SegEmbed {
    SegEmbed {
        audio_start_time: start.to_bits(),
        speaker: speaker.to_string(),
        embedding: if embedded { vec![1.0f32.to_bits()] } else { Vec::new() },
        energy: 0.5f32.to_bits(),
    }
}

fn bits(v: &[f64]) -> Vec<u64> {
    v.iter().map(|x| x.to_bits()).collect()
}

#[test]
fn segments_of_the_two_streams_are_buffered() {
    let mut buffer = Vec::new();
    record_segment(&mut buffer, 1.0f64.to_bits(), "me", Some(vec![7]), 9);
    record_segment(&mut buffer, 2.0f64.to_bits(), "them", None, 8);
    record_segment(&mut buffer, 3.0f64.to_bits(), "", Some(vec![7]), 9);
    record_segment(&mut buffer, 3.0f64.to_bits(), "them:S1", Some(vec![7]), 9);
    assert_eq!(buffer.len(), 2);
    assert_eq!((buffer[0].speaker.as_str(), buffer[0].embedding.clone(), buffer[0].energy), ("me", vec![7], 9));
    assert_eq!(buffer[0].audio_start_time, 1.0f64.to_bits());
    assert!(buffer[1].embedding.is_empty());
    assert!(is_stream_label("me") && is_stream_label("them") && !is_stream_label("Me"));
    let all = drain_buffer(&mut buffer);
    assert_eq!(all.len(), 2);
    assert!(buffer.is_empty());
    buffer.push(seg(1.0, "me", true));
    reset_buffer(&mut buffer);
    assert!(buffer.is_empty());
}

#[test]
fn the_nearest_free_row_is_taken_and_the_same_stream_preferred() {
    let rows = vec![row("a", "them"), row("b", "them"), row("c", "me"), row("d", "them"), row("e", "them")];
    let far = bits(&[0.1, 0.02, 0.0, 0.02, 0.2]);
    assert_eq!(nearest_row(&rows, &far, "them", &Vec::new()), Some(1));
    assert_eq!(nearest_row(&rows, &far, "them", &vec!["b".to_string()]), Some(3));
    let used = vec!["b".to_string(), "d".to_string(), "a".to_string()];
    assert_eq!(nearest_row(&rows, &far, "them", &used), Some(2));
    assert_eq!(nearest_row(&rows, &far, "me", &Vec::new()), Some(2));
    assert_eq!(nearest_row(&rows, &far, "other", &Vec::new()), Some(2));
    assert_eq!(nearest_row(&rows, &far, "other", &vec!["c".to_string()]), Some(1));
    let all = ["a", "b", "c", "d"].map(|id| id.to_string()).to_vec();
    assert_eq!(nearest_row(&rows, &far, "them", &all), None);
    assert_eq!(nearest_row(&vec![row("r1", "me")], &bits(&[0.0]), "them", &Vec::new()), Some(0));
    assert_eq!(nearest_row(&Vec::new(), &Vec::new(), "them", &Vec::new()), None);
}

#[test]
fn rows_too_far_or_at_the_limit_are_passed_over() {
    let rows = vec![row("a", "them")];
    assert_eq!(nearest_row(&rows, &bits(&[0.15]), "them", &Vec::new()), None);
    assert_eq!(nearest_row(&rows, &bits(&[0.1499]), "them", &Vec::new()), Some(0));
    assert_eq!(MATCH_LIMIT, 0.15f64.to_bits());
    assert_eq!(nearest_row(&rows, &bits(&[f64::NAN]), "them", &Vec::new()), None);
}

fn shown(w: &Write) -> String {
    match w {
        Write::Relabel { id, label } => format!("relabel {} {}", id, label),
        Write::Store { id, segment, label } => {
            assert!(id.starts_with("spkemb-") && id.len() == 43, "{}", id);
            format!("store {} {}", segment, label)
        },
    }
}

#[test]
fn labels_are_refined_and_vectors_stored() {
    let segments = vec![seg(1.0, "them", true), seg(1.05, "them", true), seg(2.0, "me", true), seg(3.0, "them", false)];
    let mut labels = HashMap::new();
    labels.insert(1.0f64.to_bits(), "them:S1".to_string());
    labels.insert(1.05f64.to_bits(), "them:S2".to_string());
    labels.insert(3.0f64.to_bits(), "me".to_string());
    let rows = vec![row("r1", "them"), row("r2", "them"), row("r3", "me")];
    let distances = vec![
        bits(&[0.01, 0.06, 1.0]),
        bits(&[0.04, 0.01, 0.95]),
        bits(&[1.0, 0.9, 0.0]),
        bits(&[2.0, 2.0, 2.0]),
    ];
    let plan = finalize_meeting(&segments, &labels, &rows, &distances);
    assert_eq!(plan.relabeled, 2);
    assert_eq!(
        plan.writes.iter().map(shown).collect::<Vec<_>>(),
        vec!["relabel r1 them:S1", "store 0 them:S1", "relabel r2 them:S2", "store 1 them:S2", "store 2 me"]
    );
}

#[test]
fn no_row_is_relabelled_twice() {
    let segments = vec![seg(1.0, "them", true), seg(1.01, "them", true)];
    let mut labels = HashMap::new();
    labels.insert(1.0f64.to_bits(), "them:S1".to_string());
    labels.insert(1.01f64.to_bits(), "them:S2".to_string());
    let plan = finalize_meeting(&segments, &labels, &vec![row("r", "them")], &vec![bits(&[0.0]), bits(&[0.01])]);
    assert_eq!(plan.relabeled, 1);
    assert_eq!(
        plan.writes.iter().map(shown).collect::<Vec<_>>(),
        vec!["relabel r them:S1", "store 0 them:S1", "store 1 them:S2"]
    );
}

#[test]
fn without_labels_no_row_changes() {
    let segments = vec![seg(1.0, "them", true), seg(2.0, "me", false)];
    let plan = finalize_meeting(&segments, &HashMap::new(), &vec![row("r", "them")], &vec![bits(&[0.0]), bits(&[1.0])]);
    assert_eq!(plan.relabeled, 0);
    assert_eq!(plan.writes.iter().map(shown).collect::<Vec<_>>(), vec!["store 0 them"]);
    let nothing = finalize_meeting(&Vec::new(), &HashMap::new(), &Vec::new(), &Vec::new());
    assert_eq!((nothing.writes.len(), nothing.relabeled), (0, 0));
}

#[test]
fn a_row_of_another_stream_is_found_but_not_relabelled() {
    let segments = vec![seg(1.0, "them", true), seg(1.01, "them", true)];
    let mut labels = HashMap::new();
    labels.insert(1.0f64.to_bits(), "them:S1".to_string());
    labels.insert(1.01f64.to_bits(), "them:S2".to_string());
    let rows = vec![row("mine", "me"), row("theirs", "them")];
    let plan = finalize_meeting(&segments, &labels, &rows, &vec![bits(&[0.0, 0.5]), bits(&[0.01, 0.1])]);
    assert_eq!(plan.relabeled, 1);
    assert_eq!(
        plan.writes.iter().map(shown).collect::<Vec<_>>(),
        vec!["store 0 them:S1", "relabel theirs them:S2", "store 1 them:S2"]
    );
}

#[test]
fn stored_vectors_have_different_ids() {
    let segments = vec![seg(1.0, "them", true), seg(2.0, "me", true)];
    let plan = finalize_meeting(&segments, &HashMap::new(), &Vec::new(), &vec![vec![], vec![]]);
    let ids: Vec<&String> = plan
        .writes
        .iter()
        .map(|w| match w {
            Write::Store { id, .. } => id,
            Write::Relabel { id, .. } => id,
        })
        .collect();
    assert_eq!(ids.len(), 2);
    assert_ne!(ids[0], ids[1]);
}

#[test]
fn own_turns_keep_their_label() {
    let segments = vec![seg(1.0, "me", true), seg(2.0, "them", true), seg(3.0, "them", true)];
    let levels = Levels { echo_ceiling: 0, energy_floor: 0 };
    let turns = plan_turns(&segments, &vec![None, None, None], &levels);
    let labels = assign_labels(&turns, &vec![Some(1), Some(2)]);
    assert_eq!(labels.len(), 2);
    assert!(!labels.contains_key(&1.0f64.to_bits()));
    let rows = vec![row("a", "me"), row("b", "them"), row("c", "them")];
    let distances = vec![bits(&[0.0, 1.0, 2.0]), bits(&[1.0, 0.0, 1.0]), bits(&[2.0, 1.0, 0.0])];
    let plan = finalize_meeting(&segments, &labels, &rows, &distances);
    assert_eq!(plan.relabeled, 2);
    assert!(plan.writes.iter().all(|w| !matches!(w, Write::Relabel { id, .. } if id == "a")));
}

#[test]
fn a_row_of_the_user_is_never_relabelled() {
    let segments = vec![seg(5.0, "me", true), seg(5.0, "them", true)];
    let mut labels = HashMap::new();
    labels.insert(5.0f64.to_bits(), "them:S1".to_string());
    let rows = vec![row("mine", "me"), row("theirs", "them")];
    let distances = vec![bits(&[0.0, 0.0]), bits(&[0.0, 0.0])];
    let plan = finalize_meeting(&segments, &labels, &rows, &distances);
    assert_eq!(plan.relabeled, 1);
    assert_eq!(
        plan.writes.iter().map(shown).collect::<Vec<_>>(),
        vec!["store 0 me", "relabel theirs them:S1", "store 1 them:S1"]
    );
}

use meetily::audio::diarize::cluster::{
    assign_labels, classify_turn, me_turns, median, plan_turns, them_turns, Levels, SegEmbed, Turn, TurnKind,
    ECHO_SIMILARITY, MAX_SPEAKERS,
};

fn seg(start: f64, speaker: &str, embedding: &[f32], energy: f32) -> SegEmbed {
    SegEmbed {
        audio_start_time: start.to_bits(),
        speaker: speaker.to_string(),
        embedding: embedding.iter().map(|x| x.to_bits()).collect(),
        energy: energy.to_bits(),
    }
}

fn levels() -> Levels {
    Levels { echo_ceiling: 0.3f32.to_bits(), energy_floor: 0.1f32.to_bits() }
}

fn turn(start: f64, kind: TurnKind) -> Turn {
    Turn { segment: 0, start: start.to_bits(), kind }
}

fn label_at(labels: &std::collections::HashMap<u64, String>, start: f64) -> Option<&str> {
    labels.get(&start.to_bits()).map(|s| s.as_str())
}

#[test]
fn streams_are_told_apart_and_put_in_time() {
    let segs = vec![
        seg(5.0, "them", &[1.0], 0.5),
        seg(1.0, "me", &[1.0], 0.5),
        seg(2.0, "them", &[1.0], 0.5),
        seg(0.5, "them", &[], 0.5),
        seg(-1.0, "them", &[1.0], 0.5),
        seg(2.0, "them", &[2.0], 0.5),
    ];
    assert_eq!(me_turns(&segs), vec![1]);
    assert_eq!(them_turns(&segs), vec![4, 2, 5, 0]);
}

#[test]
fn the_median_is_the_middle_one() {
    let bits = |v: &[f32]| -> Vec<u32> { v.iter().map(|x| x.to_bits()).collect() };
    assert_eq!(f32::from_bits(median(&bits(&[0.3, 0.1, 0.2]))), 0.2);
    assert_eq!(f32::from_bits(median(&bits(&[0.4, 0.1, 0.3, 0.2]))), 0.3);
    assert_eq!(f32::from_bits(median(&bits(&[0.7]))), 0.7);
    assert_eq!(f32::from_bits(median(&Vec::new())), 0.0);
}

#[test]
fn turns_are_echoes_or_flat_or_voices() {
    let kind = |energy: f32, similarity: Option<f32>| classify_turn(energy.to_bits(), similarity.map(f32::to_bits), &levels());
    assert_eq!(kind(0.3, Some(0.72)), TurnKind::EchoMe);
    assert_eq!(kind(0.05, Some(0.9)), TurnKind::EchoMe);
    assert_eq!(kind(0.31, Some(0.9)), TurnKind::Voice);
    assert_eq!(kind(0.2, Some(0.71)), TurnKind::Voice);
    assert_eq!(kind(0.05, Some(0.1)), TurnKind::Flat);
    assert_eq!(kind(0.1, None), TurnKind::Voice);
    assert_eq!(kind(0.05, None), TurnKind::Flat);
    assert_eq!(kind(0.2, Some(f32::NAN)), TurnKind::Voice);
    assert_eq!(ECHO_SIMILARITY, 0.72f32.to_bits());
}

#[test]
fn turns_are_planned_in_time() {
    let segs = vec![
        seg(3.0, "them", &[1.0], 0.5),
        seg(1.0, "me", &[1.0], 0.5),
        seg(2.0, "them", &[1.0], 0.05),
        seg(2.5, "them", &[1.0], 0.2),
    ];
    let similarities = vec![None, None, None, Some(0.8f32.to_bits())];
    let turns = plan_turns(&segs, &similarities, &levels());
    let shown: Vec<(usize, f64, TurnKind)> = turns.iter().map(|t| (t.segment, f64::from_bits(t.start), t.kind)).collect();
    assert_eq!(
        shown,
        vec![(2, 2.0, TurnKind::Flat), (3, 2.5, TurnKind::EchoMe), (0, 3.0, TurnKind::Voice)]
    );
}

#[test]
fn without_vectors_there_are_no_labels() {
    let segs = vec![seg(1.0, "them", &[], 0.5), seg(2.0, "me", &[], 0.5)];
    let turns = plan_turns(&segs, &vec![None, None], &levels());
    assert!(turns.is_empty());
    assert!(assign_labels(&turns, &Vec::new()).is_empty());
}

#[test]
fn voices_are_numbered_as_they_are_first_heard() {
    let v = TurnKind::Voice;
    let turns = vec![turn(1.0, v), turn(2.0, v), turn(3.0, v), turn(4.0, v)];
    let labels = assign_labels(&turns, &vec![Some(7), Some(3), Some(7), Some(5)]);
    assert_eq!(label_at(&labels, 1.0), Some("them:S1"));
    assert_eq!(label_at(&labels, 2.0), Some("them:S2"));
    assert_eq!(label_at(&labels, 3.0), Some("them:S1"));
    assert_eq!(label_at(&labels, 4.0), Some("them:S3"));
}

#[test]
fn a_single_voice_stays_flat() {
    let turns = vec![turn(1.0, TurnKind::Voice), turn(2.0, TurnKind::EchoMe), turn(3.0, TurnKind::Voice)];
    assert!(assign_labels(&turns, &vec![Some(1), None, Some(1)]).is_empty());
    let echoes = vec![turn(1.0, TurnKind::EchoMe), turn(2.0, TurnKind::Flat)];
    assert!(assign_labels(&echoes, &vec![None, None]).is_empty());
}

#[test]
fn echoes_and_faint_turns_make_up_no_voice() {
    let turns = vec![turn(1.0, TurnKind::Voice), turn(2.0, TurnKind::EchoMe), turn(3.0, TurnKind::Flat)];
    assert!(assign_labels(&turns, &vec![Some(1), Some(2), Some(3)]).is_empty());
}

#[test]
fn an_echo_is_the_users_where_there_are_two_voices() {
    let v = TurnKind::Voice;
    let turns = vec![turn(1.0, v), turn(2.0, TurnKind::EchoMe), turn(3.0, TurnKind::Flat), turn(4.0, v)];
    let labels = assign_labels(&turns, &vec![Some(1), None, None, Some(2)]);
    assert_eq!(labels.len(), 3);
    assert_eq!(label_at(&labels, 2.0), Some("me"));
    assert_eq!(label_at(&labels, 3.0), None);
    assert_eq!(label_at(&labels, 4.0), Some("them:S2"));
}

#[test]
fn one_voice_and_an_echo_of_the_user_give_no_label() {
    let segs = vec![
        seg(0.0, "me", &[1.0, 0.0], 1.0),
        seg(1.0, "them", &[0.0, 1.0], 1.0),
        seg(2.0, "them", &[0.0, 1.0], 1.0),
        seg(3.0, "them", &[1.0, 0.0], 0.1),
    ];
    let similarity = |x: f32| Some(x.to_bits());
    let levels = Levels { echo_ceiling: (0.15f32 * 3.0).to_bits(), energy_floor: 0.15f32.to_bits() };
    let turns = plan_turns(&segs, &vec![similarity(1.0), similarity(0.0), similarity(0.0), similarity(1.0)], &levels);
    assert_eq!(turns[2].kind, TurnKind::EchoMe);
    assert!(assign_labels(&turns, &vec![Some(1), Some(1), None]).is_empty());
}

#[test]
fn turns_over_the_cap_stay_flat() {
    let v = TurnKind::Voice;
    let turns = vec![turn(1.0, v), turn(2.0, v), turn(3.0, v)];
    let labels = assign_labels(&turns, &vec![Some(1), Some(2), None]);
    assert_eq!(label_at(&labels, 3.0), None);
    assert_eq!(labels.len(), 2);
    assert!(labels.values().all(|l| l != "them"));
}

#[test]
fn no_more_labels_than_voices() {
    let turns: Vec<Turn> = (0..40).map(|i| turn(i as f64, TurnKind::Voice)).collect();
    let clusters: Vec<Option<usize>> = (0..40).map(|i| Some(i % MAX_SPEAKERS + 1)).collect();
    let labels = assign_labels(&turns, &clusters);
    let mut names: Vec<&String> = labels.values().collect();
    names.sort();
    names.dedup();
    assert_eq!(names.len(), MAX_SPEAKERS);
    for i in 0..40 {
        for j in 0..40 {
            let same = label_at(&labels, i as f64) == label_at(&labels, j as f64);
            assert_eq!(same, i % MAX_SPEAKERS == j % MAX_SPEAKERS);
        }
    }
}

#[test]
fn of_turns_that_start_together_the_later_counts() {
    let turns = vec![turn(1.0, TurnKind::EchoMe), turn(1.0, TurnKind::Voice), turn(2.0, TurnKind::Voice)];
    let labels = assign_labels(&turns, &vec![None, Some(1), Some(2)]);
    assert_eq!(label_at(&labels, 1.0), Some("them:S1"));
}

#[test]
fn a_faint_turns_vector_does_not_matter() {
    let with = |vector: &[f32]| {
        vec![
            seg(1.0, "them", &[0.0, 1.0], 1.0),
            seg(2.0, "them", vector, 0.01),
            seg(3.0, "them", &[1.0, 0.0], 1.0),
        ]
    };
    let similarity = |x: f32| Some(x.to_bits());
    let one = plan_turns(&with(&[1.0, 1.0]), &vec![similarity(0.0), similarity(0.1), similarity(0.0)], &levels());
    let two = plan_turns(&with(&[-3.0, 9.0]), &vec![similarity(0.0), similarity(0.5), similarity(0.0)], &levels());
    assert_eq!(one[1].kind, TurnKind::Flat);
    assert_eq!(two[1].kind, TurnKind::Flat);
    let a = assign_labels(&one, &vec![Some(1), Some(7), Some(2)]);
    let b = assign_labels(&two, &vec![Some(1), None, Some(2)]);
    assert_eq!(a, b);
    assert_eq!(a.len(), 2);
    assert_eq!(label_at(&a, 2.0), None);
}

use meetily::audio::diarize::embed::{
    compute_embedding, ensure_model_downloaded, model_available, plan_embedding, DownloadEnd, DownloadStep,
    EmbeddingPlan, MODEL_FILENAME, MODEL_URL,
};

#[test]
fn the_model_is_there_where_its_file_is() {
    assert!(model_available(Some(true)));
    assert!(!model_available(Some(false)));
    assert!(!model_available(None));
    assert!(MODEL_URL.ends_with(".onnx") && MODEL_FILENAME.ends_with(".onnx"));
}

#[test]
fn every_step_that_works_leads_on() {
    let mut step = DownloadStep::FindDir;
    let mut steps = Vec::new();
    while !matches!(step, DownloadStep::Over(_)) {
        steps.push(step);
        step = ensure_model_downloaded(step, true);
    }
    assert_eq!(
        steps,
        vec![
            DownloadStep::FindDir,
            DownloadStep::CheckMissing,
            DownloadStep::BuildClient,
            DownloadStep::Request,
            DownloadStep::CheckStatus,
            DownloadStep::ReadBody,
            DownloadStep::WritePart,
            DownloadStep::Rename,
        ]
    );
    assert_eq!(step, DownloadStep::Over(DownloadEnd::Ready));
    assert_eq!(ensure_model_downloaded(step, true), step);
    assert_eq!(ensure_model_downloaded(step, false), step);
}

#[test]
fn every_step_that_fails_ends_the_attempt() {
    for (step, end) in [
        (DownloadStep::FindDir, DownloadEnd::NoDir),
        (DownloadStep::CheckMissing, DownloadEnd::Present),
        (DownloadStep::BuildClient, DownloadEnd::ClientFailed),
        (DownloadStep::Request, DownloadEnd::RequestFailed),
        (DownloadStep::CheckStatus, DownloadEnd::BadStatus),
        (DownloadStep::ReadBody, DownloadEnd::BodyFailed),
        (DownloadStep::WritePart, DownloadEnd::WriteFailed),
        (DownloadStep::Rename, DownloadEnd::RenameFailed),
    ] {
        assert_eq!(ensure_model_downloaded(step, false), DownloadStep::Over(end));
    }
}

#[test]
fn attempts_end_and_rename_last() {
    for outcomes in 0u32..256 {
        let mut step = DownloadStep::FindDir;
        for i in 0..8 {
            if step == DownloadStep::Rename {
                assert_eq!(outcomes & 0x7f, 0x7f);
            }
            step = ensure_model_downloaded(step, outcomes >> i & 1 == 1);
        }
        assert!(matches!(step, DownloadStep::Over(_)));
    }
}

#[test]
fn blips_are_skipped() {
    assert_eq!(plan_embedding(true, 4800, 16000), EmbeddingPlan::Extract { resample: false });
    assert_eq!(plan_embedding(true, 4799, 16000), EmbeddingPlan::Skip);
    assert_eq!(plan_embedding(true, 14400, 48000), EmbeddingPlan::Extract { resample: true });
    assert_eq!(plan_embedding(true, 14399, 48000), EmbeddingPlan::Skip);
    assert_eq!(plan_embedding(false, 48000, 16000), EmbeddingPlan::Skip);
    assert_eq!(plan_embedding(true, 0, 0), EmbeddingPlan::Skip);
    assert_eq!(plan_embedding(true, 1, 0), EmbeddingPlan::Extract { resample: true });
    assert_eq!(plan_embedding(true, usize::MAX, u32::MAX), EmbeddingPlan::Extract { resample: true });
}

#[test]
fn the_limit_agrees_with_single_precision_at_audio_rates() {
    for rate in [8000u32, 11025, 16000, 22050, 44100, 48000, 96000, 192000] {
        let edge = rate as usize * 3 / 10;
        for samples in edge.saturating_sub(50)..edge + 50 {
            let short = (samples as f32 / rate as f32) < 0.3;
            assert_eq!(plan_embedding(true, samples, rate) == EmbeddingPlan::Skip, short, "{} {}", samples, rate);
        }
    }
}

#[test]
fn vectors_must_be_finite_and_not_empty() {
    let bits = |v: &[f32]| -> Vec<u32> { v.iter().map(|x| x.to_bits()).collect() };
    assert_eq!(compute_embedding(Some(bits(&[0.5, -1.0]))), Some(bits(&[0.5, -1.0])));
    assert_eq!(compute_embedding(Some(Vec::new())), None);
    assert_eq!(compute_embedding(Some(bits(&[0.5, f32::NAN]))), None);
    assert_eq!(compute_embedding(Some(bits(&[f32::INFINITY]))), None);
    assert_eq!(compute_embedding(None), None);
}

//! Voice embeddings: getting the model, deciding which segments to embed, and which vectors to use.
//!
//! Everything here is best-effort: without a model, or where inference fails, a segment has no vector,
//! and diarization falls back to a single voice.

use crate::ieee::{finite32, is_finite_32};
use vstd::prelude::*;

verus! {

/// Where the voice-embedding model is downloaded from.
pub const MODEL_URL: &'static str =
    "https://github.com/thewh1teagle/pyannote-rs/releases/download/v0.1.0/wespeaker_en_voxceleb_CAM%2B%2B.onnx";

/// The name of the model's file.
pub const MODEL_FILENAME: &'static str = "wespeaker_campp.onnx";

/// The sample rate that the model expects.
pub const TARGET_SAMPLE_RATE: u32 = 16000;

/// Whether the model is there to be used. `file_exists` says whether its file exists, where the
/// directory for it is known.
pub fn model_available(file_exists: Option<bool>) -> (r: bool)
    ensures
        r == (file_exists == Some(true)),
{
    match file_exists {
        Some(exists) => exists,
        None => false,
    }
}

// ---- downloading the model -----------------------------------------------------------------------

/// A step of getting the model. Each either works out or ends the attempt.
#[derive(Debug, Clone, Copy, PartialEq, Eq, Structural)]
pub enum DownloadStep {
    /// Is the directory for models known?
    FindDir,
    /// Is the model's file still missing?
    CheckMissing,
    /// Make an HTTP client.
    BuildClient,
    /// Send the request.
    Request,
    /// Is the status of the response a success?
    CheckStatus,
    /// Read the whole body.
    ReadBody,
    /// Write the body to a temporary file.
    WritePart,
    /// Rename the temporary file to the model's file.
    Rename,
    /// The attempt is over.
    Over(DownloadEnd),
}

/// How an attempt to get the model ends.
#[derive(Debug, Clone, Copy, PartialEq, Eq, Structural)]
pub enum DownloadEnd {
    /// The directory for models is not known.
    NoDir,
    /// The model is there already.
    Present,
    ClientFailed,
    RequestFailed,
    BadStatus,
    BodyFailed,
    WriteFailed,
    RenameFailed,
    /// The model has been downloaded.
    Ready,
}

impl DownloadStep {
    /// The step that follows where this one works out.
    pub open spec fn onward(self) -> DownloadStep {
        match self {
            DownloadStep::FindDir => DownloadStep::CheckMissing,
            DownloadStep::CheckMissing => DownloadStep::BuildClient,
            DownloadStep::BuildClient => DownloadStep::Request,
            DownloadStep::Request => DownloadStep::CheckStatus,
            DownloadStep::CheckStatus => DownloadStep::ReadBody,
            DownloadStep::ReadBody => DownloadStep::WritePart,
            DownloadStep::WritePart => DownloadStep::Rename,
            DownloadStep::Rename => DownloadStep::Over(DownloadEnd::Ready),
            DownloadStep::Over(end) => DownloadStep::Over(end),
        }
    }

    /// How the attempt ends where this step does not work out.
    pub open spec fn setback(self) -> DownloadEnd {
        match self {
            DownloadStep::FindDir => DownloadEnd::NoDir,
            DownloadStep::CheckMissing => DownloadEnd::Present,
            DownloadStep::BuildClient => DownloadEnd::ClientFailed,
            DownloadStep::Request => DownloadEnd::RequestFailed,
            DownloadStep::CheckStatus => DownloadEnd::BadStatus,
            DownloadStep::ReadBody => DownloadEnd::BodyFailed,
            DownloadStep::WritePart => DownloadEnd::WriteFailed,
            DownloadStep::Rename => DownloadEnd::RenameFailed,
            DownloadStep::Over(end) => end,
        }
    }

    /// The step that follows this one.
    pub open spec fn after(self, worked: bool) -> DownloadStep {
        if worked {
            self.onward()
        } else {
            DownloadStep::Over(self.setback())
        }
    }
}

/// The step that follows a step of getting the model.
pub fn ensure_model_downloaded(step: DownloadStep, worked: bool) -> (r: DownloadStep)
    ensures
        r == step.after(worked),
{
    match step {
        DownloadStep::FindDir => if worked {
            DownloadStep::CheckMissing
        } else {
            DownloadStep::Over(DownloadEnd::NoDir)
        },
        DownloadStep::CheckMissing => if worked {
            DownloadStep::BuildClient
        } else {
            DownloadStep::Over(DownloadEnd::Present)
        },
        DownloadStep::BuildClient => if worked {
            DownloadStep::Request
        } else {
            DownloadStep::Over(DownloadEnd::ClientFailed)
        },
        DownloadStep::Request => if worked {
            DownloadStep::CheckStatus
        } else {
            DownloadStep::Over(DownloadEnd::RequestFailed)
        },
        DownloadStep::CheckStatus => if worked {
            DownloadStep::ReadBody
        } else {
            DownloadStep::Over(DownloadEnd::BadStatus)
        },
        DownloadStep::ReadBody => if worked {
            DownloadStep::WritePart
        } else {
            DownloadStep::Over(DownloadEnd::BodyFailed)
        },
        DownloadStep::WritePart => if worked {
            DownloadStep::Rename
        } else {
            DownloadStep::Over(DownloadEnd::WriteFailed)
        },
        DownloadStep::Rename => if worked {
            DownloadStep::Over(DownloadEnd::Ready)
        } else {
            DownloadStep::Over(DownloadEnd::RenameFailed)
        },
        DownloadStep::Over(end) => DownloadStep::Over(end),
    }
}

/// Where an attempt stands after its steps have worked out, or not, in turn.
pub open spec fn attempt(outcomes: Seq<bool>) -> DownloadStep
    decreases outcomes.len(),
{
    if outcomes.len() == 0 {
        DownloadStep::FindDir
    } else {
        attempt(outcomes.drop_last()).after(outcomes.last())
    }
}

/// An attempt is over after at most eight steps.
pub proof fn attempts_end(outcomes: Seq<bool>)
    requires
        outcomes.len() >= 8,
    ensures
        attempt(outcomes) is Over,
    decreases outcomes.len(),
{
    if outcomes.len() > 8 {
        attempts_end(outcomes.drop_last());
    } else {
        reveal_with_fuel(attempt, 9);
    }
}

/// The model's file is put in place only at the end of an attempt in which every step worked out: where
/// the next step is the renaming, the directory was known, the file was missing, the download succeeded
/// and the temporary file was written.
pub proof fn renaming_comes_last(outcomes: Seq<bool>)
    requires
        attempt(outcomes) is Rename,
    ensures
        outcomes == seq![true, true, true, true, true, true, true],
{
    lemma_rename_after_seven(outcomes);
    assert(outcomes =~= seq![true, true, true, true, true, true, true]);
}

/// How many steps lie before a step.
spec fn depth(step: DownloadStep) -> int {
    match step {
        DownloadStep::FindDir => 0,
        DownloadStep::CheckMissing => 1,
        DownloadStep::BuildClient => 2,
        DownloadStep::Request => 3,
        DownloadStep::CheckStatus => 4,
        DownloadStep::ReadBody => 5,
        DownloadStep::WritePart => 6,
        DownloadStep::Rename => 7,
        DownloadStep::Over(_) => 8,
    }
}

proof fn lemma_rename_after_seven(outcomes: Seq<bool>)
    ensures
        attempt(outcomes) !is Over ==> outcomes.len() == depth(attempt(outcomes)) && forall|i: int|
            0 <= i < outcomes.len() ==> #[trigger] outcomes[i],
    decreases outcomes.len(),
{
    if outcomes.len() > 0 {
        let before = outcomes.drop_last();
        lemma_rename_after_seven(before);
        if attempt(outcomes) !is Over {
            assert(outcomes.last());
            assert forall|i: int| 0 <= i < outcomes.len() implies #[trigger] outcomes[i] by {
                if i < before.len() {
                    assert(before[i]);
                }
            }
        }
    }
}

// ---- embedding a segment --------------------------------------------------------------------------

/// What to do about the embedding of a segment.
#[derive(Debug, Clone, Copy, PartialEq, Eq, Structural)]
pub enum EmbeddingPlan {
    /// It gets none.
    Skip,
    /// Run the model, after resampling where that is needed.
    Extract { resample: bool },
}

/// Whether a segment has less than 0.3 s of sound, which says too little about a voice.
pub open spec fn too_short(samples: int, sample_rate: int) -> bool {
    10 * samples < 3 * (if sample_rate < 1 { 1 } else { sample_rate })
}

/// What to do about the embedding of a segment: none without the model, none of a blip.
pub open spec fn embedding_plan(available: bool, samples: int, sample_rate: int) -> EmbeddingPlan {
    if !available || too_short(samples, sample_rate) {
        EmbeddingPlan::Skip
    } else {
        EmbeddingPlan::Extract { resample: sample_rate != TARGET_SAMPLE_RATE }
    }
}

/// What to do about the embedding of a segment: none without the model, none of a blip.
pub fn plan_embedding(available: bool, samples: usize, sample_rate: u32) -> (r: EmbeddingPlan)
    ensures
        r == embedding_plan(available, samples as int, sample_rate as int),
        r == if !available || too_short(samples as int, sample_rate as int) {
            EmbeddingPlan::Skip
        } else {
            EmbeddingPlan::Extract { resample: sample_rate != TARGET_SAMPLE_RATE }
        },
{
    if !available {
        return EmbeddingPlan::Skip;
    }
    let rate: u128 = if sample_rate < 1 { 1 } else { sample_rate as u128 };
    if 10 * (samples as u128) < 3 * rate {
        return EmbeddingPlan::Skip;
    }
    EmbeddingPlan::Extract { resample: sample_rate != TARGET_SAMPLE_RATE }
}

/// Whether a vector can be used: it is not empty, and all of its numbers are finite.
pub open spec fn usable(v: Seq<u32>) -> bool {
    v.len() > 0 && forall|i: int| 0 <= i < v.len() ==> finite32(#[trigger] v[i])
}

/// The vector that is kept of what the model made of a segment, if any.
pub open spec fn kept_vector(extracted: Option<Seq<u32>>) -> Option<Seq<u32>> {
    match extracted {
        Some(v) => if usable(v) {
            Some(v)
        } else {
            None
        },
        None => None,
    }
}

/// The embedding of a segment, given what the model made of it, if anything. The vector is given by the
/// bits of its numbers.
pub fn compute_embedding(extracted: Option<Vec<u32>>) -> (r: Option<Vec<u32>>)
    ensures
        r == match extracted {
            Some(v) => if usable(v@) {
                Some(v)
            } else {
                None
            },
            None => None,
        },
        match extracted {
            Some(v) => match r {
                Some(w) => kept_vector(Some(v@)) == Some(w@),
                None => kept_vector(Some(v@)) is None,
            },
            None => r is None && kept_vector(None) is None,
        },
{
    match extracted {
        Some(v) => {
            if v.len() == 0 {
                return None;
            }
            for i in 0..v.len()
                invariant
                    extracted == Some(v),
                    forall|k: int| 0 <= k < i ==> finite32(#[trigger] v@[k]),
            {
                if !is_finite_32(v[i]) {
                    return None;
                }
            }
            Some(v)
        },
        None => None,
    }
}

// ---- what holds of every attempt and every segment -----------------------------------------------------

/// Where every step works out, the model is ready.
pub proof fn eight_good_steps_make_a_model()
    ensures
        attempt(seq![true, true, true, true, true, true, true, true]) == DownloadStep::Over(
            DownloadEnd::Ready,
        ),
{
    lemma_good_steps(8);
    assert(Seq::new(8, |i: int| true) =~= seq![true, true, true, true, true, true, true, true]);
}

proof fn lemma_good_steps(n: nat)
    requires
        n <= 8,
    ensures
        attempt(Seq::new(n, |i: int| true)) == good_step(n),
    decreases n,
{
    if n > 0 {
        lemma_good_steps((n - 1) as nat);
        assert(Seq::new(n, |i: int| true).drop_last() =~= Seq::new((n - 1) as nat, |i: int| true));
    }
}

/// The step that comes after so many good ones.
spec fn good_step(n: nat) -> DownloadStep {
    if n == 0 {
        DownloadStep::FindDir
    } else if n == 1 {
        DownloadStep::CheckMissing
    } else if n == 2 {
        DownloadStep::BuildClient
    } else if n == 3 {
        DownloadStep::Request
    } else if n == 4 {
        DownloadStep::CheckStatus
    } else if n == 5 {
        DownloadStep::ReadBody
    } else if n == 6 {
        DownloadStep::WritePart
    } else if n == 7 {
        DownloadStep::Rename
    } else {
        DownloadStep::Over(DownloadEnd::Ready)
    }
}

/// How an attempt ends that fails after so many good steps.
pub open spec fn end_after(good: nat) -> DownloadEnd {
    if good == 0 {
        DownloadEnd::NoDir
    } else if good == 1 {
        DownloadEnd::Present
    } else if good == 2 {
        DownloadEnd::ClientFailed
    } else if good == 3 {
        DownloadEnd::RequestFailed
    } else if good == 4 {
        DownloadEnd::BadStatus
    } else if good == 5 {
        DownloadEnd::BodyFailed
    } else if good == 6 {
        DownloadEnd::WriteFailed
    } else {
        DownloadEnd::RenameFailed
    }
}

/// An attempt ends with its first step that does not work out, and says which that was, whatever comes after.
pub proof fn the_first_setback_ends_an_attempt(good: nat, rest: Seq<bool>)
    requires
        good < 8,
    ensures
        attempt(Seq::new(good, |i: int| true).push(false) + rest) == DownloadStep::Over(end_after(good)),
    decreases rest.len(),
{
    let front = Seq::new(good, |i: int| true).push(false);
    if rest.len() == 0 {
        assert(front + rest =~= front);
        assert(front.drop_last() =~= Seq::new(good, |i: int| true));
        lemma_good_steps(good);
    } else {
        the_first_setback_ends_an_attempt(good, rest.drop_last());
        assert((front + rest).drop_last() =~= front + rest.drop_last());
    }
}

/// With the model, every segment of 0.3 s or more is embedded, however long; a shorter one is not, and none is
/// without the model. It is resampled exactly where its rate is not 16 kHz.
pub proof fn long_segments_are_embedded(samples: int, more: int, rate: int)
    requires
        0 <= samples <= more,
        1 <= rate,
    ensures
        embedding_plan(true, samples, rate) == EmbeddingPlan::Skip <==> 10 * samples < 3 * rate,
        embedding_plan(true, samples, rate) is Extract ==> embedding_plan(true, more, rate)
            == embedding_plan(true, samples, rate),
        embedding_plan(true, samples, rate) is Extract ==> (embedding_plan(true, samples, rate)
            == (EmbeddingPlan::Extract { resample: false }) <==> rate == 16000),
        embedding_plan(false, samples, rate) == EmbeddingPlan::Skip,
{
}

/// A vector is kept as it is where it is not empty and all of its numbers are finite, and dropped else.
pub proof fn sound_vectors_are_kept(v: Seq<u32>, i: int)
    ensures
        kept_vector(None) is None,
        kept_vector(Some(v)) is Some ==> kept_vector(Some(v)) == Some(v),
        v.len() == 0 ==> kept_vector(Some(v)) is None,
        0 <= i < v.len() && !finite32(v[i]) ==> kept_vector(Some(v)) is None,
        v.len() > 0 && (forall|k: int| 0 <= k < v.len() ==> finite32(#[trigger] v[k])) ==> kept_vector(
            Some(v),
        ) == Some(v),
{
}

} // verus!

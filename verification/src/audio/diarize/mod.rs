//! Speaker diarization of the system audio ("them").
//!
//! During a recording, each speech segment is buffered with a voice vector and its loudness. When the
//! recording has been saved, the buffer is clustered into voices, the vectors are stored, and the
//! labels of the transcript rows are refined, rows being found again by their start times. Without a
//! model, without vectors, or with a single voice, the flat "them" stands.

pub mod cluster;
pub mod embed;

use crate::ident::{fresh_uuid, is_uuid};
use crate::ieee::{is_less_64, less64, order64, order_of_64};
use crate::text::{holds_text, same_text, texts};
use cluster::{labels, planned_turns, seg_views, text_map, Levels, SegEmbed, SegView};
use std::collections::HashMap;
use vstd::prelude::*;

verus! {

broadcast use vstd::std_specs::hash::group_hash_axioms;

// ---- the buffer ---------------------------------------------------------------------------------------

/// Empty the buffer for a new recording.
pub fn reset_buffer(buffer: &mut Vec<SegEmbed>)
    ensures
        final(buffer)@ == Seq::<SegEmbed>::empty(),
{
    buffer.clear();
}

/// Whether a label is that of one of the two streams.
pub open spec fn stream_label(speaker: Seq<char>) -> bool {
    speaker == "me"@ || speaker == "them"@
}

/// Whether a label is that of one of the two streams.
pub fn is_stream_label(speaker: &str) -> (r: bool)
    ensures
        r == stream_label(speaker@),
{
    same_text(speaker, "me") || same_text(speaker, "them")
}

/// A buffer with one more segment, where that is of one of the two streams.
pub open spec fn recorded(buffer: Seq<SegView>, seg: SegView) -> Seq<SegView> {
    if stream_label(seg.speaker) {
        buffer.push(seg)
    } else {
        buffer
    }
}

/// Every segment of a stream is buffered behind those that are there, however many there are and whether or
/// not it has a vector; no other segment is.
pub proof fn every_segment_is_buffered(buffer: Seq<SegView>, seg: SegView)
    ensures
        seg.speaker == "me"@ || seg.speaker == "them"@ ==> recorded(buffer, seg) == buffer + seq![seg],
        seg.speaker != "me"@ && seg.speaker != "them"@ ==> recorded(buffer, seg) == buffer,
{
}

/// Buffer one speech segment. A segment of neither stream is ignored; one without a voice vector is
/// buffered with an empty one.
pub fn record_segment(
    buffer: &mut Vec<SegEmbed>,
    audio_start_time: u64,
    speaker: &str,
    embedding: Option<Vec<u32>>,
    energy: u32,
)
    ensures
        seg_views(final(buffer)@) == recorded(
            seg_views(old(buffer)@),
            SegView {
                audio_start_time,
                speaker: speaker@,
                embedding: match embedding {
                    Some(v) => v@,
                    None => Seq::empty(),
                },
                energy,
            },
        ),
        seg_views(final(buffer)@) == if stream_label(speaker@) {
            seg_views(old(buffer)@).push(
                SegView {
                    audio_start_time,
                    speaker: speaker@,
                    embedding: match embedding {
                        Some(v) => v@,
                        None => Seq::empty(),
                    },
                    energy,
                },
            )
        } else {
            seg_views(old(buffer)@)
        },
{
    if !is_stream_label(speaker) {
        return;
    }
    let embedding: Vec<u32> = match embedding {
        Some(v) => v,
        None => Vec::new(),
    };
    let segment = SegEmbed { audio_start_time, speaker: speaker.to_owned(), embedding, energy };
    let ghost before = buffer@;
    let ghost view = segment@;
    buffer.push(segment);
    assert(seg_views(buffer@) =~= seg_views(before).push(view));
}

/// Take everything out of the buffer.
pub fn drain_buffer(buffer: &mut Vec<SegEmbed>) -> (r: Vec<SegEmbed>)
    ensures
        r@ == old(buffer)@,
        final(buffer)@ == Seq::<SegEmbed>::empty(),
{
    let mut out: Vec<SegEmbed> = Vec::new();
    std::mem::swap(&mut out, buffer);
    out
}

// ---- finding the row of a segment -----------------------------------------------------------------------

/// Rows this far from a segment in time, or farther, are not its own: 0.15 s, as the bits of a
/// double-precision number of seconds.
pub const MATCH_LIMIT: u64 = 0x3FC3_3333_3333_3333;

/// A transcript row of the meeting.
#[derive(Debug)]
pub struct TranscriptRow {
    pub id: String,
    pub speaker: String,
}

/// What a transcript row holds.
pub struct RowView {
    pub id: Seq<char>,
    pub speaker: Seq<char>,
}

impl View for TranscriptRow {
    type V = RowView;

    open spec fn view(&self) -> RowView {
        RowView { id: self.id@, speaker: self.speaker@ }
    }
}

/// What each row of a list holds.
pub open spec fn row_views(v: Seq<TranscriptRow>) -> Seq<RowView> {
    Seq::new(v.len(), |i: int| v[i]@)
}

/// Whether a row is free for a segment: it is near enough in time, and not claimed yet.
pub open spec fn free(row: RowView, distance: u64, used: Seq<Seq<char>>) -> bool {
    !used.contains(row.id) && less64(distance, MATCH_LIMIT)
}

/// Whether a row is free, and of the stream asked for, if one is.
pub open spec fn eligible(
    row: RowView,
    distance: u64,
    speaker: Option<Seq<char>>,
    used: Seq<Seq<char>>,
) -> bool {
    free(row, distance, used) && (speaker is Some ==> row.speaker == speaker->0)
}

/// The nearest of the first `n` rows that are free, and of the stream asked for, if one is; the first one
/// where several are as near.
pub open spec fn nearest_up_to(
    rows: Seq<RowView>,
    distances: Seq<u64>,
    speaker: Option<Seq<char>>,
    used: Seq<Seq<char>>,
    n: int,
) -> Option<int>
    decreases n,
{
    if n <= 0 {
        None
    } else {
        let before = nearest_up_to(rows, distances, speaker, used, n - 1);
        if !eligible(rows[n - 1], distances[n - 1], speaker, used) {
            before
        } else {
            match before {
                Some(b) => if order64(distances[n - 1]) < order64(distances[b]) {
                    Some(n - 1)
                } else {
                    Some(b)
                },
                None => Some(n - 1),
            }
        }
    }
}

/// The nearest free row for a segment: one of the segment's own stream, where there is any, else one of
/// whatever stream.
pub open spec fn nearest(
    rows: Seq<RowView>,
    distances: Seq<u64>,
    speaker: Seq<char>,
    used: Seq<Seq<char>>,
) -> Option<int> {
    match nearest_up_to(rows, distances, Some(speaker), used, rows.len() as int) {
        Some(i) => Some(i),
        None => nearest_up_to(rows, distances, None, used, rows.len() as int),
    }
}

/// Where a free row is of the segment's own stream, the nearest of those is found; where only rows of another
/// stream are free, the nearest of them is; of equally near ones, the first. None is found only where no row
/// is free.
pub proof fn nearest_is_nearest(
    rows: Seq<RowView>,
    distances: Seq<u64>,
    speaker: Seq<char>,
    used: Seq<Seq<char>>,
)
    ensures
        match nearest(rows, distances, speaker, used) {
            Some(b) => {
                &&& 0 <= b < rows.len()
                &&& free(rows[b], distances[b], used)
                &&& forall|i: int|
                    0 <= i < rows.len() && free(#[trigger] rows[i], distances[i], used) && (
                    rows[i].speaker == speaker || rows[b].speaker != speaker) ==> order64(
                        distances[b],
                    ) <= order64(distances[i]) && (i < b ==> order64(distances[b]) < order64(
                        distances[i],
                    ))
                &&& rows[b].speaker != speaker ==> forall|i: int|
                    0 <= i < rows.len() && free(#[trigger] rows[i], distances[i], used)
                        ==> rows[i].speaker != speaker
            },
            None => forall|i: int|
                0 <= i < rows.len() ==> !free(#[trigger] rows[i], distances[i], used),
        },
{
    lemma_nearest(rows, distances, Some(speaker), used, rows.len() as int);
    lemma_nearest(rows, distances, None, used, rows.len() as int);
    if nearest(rows, distances, speaker, used) is None {
        assert forall|i: int| 0 <= i < rows.len() implies !free(
            #[trigger] rows[i],
            distances[i],
            used,
        ) by {
            assert(!eligible(rows[i], distances[i], None, used));
        }
    } else if nearest_up_to(rows, distances, Some(speaker), used, rows.len() as int) is None {
        let b = nearest(rows, distances, speaker, used)->0;
        assert forall|i: int|
            0 <= i < rows.len() && free(
                #[trigger] rows[i],
                distances[i],
                used,
            ) implies rows[i].speaker != speaker by {
            assert(!eligible(rows[i], distances[i], Some(speaker), used));
        }
        assert(rows[b].speaker != speaker);
    }
}

proof fn lemma_nearest(
    rows: Seq<RowView>,
    distances: Seq<u64>,
    speaker: Option<Seq<char>>,
    used: Seq<Seq<char>>,
    n: int,
)
    requires
        0 <= n <= rows.len(),
    ensures
        match nearest_up_to(rows, distances, speaker, used, n) {
            Some(b) => {
                &&& 0 <= b < n
                &&& eligible(rows[b], distances[b], speaker, used)
                &&& forall|i: int|
                    0 <= i < n && eligible(
                        #[trigger] rows[i],
                        distances[i],
                        speaker,
                        used,
                    ) ==> order64(distances[b]) <= order64(distances[i]) && (i < b ==> order64(
                        distances[b],
                    ) < order64(distances[i]))
            },
            None => forall|i: int|
                0 <= i < n ==> !eligible(#[trigger] rows[i], distances[i], speaker, used),
        },
    decreases n,
{
    if n > 0 {
        lemma_nearest(rows, distances, speaker, used, n - 1);
    }
}

/// The text that is asked for, if one is.
spec fn asked(speaker: Option<&str>) -> Option<Seq<char>> {
    match speaker {
        Some(t) => Some(t@),
        None => None,
    }
}

fn nearest_eligible(
    rows: &Vec<TranscriptRow>,
    distances: &Vec<u64>,
    speaker: Option<&str>,
    used: &Vec<String>,
) -> (r: Option<usize>)
    requires
        distances@.len() == rows@.len(),
    ensures
        ({
            let found = nearest_up_to(
                row_views(rows@),
                distances@,
                asked(speaker),
                texts(used@),
                rows@.len() as int,
            );
            match r {
                Some(i) => found == Some(i as int),
                None => found is None,
            }
        }),
{
    let ghost all = row_views(rows@);
    let mut best: Option<usize> = None;
    for i in 0..rows.len()
        invariant
            distances@.len() == rows@.len(),
            all == row_views(rows@),
            match best {
                Some(b) => b < i && nearest_up_to(
                    all,
                    distances@,
                    asked(speaker),
                    texts(used@),
                    i as int,
                ) == Some(b as int),
                None => nearest_up_to(
                    all,
                    distances@,
                    asked(speaker),
                    texts(used@),
                    i as int,
                ) is None,
            },
    {
        assert(all[i as int] == rows@[i as int]@);
        let of_stream = match speaker {
            Some(t) => same_text(rows[i].speaker.as_str(), t),
            None => true,
        };
        if of_stream && !holds_text(used, &rows[i].id) && is_less_64(distances[i], MATCH_LIMIT) {
            best = match best {
                Some(b) => if order_of_64(distances[i]) < order_of_64(distances[b]) {
                    Some(i)
                } else {
                    Some(b)
                },
                None => Some(i),
            };
        }
    }
    best
}

/// The nearest row to a segment in time, preferring rows of the segment's own stream and skipping those that
/// are claimed already. `distances` says how far each row is from the segment, as the bits of double-precision
/// numbers of seconds.
pub fn nearest_row(
    rows: &Vec<TranscriptRow>,
    distances: &Vec<u64>,
    orig_speaker: &str,
    used: &Vec<String>,
) -> (r: Option<usize>)
    requires
        distances@.len() == rows@.len(),
    ensures
        match r {
            Some(i) => nearest(
                row_views(rows@),
                distances@,
                orig_speaker@,
                texts(used@),
            ) == Some(i as int),
            None => nearest(
                row_views(rows@),
                distances@,
                orig_speaker@,
                texts(used@),
            ) is None,
        },
{
    match nearest_eligible(rows, distances, Some(orig_speaker), used) {
        Some(i) => Some(i),
        None => nearest_eligible(rows, distances, None, used),
    }
}

// ---- finishing a meeting ----------------------------------------------------------------------------------

/// Something to write to the database.
#[derive(Debug)]
pub enum Write {
    /// Give a transcript row a new label.
    Relabel { id: String, label: String },
    /// Store the voice vector of a segment under a fresh id.
    Store { id: String, segment: usize, label: String },
}

/// What a write says, the fresh ids left out.
pub enum WriteView {
    Relabel { id: Seq<char>, label: Seq<char> },
    Store { segment: int, label: Seq<char> },
}

impl View for Write {
    type V = WriteView;

    open spec fn view(&self) -> WriteView {
        match *self {
            Write::Relabel { id, label } => WriteView::Relabel { id: id@, label: label@ },
            Write::Store { id, segment, label } => WriteView::Store {
                segment: segment as int,
                label: label@,
            },
        }
    }
}

/// What each write of a list says.
pub open spec fn write_views(v: Seq<Write>) -> Seq<WriteView> {
    Seq::new(v.len(), |i: int| v[i]@)
}

/// Whether `id` is a fresh id for a stored voice vector.
pub open spec fn embedding_id(id: Seq<char>) -> bool {
    exists|u: Seq<char>| #[trigger] is_uuid(u) && id == "spkemb-"@ + u
}

/// Whether a write that stores a vector has a fresh id.
pub open spec fn well_identified(w: Write) -> bool {
    match w {
        Write::Store { id, segment, label } => embedding_id(id@),
        Write::Relabel { id, label } => true,
    }
}

/// What is to be written for a meeting.
#[derive(Debug)]
pub struct FinalizePlan {
    /// The writes, in order.
    pub writes: Vec<Write>,
    /// How many transcript rows get a new label.
    pub relabeled: usize,
}

/// What is to be written for some segments.
pub struct PlanView {
    pub writes: Seq<WriteView>,
    /// The ids of the rows that get a new label.
    pub used: Seq<Seq<char>>,
}

/// The new label of a segment, if it has one. Only the other side's segments get one: whose voice the
/// microphone takes is known.
pub open spec fn new_label(seg: SegView, labels: Map<u64, Seq<char>>) -> Option<Seq<char>> {
    if seg.speaker == "them"@ && labels.dom().contains(seg.audio_start_time) {
        Some(labels[seg.audio_start_time])
    } else {
        None
    }
}

impl PlanView {
    /// The plan with the nearest row to a segment relabelled, where the segment has a new label and the row
    /// is of the same stream.
    pub open spec fn relabelled(
        self,
        seg: SegView,
        label: Option<Seq<char>>,
        rows: Seq<RowView>,
        distances: Seq<u64>,
    ) -> PlanView {
        match label {
            Some(l) => match nearest(rows, distances, seg.speaker, self.used) {
                Some(r) => if rows[r].speaker == seg.speaker {
                    PlanView {
                        writes: self.writes.push(WriteView::Relabel { id: rows[r].id, label: l }),
                        used: self.used.push(rows[r].id),
                    }
                } else {
                    self
                },
                None => self,
            },
            None => self,
        }
    }

    /// The plan with the vector of a segment stored, where it has one.
    pub open spec fn stored(self, at: int, seg: SegView, label: Option<Seq<char>>) -> PlanView {
        if seg.embedding.len() > 0 {
            PlanView {
                writes: self.writes.push(
                    WriteView::Store {
                        segment: at,
                        label: match label {
                            Some(l) => l,
                            None => seg.speaker,
                        },
                    },
                ),
                ..self
            }
        } else {
            self
        }
    }
}

/// What is to be written for the first `n` segments.
pub open spec fn plan_up_to(
    segs: Seq<SegView>,
    labels: Map<u64, Seq<char>>,
    rows: Seq<RowView>,
    distances: Seq<Seq<u64>>,
    n: int,
) -> PlanView
    decreases n,
{
    if n <= 0 {
        PlanView { writes: Seq::empty(), used: Seq::empty() }
    } else {
        let seg = segs[n - 1];
        let label = new_label(seg, labels);
        plan_up_to(segs, labels, rows, distances, n - 1).relabelled(
            seg,
            label,
            rows,
            distances[n - 1],
        ).stored(n - 1, seg, label)
    }
}

/// The distances of a table.
pub open spec fn distance_views(v: Seq<Vec<u64>>) -> Seq<Seq<u64>> {
    Seq::new(v.len(), |i: int| v[i]@)
}

/// A fresh id for a stored voice vector.
fn fresh_embedding_id() -> (r: String)
    ensures
        embedding_id(r@),
{
    let u = fresh_uuid();
    let mut id = "spkemb-".to_owned();
    id.append(u.as_str());
    assert(is_uuid(u@));
    id
}

/// What is to be written when a meeting has been saved: new labels for its transcript rows, and the voice
/// vectors. `distances` has a line for each segment, with its distance in time from each row.
pub fn finalize_meeting(
    segments: &Vec<SegEmbed>,
    labels: &HashMap<u64, String>,
    rows: &Vec<TranscriptRow>,
    distances: &Vec<Vec<u64>>,
) -> (r: FinalizePlan)
    requires
        distances@.len() == segments@.len(),
        forall|i: int|
            0 <= i < distances@.len() ==> (#[trigger] distances@[i])@.len() == rows@.len(),
    ensures
        ({
            let plan = plan_up_to(
                seg_views(segments@),
                text_map(labels@),
                row_views(rows@),
                distance_views(distances@),
                segments@.len() as int,
            );
            write_views(r.writes@) == plan.writes && r.relabeled == plan.used.len()
        }),
        forall|i: int| 0 <= i < r.writes@.len() ==> well_identified(#[trigger] r.writes@[i]),
{
    let ghost segs = seg_views(segments@);
    let ghost names = text_map(labels@);
    let ghost all = row_views(rows@);
    let ghost far = distance_views(distances@);
    let mut writes: Vec<Write> = Vec::new();
    let mut used: Vec<String> = Vec::new();
    assert(write_views(writes@) =~= Seq::empty());
    assert(texts(used@) =~= Seq::empty());
    for i in 0..segments.len()
        invariant
            distances@.len() == segments@.len(),
            forall|i: int|
                0 <= i < distances@.len() ==> (#[trigger] distances@[i])@.len() == rows@.len(),
            segs == seg_views(segments@),
            names == text_map(labels@),
            all == row_views(rows@),
            far == distance_views(distances@),
            ({
                let plan = plan_up_to(segs, names, all, far, i as int);
                write_views(writes@) == plan.writes && texts(used@) == plan.used
            }),
            forall|k: int| 0 <= k < writes@.len() ==> well_identified(#[trigger] writes@[k]),
    {
        let seg = &segments[i];
        let ghost before = plan_up_to(segs, names, all, far, i as int);
        let ghost label = new_label(seg@, names);
        assert(segs[i as int] == seg@);
        assert(far[i as int] == distances@[i as int]@);
        let resolved: Option<&String> = if same_text(seg.speaker.as_str(), "them") {
            labels.get(&seg.audio_start_time)
        } else {
            None
        };
        if let Some(name) = resolved {
            assert(label == Some(name@));
            if let Some(row) = nearest_row(
                rows,
                &distances[i],
                seg.speaker.as_str(),
                &used,
            ) {
                proof {
                    nearest_is_nearest(all, far[i as int], seg.speaker@, texts(used@));
                }
                assert(all[row as int] == rows@[row as int]@);
                if same_text(rows[row].speaker.as_str(), seg.speaker.as_str()) {
                    let ghost w = writes@;
                    let ghost u = used@;
                    let write = Write::Relabel { id: rows[row].id.clone(), label: name.clone() };
                    let ghost view = write@;
                    writes.push(write);
                    used.push(rows[row].id.clone());
                    assert(write_views(writes@) =~= write_views(w).push(view));
                    assert(texts(used@) =~= texts(u).push(all[row as int].id));
                }
            }
        }
        let ghost middle = before.relabelled(seg@, label, all, far[i as int]);
        assert(write_views(writes@) == middle.writes && texts(used@) == middle.used);
        if seg.embedding.len() > 0 {
            let name = match resolved {
                Some(name) => name.clone(),
                None => seg.speaker.clone(),
            };
            let write = Write::Store { id: fresh_embedding_id(), segment: i, label: name };
            let ghost w = writes@;
            let ghost view = write@;
            writes.push(write);
            assert(write_views(writes@) =~= write_views(w).push(view));
        }
    }
    assert(texts(used@).len() == used@.len());
    FinalizePlan { writes, relabeled: used.len() }
}

// ---- what holds of every plan -----------------------------------------------------------------------------

/// The ids of the rows that some writes relabel.
pub open spec fn relabelled_ids(writes: Seq<WriteView>) -> Seq<Seq<char>>
    decreases writes.len(),
{
    if writes.len() == 0 {
        Seq::empty()
    } else {
        match writes.last() {
            WriteView::Relabel { id, label } => relabelled_ids(writes.drop_last()).push(id),
            WriteView::Store { segment, label } => relabelled_ids(writes.drop_last()),
        }
    }
}

/// The segments whose vectors some writes store.
pub open spec fn stored_positions(writes: Seq<WriteView>) -> Seq<int>
    decreases writes.len(),
{
    if writes.len() == 0 {
        Seq::empty()
    } else {
        match writes.last() {
            WriteView::Store { segment, label } => stored_positions(writes.drop_last()).push(segment),
            WriteView::Relabel { id, label } => stored_positions(writes.drop_last()),
        }
    }
}

/// The positions, among the first `n` segments, of those that have a voice vector.
pub open spec fn embedded_up_to(segs: Seq<SegView>, n: int) -> Seq<int>
    decreases n,
{
    if n <= 0 {
        Seq::empty()
    } else if segs[n - 1].embedding.len() > 0 {
        embedded_up_to(segs, n - 1).push(n - 1)
    } else {
        embedded_up_to(segs, n - 1)
    }
}

/// No transcript row is relabelled twice, and as many are relabelled as are counted.
pub proof fn rows_are_relabelled_once(
    segs: Seq<SegView>,
    labels: Map<u64, Seq<char>>,
    rows: Seq<RowView>,
    distances: Seq<Seq<u64>>,
    n: int,
)
    requires
        0 <= n <= segs.len(),
    ensures
        ({
            let plan = plan_up_to(segs, labels, rows, distances, n);
            plan.used.no_duplicates() && relabelled_ids(plan.writes) == plan.used
        }),
    decreases n,
{
    if n > 0 {
        rows_are_relabelled_once(segs, labels, rows, distances, n - 1);
        let before = plan_up_to(segs, labels, rows, distances, n - 1);
        let seg = segs[n - 1];
        let label = new_label(seg, labels);
        let middle = before.relabelled(seg, label, rows, distances[n - 1]);
        nearest_is_nearest(rows, distances[n - 1], seg.speaker, before.used);
        assert(middle.used.no_duplicates() && relabelled_ids(middle.writes) == middle.used) by {
            if middle.writes.len() > before.writes.len() {
                assert(middle.writes.drop_last() =~= before.writes);
                let id = middle.used.last();
                assert(!before.used.contains(id));
                assert forall|i: int, j: int|
                    0 <= i < middle.used.len() && 0 <= j < middle.used.len() && i
                        != j implies middle.used[i] != middle.used[j] by {
                    if i == before.used.len() {
                        assert(before.used[j] == middle.used[j]);
                    } else if j == before.used.len() {
                        assert(before.used[i] == middle.used[i]);
                    } else {
                        assert(before.used[i] != before.used[j]);
                    }
                }
            }
        }
        let after = middle.stored(n - 1, seg, label);
        if after.writes.len() > middle.writes.len() {
            assert(after.writes.drop_last() =~= middle.writes);
        }
    }
}

/// Every voice vector is stored once, in the order of the segments, whatever becomes of the labels.
pub proof fn every_vector_is_stored(
    segs: Seq<SegView>,
    labels: Map<u64, Seq<char>>,
    rows: Seq<RowView>,
    distances: Seq<Seq<u64>>,
    n: int,
)
    requires
        0 <= n <= segs.len(),
    ensures
        stored_positions(plan_up_to(segs, labels, rows, distances, n).writes)
            == embedded_up_to(segs, n),
    decreases n,
{
    if n > 0 {
        every_vector_is_stored(segs, labels, rows, distances, n - 1);
        let before = plan_up_to(segs, labels, rows, distances, n - 1);
        let seg = segs[n - 1];
        let label = new_label(seg, labels);
        let middle = before.relabelled(seg, label, rows, distances[n - 1]);
        if middle.writes.len() > before.writes.len() {
            assert(middle.writes.drop_last() =~= before.writes);
        }
        assert(stored_positions(middle.writes) == stored_positions(before.writes));
        let after = middle.stored(n - 1, seg, label);
        if after.writes.len() > middle.writes.len() {
            assert(after.writes.drop_last() =~= middle.writes);
        }
    }
}

/// A row is relabelled only where it is one of the other side's, and for a segment of the other side that is
/// near enough in time, with the new label of that segment.
pub proof fn rows_are_relabelled_for_a_reason(
    segs: Seq<SegView>,
    labels: Map<u64, Seq<char>>,
    rows: Seq<RowView>,
    distances: Seq<Seq<u64>>,
    n: int,
    k: int,
)
    requires
        0 <= n <= segs.len(),
        0 <= k < plan_up_to(segs, labels, rows, distances, n).writes.len(),
        plan_up_to(segs, labels, rows, distances, n).writes[k] is Relabel,
    ensures
        ({
            let w = plan_up_to(segs, labels, rows, distances, n).writes[k];
            exists|i: int, r: int|
                #![trigger segs[i], rows[r]]
                0 <= i < n && 0 <= r < rows.len() && rows[r].id == w->Relabel_id && new_label(
                    segs[i],
                    labels,
                ) == Some(w->Relabel_label) && segs[i].speaker == "them"@ && rows[r].speaker
                    == "them"@ && less64(
                    distances[i][r],
                    MATCH_LIMIT,
                )
        }),
    decreases n,
{
    if n > 0 {
        let before = plan_up_to(segs, labels, rows, distances, n - 1);
        let seg = segs[n - 1];
        let label = new_label(seg, labels);
        let middle = before.relabelled(seg, label, rows, distances[n - 1]);
        let after = middle.stored(n - 1, seg, label);
        if k < before.writes.len() {
            assert(after.writes[k] == before.writes[k]);
            rows_are_relabelled_for_a_reason(segs, labels, rows, distances, n - 1, k);
        } else {
            nearest_is_nearest(rows, distances[n - 1], seg.speaker, before.used);
            let r = nearest(rows, distances[n - 1], seg.speaker, before.used)->0;
            assert(after.writes[k] == middle.writes[k]);
            assert(rows[r].id == after.writes[k]->Relabel_id);
            assert(segs[n - 1] == seg);
        }
    }
}

/// Where no label changes, no row is touched.
pub proof fn no_labels_no_changes(
    segs: Seq<SegView>,
    rows: Seq<RowView>,
    distances: Seq<Seq<u64>>,
    n: int,
)
    requires
        0 <= n <= segs.len(),
    ensures
        plan_up_to(segs, Map::empty(), rows, distances, n).used.len() == 0,
    decreases n,
{
    if n > 0 {
        no_labels_no_changes(segs, rows, distances, n - 1);
    }
}

/// The user's own turns keep their label, whatever the other side's turns are labelled.
pub proof fn own_turns_keep_their_label(
    segs: Seq<SegView>,
    similarities: Seq<Option<u32>>,
    levels: Levels,
    clusters: Seq<Option<usize>>,
    i: int,
)
    requires
        0 <= i < segs.len(),
        segs[i].speaker == "me"@,
    ensures
        new_label(segs[i], labels(planned_turns(segs, similarities, levels), clusters)) is None,
{
    lemma_me_is_not_them();
}

proof fn lemma_me_is_not_them()
    ensures
        "me"@ != "them"@,
{
    reveal_strlit("me");
    reveal_strlit("them");
    assert("me"@.len() == 2 && "them"@.len() == 4);
}

/// Every row that gets a new label had the label "them".
pub proof fn only_their_rows_are_relabelled(
    segs: Seq<SegView>,
    labels: Map<u64, Seq<char>>,
    rows: Seq<RowView>,
    distances: Seq<Seq<u64>>,
    n: int,
    k: int,
)
    requires
        0 <= n <= segs.len(),
        0 <= k < plan_up_to(segs, labels, rows, distances, n).used.len(),
    ensures
        exists|r: int|
            0 <= r < rows.len() && (#[trigger] rows[r]).id == plan_up_to(
                segs,
                labels,
                rows,
                distances,
                n,
            ).used[k] && rows[r].speaker == "them"@,
    decreases n,
{
    if n > 0 {
        let before = plan_up_to(segs, labels, rows, distances, n - 1);
        let seg = segs[n - 1];
        if k < before.used.len() {
            only_their_rows_are_relabelled(segs, labels, rows, distances, n - 1, k);
        } else {
            nearest_is_nearest(rows, distances[n - 1], seg.speaker, before.used);
            let r = nearest(rows, distances[n - 1], seg.speaker, before.used)->0;
            assert(rows[r].speaker == "them"@);
        }
    }
}

/// The user's rows are never relabelled: where rows have different ids, no write names a row of the user.
pub proof fn own_rows_are_never_relabelled(
    segs: Seq<SegView>,
    labels: Map<u64, Seq<char>>,
    rows: Seq<RowView>,
    distances: Seq<Seq<u64>>,
    r: int,
)
    requires
        0 <= r < rows.len(),
        rows[r].speaker == "me"@,
        forall|i: int, j: int|
            0 <= i < j < rows.len() ==> (#[trigger] rows[i]).id != (#[trigger] rows[j]).id,
    ensures
        !relabelled_ids(
            plan_up_to(segs, labels, rows, distances, segs.len() as int).writes,
        ).contains(rows[r].id),
{
    let plan = plan_up_to(segs, labels, rows, distances, segs.len() as int);
    rows_are_relabelled_once(segs, labels, rows, distances, segs.len() as int);
    lemma_me_is_not_them();
    if plan.used.contains(rows[r].id) {
        let k = choose|k: int| 0 <= k < plan.used.len() && plan.used[k] == rows[r].id;
        only_their_rows_are_relabelled(segs, labels, rows, distances, segs.len() as int, k);
        let q = choose|q: int|
            0 <= q < rows.len() && (#[trigger] rows[q]).id == plan.used[k] && rows[q].speaker
                == "them"@;
        if q < r {
            assert(rows[q].id != rows[r].id);
        } else if r < q {
            assert(rows[r].id != rows[q].id);
        }
    }
}

/// What rows, writes and distances say is seen whole.
pub proof fn rows_and_writes_are_seen_whole(
    rows: Seq<TranscriptRow>,
    writes: Seq<Write>,
    distances: Seq<Vec<u64>>,
    i: int,
)
    ensures
        row_views(rows).len() == rows.len(),
        0 <= i < rows.len() ==> row_views(rows)[i].id == rows[i].id@ && row_views(rows)[i].speaker
            == rows[i].speaker@,
        write_views(writes).len() == writes.len(),
        0 <= i < writes.len() ==> match writes[i] {
            Write::Relabel { id, label } => write_views(writes)[i] == (WriteView::Relabel {
                id: id@,
                label: label@,
            }),
            Write::Store { id, segment, label } => write_views(writes)[i] == (WriteView::Store {
                segment: segment as int,
                label: label@,
            }),
        },
        distance_views(distances).len() == distances.len(),
        0 <= i < distances.len() ==> distance_views(distances)[i] == distances[i]@,
{
}

/// Whether a row may be relabelled for a segment of the other side: it is one of the other side's, less than
/// 0.15 s away, and none of those that are relabelled already.
pub open spec fn may_be_relabelled(
    rows: Seq<RowView>,
    distances: Seq<u64>,
    taken: Seq<Seq<char>>,
    r: int,
) -> bool {
    &&& 0 <= r < rows.len()
    &&& rows[r].speaker == "them"@
    &&& less64(distances[r], 0x3FC3_3333_3333_3333)
    &&& !taken.contains(rows[r].id)
}

/// Whether a row is the nearest of those that may be relabelled, and the first where several are as near.
pub open spec fn is_nearest_to_relabel(
    rows: Seq<RowView>,
    distances: Seq<u64>,
    taken: Seq<Seq<char>>,
    b: int,
) -> bool {
    &&& may_be_relabelled(rows, distances, taken, b)
    &&& forall|i: int| #[trigger]
        may_be_relabelled(rows, distances, taken, i) ==> if i < b {
            order64(distances[b]) < order64(distances[i])
        } else {
            order64(distances[b]) <= order64(distances[i])
        }
}

/// Whether some writes relabel the nearest row that may be.
pub open spec fn relabels_the_nearest(
    writes: Seq<WriteView>,
    rows: Seq<RowView>,
    distances: Seq<u64>,
    taken: Seq<Seq<char>>,
    label: Seq<char>,
) -> bool {
    exists|b: int| #[trigger]
        is_nearest_to_relabel(rows, distances, taken, b) && writes.contains(
            WriteView::Relabel { id: rows[b].id, label },
        )
}

/// No row is passed over: for every segment of the other side that has a new label and for which, at its turn,
/// some row may be relabelled, the plan relabels the nearest such row with that label, however many rows were
/// relabelled before.
pub proof fn no_row_is_passed_over(
    segs: Seq<SegView>,
    labels: Map<u64, Seq<char>>,
    rows: Seq<RowView>,
    distances: Seq<Seq<u64>>,
    n: int,
    i: int,
    r: int,
)
    requires
        0 <= i < n <= segs.len(),
        segs[i].speaker == "them"@,
        labels.dom().contains(segs[i].audio_start_time),
        may_be_relabelled(
            rows,
            distances[i],
            relabelled_ids(plan_up_to(segs, labels, rows, distances, i).writes),
            r,
        ),
    ensures
        relabels_the_nearest(
            plan_up_to(segs, labels, rows, distances, n).writes,
            rows,
            distances[i],
            relabelled_ids(plan_up_to(segs, labels, rows, distances, i).writes),
            labels[segs[i].audio_start_time],
        ),
{
    let seg = segs[i];
    let label = labels[seg.audio_start_time];
    let before = plan_up_to(segs, labels, rows, distances, i);
    let middle = before.relabelled(seg, new_label(seg, labels), rows, distances[i]);
    let after = plan_up_to(segs, labels, rows, distances, i + 1);
    let all = plan_up_to(segs, labels, rows, distances, n);
    let taken = relabelled_ids(before.writes);
    rows_are_relabelled_once(segs, labels, rows, distances, i);
    nearest_is_nearest(rows, distances[i], seg.speaker, before.used);
    assert(free(rows[r], distances[i][r], before.used));
    let b = nearest(rows, distances[i], seg.speaker, before.used)->0;
    assert(rows[b].speaker == seg.speaker);
    assert forall|k: int| #[trigger] may_be_relabelled(rows, distances[i], taken, k) implies if k < b {
        order64(distances[i][b]) < order64(distances[i][k])
    } else {
        order64(distances[i][b]) <= order64(distances[i][k])
    } by {
        assert(free(rows[k], distances[i][k], before.used));
    }
    assert(is_nearest_to_relabel(rows, distances[i], taken, b));
    let at = before.writes.len() as int;
    let write = WriteView::Relabel { id: rows[b].id, label };
    assert(middle.writes[at] == write);
    assert(after.writes[at] == write);
    plans_only_grow(segs, labels, rows, distances, i + 1, n);
    assert(all.writes[at] == write);
}

/// What is planned for some segments stays planned, whatever segments follow.
pub proof fn plans_only_grow(
    segs: Seq<SegView>,
    labels: Map<u64, Seq<char>>,
    rows: Seq<RowView>,
    distances: Seq<Seq<u64>>,
    m: int,
    n: int,
)
    requires
        0 <= m <= n <= segs.len(),
    ensures
        plan_up_to(segs, labels, rows, distances, m).writes.is_prefix_of(
            plan_up_to(segs, labels, rows, distances, n).writes,
        ),
    decreases n,
{
    if m < n {
        plans_only_grow(segs, labels, rows, distances, m, n - 1);
        let before = plan_up_to(segs, labels, rows, distances, n - 1);
        let seg = segs[n - 1];
        let label = new_label(seg, labels);
        let middle = before.relabelled(seg, label, rows, distances[n - 1]);
        let after = middle.stored(n - 1, seg, label);
        assert(before.writes.is_prefix_of(middle.writes));
        assert(middle.writes.is_prefix_of(after.writes));
    }
}

/// The label that a segment's vector is kept under: its new label where it is of the other side and has one,
/// else that of its stream.
pub open spec fn kept_under(seg: SegView, labels: Map<u64, Seq<char>>, label: Seq<char>) -> bool {
    if seg.speaker == "them"@ && labels.dom().contains(seg.audio_start_time) {
        label == labels[seg.audio_start_time]
    } else {
        label == seg.speaker
    }
}

/// Every segment that has a voice vector has it stored, under its new label where it is of the other side and
/// has one, else under that of its stream.
pub proof fn vectors_are_kept_with_their_label(
    segs: Seq<SegView>,
    labels: Map<u64, Seq<char>>,
    rows: Seq<RowView>,
    distances: Seq<Seq<u64>>,
    n: int,
    i: int,
    label: Seq<char>,
)
    requires
        0 <= i < n <= segs.len(),
        segs[i].embedding.len() > 0,
        kept_under(segs[i], labels, label),
    ensures
        plan_up_to(segs, labels, rows, distances, n).writes.contains(
            WriteView::Store { segment: i, label },
        ),
{
    let seg = segs[i];
    let before = plan_up_to(segs, labels, rows, distances, i);
    let middle = before.relabelled(seg, new_label(seg, labels), rows, distances[i]);
    let after = plan_up_to(segs, labels, rows, distances, i + 1);
    let all = plan_up_to(segs, labels, rows, distances, n);
    let at = middle.writes.len() as int;
    assert(after.writes[at] == WriteView::Store { segment: i, label });
    plans_only_grow(segs, labels, rows, distances, i + 1, n);
    assert(all.writes[at] == after.writes[at]);
}

/// Whatever is stored is the vector of a segment that has one, under the right label.
pub proof fn only_vectors_are_stored(
    segs: Seq<SegView>,
    labels: Map<u64, Seq<char>>,
    rows: Seq<RowView>,
    distances: Seq<Seq<u64>>,
    n: int,
    k: int,
)
    requires
        0 <= n <= segs.len(),
        0 <= k < plan_up_to(segs, labels, rows, distances, n).writes.len(),
        plan_up_to(segs, labels, rows, distances, n).writes[k] is Store,
    ensures
        ({
            let w = plan_up_to(segs, labels, rows, distances, n).writes[k];
            let i = w->Store_segment;
            &&& 0 <= i < n
            &&& segs[i].embedding.len() > 0
            &&& kept_under(segs[i], labels, w->Store_label)
        }),
    decreases n,
{
    if n > 0 {
        let before = plan_up_to(segs, labels, rows, distances, n - 1);
        let seg = segs[n - 1];
        let label = new_label(seg, labels);
        let middle = before.relabelled(seg, label, rows, distances[n - 1]);
        let after = middle.stored(n - 1, seg, label);
        if k < before.writes.len() {
            assert(after.writes[k] == before.writes[k]);
            only_vectors_are_stored(segs, labels, rows, distances, n - 1, k);
        } else if k < middle.writes.len() {
            assert(after.writes[k] == middle.writes[k]);
        }
    }
}

} // verus!

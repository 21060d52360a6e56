//! Labelling the voices of a recording.
//!
//! The turns of the other side ("them") are told apart by voice, with loudness and an echo-of-me filter
//! in between, so that a turn that is only an echo of the user never makes up a speaker. A label is
//! given only where it changes: where there is a single voice, the flat "them" stands.

use crate::ieee::{at_most32, is_at_most_32, is_less_32, less32, order32, order64, order_of_32, order_of_64};
use crate::order::{
    is_stable_order, key_values, picked, positions, sort_positions, stable_order,
    stable_order_exists,
};
use crate::text::{decimal, decimal_text, distinct, lemma_decimal_injective, lemma_distinct, same_text};
use std::collections::HashMap;
use vstd::prelude::*;

verus! {

broadcast use vstd::std_specs::hash::group_hash_axioms;

/// One buffered speech segment with its voice vector and its loudness.
#[derive(Debug, Clone)]
pub struct SegEmbed {
    /// When the segment starts, as the bits of a double-precision number of seconds.
    pub audio_start_time: u64,
    /// The stream it came from: "me" or "them".
    pub speaker: String,
    /// The voice vector, by the bits of its single-precision numbers; empty where there is none.
    pub embedding: Vec<u32>,
    /// Loudness, as the bits of a single-precision number.
    pub energy: u32,
}

/// What a buffered segment holds.
pub struct SegView {
    pub audio_start_time: u64,
    pub speaker: Seq<char>,
    pub embedding: Seq<u32>,
    pub energy: u32,
}

impl View for SegEmbed {
    type V = SegView;

    open spec fn view(&self) -> SegView {
        SegView {
            audio_start_time: self.audio_start_time,
            speaker: self.speaker@,
            embedding: self.embedding@,
            energy: self.energy,
        }
    }
}

/// What each segment of a list holds.
pub open spec fn seg_views(v: Seq<SegEmbed>) -> Seq<SegView> {
    Seq::new(v.len(), |i: int| v[i]@)
}

/// Never tell apart more voices than this.
pub const MAX_SPEAKERS: usize = 8;

// ---- whose turns ------------------------------------------------------------------------------------

/// Whether a segment is a turn of one stream that has a voice vector.
pub open spec fn embedded_turn(s: SegView, who: Seq<char>) -> bool {
    s.embedding.len() > 0 && s.speaker == who
}

/// The positions, among the first `n` segments, of the turns of one stream that have a voice vector.
pub open spec fn turns_up_to(segs: Seq<SegView>, who: Seq<char>, n: int) -> Seq<int>
    decreases n,
{
    if n <= 0 {
        Seq::empty()
    } else {
        let before = turns_up_to(segs, who, n - 1);
        if embedded_turn(segs[n - 1], who) {
            before.push(n - 1)
        } else {
            before
        }
    }
}

/// The positions of the turns of one stream that have a voice vector.
pub open spec fn turns_of(segs: Seq<SegView>, who: Seq<char>) -> Seq<int> {
    turns_up_to(segs, who, segs.len() as int)
}

/// The turns of one stream, each once, in order, and none left out.
pub proof fn lemma_turns(segs: Seq<SegView>, who: Seq<char>, n: int)
    requires
        0 <= n <= segs.len(),
    ensures
        forall|j: int|
            0 <= j < turns_up_to(segs, who, n).len() ==> {
                let i = #[trigger] turns_up_to(segs, who, n)[j];
                0 <= i < n && embedded_turn(segs[i], who)
            },
        forall|a: int, b: int|
            0 <= a < b < turns_up_to(segs, who, n).len() ==> #[trigger] turns_up_to(segs, who, n)[a]
                < #[trigger] turns_up_to(segs, who, n)[b],
        forall|i: int|
            0 <= i < n && embedded_turn(#[trigger] segs[i], who) ==> turns_up_to(
                segs,
                who,
                n,
            ).contains(i),
    decreases n,
{
    if n > 0 {
        lemma_turns(segs, who, n - 1);
        let before = turns_up_to(segs, who, n - 1);
        let all = turns_up_to(segs, who, n);
        assert forall|i: int|
            0 <= i < n && embedded_turn(#[trigger] segs[i], who) implies all.contains(i) by {
            if i < n - 1 {
                assert(before.contains(i));
                let j = choose|j: int| 0 <= j < before.len() && before[j] == i;
                assert(all[j] == i);
            } else {
                assert(all[before.len() as int] == i);
            }
        }
    }
}

fn turn_positions(segments: &Vec<SegEmbed>, who: &str) -> (r: Vec<usize>)
    ensures
        positions(r@) == turns_of(seg_views(segments@), who@),
{
    let ghost segs = seg_views(segments@);
    let mut out: Vec<usize> = Vec::new();
    for i in 0..segments.len()
        invariant
            segs == seg_views(segments@),
            positions(out@) == turns_up_to(segs, who@, i as int),
    {
        assert(segs[i as int] == segments@[i as int]@);
        if segments[i].embedding.len() > 0 && same_text(segments[i].speaker.as_str(), who) {
            let ghost o = out@;
            out.push(i);
            assert(positions(out@) =~= positions(o).push(i as int));
        }
    }
    out
}

/// The user's own turns: the reference for the user's voice.
pub fn me_turns(segments: &Vec<SegEmbed>) -> (r: Vec<usize>)
    ensures
        positions(r@) == turns_of(seg_views(segments@), "me"@),
{
    turn_positions(segments, "me")
}

/// Sort keys that put earlier turns first.
pub open spec fn time_keys(segs: Seq<SegView>, turns: Seq<int>) -> Seq<int> {
    Seq::new(turns.len(), |i: int| order64(segs[turns[i]].audio_start_time))
}

/// The positions of the other side's turns, in the order of time.
pub open spec fn them_in_time(segs: Seq<SegView>) -> Seq<int> {
    let them = turns_of(segs, "them"@);
    picked(them, stable_order(time_keys(segs, them)))
}

/// The other side's turns, in the order of time.
pub fn them_turns(segments: &Vec<SegEmbed>) -> (r: Vec<usize>)
    ensures
        positions(r@) == them_in_time(seg_views(segments@)),
{
    let ghost segs = seg_views(segments@);
    let found = turn_positions(segments, "them");
    let ghost them = turns_of(segs, "them"@);
    proof {
        lemma_turns(segs, "them"@, segs.len() as int);
        assert forall|i: int| 0 <= i < found@.len() implies (#[trigger] found@[i])
            < segments@.len() by {
            assert(positions(found@)[i] == them[i]);
        }
    }
    let mut keys: Vec<i128> = Vec::new();
    for i in 0..found.len()
        invariant
            segs == seg_views(segments@),
            them == positions(found@),
            forall|i: int| 0 <= i < found@.len() ==> (#[trigger] found@[i]) < segments@.len(),
            key_values(keys@) == time_keys(segs, them).take(i as int),
    {
        let ghost ks = keys@;
        let key: i128 = order_of_64(segments[found[i]].audio_start_time);
        assert(segs[them[i as int]] == segments@[found@[i as int] as int]@);
        keys.push(key);
        assert(key_values(keys@) =~= key_values(ks).push(key as int));
        assert(time_keys(segs, them).take(i + 1) =~= time_keys(segs, them).take(i as int).push(
            key as int,
        ));
    }
    assert(time_keys(segs, them).take(found@.len() as int) =~= time_keys(segs, them));
    let order = sort_positions(&keys);
    proof {
        stable_order_exists(time_keys(segs, them));
    }
    let mut out: Vec<usize> = Vec::new();
    for j in 0..order.len()
        invariant
            them == positions(found@),
            is_stable_order(time_keys(segs, them), positions(order@)),
            positions(out@) == picked(them, positions(order@)).take(j as int),
    {
        assert(0 <= positions(order@)[j as int] < them.len());
        let ghost o = out@;
        let at: usize = found[order[j]];
        out.push(at);
        assert(positions(out@) =~= positions(o).push(at as int));
        assert(at == them[order@[j as int] as int]);
        assert(picked(them, positions(order@)).take(j + 1) =~= picked(
            them,
            positions(order@),
        ).take(j as int).push(at as int));
    }
    assert(picked(them, positions(order@)).take(order@.len() as int) =~= picked(
        them,
        positions(order@),
    ));
    out
}

/// The middle one of some loudnesses, the upper one where there are two; zero of none.
pub open spec fn median_of(xs: Seq<u32>) -> u32 {
    if xs.len() == 0 {
        0
    } else {
        xs[stable_order(Seq::new(xs.len(), |i: int| order32(xs[i])))[(xs.len() / 2) as int]]
    }
}

/// The middle one of some loudnesses, the upper one where there are two; zero of none.
pub fn median(xs: &Vec<u32>) -> (r: u32)
    ensures
        r == median_of(xs@),
{
    if xs.len() == 0 {
        return 0;
    }
    let ghost want = Seq::new(xs@.len(), |i: int| order32(xs@[i]));
    let mut keys: Vec<i128> = Vec::new();
    for i in 0..xs.len()
        invariant
            want == Seq::new(xs@.len(), |i: int| order32(xs@[i])),
            key_values(keys@) == want.take(i as int),
    {
        let ghost ks = keys@;
        let key: i128 = order_of_32(xs[i]);
        keys.push(key);
        assert(key_values(keys@) =~= key_values(ks).push(key as int));
        assert(want.take(i + 1) =~= want.take(i as int).push(key as int));
    }
    assert(want.take(xs@.len() as int) =~= want);
    let order = sort_positions(&keys);
    proof {
        stable_order_exists(want);
        assert(0 <= positions(order@)[(xs@.len() / 2) as int] < xs@.len());
    }
    xs[order[xs.len() / 2]]
}

// ---- what a turn is -----------------------------------------------------------------------------------

/// What becomes of a turn of the other side.
#[derive(Debug, Clone, Copy, PartialEq, Eq, Structural)]
pub enum TurnKind {
    /// An echo of the user's own voice.
    EchoMe,
    /// Silence or a faint bleed: it keeps the flat label and makes up no voice.
    Flat,
    /// A turn to be told apart by its voice.
    Voice,
}

/// From this similarity to the user's voice on, a turn can be an echo: 0.72, as the bits of a
/// single-precision number.
pub const ECHO_SIMILARITY: u32 = 0x3F38_51EC;

/// The loudness levels that turns are held against, as the bits of single-precision numbers.
#[derive(Debug, Clone, Copy)]
pub struct Levels {
    /// Up to this loudness, a turn can be an echo.
    pub echo_ceiling: u32,
    /// Below this loudness, a turn is not a real one.
    pub energy_floor: u32,
}

/// What becomes of a turn, by its loudness and, where the user's voice is known, its similarity to it.
pub open spec fn kind_of(energy: u32, similarity: Option<u32>, levels: Levels) -> TurnKind {
    if similarity is Some && at_most32(ECHO_SIMILARITY, similarity->0) && at_most32(
        energy,
        levels.echo_ceiling,
    ) {
        TurnKind::EchoMe
    } else if less32(energy, levels.energy_floor) {
        TurnKind::Flat
    } else {
        TurnKind::Voice
    }
}

/// What becomes of a turn.
pub fn classify_turn(energy: u32, similarity: Option<u32>, levels: &Levels) -> (r: TurnKind)
    ensures
        r == kind_of(energy, similarity, *levels),
{
    if let Some(s) = similarity {
        if is_at_most_32(ECHO_SIMILARITY, s) && is_at_most_32(energy, levels.echo_ceiling) {
            return TurnKind::EchoMe;
        }
    }
    if is_less_32(energy, levels.energy_floor) {
        TurnKind::Flat
    } else {
        TurnKind::Voice
    }
}

/// A turn of the other side.
#[derive(Debug, Clone, Copy)]
pub struct Turn {
    /// The position of its segment.
    pub segment: usize,
    /// When it starts, as the bits of a double-precision number of seconds.
    pub start: u64,
    pub kind: TurnKind,
}

/// The turn of the segment at a position.
pub open spec fn turn_at(
    segs: Seq<SegView>,
    similarities: Seq<Option<u32>>,
    levels: Levels,
    at: int,
) -> Turn {
    Turn {
        segment: at as usize,
        start: segs[at].audio_start_time,
        kind: kind_of(segs[at].energy, similarities[at], levels),
    }
}

/// The other side's turns, in the order of time.
pub open spec fn planned_turns(
    segs: Seq<SegView>,
    similarities: Seq<Option<u32>>,
    levels: Levels,
) -> Seq<Turn> {
    let them = them_in_time(segs);
    Seq::new(them.len(), |i: int| turn_at(segs, similarities, levels, them[i]))
}

/// The turns of the other side are positions of segments.
pub proof fn lemma_them_in_time(segs: Seq<SegView>)
    ensures
        forall|i: int|
            0 <= i < them_in_time(segs).len() ==> {
                let at = #[trigger] them_in_time(segs)[i];
                0 <= at < segs.len() && embedded_turn(segs[at], "them"@)
            },
        them_in_time(segs).len() == turns_of(segs, "them"@).len(),
{
    let them = turns_of(segs, "them"@);
    let order = stable_order(time_keys(segs, them));
    lemma_turns(segs, "them"@, segs.len() as int);
    stable_order_exists(time_keys(segs, them));
    assert forall|i: int| 0 <= i < them_in_time(segs).len() implies {
        let at = #[trigger] them_in_time(segs)[i];
        0 <= at < segs.len() && embedded_turn(segs[at], "them"@)
    } by {
        assert(0 <= order[i] < them.len());
        assert(them_in_time(segs)[i] == them[order[i]]);
    }
}

/// The other side's turns, in the order of time, and what becomes of each. `similarities` has one entry
/// for each segment: its similarity to the user's voice, where that is known.
pub fn plan_turns(segments: &Vec<SegEmbed>, similarities: &Vec<Option<u32>>, levels: &Levels) -> (r:
    Vec<Turn>)
    requires
        similarities@.len() == segments@.len(),
    ensures
        r@ == planned_turns(seg_views(segments@), similarities@, *levels),
{
    let ghost segs = seg_views(segments@);
    let them = them_turns(segments);
    let ghost want = planned_turns(segs, similarities@, *levels);
    proof {
        lemma_them_in_time(segs);
    }
    let mut out: Vec<Turn> = Vec::new();
    for i in 0..them.len()
        invariant
            segs == seg_views(segments@),
            similarities@.len() == segments@.len(),
            positions(them@) == them_in_time(segs),
            want == planned_turns(segs, similarities@, *levels),
            forall|i: int|
                0 <= i < them_in_time(segs).len() ==> {
                    let at = #[trigger] them_in_time(segs)[i];
                    0 <= at < segs.len() && embedded_turn(segs[at], "them"@)
                },
            out@ == want.take(i as int),
    {
        let at: usize = them[i];
        assert(at == them_in_time(segs)[i as int]);
        assert(segs[at as int] == segments@[at as int]@);
        let turn = Turn {
            segment: at,
            start: segments[at].audio_start_time,
            kind: classify_turn(segments[at].energy, similarities[at], levels),
        };
        out.push(turn);
        assert(want.take(i + 1) =~= want.take(i as int).push(turn));
    }
    assert(want.take(them@.len() as int) =~= want);
    out
}

// ---- labels -------------------------------------------------------------------------------------------

/// The outcome of a turn.
#[derive(Debug, Clone, Copy, PartialEq, Eq, Structural)]
pub enum Tag {
    /// A distinct voice of the other side, by the number of its cluster.
    Speaker(usize),
    /// An echo of the user's own voice.
    EchoMe,
    /// It keeps the flat label.
    Flat,
}

/// The outcome of a turn of some kind, given the cluster that its voice was put into, if any.
pub open spec fn tag_of(kind: TurnKind, cluster: Option<usize>) -> Tag {
    match kind {
        TurnKind::EchoMe => Tag::EchoMe,
        TurnKind::Flat => Tag::Flat,
        TurnKind::Voice => match cluster {
            Some(c) => Tag::Speaker(c),
            None => Tag::Flat,
        },
    }
}

/// The outcome of each turn.
pub open spec fn tags_of(turns: Seq<Turn>, clusters: Seq<Option<usize>>) -> Seq<Tag> {
    Seq::new(turns.len(), |i: int| tag_of(turns[i].kind, clusters[i]))
}

/// The clusters of the turns that have one, in order.
pub open spec fn clusters_in(tags: Seq<Tag>) -> Seq<usize>
    decreases tags.len(),
{
    if tags.len() == 0 {
        Seq::empty()
    } else {
        match tags.last() {
            Tag::Speaker(c) => clusters_in(tags.drop_last()).push(c),
            _ => clusters_in(tags.drop_last()),
        }
    }
}

/// The voices, in the order in which they are first heard.
pub open spec fn voices(tags: Seq<Tag>) -> Seq<usize> {
    distinct(clusters_in(tags))
}

/// The label of the voice that is heard as number `n`, counted from zero.
pub open spec fn voice_label(n: int) -> Seq<char> {
    "them:S"@ + decimal((n + 1) as nat)
}

/// The new label of a turn with this outcome, where it gets one. Where there are two voices or more, an echo
/// is the user's, and the voices are numbered; where there are fewer, every turn keeps the flat label.
pub open spec fn label_of(tag: Tag, heard: Seq<usize>) -> Option<Seq<char>> {
    match tag {
        Tag::EchoMe => if heard.len() >= 2 {
            Some("me"@)
        } else {
            None
        },
        Tag::Speaker(c) => if heard.len() >= 2 {
            Some(voice_label(heard.index_of(c)))
        } else {
            None
        },
        Tag::Flat => None,
    }
}

/// The labels of the first `n` turns, by their starts. Of turns that start together, the later one
/// counts.
pub open spec fn labels_up_to(turns: Seq<Turn>, tags: Seq<Tag>, heard: Seq<usize>, n: int) -> Map<
    u64,
    Seq<char>,
>
    decreases n,
{
    if n <= 0 {
        Map::empty()
    } else {
        let before = labels_up_to(turns, tags, heard, n - 1);
        match label_of(tags[n - 1], heard) {
            Some(label) => before.insert(turns[n - 1].start, label),
            None => before,
        }
    }
}

/// The labels of some turns, by their starts.
pub open spec fn labels(turns: Seq<Turn>, clusters: Seq<Option<usize>>) -> Map<u64, Seq<char>> {
    let tags = tags_of(turns, clusters);
    labels_up_to(turns, tags, voices(tags), turns.len() as int)
}

/// The texts of a map.
pub open spec fn text_map(m: Map<u64, String>) -> Map<u64, Seq<char>> {
    m.map_values(|s: String| s@)
}

fn tag_turn(kind: TurnKind, cluster: Option<usize>) -> (r: Tag)
    ensures
        r == tag_of(kind, cluster),
{
    match kind {
        TurnKind::EchoMe => Tag::EchoMe,
        TurnKind::Flat => Tag::Flat,
        TurnKind::Voice => match cluster {
            Some(c) => Tag::Speaker(c),
            None => Tag::Flat,
        },
    }
}

/// The position of a voice among those that are heard, if it is one of them.
fn position_of(heard: &Vec<usize>, c: usize) -> (r: Option<usize>)
    ensures
        match r {
            Some(i) => i < heard@.len() && heard@[i as int] == c,
            None => !heard@.contains(c),
        },
{
    for i in 0..heard.len()
        invariant
            forall|k: int| 0 <= k < i ==> heard@[k] != c,
    {
        if heard[i] == c {
            return Some(i);
        }
    }
    None
}

/// Every cluster of a turn is a voice that is heard.
proof fn lemma_cluster_heard(tags: Seq<Tag>, i: int)
    requires
        0 <= i < tags.len(),
        tags[i] is Speaker,
    ensures
        clusters_in(tags).contains(tags[i]->Speaker_0),
    decreases tags.len(),
{
    let before = tags.drop_last();
    let c = tags[i]->Speaker_0;
    if i < before.len() {
        lemma_cluster_heard(before, i);
        let k = choose|k: int|
            0 <= k < clusters_in(before).len() && clusters_in(before)[k] == c;
        assert(clusters_in(tags)[k] == c);
    } else {
        assert(clusters_in(tags)[clusters_in(before).len() as int] == c);
    }
}

/// The labels that change, by the starts of the turns. `clusters` has one entry for each turn: the
/// cluster that its voice was put into, if any.
pub fn assign_labels(turns: &Vec<Turn>, clusters: &Vec<Option<usize>>) -> (r: HashMap<u64, String>)
    requires
        clusters@.len() == turns@.len(),
    ensures
        text_map(r@) == labels(turns@, clusters@),
{
    let ghost tags = tags_of(turns@, clusters@);
    let ghost want = voices(tags);
    let mut tagged: Vec<Tag> = Vec::new();
    let mut heard: Vec<usize> = Vec::new();
    for i in 0..turns.len()
        invariant
            clusters@.len() == turns@.len(),
            tags == tags_of(turns@, clusters@),
            tagged@ == tags.take(i as int),
            heard@ == voices(tags.take(i as int)),
    {
        let tag = tag_turn(turns[i].kind, clusters[i]);
        assert(tags.take(i + 1).drop_last() == tags.take(i as int));
        assert(tags.take(i + 1).last() == tag);
        assert(tags.take(i + 1) =~= tags.take(i as int).push(tag));
        tagged.push(tag);
        if let Tag::Speaker(c) = tag {
            let ghost before = clusters_in(tags.take(i as int));
            assert(before.push(c).drop_last() =~= before);
            if let None = position_of(&heard, c) {
                heard.push(c);
            }
        }
    }
    assert(tags.take(turns@.len() as int) =~= tags);
    proof {
        lemma_distinct(clusters_in(tags));
    }
    let mut out: HashMap<u64, String> = HashMap::new();
    assert(text_map(out@) =~= Map::empty());
    for i in 0..turns.len()
        invariant
            tags == tags_of(turns@, clusters@),
            tagged@ == tags,
            tags.len() == turns@.len(),
            heard@ == want,
            want == voices(tags),
            want.no_duplicates(),
            forall|x: usize| want.contains(x) == clusters_in(tags).contains(x),
            text_map(out@) == labels_up_to(turns@, tags, want, i as int),
    {
        let start: u64 = turns[i].start;
        let ghost before = out@;
        match tagged[i] {
            Tag::EchoMe => {
                if heard.len() >= 2 {
                    let label = "me".to_owned();
                    let ghost l = label@;
                    out.insert(start, label);
                    assert(text_map(out@) =~= text_map(before).insert(start, l));
                }
            },
            Tag::Speaker(c) => {
                if heard.len() >= 2 {
                    proof {
                        lemma_cluster_heard(tags, i as int);
                        assert(want.contains(c));
                    }
                    if let Some(n) = position_of(&heard, c) {
                        assert(want.index_of(c) == n);
                        let mut label = "them:S".to_owned();
                        label.append(decimal_text(n as u64 + 1).as_str());
                        let ghost l = label@;
                        out.insert(start, label);
                        assert(text_map(out@) =~= text_map(before).insert(start, l));
                    }
                }
            },
            Tag::Flat => {},
        }
    }
    out
}

// ---- what holds of the labels ---------------------------------------------------------------------------

/// Every label is that of a turn which starts then, and is either the user's or one of a voice.
pub proof fn labels_belong_to_turns(turns: Seq<Turn>, clusters: Seq<Option<usize>>, start: u64)
    requires
        clusters.len() == turns.len(),
        labels(turns, clusters).dom().contains(start),
    ensures
        exists|i: int|
            0 <= i < turns.len() && (#[trigger] turns[i]).start == start && label_of(
                tag_of(turns[i].kind, clusters[i]),
                voices(tags_of(turns, clusters)),
            ) == Some(labels(turns, clusters)[start]),
{
    let tags = tags_of(turns, clusters);
    lemma_label_source(turns, tags, voices(tags), turns.len() as int, start);
    let i = choose|i: int|
        0 <= i < turns.len() && (#[trigger] turns[i]).start == start && label_of(
            tags[i],
            voices(tags),
        ) == Some(labels(turns, clusters)[start]);
    assert(tags[i] == tag_of(turns[i].kind, clusters[i]));
}

proof fn lemma_label_source(
    turns: Seq<Turn>,
    tags: Seq<Tag>,
    heard: Seq<usize>,
    n: int,
    start: u64,
)
    requires
        tags.len() == turns.len(),
        0 <= n <= turns.len(),
        labels_up_to(turns, tags, heard, n).dom().contains(start),
    ensures
        exists|i: int|
            0 <= i < n && (#[trigger] turns[i]).start == start && label_of(tags[i], heard) == Some(
                labels_up_to(turns, tags, heard, n)[start],
            ),
    decreases n,
{
    if n > 0 {
        let before = labels_up_to(turns, tags, heard, n - 1);
        if label_of(tags[n - 1], heard) is Some && turns[n - 1].start == start {
            assert(turns[n - 1].start == start);
        } else {
            lemma_label_source(turns, tags, heard, n - 1, start);
        }
    }
}

/// With a single voice, or none, there is nothing to tell apart: no label is given, not even to an echo.
pub proof fn single_voice_stays_flat(turns: Seq<Turn>, clusters: Seq<Option<usize>>)
    requires
        clusters.len() == turns.len(),
        voices(tags_of(turns, clusters)).len() < 2,
    ensures
        labels(turns, clusters) == Map::<u64, Seq<char>>::empty(),
{
    let tags = tags_of(turns, clusters);
    lemma_flat_labels(turns, tags, voices(tags), turns.len() as int);
}

proof fn lemma_flat_labels(turns: Seq<Turn>, tags: Seq<Tag>, heard: Seq<usize>, n: int)
    requires
        heard.len() < 2,
    ensures
        labels_up_to(turns, tags, heard, n) == Map::<u64, Seq<char>>::empty(),
    decreases n,
{
    if n > 0 {
        lemma_flat_labels(turns, tags, heard, n - 1);
    }
}

/// A turn gets a label only where its label changes: no label is the flat one.
pub proof fn labels_are_changes(turns: Seq<Turn>, clusters: Seq<Option<usize>>, start: u64)
    requires
        clusters.len() == turns.len(),
        labels(turns, clusters).dom().contains(start),
    ensures
        labels(turns, clusters)[start] != "them"@,
{
    labels_belong_to_turns(turns, clusters, start);
    reveal_strlit("me");
    reveal_strlit("them");
    reveal_strlit("them:S");
    assert("me"@.len() == 2 && "them"@.len() == 4 && "them:S"@.len() == 6);
}

/// An echo or a faint turn never makes up a voice: every voice is that of a turn that was to be told
/// apart.
pub proof fn voices_come_from_voice_turns(turns: Seq<Turn>, clusters: Seq<Option<usize>>, c: usize)
    requires
        clusters.len() == turns.len(),
        voices(tags_of(turns, clusters)).contains(c),
    ensures
        exists|i: int|
            0 <= i < turns.len() && (#[trigger] turns[i]).kind == TurnKind::Voice && clusters[i]
                == Some(c),
{
    let tags = tags_of(turns, clusters);
    lemma_distinct(clusters_in(tags));
    lemma_cluster_source(tags, c);
    let i = choose|i: int| 0 <= i < tags.len() && #[trigger] tags[i] == Tag::Speaker(c);
    assert(turns[i].kind == TurnKind::Voice);
}

proof fn lemma_cluster_source(tags: Seq<Tag>, c: usize)
    requires
        clusters_in(tags).contains(c),
    ensures
        exists|i: int| 0 <= i < tags.len() && #[trigger] tags[i] == Tag::Speaker(c),
    decreases tags.len(),
{
    if tags.len() > 0 {
        let before = tags.drop_last();
        if tags.last() == Tag::Speaker(c) {
            assert(tags[tags.len() - 1] == Tag::Speaker(c));
        } else {
            let k = choose|k: int| 0 <= k < clusters_in(tags).len() && clusters_in(tags)[k] == c;
            assert(clusters_in(before)[k] == c);
            lemma_cluster_source(before, c);
            let i = choose|i: int| 0 <= i < before.len() && #[trigger] before[i] == Tag::Speaker(c);
            assert(tags[i] == Tag::Speaker(c));
        }
    }
}

/// Voices are numbered as they are first heard: what is heard later does not change the numbers given
/// so far.
pub proof fn numbers_are_given_in_order(tags: Seq<Tag>, n: int)
    requires
        0 <= n <= tags.len(),
    ensures
        voices(tags.take(n)).is_prefix_of(voices(tags)),
    decreases tags.len(),
{
    if n < tags.len() {
        let before = tags.drop_last();
        numbers_are_given_in_order(before, n);
        assert(before.take(n) =~= tags.take(n));
        if let Tag::Speaker(c) = tags.last() {
            assert(clusters_in(before).push(c).drop_last() =~= clusters_in(before));
        }
    } else {
        assert(tags.take(n) =~= tags);
    }
}

/// Where there are two voices or more, two turns have the same label exactly where they have the same
/// voice.
pub proof fn labels_tell_voices_apart(tags: Seq<Tag>, i: int, j: int)
    requires
        0 <= i < tags.len(),
        0 <= j < tags.len(),
        tags[i] is Speaker,
        tags[j] is Speaker,
        voices(tags).len() >= 2,
    ensures
        label_of(tags[i], voices(tags)) == label_of(tags[j], voices(tags)) <==> tags[i] == tags[j],
{
    let heard = voices(tags);
    lemma_distinct(clusters_in(tags));
    lemma_cluster_heard(tags, i);
    lemma_cluster_heard(tags, j);
    let a = tags[i]->Speaker_0;
    let b = tags[j]->Speaker_0;
    assert(heard.contains(a) && heard.contains(b));
    let m = heard.index_of(a);
    let n = heard.index_of(b);
    if voice_label(m) == voice_label(n) {
        let prefix = "them:S"@;
        let x = decimal((m + 1) as nat);
        let y = decimal((n + 1) as nat);
        assert(voice_label(m).skip(prefix.len() as int) =~= x);
        assert(voice_label(n).skip(prefix.len() as int) =~= y);
        lemma_decimal_injective((m + 1) as nat, (n + 1) as nat);
    }
}

/// As long as clusters are numbered from 1 to [`MAX_SPEAKERS`], there are no more voices than that.
pub proof fn voices_are_bounded(tags: Seq<Tag>)
    requires
        forall|i: int|
            0 <= i < tags.len() && tags[i] is Speaker ==> 1 <= (#[trigger] tags[i])->Speaker_0
                <= MAX_SPEAKERS,
    ensures
        voices(tags).len() <= MAX_SPEAKERS,
{
    let heard = voices(tags);
    lemma_distinct(clusters_in(tags));
    let ids = heard.map_values(|c: usize| c as int);
    assert(ids.no_duplicates());
    let range = vstd::set_lib::set_int_range(1, MAX_SPEAKERS + 1);
    vstd::set_lib::lemma_int_range(1, MAX_SPEAKERS + 1);
    assert forall|x: int| ids.to_set().contains(x) implies range.contains(x) by {
        let k = choose|k: int| 0 <= k < ids.len() && ids[k] == x;
        let c = heard[k];
        assert(heard.contains(c));
        lemma_cluster_source(tags, c);
        let i = choose|i: int| 0 <= i < tags.len() && #[trigger] tags[i] == Tag::Speaker(c);
        assert(1 <= tags[i]->Speaker_0 <= MAX_SPEAKERS);
    }
    ids.unique_seq_to_set();
    vstd::set_lib::lemma_len_subset(ids.to_set(), range);
}

/// Without voice vectors nothing changes: no turn is told apart, and no label is given.
pub proof fn without_vectors_nothing_changes(
    segs: Seq<SegView>,
    similarities: Seq<Option<u32>>,
    levels: Levels,
    clusters: Seq<Option<usize>>,
)
    requires
        forall|i: int| 0 <= i < segs.len() ==> (#[trigger] segs[i]).embedding.len() == 0,
    ensures
        labels(planned_turns(segs, similarities, levels), clusters) == Map::<u64, Seq<char>>::empty(),
{
    lemma_them_in_time(segs);
    if them_in_time(segs).len() > 0 {
        let at = them_in_time(segs)[0];
        assert(segs[at].embedding.len() == 0);
    }
    assert(planned_turns(segs, similarities, levels).len() == 0);
}

/// The turns to be told apart come in the order of time, and each is a turn of the other side that has a
/// voice vector.
pub proof fn turns_come_in_time(segs: Seq<SegView>, similarities: Seq<Option<u32>>, levels: Levels)
    ensures
        ({
            let turns = planned_turns(segs, similarities, levels);
            let them = them_in_time(segs);
            &&& turns.len() == them.len()
            &&& forall|i: int|
                0 <= i < turns.len() ==> 0 <= them[i] < segs.len() && embedded_turn(
                    segs[them[i]],
                    "them"@,
                ) && (#[trigger] turns[i]).start == segs[them[i]].audio_start_time
            &&& forall|i: int, j: int|
                0 <= i < j < turns.len() ==> order64((#[trigger] turns[i]).start) <= order64(
                    (#[trigger] turns[j]).start,
                )
            &&& forall|at: int|
                0 <= at < segs.len() && embedded_turn(#[trigger] segs[at], "them"@)
                    ==> them.contains(at)
        }),
{
    let turns = planned_turns(segs, similarities, levels);
    let found = turns_of(segs, "them"@);
    let keys = time_keys(segs, found);
    let order = stable_order(keys);
    let them = them_in_time(segs);
    lemma_them_in_time(segs);
    lemma_turns(segs, "them"@, segs.len() as int);
    stable_order_exists(keys);
    assert forall|i: int, j: int| 0 <= i < j < turns.len() implies order64(
        (#[trigger] turns[i]).start,
    ) <= order64((#[trigger] turns[j]).start) by {
        assert(crate::order::comes_before(keys, order[i], order[j]));
    }
    assert forall|at: int|
        0 <= at < segs.len() && embedded_turn(
            #[trigger] segs[at],
            "them"@,
        ) implies them.contains(at) by {
        assert(found.contains(at));
        let v = choose|v: int| 0 <= v < found.len() && found[v] == at;
        assert(order.contains(v));
        let i = choose|i: int| 0 <= i < order.len() && order[i] == v;
        assert(them[i] == at);
    }
}

/// Only the clusters of the turns that are to be told apart matter: what any other turn's voice would be put
/// into changes no label.
pub proof fn only_voice_turns_matter(
    turns: Seq<Turn>,
    a: Seq<Option<usize>>,
    b: Seq<Option<usize>>,
)
    requires
        a.len() == turns.len(),
        b.len() == turns.len(),
        forall|i: int|
            0 <= i < turns.len() && (#[trigger] turns[i]).kind == TurnKind::Voice ==> a[i] == b[i],
    ensures
        labels(turns, a) == labels(turns, b),
{
    assert(tags_of(turns, a) =~= tags_of(turns, b));
}

/// A turn that is too faint gets no label, unless another turn starts at the same time.
pub proof fn faint_turns_stay_flat(turns: Seq<Turn>, clusters: Seq<Option<usize>>, i: int)
    requires
        clusters.len() == turns.len(),
        0 <= i < turns.len(),
        turns[i].kind == TurnKind::Flat,
        forall|j: int|
            0 <= j < turns.len() && j != i ==> (#[trigger] turns[j]).start != turns[i].start,
    ensures
        !labels(turns, clusters).dom().contains(turns[i].start),
{
    if labels(turns, clusters).dom().contains(turns[i].start) {
        labels_belong_to_turns(turns, clusters, turns[i].start);
    }
}

/// A faint turn pollutes nothing: with another voice vector, the turns that are planned are the same, and so
/// are all labels, as long as the voices of the turns to be told apart are put into the same clusters; and
/// the faint turn itself has no label, unless another turn of the other side starts at the same time.
pub proof fn faint_vectors_do_not_matter(
    segs: Seq<SegView>,
    similarities: Seq<Option<u32>>,
    levels: Levels,
    clusters: Seq<Option<usize>>,
    at: int,
    vector: Seq<u32>,
    similarity: Option<u32>,
    other_clusters: Seq<Option<usize>>,
)
    requires
        0 <= at < segs.len(),
        similarities.len() == segs.len(),
        embedded_turn(segs[at], "them"@),
        vector.len() > 0,
        less32(segs[at].energy, levels.energy_floor),
        kind_of(segs[at].energy, similarities[at], levels) != TurnKind::EchoMe,
        kind_of(segs[at].energy, similarity, levels) != TurnKind::EchoMe,
        clusters.len() == planned_turns(segs, similarities, levels).len(),
        other_clusters.len() == clusters.len(),
        forall|i: int|
            0 <= i < clusters.len() && (#[trigger] planned_turns(segs, similarities, levels)[i]).kind
                == TurnKind::Voice ==> clusters[i] == other_clusters[i],
    ensures
        ({
            let turns = planned_turns(segs, similarities, levels);
            let changed = segs.update(at, SegView { embedding: vector, ..segs[at] });
            let other_turns = planned_turns(changed, similarities.update(at, similarity), levels);
            &&& other_turns == turns
            &&& labels(other_turns, other_clusters) == labels(turns, clusters)
            &&& (forall|j: int|
                0 <= j < segs.len() && j != at && embedded_turn(#[trigger] segs[j], "them"@)
                    ==> segs[j].audio_start_time != segs[at].audio_start_time)
                ==> !labels(turns, clusters).dom().contains(segs[at].audio_start_time)
        }),
{
    let turns = planned_turns(segs, similarities, levels);
    let changed = segs.update(at, SegView { embedding: vector, ..segs[at] });
    let other_similarities = similarities.update(at, similarity);
    let other_turns = planned_turns(changed, other_similarities, levels);
    let found = turns_of(segs, "them"@);
    lemma_same_turns(segs, changed, "them"@, segs.len() as int);
    lemma_turns(segs, "them"@, segs.len() as int);
    assert(time_keys(changed, found) =~= time_keys(segs, found)) by {
        assert forall|i: int| 0 <= i < found.len() implies #[trigger] time_keys(changed, found)[i]
            == time_keys(segs, found)[i] by {
            assert(0 <= found[i] < segs.len());
        }
    }
    lemma_them_in_time(segs);
    assert(other_turns =~= turns) by {
        assert forall|i: int| 0 <= i < turns.len() implies #[trigger] other_turns[i]
            == turns[i] by {
            let place = them_in_time(segs)[i];
            assert(0 <= place < segs.len());
        }
    }
    only_voice_turns_matter(turns, clusters, other_clusters);
    if forall|j: int|
        0 <= j < segs.len() && j != at && embedded_turn(#[trigger] segs[j], "them"@)
            ==> segs[j].audio_start_time != segs[at].audio_start_time {
        let start = segs[at].audio_start_time;
        if labels(turns, clusters).dom().contains(start) {
            labels_belong_to_turns(turns, clusters, start);
            let k = choose|k: int|
                0 <= k < turns.len() && (#[trigger] turns[k]).start == start && label_of(
                    tag_of(turns[k].kind, clusters[k]),
                    voices(tags_of(turns, clusters)),
                ) == Some(labels(turns, clusters)[start]);
            let place = them_in_time(segs)[k];
            assert(embedded_turn(segs[place], "them"@));
            assert(place == at);
        }
    }
}

proof fn lemma_same_turns(a: Seq<SegView>, b: Seq<SegView>, who: Seq<char>, n: int)
    requires
        0 <= n <= a.len(),
        a.len() == b.len(),
        forall|i: int|
            0 <= i < a.len() ==> embedded_turn(#[trigger] a[i], who) == embedded_turn(b[i], who),
    ensures
        turns_up_to(a, who, n) == turns_up_to(b, who, n),
    decreases n,
{
    if n > 0 {
        lemma_same_turns(a, b, who, n - 1);
        assert(embedded_turn(a[n - 1], who) == embedded_turn(b[n - 1], who));
    }
}

// ---- which turns there are --------------------------------------------------------------------------------

/// The turns of one stream are the segments of that stream that have a voice vector, each once and in order.
pub proof fn every_turn_of_a_stream_is_found(segs: Seq<SegView>, who: Seq<char>)
    ensures
        forall|at: int| #[trigger]
            turns_of(segs, who).contains(at) <==> 0 <= at < segs.len() && segs[at].embedding.len() > 0
                && segs[at].speaker == who,
        forall|a: int, b: int|
            0 <= a < b < turns_of(segs, who).len() ==> #[trigger] turns_of(segs, who)[a]
                < #[trigger] turns_of(segs, who)[b],
{
    let turns = turns_of(segs, who);
    lemma_turns(segs, who, segs.len() as int);
    assert forall|at: int| #[trigger] turns.contains(at) <==> 0 <= at < segs.len()
        && segs[at].embedding.len() > 0 && segs[at].speaker == who by {
        if turns.contains(at) {
            let j = choose|j: int| 0 <= j < turns.len() && turns[j] == at;
            assert(embedded_turn(segs[turns[j]], who));
        }
        if 0 <= at < segs.len() && segs[at].embedding.len() > 0 && segs[at].speaker == who {
            assert(embedded_turn(segs[at], who));
        }
    }
}

/// Whether a turn is that of a segment. It is an echo where the segment is as similar to the user's voice as
/// 0.72 or more and no louder than an echo can be; else it is faint where it is below the floor; else its
/// voice is to be told apart.
pub open spec fn is_turn_of(
    t: Turn,
    segs: Seq<SegView>,
    similarities: Seq<Option<u32>>,
    levels: Levels,
    at: int,
) -> bool {
    let echo = similarities[at] matches Some(s) && at_most32(0x3F38_51EC, s) && at_most32(
        segs[at].energy,
        levels.echo_ceiling,
    );
    let faint = less32(segs[at].energy, levels.energy_floor);
    &&& t.segment == at
    &&& t.start == segs[at].audio_start_time
    &&& t.kind == TurnKind::EchoMe <==> echo
    &&& t.kind == TurnKind::Flat <==> !echo && faint
    &&& t.kind == TurnKind::Voice <==> !echo && !faint
}

/// Whether one of some turns is that of a segment.
pub open spec fn has_turn_of(
    turns: Seq<Turn>,
    segs: Seq<SegView>,
    similarities: Seq<Option<u32>>,
    levels: Levels,
    at: int,
) -> bool {
    exists|i: int|
        0 <= i < turns.len() && is_turn_of(#[trigger] turns[i], segs, similarities, levels, at)
}

/// No turn is left out: every segment of the other side that has a voice vector has a turn, by its loudness
/// and its similarity to the user's voice; no segment has two, and none of another kind has one.
pub proof fn every_turn_is_planned_once(
    segs: Seq<SegView>,
    similarities: Seq<Option<u32>>,
    levels: Levels,
)
    requires
        segs.len() <= usize::MAX,
    ensures
        ({
            let turns = planned_turns(segs, similarities, levels);
            &&& forall|at: int|
                0 <= at < segs.len() && (#[trigger] segs[at]).embedding.len() > 0 && segs[at].speaker
                    == "them"@ ==> has_turn_of(turns, segs, similarities, levels, at)
            &&& forall|i: int|
                0 <= i < turns.len() ==> {
                    let at = (#[trigger] turns[i]).segment as int;
                    &&& 0 <= at < segs.len()
                    &&& segs[at].embedding.len() > 0
                    &&& segs[at].speaker == "them"@
                    &&& is_turn_of(turns[i], segs, similarities, levels, at)
                }
            &&& forall|i: int, j: int|
                0 <= i < j < turns.len() ==> (#[trigger] turns[i]).segment != (
                #[trigger] turns[j]).segment
        }),
{
    let turns = planned_turns(segs, similarities, levels);
    let them = them_in_time(segs);
    let found = turns_of(segs, "them"@);
    let keys = time_keys(segs, found);
    let order = stable_order(keys);
    turns_come_in_time(segs, similarities, levels);
    lemma_turns(segs, "them"@, segs.len() as int);
    stable_order_exists(keys);
    assert forall|i: int| 0 <= i < turns.len() implies {
        let at = (#[trigger] turns[i]).segment as int;
        &&& 0 <= at < segs.len()
        &&& segs[at].embedding.len() > 0
        &&& segs[at].speaker == "them"@
        &&& is_turn_of(turns[i], segs, similarities, levels, at)
    } by {
        assert(0 <= them[i] < segs.len() && embedded_turn(segs[them[i]], "them"@));
        assert(turns[i].segment == them[i]);
    }
    assert forall|at: int|
        0 <= at < segs.len() && (#[trigger] segs[at]).embedding.len() > 0 && segs[at].speaker
            == "them"@ implies has_turn_of(turns, segs, similarities, levels, at) by {
        assert(embedded_turn(segs[at], "them"@));
        assert(them.contains(at));
        let i = choose|i: int| 0 <= i < them.len() && them[i] == at;
        assert(turns[i].segment == at);
        assert(is_turn_of(turns[i], segs, similarities, levels, at));
    }
    assert forall|i: int, j: int| 0 <= i < j < turns.len() implies (#[trigger] turns[i]).segment != (
    #[trigger] turns[j]).segment by {
        assert(crate::order::comes_before(keys, order[i], order[j]));
        assert(0 <= order[i] < found.len() && 0 <= order[j] < found.len());
        assert(them[i] == found[order[i]] && them[j] == found[order[j]]);
        assert(turns[i].segment == them[i] && turns[j].segment == them[j]);
    }
}

/// Whether a list has the positions of some loudnesses in it, each once, the lower ones first.
pub open spec fn ranks(xs: Seq<u32>, p: Seq<int>) -> bool {
    &&& p.len() == xs.len()
    &&& p.no_duplicates()
    &&& forall|i: int| 0 <= i < p.len() ==> 0 <= #[trigger] p[i] < xs.len()
    &&& forall|i: int, j: int|
        0 <= i < j < p.len() ==> order32(xs[#[trigger] p[i]]) <= order32(xs[#[trigger] p[j]])
}

/// The median is the middle one of the loudnesses in their order: of an odd number the one with as many below
/// as above it, of an even number the upper of the two in the middle.
pub proof fn medians_are_in_the_middle(xs: Seq<u32>)
    ensures
        xs.len() == 0 ==> median_of(xs) == 0,
        xs.len() > 0 ==> exists|p: Seq<int>| #[trigger]
            ranks(xs, p) && median_of(xs) == xs[p[(xs.len() / 2) as int]],
{
    let keys = Seq::new(xs.len(), |i: int| order32(xs[i]));
    let p = stable_order(keys);
    stable_order_exists(keys);
    assert forall|i: int, j: int| 0 <= i < j < p.len() implies order32(xs[#[trigger] p[i]])
        <= order32(xs[#[trigger] p[j]]) && p[i] != p[j] by {
        assert(crate::order::comes_before(keys, p[i], p[j]));
    }
    assert(p.no_duplicates());
    assert(ranks(xs, p));
}

// ---- which labels there are -------------------------------------------------------------------------------

/// Whether a turn is to be told apart, and its voice was put into this cluster.
pub open spec fn has_voice(turns: Seq<Turn>, clusters: Seq<Option<usize>>, i: int, c: usize) -> bool {
    turns[i].kind == TurnKind::Voice && clusters[i] == Some(c)
}

/// Whether a voice is heard in one of the first `n` turns.
pub open spec fn voice_heard(turns: Seq<Turn>, clusters: Seq<Option<usize>>, n: int, c: usize) -> bool {
    exists|j: int| 0 <= j < n && #[trigger] has_voice(turns, clusters, j, c)
}

/// How many voices are heard in the first `n` turns.
pub open spec fn voices_before(turns: Seq<Turn>, clusters: Seq<Option<usize>>, n: int) -> nat
    decreases n,
{
    if n <= 0 {
        0
    } else {
        let before = voices_before(turns, clusters, n - 1);
        if turns[n - 1].kind == TurnKind::Voice && clusters[n - 1] is Some && !voice_heard(
            turns,
            clusters,
            n - 1,
            clusters[n - 1]->0,
        ) {
            before + 1
        } else {
            before
        }
    }
}

proof fn lemma_voices_before(turns: Seq<Turn>, clusters: Seq<Option<usize>>, n: int)
    requires
        clusters.len() == turns.len(),
        0 <= n <= turns.len(),
    ensures
        voices(tags_of(turns, clusters).take(n)).len() == voices_before(turns, clusters, n),
    decreases n,
{
    if n > 0 {
        lemma_voices_before(turns, clusters, n - 1);
        let tags = tags_of(turns, clusters);
        let before = tags.take(n - 1);
        assert(tags.take(n).drop_last() =~= before);
        if let Tag::Speaker(c) = tags[n - 1] {
            assert(clusters_in(before).push(c).drop_last() =~= clusters_in(before));
            lemma_voice_heard(turns, clusters, n - 1, c);
        }
    }
}

proof fn lemma_voice_heard(turns: Seq<Turn>, clusters: Seq<Option<usize>>, n: int, c: usize)
    requires
        clusters.len() == turns.len(),
        0 <= n <= turns.len(),
    ensures
        voices(tags_of(turns, clusters).take(n)).contains(c) <==> voice_heard(turns, clusters, n, c),
{
    let tags = tags_of(turns, clusters).take(n);
    lemma_distinct(clusters_in(tags));
    if voices(tags).contains(c) {
        lemma_cluster_source(tags, c);
        let i = choose|i: int| 0 <= i < tags.len() && #[trigger] tags[i] == Tag::Speaker(c);
        assert(has_voice(turns, clusters, i, c));
    }
    if voice_heard(turns, clusters, n, c) {
        let j = choose|j: int| 0 <= j < n && #[trigger] has_voice(turns, clusters, j, c);
        assert(tags[j] == Tag::Speaker(c));
        lemma_cluster_heard(tags, j);
    }
}

proof fn lemma_label_stands(turns: Seq<Turn>, tags: Seq<Tag>, heard: Seq<usize>, n: int, i: int)
    requires
        0 <= i < n <= turns.len(),
        label_of(tags[i], heard) is Some,
        forall|j: int|
            i < j < n && (#[trigger] turns[j]).start == turns[i].start ==> label_of(tags[j], heard)
                is None,
    ensures
        labels_up_to(turns, tags, heard, n).dom().contains(turns[i].start),
        labels_up_to(turns, tags, heard, n)[turns[i].start] == label_of(tags[i], heard)->0,
    decreases n,
{
    if i < n - 1 {
        lemma_label_stands(turns, tags, heard, n - 1, i);
        if turns[n - 1].start == turns[i].start {
            assert(label_of(tags[n - 1], heard) is None);
        }
    }
}

/// Whether no later turn that starts at the same time gets a label: each of them is faint, or was put into no
/// cluster.
pub open spec fn is_last_of_its_start(turns: Seq<Turn>, clusters: Seq<Option<usize>>, i: int) -> bool {
    forall|j: int|
        i < j < turns.len() && (#[trigger] turns[j]).start == turns[i].start ==> turns[j].kind
            == TurnKind::Flat || (turns[j].kind == TurnKind::Voice && clusters[j] is None)
}

/// Every voice is labelled by its number: where two voices or more are heard, every turn of the voice that is
/// heard first has the label "them:S1", every turn of the next new voice has "them:S2", and so on, however
/// many turns there are.
pub proof fn voices_are_numbered_as_heard(
    turns: Seq<Turn>,
    clusters: Seq<Option<usize>>,
    first: int,
    i: int,
    c: usize,
)
    requires
        clusters.len() == turns.len(),
        voices_before(turns, clusters, turns.len() as int) >= 2,
        0 <= first <= i < turns.len(),
        has_voice(turns, clusters, first, c),
        !voice_heard(turns, clusters, first, c),
        has_voice(turns, clusters, i, c),
        is_last_of_its_start(turns, clusters, i),
    ensures
        labels(turns, clusters).dom().contains(turns[i].start),
        labels(turns, clusters)[turns[i].start] == "them:S"@ + decimal(
            voices_before(turns, clusters, first) + 1,
        ),
{
    let tags = tags_of(turns, clusters);
    let heard = voices(tags);
    assert(tags.take(turns.len() as int) =~= tags);
    lemma_voices_before(turns, clusters, turns.len() as int);
    assert(tags[i] == Tag::Speaker(c));
    assert(tags[first] == Tag::Speaker(c));
    lemma_label_stands(turns, tags, heard, turns.len() as int, i);
    let before = tags.take(first);
    lemma_voices_before(turns, clusters, first);
    lemma_voice_heard(turns, clusters, first, c);
    assert(tags.take(first + 1).drop_last() =~= before);
    assert(clusters_in(before).push(c).drop_last() =~= clusters_in(before));
    assert(voices(tags.take(first + 1)) =~= voices(before).push(c));
    numbers_are_given_in_order(tags, first + 1);
    let n = voices(before).len() as int;
    assert(heard[n] == c) by {
        assert(voices(tags.take(first + 1))[n] == c);
    }
    lemma_distinct(clusters_in(tags));
    assert(heard.index_of(c) == n);
}

/// Where two voices or more are heard, an echo is the user's.
pub proof fn echoes_are_the_users(turns: Seq<Turn>, clusters: Seq<Option<usize>>, i: int)
    requires
        clusters.len() == turns.len(),
        voices_before(turns, clusters, turns.len() as int) >= 2,
        0 <= i < turns.len(),
        turns[i].kind == TurnKind::EchoMe,
        is_last_of_its_start(turns, clusters, i),
    ensures
        labels(turns, clusters).dom().contains(turns[i].start),
        labels(turns, clusters)[turns[i].start] == "me"@,
{
    let tags = tags_of(turns, clusters);
    assert(tags.take(turns.len() as int) =~= tags);
    lemma_voices_before(turns, clusters, turns.len() as int);
    lemma_label_stands(turns, tags, voices(tags), turns.len() as int, i);
}

/// Where one voice is heard, or none, nothing is labelled.
pub proof fn one_voice_needs_no_labels(turns: Seq<Turn>, clusters: Seq<Option<usize>>)
    requires
        clusters.len() == turns.len(),
        voices_before(turns, clusters, turns.len() as int) < 2,
    ensures
        labels(turns, clusters).dom() == Set::<u64>::empty(),
{
    let tags = tags_of(turns, clusters);
    assert(tags.take(turns.len() as int) =~= tags);
    lemma_voices_before(turns, clusters, turns.len() as int);
    single_voice_stays_flat(turns, clusters);
}

/// A turn whose voice was put into no cluster gets no label, unless another turn starts at the same time.
pub proof fn lone_turns_stay_flat(turns: Seq<Turn>, clusters: Seq<Option<usize>>, i: int)
    requires
        clusters.len() == turns.len(),
        0 <= i < turns.len(),
        turns[i].kind == TurnKind::Voice,
        clusters[i] is None,
        forall|j: int|
            0 <= j < turns.len() && j != i ==> (#[trigger] turns[j]).start != turns[i].start,
    ensures
        !labels(turns, clusters).dom().contains(turns[i].start),
{
    if labels(turns, clusters).dom().contains(turns[i].start) {
        labels_belong_to_turns(turns, clusters, turns[i].start);
    }
}

/// What a segment and a label hold is seen whole.
pub proof fn segments_are_seen_whole(v: Seq<SegEmbed>, i: int, m: Map<u64, String>, start: u64)
    requires
        0 <= i < v.len(),
    ensures
        seg_views(v).len() == v.len(),
        seg_views(v)[i].audio_start_time == v[i].audio_start_time,
        seg_views(v)[i].speaker == v[i].speaker@,
        seg_views(v)[i].embedding == v[i].embedding@,
        seg_views(v)[i].energy == v[i].energy,
        text_map(m).dom() == m.dom(),
        m.dom().contains(start) ==> text_map(m)[start] == m[start]@,
{
}

} // verus!

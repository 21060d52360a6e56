//! Retrieval: building the corpus, ranked keyword search, and reading on demand.

use crate::chat::summary::{flatten_summary, flattened_summary};
use crate::clock::{date_of, in_calendar, utc_formatted, DATE_PATTERN};
use crate::order::{
    comes_before, is_stable_order, key_values, picked, positions, sort_positions,
    sorting_rearranges, stable_order, stable_order_exists,
};
use crate::text::{
    all_white, ascii_lowercase, at_most, begins_with, blank_texts_are_trimmed_away, clipped,
    contains_text, decimal, decimal_text, decimal_value, decimals_read_back, digit, distinct,
    distinct_texts, first_from, join_texts, joined, joined_adds_a_part, joined_holds_every_part,
    kept_text_is_one_run, lemma_distinct, lemma_first_from, lines, lowercase, occurs, opt_text,
    other_characters_part_runs, runs, runs_are_kept, runs_hold_what_is_kept, same_text,
    single_spaced, snippet, split_lines, split_runs, starts_with_text, texts, trim_text,
    trimmed, white_space, words_join_back, RunOf,
};
use vstd::prelude::*;
use vstd::utf8::is_ascii_chars;

verus! {

// ---- meetings -----------------------------------------------------------------------

/// One transcript line of a meeting.
#[derive(Debug, Clone)]
pub struct Segment {
    pub text: String,
    /// Time stamp for display: `mm:ss`, or whatever was stored.
    pub ts: String,
    /// May be empty.
    pub speaker: String,
    /// Sort key. Only its order against the other segments of the meeting matters.
    pub order: i128,
}

/// What a segment holds.
pub struct SegmentView {
    pub text: Seq<char>,
    pub ts: Seq<char>,
    pub speaker: Seq<char>,
    pub order: int,
}

impl View for Segment {
    type V = SegmentView;

    open spec fn view(&self) -> SegmentView {
        SegmentView {
            text: self.text@,
            ts: self.ts@,
            speaker: self.speaker@,
            order: self.order as int,
        }
    }
}

/// What each segment of a list holds.
pub open spec fn segment_views(v: Seq<Segment>) -> Seq<SegmentView> {
    Seq::new(v.len(), |i: int| v[i]@)
}

/// A meeting with its segments and its flattened summary.
#[derive(Debug, Clone)]
pub struct Meeting {
    pub id: String,
    pub title: String,
    /// `yyyy-mm-dd`.
    pub date: String,
    pub segments: Vec<Segment>,
    pub summary: String,
}

/// What a meeting holds.
pub struct MeetingView {
    pub id: Seq<char>,
    pub title: Seq<char>,
    pub date: Seq<char>,
    pub segments: Seq<SegmentView>,
    pub summary: Seq<char>,
}

impl View for Meeting {
    type V = MeetingView;

    open spec fn view(&self) -> MeetingView {
        MeetingView {
            id: self.id@,
            title: self.title@,
            date: self.date@,
            segments: segment_views(self.segments@),
            summary: self.summary@,
        }
    }
}

/// What each meeting of a list holds.
pub open spec fn meeting_views(v: Seq<Meeting>) -> Seq<MeetingView> {
    Seq::new(v.len(), |i: int| v[i]@)
}

impl SegmentView {
    /// The segment as a transcript line: `[ts] speaker: text`, without the speaker where there is
    /// none.
    pub open spec fn line(self) -> Seq<char> {
        let who = if self.speaker.len() == 0 {
            Seq::<char>::empty()
        } else {
            self.speaker + ": "@
        };
        "["@ + self.ts + "] "@ + who + self.text
    }
}

impl Segment {
    /// The segment as a transcript line.
    pub fn line(&self) -> (r: String)
        ensures
            r@ == self@.line(),
    {
        let mut out = "[".to_owned();
        out.append(self.ts.as_str());
        out.append("] ");
        if !self.speaker.as_str().is_empty() {
            out.append(self.speaker.as_str());
            out.append(": ");
        }
        out.append(self.text.as_str());
        assert(out@ =~= self@.line());
        out
    }

    /// A copy of this segment.
    pub fn copy(&self) -> (r: Segment)
        ensures
            r@ == self@,
    {
        Segment {
            text: self.text.clone(),
            ts: self.ts.clone(),
            speaker: self.speaker.clone(),
            order: self.order,
        }
    }
}

/// The transcript lines of some segments.
pub open spec fn transcript_lines(segments: Seq<SegmentView>) -> Seq<Seq<char>> {
    Seq::new(segments.len(), |i: int| segments[i].line())
}

impl MeetingView {
    /// The whole transcript, one line for each segment.
    pub open spec fn full_text(self) -> Seq<char> {
        joined(transcript_lines(self.segments), "\n"@)
    }

    /// A topic line of at most `n` characters: the summary, or the transcript where the summary
    /// is blank, with every run of white space made one space.
    pub open spec fn blurb(self, n: nat) -> Seq<char> {
        let base = if trimmed(self.summary).len() == 0 {
            self.full_text()
        } else {
            self.summary
        };
        clipped(joined(runs(base, RunOf::Words), " "@), n)
    }
}

impl Meeting {
    /// The whole transcript as `[ts] speaker: text` lines.
    pub fn full_text(&self) -> (r: String)
        ensures
            r@ == self@.full_text(),
    {
        let mut out: Vec<String> = Vec::new();
        for i in 0..self.segments.len()
            invariant
                texts(out@) == transcript_lines(self@.segments).take(i as int),
        {
            let ghost o = out@;
            let line = self.segments[i].line();
            out.push(line);
            assert(texts(out@) =~= texts(o).push(line@));
        }
        assert(transcript_lines(self@.segments).take(self.segments@.len() as int)
            =~= transcript_lines(self@.segments));
        join_texts(&out, "\n")
    }

    /// A short topic line for the meeting index: the summary first, else the transcript.
    pub fn blurb(&self, n: usize) -> (r: String)
        ensures
            r@ == self@.blurb(n as nat),
    {
        let summary = trim_text(self.summary.as_str());
        let base = if summary.as_str().is_empty() {
            self.full_text()
        } else {
            self.summary.clone()
        };
        let words = split_runs(base.as_str(), RunOf::Words);
        let collapsed = join_texts(&words, " ");
        snippet(collapsed.as_str(), n)
    }
}

/// The whole transcript holds the line of every segment.
pub proof fn full_text_holds_every_segment(m: MeetingView, i: int)
    requires
        0 <= i < m.segments.len(),
    ensures
        occurs(m.full_text(), m.segments[i].line()),
{
    joined_holds_every_part(transcript_lines(m.segments), "\n"@, i);
}

// ---- tokens and terms -----------------------------------------------------------------

/// The tokens of a text that is in lower case already.
pub open spec fn tokens_of(lowered: Seq<char>) -> Seq<Seq<char>> {
    runs(lowered, RunOf::TokenChars)
}

/// The tokens of a text.
pub open spec fn tokenized(s: Seq<char>) -> Seq<Seq<char>> {
    tokens_of(lowercase(s))
}

/// The tokens of a text: the runs of ASCII letters, digits and apostrophes of its lower-case form.
pub fn tokenize(s: &str) -> (r: Vec<String>)
    ensures
        texts(r@) == tokenized(s@),
        is_ascii_chars(s@) ==> texts(r@) == tokens_of(ascii_lowercase(s@)),
{
    tokenize_lowered(s.to_lowercase().as_str())
}

/// The tokens of a text that is in lower case already.
pub fn tokenize_lowered(lowered: &str) -> (r: Vec<String>)
    ensures
        texts(r@) == tokens_of(lowered@),
{
    split_runs(lowered, RunOf::TokenChars)
}

/// No token is lost: the tokens of a text hold its ASCII letters, digits and apostrophes, in order and no other
/// characters; a text of those alone is one token; and any other character parts tokens.
pub proof fn no_token_is_lost(s: Seq<char>, c: char, more: Seq<char>)
    ensures
        ({
            let kept = |x: char|
                'a' <= x <= 'z' || 'A' <= x <= 'Z' || '0' <= x <= '9' || x == '\'';
            &&& joined(tokens_of(s), Seq::empty()) == s.filter(kept)
            &&& s.len() > 0 && (forall|i: int| 0 <= i < s.len() ==> kept(#[trigger] s[i]))
                ==> tokens_of(s) == seq![s]
            &&& !kept(c) ==> tokens_of(s.push(c) + more) == tokens_of(s) + tokens_of(more)
        }),
{
    let kept = |x: char| 'a' <= x <= 'z' || 'A' <= x <= 'Z' || '0' <= x <= '9' || x == '\'';
    let keeps = |x: char| RunOf::TokenChars.keeps(x);
    runs_hold_what_is_kept(s, RunOf::TokenChars);
    lemma_same_filter(s, kept, keeps);
    if s.len() > 0 && (forall|i: int| 0 <= i < s.len() ==> kept(#[trigger] s[i])) {
        assert forall|i: int| 0 <= i < s.len() implies RunOf::TokenChars.keeps(#[trigger] s[i]) by {
            assert(kept(s[i]));
        }
        kept_text_is_one_run(s, RunOf::TokenChars);
    }
    if !kept(c) {
        other_characters_part_runs(s, c, more, RunOf::TokenChars);
    }
}

proof fn lemma_same_filter(s: Seq<char>, a: spec_fn(char) -> bool, b: spec_fn(char) -> bool)
    requires
        forall|c: char| #[trigger] a(c) == b(c),
    ensures
        s.filter(a) == s.filter(b),
    decreases s.len(),
{
    reveal(Seq::filter);
    if s.len() > 0 {
        lemma_same_filter(s.drop_last(), a, b);
        assert(a(s.last()) == b(s.last()));
    }
}

/// Whether a token is too common to search for.
pub open spec fn stopword(t: Seq<char>) -> bool {
    ||| t == "the"@
    ||| t == "a"@
    ||| t == "an"@
    ||| t == "of"@
    ||| t == "to"@
    ||| t == "in"@
    ||| t == "on"@
    ||| t == "and"@
    ||| t == "or"@
    ||| t == "what"@
    ||| t == "did"@
    ||| t == "we"@
    ||| t == "was"@
    ||| t == "is"@
    ||| t == "about"@
    ||| t == "for"@
    ||| t == "how"@
    ||| t == "when"@
    ||| t == "who"@
    ||| t == "which"@
    ||| t == "that"@
    ||| t == "our"@
    ||| t == "do"@
    ||| t == "does"@
    ||| t == "with"@
}

/// Whether a token is too common to search for.
pub fn is_stopword(t: &str) -> (r: bool)
    ensures
        r == stopword(t@),
{
    same_text(t, "the") || same_text(t, "a") || same_text(t, "an") || same_text(t, "of")
        || same_text(t, "to") || same_text(t, "in") || same_text(t, "on") || same_text(t, "and")
        || same_text(t, "or") || same_text(t, "what") || same_text(t, "did") || same_text(t, "we")
        || same_text(t, "was") || same_text(t, "is") || same_text(t, "about") || same_text(t, "for")
        || same_text(t, "how") || same_text(t, "when") || same_text(t, "who") || same_text(
        t,
        "which",
    ) || same_text(t, "that") || same_text(t, "our") || same_text(t, "do") || same_text(t, "does")
        || same_text(t, "with")
}

/// Whether a token says something about what is looked for.
pub open spec fn salient(t: Seq<char>) -> bool {
    t.len() > 1 && !stopword(t)
}

/// The terms to search for, of the tokens of a query: the salient ones, or all of them where none
/// is salient, each once, in the order of the query.
pub open spec fn terms_of(tokens: Seq<Seq<char>>) -> Seq<Seq<char>> {
    let kept = tokens.filter(|t: Seq<char>| salient(t));
    distinct(if kept.len() == 0 { tokens } else { kept })
}

/// The terms to search for, of the tokens of a query.
pub fn terms_of_tokens(tokens: Vec<String>) -> (r: Vec<String>)
    ensures
        texts(r@) == terms_of(texts(tokens@)),
{
    let ghost all = texts(tokens@);
    let ghost keep = |t: Seq<char>| salient(t);
    let mut kept: Vec<String> = Vec::new();
    for i in 0..tokens.len()
        invariant
            all == texts(tokens@),
            keep == (|t: Seq<char>| salient(t)),
            texts(kept@) == all.take(i as int).filter(keep),
    {
        reveal(Seq::filter);
        assert(all.take(i + 1).drop_last() == all.take(i as int));
        let t = tokens[i].as_str();
        if t.unicode_len() > 1 && !is_stopword(t) {
            let ghost o = kept@;
            kept.push(tokens[i].clone());
            assert(texts(kept@) == texts(o).push(tokens@[i as int]@));
        }
    }
    assert(all.take(tokens@.len() as int) == all);
    if kept.len() == 0 {
        distinct_texts(&tokens)
    } else {
        distinct_texts(&kept)
    }
}

/// Salient, distinct query terms: stop words and single characters are dropped, unless nothing
/// would be left.
pub fn query_terms(q: &str) -> (r: Vec<String>)
    ensures
        texts(r@) == terms_of(tokenized(q@)),
        is_ascii_chars(q@) ==> texts(r@) == terms_of(tokens_of(ascii_lowercase(q@))),
{
    terms_of_tokens(tokenize(q))
}

// ---- results ----------------------------------------------------------------------------

/// A citation that an answer is grounded in.
#[derive(Debug, Clone)]
pub struct Citation {
    pub meeting_id: String,
    pub title: String,
    pub ts: String,
}

/// What a citation says.
pub struct CitationView {
    pub meeting_id: Seq<char>,
    pub title: Seq<char>,
    pub ts: Seq<char>,
}

impl View for Citation {
    type V = CitationView;

    open spec fn view(&self) -> CitationView {
        CitationView { meeting_id: self.meeting_id@, title: self.title@, ts: self.ts@ }
    }
}

/// A ranked search snippet.
#[derive(Debug, Clone)]
pub struct SearchHit {
    pub meeting_id: String,
    pub meeting_title: String,
    pub ts: String,
    pub speaker: String,
    pub snippet: String,
    /// The score that the segment was ranked by.
    pub score: u64,
}

/// What a search hit says.
pub struct HitView {
    pub meeting_id: Seq<char>,
    pub meeting_title: Seq<char>,
    pub ts: Seq<char>,
    pub speaker: Seq<char>,
    pub snippet: Seq<char>,
    pub score: u64,
}

impl View for SearchHit {
    type V = HitView;

    open spec fn view(&self) -> HitView {
        HitView {
            meeting_id: self.meeting_id@,
            meeting_title: self.meeting_title@,
            ts: self.ts@,
            speaker: self.speaker@,
            snippet: self.snippet@,
            score: self.score,
        }
    }
}

/// What each hit of a list says.
pub open spec fn hit_views(v: Seq<SearchHit>) -> Seq<HitView> {
    Seq::new(v.len(), |i: int| v[i]@)
}

/// A row of the meeting index.
#[derive(Debug, Clone)]
pub struct MeetingInfo {
    pub id: String,
    pub title: String,
    pub date: String,
    pub topic: String,
}

/// What a row of the meeting index says.
pub struct InfoView {
    pub id: Seq<char>,
    pub title: Seq<char>,
    pub date: Seq<char>,
    pub topic: Seq<char>,
}

impl View for MeetingInfo {
    type V = InfoView;

    open spec fn view(&self) -> InfoView {
        InfoView { id: self.id@, title: self.title@, date: self.date@, topic: self.topic@ }
    }
}

/// What each row of a meeting index says.
pub open spec fn info_views(v: Seq<MeetingInfo>) -> Seq<InfoView> {
    Seq::new(v.len(), |i: int| v[i]@)
}

/// How the terms of a query occur in a segment: all that a score can depend on.
#[derive(Debug)]
pub struct SegmentStats {
    /// How many tokens the segment has.
    pub tokens: usize,
    /// How often each term occurs in it, in the order of the terms.
    pub counts: Vec<usize>,
    /// How many of the terms occur in it.
    pub distinct: usize,
}

// ---- the corpus -----------------------------------------------------------------------------

/// Where each segment stands, as the position of its meeting and its own position in it, in the
/// order of the meetings.
pub open spec fn segment_places(ms: Seq<MeetingView>) -> Seq<(int, int)>
    decreases ms.len(),
{
    if ms.len() == 0 {
        Seq::empty()
    } else {
        let m = ms.len() - 1;
        segment_places(ms.drop_last()) + Seq::new(ms[m].segments.len(), |s: int| (m, s))
    }
}

/// The segment at a place.
pub open spec fn segment_at(ms: Seq<MeetingView>, place: (int, int)) -> SegmentView {
    ms[place.0].segments[place.1]
}

/// Every place is that of a segment.
pub proof fn lemma_places(ms: Seq<MeetingView>)
    ensures
        forall|i: int|
            0 <= i < segment_places(ms).len() ==> {
                let place = #[trigger] segment_places(ms)[i];
                0 <= place.0 < ms.len() && 0 <= place.1 < ms[place.0].segments.len()
            },
    decreases ms.len(),
{
    if ms.len() > 0 {
        lemma_places(ms.drop_last());
        let before = segment_places(ms.drop_last());
        assert forall|i: int| 0 <= i < segment_places(ms).len() implies {
            let place = #[trigger] segment_places(ms)[i];
            0 <= place.0 < ms.len() && 0 <= place.1 < ms[place.0].segments.len()
        } by {
            if i < before.len() {
                assert(segment_places(ms)[i] == before[i]);
            }
        }
    }
}

/// How often a term occurs among some tokens.
pub open spec fn occurrences(tokens: Seq<Seq<char>>, term: Seq<char>) -> nat
    decreases tokens.len(),
{
    if tokens.len() == 0 {
        0
    } else {
        occurrences(tokens.drop_last(), term) + if tokens.last() == term {
            1nat
        } else {
            0
        }
    }
}

/// How many of the terms occur among some tokens.
pub open spec fn terms_present(tokens: Seq<Seq<char>>, terms: Seq<Seq<char>>) -> nat
    decreases terms.len(),
{
    if terms.len() == 0 {
        0
    } else {
        terms_present(tokens, terms.drop_last()) + if tokens.contains(terms.last()) {
            1nat
        } else {
            0
        }
    }
}

/// Whether one of the terms occurs among some tokens.
pub open spec fn has_term(tokens: Seq<Seq<char>>, terms: Seq<Seq<char>>) -> bool {
    exists|i: int| 0 <= i < terms.len() && tokens.contains(#[trigger] terms[i])
}

/// A term occurs at least once exactly where it is among the tokens.
pub proof fn lemma_occurrences(tokens: Seq<Seq<char>>, term: Seq<char>)
    ensures
        occurrences(tokens, term) <= tokens.len(),
        occurrences(tokens, term) > 0 <==> tokens.contains(term),
    decreases tokens.len(),
{
    if tokens.len() > 0 {
        let before = tokens.drop_last();
        lemma_occurrences(before, term);
        if tokens.contains(term) {
            let i = choose|i: int| 0 <= i < tokens.len() && tokens[i] == term;
            if i < before.len() {
                assert(before[i] == term);
            }
        }
        if before.contains(term) {
            let i = choose|i: int| 0 <= i < before.len() && before[i] == term;
            assert(tokens[i] == term);
        }
        if tokens.last() == term {
            assert(tokens[tokens.len() - 1] == term);
        }
    }
}

/// A segment matches exactly where the number of terms that occur in it is not zero.
pub proof fn matching_means_a_term_is_present(tokens: Seq<Seq<char>>, terms: Seq<Seq<char>>)
    ensures
        terms_present(tokens, terms) <= terms.len(),
        terms_present(tokens, terms) > 0 <==> has_term(tokens, terms),
    decreases terms.len(),
{
    if terms.len() > 0 {
        let before = terms.drop_last();
        matching_means_a_term_is_present(tokens, before);
        if has_term(tokens, before) {
            let i = choose|i: int| 0 <= i < before.len() && tokens.contains(#[trigger] before[i]);
            assert(tokens.contains(terms[i]));
        }
        if tokens.contains(terms.last()) {
            assert(tokens.contains(terms[terms.len() - 1]));
        }
        if has_term(tokens, terms) {
            let i = choose|i: int| 0 <= i < terms.len() && tokens.contains(#[trigger] terms[i]);
            if i < before.len() {
                assert(tokens.contains(before[i]));
            }
        }
    }
}

/// How often a term occurs among some tokens.
fn count_token(tokens: &Vec<String>, term: &String) -> (r: usize)
    ensures
        r == occurrences(texts(tokens@), term@),
{
    let ghost all = texts(tokens@);
    let mut n: usize = 0;
    for i in 0..tokens.len()
        invariant
            all == texts(tokens@),
            n == occurrences(all.take(i as int), term@),
            n <= i,
    {
        assert(all.take(i + 1).drop_last() == all.take(i as int));
        if tokens[i] == *term {
            n = n + 1;
        }
    }
    assert(all.take(tokens@.len() as int) == all);
    n
}

/// Whether some counts are those of these terms among these tokens.
pub open spec fn counts_terms(
    stats: SegmentStats,
    tokens: Seq<Seq<char>>,
    terms: Seq<Seq<char>>,
) -> bool {
    &&& stats.tokens == tokens.len()
    &&& stats.counts@.len() == terms.len()
    &&& forall|i: int|
        0 <= i < terms.len() ==> #[trigger] stats.counts@[i] == occurrences(tokens, terms[i])
    &&& stats.distinct == terms_present(tokens, terms)
}

/// How the terms occur among the tokens of a segment.
pub fn segment_stats(tokens: &Vec<String>, terms: &Vec<String>) -> (r: SegmentStats)
    ensures
        counts_terms(r, texts(tokens@), texts(terms@)),
        r.tokens == tokens@.len(),
        r.counts@.len() == terms@.len(),
        forall|i: int|
            0 <= i < terms@.len() ==> #[trigger] r.counts@[i] == occurrences(
                texts(tokens@),
                terms@[i]@,
            ),
        r.distinct == terms_present(texts(tokens@), texts(terms@)),
{
    let ghost all = texts(terms@);
    let mut counts: Vec<usize> = Vec::new();
    let mut present: usize = 0;
    for i in 0..terms.len()
        invariant
            all == texts(terms@),
            counts@.len() == i,
            forall|k: int|
                0 <= k < i ==> #[trigger] counts@[k] == occurrences(texts(tokens@), terms@[k]@),
            present == terms_present(texts(tokens@), all.take(i as int)),
            present <= i,
    {
        assert(all.take(i + 1).drop_last() == all.take(i as int));
        let n: usize = count_token(tokens, &terms[i]);
        proof {
            lemma_occurrences(texts(tokens@), terms@[i as int]@);
        }
        if n > 0 {
            present = present + 1;
        }
        counts.push(n);
    }
    assert(all.take(terms@.len() as int) == all);
    SegmentStats { tokens: tokens.len(), counts, distinct: present }
}

/// The tokens of the segment at a place.
pub open spec fn place_tokens(ms: Seq<MeetingView>, place: (int, int)) -> Seq<Seq<char>> {
    tokenized(segment_at(ms, place).text)
}

/// How many tokens the first `n` segments have together.
pub open spec fn tokens_up_to(ms: Seq<MeetingView>, n: int) -> nat
    decreases n,
{
    if n <= 0 {
        0
    } else {
        tokens_up_to(ms, n - 1) + place_tokens(ms, segment_places(ms)[n - 1]).len()
    }
}

struct SegRef {
    m: usize,
    s: usize,
    tokens: Vec<String>,
}

/// Whether an index entry is that of a place.
spec fn indexes(ms: Seq<MeetingView>, r: SegRef, place: (int, int)) -> bool {
    r.m == place.0 && r.s == place.1 && texts(r.tokens@) == place_tokens(ms, place)
}

/// The retrieval corpus: ranked keyword search and reading on demand.
pub struct Corpus {
    meetings: Vec<Meeting>,
    seg_index: Vec<SegRef>,
    total_tokens: u128,
}

impl View for Corpus {
    type V = Seq<MeetingView>;

    closed spec fn view(&self) -> Seq<MeetingView> {
        meeting_views(self.meetings@)
    }
}

/// The segments of the first meetings come first.
proof fn lemma_places_prefix(ms: Seq<MeetingView>, n: int)
    requires
        0 <= n <= ms.len(),
    ensures
        segment_places(ms.take(n)).len() <= segment_places(ms).len(),
        forall|i: int|
            0 <= i < segment_places(ms.take(n)).len() ==> #[trigger] segment_places(ms.take(n))[i]
                == segment_places(ms)[i],
    decreases ms.len(),
{
    if n < ms.len() {
        lemma_places_prefix(ms.drop_last(), n);
        assert(ms.drop_last().take(n) == ms.take(n));
    } else {
        assert(ms.take(n) == ms);
    }
}

impl Corpus {
    #[verifier::type_invariant]
    spec fn valid(self) -> bool {
        &&& self.seg_index@.len() == segment_places(self@).len()
        &&& forall|i: int|
            0 <= i < self.seg_index@.len() ==> indexes(
                self@,
                #[trigger] self.seg_index@[i],
                segment_places(self@)[i],
            )
        &&& self.total_tokens == tokens_up_to(self@, self.seg_index@.len() as int)
    }

    /// The corpus of some meetings.
    pub fn new(meetings: Vec<Meeting>) -> (r: Self)
        ensures
            r@ == meeting_views(meetings@),
            forall|i: int|
                0 <= i < segment_places(r@).len() && is_ascii_chars(
                    segment_at(r@, segment_places(r@)[i]).text,
                ) ==> #[trigger] place_tokens(r@, segment_places(r@)[i]) == tokens_of(
                    ascii_lowercase(segment_at(r@, segment_places(r@)[i]).text),
                ),
    {
        let ghost ms = meeting_views(meetings@);
        let ghost places = segment_places(ms);
        let mut seg_index: Vec<SegRef> = Vec::new();
        let mut total: u128 = 0;
        assert(ms.take(0) =~= Seq::empty());
        for mi in 0..meetings.len()
            invariant
                ms == meeting_views(meetings@),
                places == segment_places(ms),
                seg_index@.len() == segment_places(ms.take(mi as int)).len(),
                forall|i: int|
                    0 <= i < seg_index@.len() ==> indexes(
                        ms,
                        #[trigger] seg_index@[i],
                        places[i],
                    ),
                forall|i: int|
                    0 <= i < seg_index@.len() && is_ascii_chars(segment_at(ms, places[i]).text)
                        ==> #[trigger] place_tokens(ms, places[i]) == tokens_of(
                        ascii_lowercase(segment_at(ms, places[i]).text),
                    ),
                total == tokens_up_to(ms, seg_index@.len() as int),
                total <= seg_index@.len() * 0xFFFF_FFFF_FFFF_FFFF,
        {
            let ghost start = seg_index@.len();
            let ghost before = segment_places(ms.take(mi as int));
            let ghost after = segment_places(ms.take(mi + 1));
            proof {
                lemma_places_prefix(ms, mi + 1);
                assert(ms.take(mi + 1).drop_last() == ms.take(mi as int));
            }
            let count: usize = meetings[mi].segments.len();
            for si in 0..count
                invariant
                    mi < meetings@.len(),
                    count == meetings@[mi as int].segments@.len(),
                    ms == meeting_views(meetings@),
                    places == segment_places(ms),
                    start == before.len(),
                    after == segment_places(ms.take(mi + 1)),
                    after == before + Seq::new(
                        ms[mi as int].segments.len(),
                        |s: int| (mi as int, s),
                    ),
                    after.len() <= places.len(),
                    forall|i: int| 0 <= i < after.len() ==> #[trigger] after[i] == places[i],
                    seg_index@.len() == start + si,
                    forall|i: int|
                        0 <= i < seg_index@.len() ==> indexes(
                            ms,
                            #[trigger] seg_index@[i],
                            places[i],
                        ),
                    forall|i: int|
                        0 <= i < seg_index@.len() && is_ascii_chars(segment_at(ms, places[i]).text)
                            ==> #[trigger] place_tokens(ms, places[i]) == tokens_of(
                            ascii_lowercase(segment_at(ms, places[i]).text),
                        ),
                    total == tokens_up_to(ms, seg_index@.len() as int),
                    total <= seg_index@.len() * 0xFFFF_FFFF_FFFF_FFFF,
            {
                let tokens = tokenize(meetings[mi].segments[si].text.as_str());
                let ghost at = start + si;
                assert(after[at] == (mi as int, si as int));
                assert(ms[mi as int].segments[si as int].text
                    == meetings@[mi as int].segments@[si as int].text@);
                assert(texts(tokens@) == place_tokens(ms, places[at]));
                assert(texts(tokens@).len() == tokens@.len());
                assert(seg_index.len() <= 0xFFFF_FFFF_FFFF_FFFF && tokens.len() <= 0xFFFF_FFFF_FFFF_FFFF);
                total = total + tokens.len() as u128;
                seg_index.push(SegRef { m: mi, s: si, tokens });
            }
        }
        assert(ms.take(meetings@.len() as int) == ms);
        Corpus { meetings, seg_index, total_tokens: total }
    }

    /// How many segments there are.
    pub fn segment_count(&self) -> (r: usize)
        ensures
            r == segment_places(self@).len(),
    {
        proof {
            use_type_invariant(self);
        }
        self.seg_index.len()
    }

    /// How many tokens all segments have together.
    pub fn token_count(&self) -> (r: u128)
        ensures
            r == tokens_up_to(self@, segment_places(self@).len() as int),
    {
        proof {
            use_type_invariant(self);
        }
        self.total_tokens
    }
}

// ---- ranked search ------------------------------------------------------------------------

/// The positions, among the first `n` segments, of those in which a term occurs.
pub open spec fn matches_up_to(ms: Seq<MeetingView>, terms: Seq<Seq<char>>, n: int) -> Seq<int>
    decreases n,
{
    if n <= 0 {
        Seq::empty()
    } else {
        let before = matches_up_to(ms, terms, n - 1);
        if has_term(place_tokens(ms, segment_places(ms)[n - 1]), terms) {
            before.push(n - 1)
        } else {
            before
        }
    }
}

/// The positions of the segments in which a term occurs, in order.
pub open spec fn matching_segments(ms: Seq<MeetingView>, terms: Seq<Seq<char>>) -> Seq<int> {
    matches_up_to(ms, terms, segment_places(ms).len() as int)
}

/// Sort keys that put higher scores first.
pub open spec fn rank_keys(found: Seq<int>, scores: Seq<u64>) -> Seq<int> {
    Seq::new(found.len(), |i: int| -(scores[found[i]] as int))
}

/// The positions of the segments in which a term occurs, those with higher scores first, equal ones
/// in the order of the corpus.
pub open spec fn ranked_segments(
    ms: Seq<MeetingView>,
    terms: Seq<Seq<char>>,
    scores: Seq<u64>,
) -> Seq<int> {
    let found = matching_segments(ms, terms);
    picked(found, stable_order(rank_keys(found, scores)))
}

/// The search hit for the segment at position `i`.
pub open spec fn hit_at(ms: Seq<MeetingView>, scores: Seq<u64>, i: int) -> HitView {
    let place = segment_places(ms)[i];
    let seg = segment_at(ms, place);
    HitView {
        meeting_id: ms[place.0].id,
        meeting_title: ms[place.0].title,
        ts: seg.ts,
        speaker: seg.speaker,
        snippet: clipped(seg.text, 320),
        score: scores[i],
    }
}

/// The best `k` hits for some terms.
pub open spec fn best_hits(
    ms: Seq<MeetingView>,
    terms: Seq<Seq<char>>,
    scores: Seq<u64>,
    k: nat,
) -> Seq<HitView> {
    let best = at_most(ranked_segments(ms, terms, scores), k);
    Seq::new(best.len(), |i: int| hit_at(ms, scores, best[i]))
}

/// The best `k` hits for a query.
pub open spec fn searched(
    ms: Seq<MeetingView>,
    query: Seq<char>,
    scores: Seq<u64>,
    k: nat,
) -> Seq<HitView> {
    best_hits(ms, terms_of(tokenized(query)), scores, k)
}

/// The matching segments are listed in order, each once, and none is left out.
pub proof fn lemma_matches(ms: Seq<MeetingView>, terms: Seq<Seq<char>>, n: int)
    requires
        0 <= n <= segment_places(ms).len(),
    ensures
        forall|j: int|
            0 <= j < matches_up_to(ms, terms, n).len() ==> {
                let i = #[trigger] matches_up_to(ms, terms, n)[j];
                0 <= i < n && has_term(place_tokens(ms, segment_places(ms)[i]), terms)
            },
        forall|a: int, b: int|
            0 <= a < b < matches_up_to(ms, terms, n).len() ==> #[trigger] matches_up_to(
                ms,
                terms,
                n,
            )[a] < #[trigger] matches_up_to(ms, terms, n)[b],
        forall|i: int|
            0 <= i < n && #[trigger] has_term(place_tokens(ms, segment_places(ms)[i]), terms)
                ==> matches_up_to(ms, terms, n).contains(i),
    decreases n,
{
    if n > 0 {
        lemma_matches(ms, terms, n - 1);
        let before = matches_up_to(ms, terms, n - 1);
        let all = matches_up_to(ms, terms, n);
        assert forall|i: int|
            0 <= i < n && #[trigger] has_term(
                place_tokens(ms, segment_places(ms)[i]),
                terms,
            ) implies all.contains(i) by {
            if i < n - 1 {
                assert(before.contains(i));
                let j = choose|j: int| 0 <= j < before.len() && before[j] == i;
                assert(all[j] == i);
            } else {
                assert(all[before.len() as int] == i);
            }
        }
    }
}

/// Whether one of the terms occurs among some tokens.
fn any_term(tokens: &Vec<String>, terms: &Vec<String>) -> (r: bool)
    ensures
        r == has_term(texts(tokens@), texts(terms@)),
{
    for i in 0..terms.len()
        invariant
            forall|k: int|
                0 <= k < i ==> !texts(tokens@).contains(#[trigger] texts(terms@)[k]),
    {
        assert(texts(terms@)[i as int] == terms@[i as int]@);
        if crate::text::holds_text(tokens, &terms[i]) {
            return true;
        }
    }
    false
}

impl Corpus {
    /// How the terms of a query occur in each segment, in the order of the corpus.
    pub fn query_stats(&self, query: &str) -> (r: Vec<SegmentStats>)
        ensures
            r@.len() == segment_places(self@).len(),
            forall|i: int|
                0 <= i < r@.len() ==> counts_terms(
                    #[trigger] r@[i],
                    place_tokens(self@, segment_places(self@)[i]),
                    terms_of(tokenized(query@)),
                ),
            forall|i: int|
                #![trigger r@[i]]
                0 <= i < r@.len() ==> {
                    let tokens = place_tokens(self@, segment_places(self@)[i]);
                    let terms = terms_of(tokenized(query@));
                    &&& r@[i].tokens == tokens.len()
                    &&& r@[i].counts@.len() == terms.len()
                    &&& forall|t: int|
                        0 <= t < terms.len() ==> #[trigger] r@[i].counts@[t] == occurrences(
                            tokens,
                            terms[t],
                        )
                    &&& r@[i].distinct == terms_present(tokens, terms)
                },
            is_ascii_chars(query@) ==> terms_of(tokenized(query@)) == terms_of(
                tokens_of(ascii_lowercase(query@)),
            ),
    {
        proof {
            use_type_invariant(self);
        }
        let terms = query_terms(query);
        let ghost want = terms_of(tokenized(query@));
        let mut out: Vec<SegmentStats> = Vec::new();
        for i in 0..self.seg_index.len()
            invariant
                self.valid(),
                want == texts(terms@),
                out@.len() == i,
                forall|k: int|
                    #![trigger out@[k]]
                    0 <= k < i ==> {
                        let tokens = place_tokens(self@, segment_places(self@)[k]);
                        &&& out@[k].tokens == tokens.len()
                        &&& out@[k].counts@.len() == want.len()
                        &&& forall|t: int|
                            0 <= t < want.len() ==> #[trigger] out@[k].counts@[t] == occurrences(
                                tokens,
                                want[t],
                            )
                        &&& out@[k].distinct == terms_present(tokens, want)
                    },
        {
            let ghost r = self.seg_index@[i as int];
            assert(indexes(self@, r, segment_places(self@)[i as int]));
            let stats = segment_stats(&self.seg_index[i].tokens, &terms);
            assert(texts(r.tokens@).len() == r.tokens@.len());
            out.push(stats);
        }
        out
    }

    /// Ranked snippets across all meetings: the best `k` of the segments in which a term occurs,
    /// given a score for each segment.
    pub fn search_terms(&self, terms: &Vec<String>, scores: &Vec<u64>, k: usize) -> (r: Vec<
        SearchHit,
    >)
        requires
            scores@.len() == segment_places(self@).len(),
        ensures
            hit_views(r@) == best_hits(self@, texts(terms@), scores@, k as nat),
    {
        proof {
            use_type_invariant(self);
            lemma_places(self@);
        }
        let ghost ms = self@;
        let ghost want = texts(terms@);
        let mut found: Vec<usize> = Vec::new();
        let mut keys: Vec<i128> = Vec::new();
        for i in 0..self.seg_index.len()
            invariant
                self.valid(),
                ms == self@,
                want == texts(terms@),
                scores@.len() == segment_places(ms).len(),
                positions(found@) == matches_up_to(ms, want, i as int),
                key_values(keys@) == rank_keys(positions(found@), scores@),
        {
            assert(indexes(ms, self.seg_index@[i as int], segment_places(ms)[i as int]));
            if any_term(&self.seg_index[i].tokens, terms) {
                let ghost f = found@;
                let ghost ks = keys@;
                found.push(i);
                keys.push(-(scores[i] as i128));
                assert(positions(found@) =~= positions(f).push(i as int));
                assert(key_values(keys@) =~= key_values(ks).push(-(scores@[i as int] as int)));
                assert(rank_keys(positions(found@), scores@) =~= rank_keys(
                    positions(f),
                    scores@,
                ).push(-(scores@[i as int] as int)));
            }
        }
        let ghost all = matching_segments(ms, want);
        assert(positions(found@) == all);
        let order = sort_positions(&keys);
        let ghost ranked = ranked_segments(ms, want, scores@);
        proof {
            stable_order_exists(rank_keys(all, scores@));
            lemma_matches(ms, want, segment_places(ms).len() as int);
        }
        let n: usize = if order.len() > k { k } else { order.len() };
        let mut out: Vec<SearchHit> = Vec::new();
        for j in 0..n
            invariant
                self.valid(),
                ms == self@,
                n <= order@.len(),
                n <= k,
                scores@.len() == segment_places(ms).len(),
                positions(found@) == all,
                all == matching_segments(ms, want),
                is_stable_order(rank_keys(all, scores@), positions(order@)),
                ranked == picked(all, positions(order@)),
                forall|i: int|
                    0 <= i < segment_places(ms).len() ==> {
                        let place = #[trigger] segment_places(ms)[i];
                        0 <= place.0 < ms.len() && 0 <= place.1 < ms[place.0].segments.len()
                    },
                forall|i: int|
                    0 <= i < all.len() ==> 0 <= #[trigger] all[i] < segment_places(ms).len(),
                out@.len() == j,
                forall|i: int| 0 <= i < j ==> #[trigger] out@[i]@ == hit_at(ms, scores@, ranked[i]),
        {
            assert(0 <= positions(order@)[j as int] < all.len());
            assert(positions(found@)[order@[j as int] as int] == all[order@[j as int] as int]);
            let i: usize = found[order[j]];
            assert(i == ranked[j as int]);
            assert(indexes(ms, self.seg_index@[i as int], segment_places(ms)[i as int]));
            let r = &self.seg_index[i];
            let m = &self.meetings[r.m];
            let seg = &m.segments[r.s];
            assert(ms[r.m as int] == m@);
            assert(segment_at(ms, segment_places(ms)[i as int]) == seg@);
            let hit = SearchHit {
                meeting_id: m.id.clone(),
                meeting_title: m.title.clone(),
                ts: seg.ts.clone(),
                speaker: seg.speaker.clone(),
                snippet: snippet(seg.text.as_str(), 320),
                score: scores[i],
            };
            assert(hit@ == hit_at(ms, scores@, ranked[j as int]));
            out.push(hit);
        }
        assert(hit_views(out@) =~= best_hits(ms, want, scores@, k as nat));
        out
    }

    /// Ranked snippets across all meetings: the best `k` of the segments in which a term of the
    /// query occurs, given a score for each segment.
    pub fn search(&self, query: &str, scores: &Vec<u64>, k: usize) -> (r: Vec<SearchHit>)
        requires
            scores@.len() == segment_places(self@).len(),
        ensures
            hit_views(r@) == searched(self@, query@, scores@, k as nat),
            hit_views(r@) == best_hits(self@, terms_of(tokenized(query@)), scores@, k as nat),
            is_ascii_chars(query@) ==> hit_views(r@) == best_hits(
                self@,
                terms_of(tokens_of(ascii_lowercase(query@))),
                scores@,
                k as nat,
            ),
    {
        let terms = query_terms(query);
        self.search_terms(&terms, scores, k)
    }
}

/// The hits of a search: as many as there are matching segments, but at most `k`; each is the hit of
/// a segment in which a term occurs; no hit has a higher score than one before it, and no matching
/// segment that was left out has a higher score than a hit.
pub proof fn search_ranks_the_matching_segments(
    ms: Seq<MeetingView>,
    terms: Seq<Seq<char>>,
    scores: Seq<u64>,
    k: nat,
)
    requires
        scores.len() == segment_places(ms).len(),
    ensures
        ({
            let hits = best_hits(ms, terms, scores, k);
            let ranked = ranked_segments(ms, terms, scores);
            let total = matching_segments(ms, terms).len();
            &&& ranked.len() == total
            &&& hits.len() == if total > k { k } else { total }
            &&& forall|i: int|
                0 <= i < hits.len() ==> {
                    let at = ranked[i];
                    &&& 0 <= at < segment_places(ms).len()
                    &&& #[trigger] hits[i] == hit_at(ms, scores, at)
                    &&& has_term(place_tokens(ms, segment_places(ms)[at]), terms)
                }
            &&& forall|i: int, j: int|
                0 <= i < j < hits.len() ==> (#[trigger] hits[i]).score >= (#[trigger] hits[j]).score
            &&& forall|i: int, j: int|
                0 <= i < hits.len() <= j < total ==> (#[trigger] hits[i]).score
                    >= scores[#[trigger] ranked[j]]
        }),
{
    let found = matching_segments(ms, terms);
    let keys = rank_keys(found, scores);
    let order = stable_order(keys);
    let ranked = ranked_segments(ms, terms, scores);
    stable_order_exists(keys);
    lemma_matches(ms, terms, segment_places(ms).len() as int);
    assert forall|i: int| 0 <= i < found.len() implies {
        let at = #[trigger] ranked[i];
        0 <= at < segment_places(ms).len() && has_term(
            place_tokens(ms, segment_places(ms)[at]),
            terms,
        )
    } by {
        assert(0 <= order[i] < keys.len());
        assert(ranked[i] == found[order[i]]);
    }
    assert forall|i: int, j: int| 0 <= i < j < found.len() implies scores[#[trigger] ranked[i]]
        >= scores[#[trigger] ranked[j]] by {
        assert(comes_before(keys, order[i], order[j]));
    }
}

/// Every segment in which a term occurs is a hit of a search for that term, where `k` leaves room.
pub proof fn search_misses_nothing(
    ms: Seq<MeetingView>,
    terms: Seq<Seq<char>>,
    scores: Seq<u64>,
    k: nat,
    at: int,
)
    requires
        scores.len() == segment_places(ms).len(),
        0 <= at < segment_places(ms).len(),
        has_term(place_tokens(ms, segment_places(ms)[at]), terms),
        matching_segments(ms, terms).len() <= k,
    ensures
        best_hits(ms, terms, scores, k).contains(hit_at(ms, scores, at)),
{
    let found = matching_segments(ms, terms);
    let keys = rank_keys(found, scores);
    let order = stable_order(keys);
    stable_order_exists(keys);
    lemma_matches(ms, terms, segment_places(ms).len() as int);
    assert(found.contains(at));
    let p = choose|p: int| 0 <= p < found.len() && found[p] == at;
    assert(order.contains(p));
    let q = choose|q: int| 0 <= q < order.len() && order[q] == p;
    assert(ranked_segments(ms, terms, scores)[q] == at);
    assert(best_hits(ms, terms, scores, k)[q] == hit_at(ms, scores, at));
}

/// Recall never collapses: a query with a token at all has a term to search for, and every term is a
/// token of the query, listed once.
pub proof fn terms_never_collapse(tokens: Seq<Seq<char>>)
    ensures
        tokens.len() > 0 ==> terms_of(tokens).len() > 0,
        terms_of(tokens).no_duplicates(),
        forall|t: Seq<char>| #[trigger] terms_of(tokens).contains(t) ==> tokens.contains(t),
        forall|t: Seq<char>|
            tokens.contains(t) && salient(t) ==> #[trigger] terms_of(tokens).contains(t),
        (exists|t: Seq<char>| tokens.contains(t) && salient(t)) ==> forall|t: Seq<char>|
            #[trigger] terms_of(tokens).contains(t) ==> salient(t),
{
    let keep = |t: Seq<char>| salient(t);
    let kept = tokens.filter(keep);
    let base = if kept.len() == 0 {
        tokens
    } else {
        kept
    };
    lemma_distinct(base);
    if tokens.len() > 0 {
        assert(base.len() > 0);
        assert(base.contains(base[0]));
        assert(distinct(base).contains(base[0]));
    }
    assert forall|t: Seq<char>| #[trigger] terms_of(tokens).contains(t) implies tokens.contains(
        t,
    ) by {
        assert(base.contains(t));
        let i = choose|i: int| 0 <= i < base.len() && base[i] == t;
        if kept.len() != 0 {
            lemma_filter_members(tokens, keep, t);
        }
    }
    assert forall|t: Seq<char>|
        tokens.contains(t) && salient(t) implies #[trigger] terms_of(tokens).contains(t) by {
        let i = choose|i: int| 0 <= i < tokens.len() && tokens[i] == t;
        assert(keep(tokens[i]));
        lemma_filter_members(tokens, keep, t);
        assert(base.contains(t));
    }
    if exists|t: Seq<char>| tokens.contains(t) && salient(t) {
        let t = choose|t: Seq<char>| tokens.contains(t) && salient(t);
        lemma_filter_members(tokens, keep, t);
        assert(kept.len() > 0);
        assert forall|t: Seq<char>| #[trigger] terms_of(tokens).contains(t) implies salient(t) by {
            assert(kept.contains(t));
            lemma_filter_members(tokens, keep, t);
        }
    }
}

proof fn lemma_filter_members<A>(s: Seq<A>, keep: spec_fn(A) -> bool, x: A)
    ensures
        s.filter(keep).contains(x) <==> s.contains(x) && keep(x),
    decreases s.len(),
{
    reveal(Seq::filter);
    if s.len() > 0 {
        let before = s.drop_last();
        lemma_filter_members(before, keep, x);
        let kept = before.filter(keep);
        if s.contains(x) && keep(x) {
            let i = choose|i: int| 0 <= i < s.len() && s[i] == x;
            if i < before.len() {
                assert(before[i] == x);
                assert(before.contains(x));
                let k = choose|k: int| 0 <= k < kept.len() && kept[k] == x;
                assert(s.filter(keep)[k] == x);
            } else {
                assert(s.filter(keep)[kept.len() as int] == x);
            }
        }
        if s.filter(keep).contains(x) {
            let k = choose|k: int| 0 <= k < s.filter(keep).len() && s.filter(keep)[k] == x;
            if k < kept.len() {
                assert(kept[k] == x);
                assert(kept.contains(x));
                let i = choose|i: int| 0 <= i < before.len() && before[i] == x;
                assert(s[i] == x);
            } else {
                assert(s[s.len() - 1] == x);
            }
        }
    }
}

// ---- reading on demand --------------------------------------------------------------------

/// What a meeting is looked up by: its id, and its title in lower case.
pub struct Handle {
    pub id: Seq<char>,
    pub title: Seq<char>,
}

/// What some meetings are looked up by, given their titles in lower case.
pub open spec fn handles(ms: Seq<MeetingView>, titles: Seq<Seq<char>>) -> Seq<Handle> {
    Seq::new(ms.len(), |i: int| Handle { id: ms[i].id, title: titles[i] })
}

/// Whether a meeting is a tolerable reading of an id that no meeting has: its title contains it, letter
/// case aside, or its id begins with it. `needle` is the id in lower case.
pub open spec fn resembles(h: Handle, meeting_id: Seq<char>, needle: Seq<char>) -> bool {
    occurs(h.title, needle) || begins_with(h.id, meeting_id)
}

/// The position of the meeting that an id means: the first with that id, else the first that
/// resembles it.
pub open spec fn resolved_among(
    hs: Seq<Handle>,
    meeting_id: Seq<char>,
    needle: Seq<char>,
) -> Option<int> {
    match first_from(hs, |h: Handle| h.id == meeting_id, 0) {
        Some(i) => Some(i),
        None => first_from(hs, |h: Handle| resembles(h, meeting_id, needle), 0),
    }
}

/// The titles of some meetings in lower case.
pub open spec fn lowered_titles(ms: Seq<MeetingView>) -> Seq<Seq<char>> {
    Seq::new(ms.len(), |i: int| lowercase(ms[i].title))
}

/// The titles of some meetings in lower case, where they are ASCII.
pub open spec fn ascii_titles(ms: Seq<MeetingView>) -> Seq<Seq<char>> {
    Seq::new(ms.len(), |i: int| ascii_lowercase(ms[i].title))
}

/// The position of the meeting that an id means.
pub open spec fn resolved(ms: Seq<MeetingView>, meeting_id: Seq<char>) -> Option<int> {
    resolved_among(handles(ms, lowered_titles(ms)), meeting_id, lowercase(meeting_id))
}

/// What reading a meeting gives: its transcript in full, or its summary, or the start of its
/// transcript where there is no summary.
pub open spec fn reading(ms: Seq<MeetingView>, meeting_id: Seq<char>, mode: Seq<char>) -> Seq<
    char,
> {
    match resolved(ms, meeting_id) {
        None => "(no meeting matching '"@ + meeting_id + "')"@,
        Some(i) => {
            let m = ms[i];
            let head = "# "@ + m.title + " ("@ + m.date;
            if mode == "full"@ {
                head + ")\n\n"@ + m.full_text()
            } else {
                head + ") \u{2014} summary\n\n"@ + if m.summary.len() == 0 {
                    clipped(m.full_text(), 2000)
                } else {
                    m.summary
                }
            }
        },
    }
}

/// The rows of the meeting index.
pub open spec fn meeting_index(ms: Seq<MeetingView>) -> Seq<InfoView> {
    Seq::new(
        ms.len(),
        |i: int|
            InfoView { id: ms[i].id, title: ms[i].title, date: ms[i].date, topic: ms[i].blurb(160) },
    )
}

impl Corpus {
    /// The meeting index, with a topic line for each meeting.
    pub fn list_meetings(&self) -> (r: Vec<MeetingInfo>)
        ensures
            info_views(r@) == meeting_index(self@),
    {
        let mut out: Vec<MeetingInfo> = Vec::new();
        for i in 0..self.meetings.len()
            invariant
                info_views(out@) == meeting_index(self@).take(i as int),
        {
            let m = &self.meetings[i];
            let ghost o = out@;
            assert(self@[i as int] == m@);
            let info = MeetingInfo {
                id: m.id.clone(),
                title: m.title.clone(),
                date: m.date.clone(),
                topic: m.blurb(160),
            };
            let ghost row = info@;
            out.push(info);
            assert(info_views(out@) =~= info_views(o).push(row));
            assert(meeting_index(self@).take(i + 1) =~= meeting_index(self@).take(i as int).push(
                row,
            ));
        }
        assert(meeting_index(self@).take(self.meetings@.len() as int) =~= meeting_index(self@));
        out
    }

    /// The meeting that an id means. The model now and then passes a title or part of an id.
    pub fn get(&self, meeting_id: &str) -> (r: Option<&Meeting>)
        ensures
            match r {
                Some(m) => resolved(self@, meeting_id@) matches Some(i) && self@[i] == m@,
                None => resolved(self@, meeting_id@) is None,
            },
            is_ascii_chars(meeting_id@) && (forall|i: int|
                0 <= i < self@.len() ==> is_ascii_chars((#[trigger] self@[i]).title)) ==> {
                let found = resolved_among(
                    handles(self@, ascii_titles(self@)),
                    meeting_id@,
                    ascii_lowercase(meeting_id@),
                );
                match r {
                    Some(m) => found matches Some(i) && self@[i] == m@,
                    None => found is None,
                }
            },
    {
        let ghost ms = self@;
        let needle = meeting_id.to_lowercase();
        let mut titles: Vec<String> = Vec::new();
        for i in 0..self.meetings.len()
            invariant
                ms == self@,
                titles@.len() == i,
                forall|k: int| 0 <= k < i ==> (#[trigger] titles@[k])@ == lowercase(ms[k].title),
                forall|k: int|
                    0 <= k < i && is_ascii_chars(ms[k].title) ==> (#[trigger] titles@[k])@
                        == ascii_lowercase(ms[k].title),
        {
            assert(ms[i as int] == self.meetings@[i as int]@);
            titles.push(self.meetings[i].title.as_str().to_lowercase());
        }
        assert(texts(titles@) =~= lowered_titles(ms));
        proof {
            if forall|i: int| 0 <= i < ms.len() ==> is_ascii_chars((#[trigger] ms[i]).title) {
                assert forall|i: int| 0 <= i < ms.len() implies #[trigger] texts(titles@)[i]
                    == ascii_titles(ms)[i] by {
                    assert(is_ascii_chars(ms[i].title));
                    assert(titles@[i]@ == ascii_lowercase(ms[i].title));
                }
                assert(texts(titles@) =~= ascii_titles(ms));
            }
        }
        self.resolve(&titles, meeting_id, needle.as_str())
    }

    /// The meeting that an id means, given the titles and the id in lower case.
    pub fn resolve(&self, titles: &Vec<String>, meeting_id: &str, needle: &str) -> (r: Option<&Meeting>)
        requires
            titles@.len() == self@.len(),
        ensures
            ({
                let found = resolved_among(
                    handles(self@, texts(titles@)),
                    meeting_id@,
                    needle@,
                );
                match r {
                    Some(m) => found matches Some(i) && self@[i] == m@,
                    None => found is None,
                }
            }),
    {
        let ghost ms = self@;
        let ghost hs = handles(ms, texts(titles@));
        let ghost same = |h: Handle| h.id == meeting_id@;
        for i in 0..self.meetings.len()
            invariant
                ms == self@,
                hs == handles(ms, texts(titles@)),
                same == (|h: Handle| h.id == meeting_id@),
                first_from(hs, same, 0) == first_from(hs, same, i as int),
        {
            assert(ms[i as int] == self.meetings@[i as int]@);
            if same_text(self.meetings[i].id.as_str(), meeting_id) {
                return Some(&self.meetings[i]);
            }
        }
        let ghost like = |h: Handle| resembles(h, meeting_id@, needle@);
        for i in 0..self.meetings.len()
            invariant
                ms == self@,
                titles@.len() == self@.len(),
                hs == handles(ms, texts(titles@)),
                same == (|h: Handle| h.id == meeting_id@),
                like == (|h: Handle| resembles(h, meeting_id@, needle@)),
                first_from(hs, same, 0) is None,
                first_from(hs, like, 0) == first_from(hs, like, i as int),
        {
            assert(ms[i as int] == self.meetings@[i as int]@);
            assert(hs[i as int].title == titles@[i as int]@);
            if contains_text(titles[i].as_str(), needle) || starts_with_text(
                self.meetings[i].id.as_str(),
                meeting_id,
            ) {
                return Some(&self.meetings[i]);
            }
        }
        None
    }

    /// Read a meeting: `mode` is `full` for the whole transcript, anything else for the summary.
    pub fn read_meeting(&self, meeting_id: &str, mode: &str) -> (r: String)
        ensures
            r@ == reading(self@, meeting_id@, mode@),
    {
        match self.get(meeting_id) {
            None => {
                let mut out = "(no meeting matching '".to_owned();
                out.append(meeting_id);
                out.append("')");
                out
            },
            Some(m) => {
                let mut out = "# ".to_owned();
                out.append(m.title.as_str());
                out.append(" (");
                out.append(m.date.as_str());
                if same_text(mode, "full") {
                    out.append(")\n\n");
                    out.append(m.full_text().as_str());
                } else {
                    out.append(") \u{2014} summary\n\n");
                    let body = if m.summary.as_str().is_empty() {
                        snippet(m.full_text().as_str(), 2000)
                    } else {
                        m.summary.clone()
                    };
                    out.append(body.as_str());
                }
                out
            },
        }
    }
}

/// An id that some meeting has means the first meeting with it, whatever the titles are.
pub proof fn exact_id_wins(ms: Seq<MeetingView>, at: int)
    requires
        0 <= at < ms.len(),
        forall|i: int| 0 <= i < at ==> (#[trigger] ms[i]).id != ms[at].id,
    ensures
        resolved(ms, ms[at].id) == Some(at),
{
    let id = ms[at].id;
    let hs = handles(ms, lowered_titles(ms));
    lemma_first_from(hs, |h: Handle| h.id == id, 0);
    let found = first_from(hs, |h: Handle| h.id == id, 0);
    assert(hs[at].id == id);
    if found is Some && found->0 < at {
        assert(ms[found->0].id != id);
    }
}

/// What a search finds can be read: the meeting id of a hit means a meeting with that id.
pub proof fn hits_can_be_read(
    ms: Seq<MeetingView>,
    terms: Seq<Seq<char>>,
    scores: Seq<u64>,
    k: nat,
    h: int,
)
    requires
        scores.len() == segment_places(ms).len(),
        0 <= h < best_hits(ms, terms, scores, k).len(),
    ensures
        ({
            let id = best_hits(ms, terms, scores, k)[h].meeting_id;
            resolved(ms, id) matches Some(i) && 0 <= i < ms.len() && ms[i].id == id
        }),
{
    search_ranks_the_matching_segments(ms, terms, scores, k);
    lemma_places(ms);
    let hits = best_hits(ms, terms, scores, k);
    let at = ranked_segments(ms, terms, scores)[h];
    assert(hits[h] == hit_at(ms, scores, at));
    let m = segment_places(ms)[at].0;
    let id = hits[h].meeting_id;
    let hs = handles(ms, lowered_titles(ms));
    assert(hs[m].id == id);
    lemma_first_from(hs, |h: Handle| h.id == id, 0);
}

/// What an id means is always a meeting of the corpus, with that id or resembling it, and an id means
/// nothing only where no meeting has it or resembles it.
pub proof fn resolved_is_a_meeting(ms: Seq<MeetingView>, meeting_id: Seq<char>)
    ensures
        ({
            let hs = handles(ms, lowered_titles(ms));
            let needle = lowercase(meeting_id);
            match resolved(ms, meeting_id) {
                Some(i) => 0 <= i < ms.len() && (ms[i].id == meeting_id || resembles(
                    hs[i],
                    meeting_id,
                    needle,
                )),
                None => forall|i: int|
                    0 <= i < ms.len() ==> (#[trigger] hs[i]).id != meeting_id && !resembles(
                        hs[i],
                        meeting_id,
                        needle,
                    ),
            }
        }),
{
    let hs = handles(ms, lowered_titles(ms));
    let needle = lowercase(meeting_id);
    lemma_first_from(hs, |h: Handle| h.id == meeting_id, 0);
    lemma_first_from(hs, |h: Handle| resembles(h, meeting_id, needle), 0);
}

// ---- time stamps for display ------------------------------------------------------------------

/// `n` in decimal, in at least two characters.
pub open spec fn two_wide(n: int) -> Seq<char> {
    if n < 0 {
        "-"@ + decimal((-n) as nat)
    } else if n < 10 {
        "0"@ + decimal(n as nat)
    } else {
        decimal(n as nat)
    }
}

/// `a / b` rounded towards zero.
pub open spec fn quotient(a: int, b: int) -> int {
    if a >= 0 {
        a / b
    } else {
        -((-a) / b)
    }
}

/// What is left of `a` after [`quotient`], with the sign of `a`.
pub open spec fn remainder(a: int, b: int) -> int {
    a - b * quotient(a, b)
}

/// Whole seconds as `mm:ss`.
pub open spec fn clock_text(secs: int) -> Seq<char> {
    two_wide(quotient(secs, 60)) + ":"@ + two_wide(remainder(secs, 60))
}

/// The time stamp to display: minutes and seconds from the start of the audio where that is known,
/// else the stored text, if any.
pub open spec fn display_ts(start: Option<int>, raw: Option<Seq<char>>) -> Seq<char> {
    match start {
        Some(secs) => clock_text(secs),
        None => match raw {
            Some(t) => t,
            None => Seq::empty(),
        },
    }
}

/// `n`, or `-n` where it is negative, in decimal, in at least two characters.
fn two_wide_text(negative: bool, n: u64) -> (r: String)
    ensures
        r@ == two_wide(if negative { -(n as int) } else { n as int }),
{
    if negative && n > 0 {
        let mut out = "-".to_owned();
        out.append(decimal_text(n).as_str());
        out
    } else if n < 10 {
        let mut out = "0".to_owned();
        out.append(decimal_text(n).as_str());
        out
    } else {
        decimal_text(n)
    }
}

/// The time stamp to display, from the whole seconds at which the audio starts, or a stored text.
pub fn fmt_ts(start: Option<i64>, raw: Option<&String>) -> (r: String)
    ensures
        r@ == display_ts(
            match start {
                Some(s) => Some(s as int),
                None => None,
            },
            match raw {
                Some(t) => Some(t@),
                None => None,
            },
        ),
{
    match start {
        Some(s) => {
            let negative = s < 0;
            let size: u64 = if s == i64::MIN {
                0x8000_0000_0000_0000
            } else if s < 0 {
                (-s) as u64
            } else {
                s as u64
            };
            let mut out = two_wide_text(negative, size / 60);
            out.append(":");
            out.append(two_wide_text(negative, size % 60).as_str());
            out
        },
        None => match raw {
            Some(t) => t.clone(),
            None => String::new(),
        },
    }
}

// ---- building meetings from stored rows --------------------------------------------------------

/// When the audio of a segment starts.
#[derive(Debug, Clone, Copy)]
pub struct StartTime {
    /// The whole seconds, rounded towards zero.
    pub secs: i64,
    /// A key that orders start times as the times themselves are ordered.
    pub order: i64,
}

/// A stored transcript row.
#[derive(Debug)]
pub struct SegmentRow {
    pub transcript: Option<String>,
    pub timestamp: Option<String>,
    pub start: Option<StartTime>,
    pub speaker: Option<String>,
    /// The order key of the row's position, taken as a start time.
    pub position: i64,
}

/// A stored meeting with what belongs to it.
#[derive(Debug)]
pub struct MeetingRow {
    pub id: String,
    pub title: String,
    /// Seconds since 1970-01-01 00:00:00 UTC.
    pub created_at: i64,
    pub segments: Vec<SegmentRow>,
    /// The transcript in one piece, which stands in where there are no segments.
    pub blob: Option<String>,
    pub summary: Option<String>,
}

/// A stored text, or nothing.
pub open spec fn or_empty(s: Option<String>) -> Seq<char> {
    match s {
        Some(t) => t@,
        None => Seq::empty(),
    }
}

impl SegmentRow {
    /// The segment of this row, unless its text is blank.
    pub open spec fn segment(self) -> Option<SegmentView> {
        let text = trimmed(or_empty(self.transcript));
        if text.len() == 0 {
            None
        } else {
            Some(
                SegmentView {
                    text,
                    ts: display_ts(
                        match self.start {
                            Some(t) => Some(t.secs as int),
                            None => None,
                        },
                        opt_text(self.timestamp),
                    ),
                    speaker: trimmed(or_empty(self.speaker)),
                    order: match self.start {
                        Some(t) => t.order as int,
                        None => self.position as int,
                    },
                },
            )
        }
    }
}

/// The segments of some rows, in order.
pub open spec fn row_segments(rows: Seq<SegmentRow>) -> Seq<SegmentView>
    decreases rows.len(),
{
    if rows.len() == 0 {
        Seq::empty()
    } else {
        let before = row_segments(rows.drop_last());
        match rows.last().segment() {
            Some(s) => before.push(s),
            None => before,
        }
    }
}

/// The segments of some lines: one for each line that is not blank, in the order of the lines.
pub open spec fn line_segments(ls: Seq<Seq<char>>) -> Seq<SegmentView>
    decreases ls.len(),
{
    if ls.len() == 0 {
        Seq::empty()
    } else {
        let before = line_segments(ls.drop_last());
        let text = trimmed(ls.last());
        if text.len() == 0 {
            before
        } else {
            before.push(
                SegmentView {
                    text,
                    ts: Seq::empty(),
                    speaker: Seq::empty(),
                    order: ls.len() - 1,
                },
            )
        }
    }
}

/// The segments of a meeting before they are put in order.
pub open spec fn stored_segments(rows: Seq<SegmentRow>, blob: Option<String>) -> Seq<SegmentView> {
    let own = row_segments(rows);
    if own.len() == 0 {
        line_segments(
            match blob {
                Some(b) => lines(b@),
                None => Seq::empty(),
            },
        )
    } else {
        own
    }
}

/// Segments in chronological order.
pub open spec fn chronological(segments: Seq<SegmentView>) -> Seq<SegmentView> {
    picked(segments, stable_order(Seq::new(segments.len(), |i: int| segments[i].order)))
}

impl MeetingRow {
    /// The meeting that this row stands for.
    pub open spec fn meeting(self) -> MeetingView {
        MeetingView {
            id: self.id@,
            title: if trimmed(self.title@).len() == 0 {
                "(untitled)"@
            } else {
                self.title@
            },
            date: utc_formatted(self.created_at, 0, DATE_PATTERN@),
            segments: chronological(stored_segments(self.segments@, self.blob)),
            summary: match self.summary {
                Some(s) => flattened_summary(s@),
                None => Seq::empty(),
            },
        }
    }
}

/// Whether some rows leave a meeting without a segment, so that its stored transcript has to stand in.
pub open spec fn blob_needed(rows: Seq<SegmentRow>) -> bool {
    row_segments(rows).len() == 0
}

/// Whether no row has any text, so that the transcript in one piece is needed.
pub fn needs_blob(rows: &Vec<SegmentRow>) -> (r: bool)
    ensures
        r == blob_needed(rows@),
        r == (row_segments(rows@).len() == 0),
{
    build_row_segments(rows).len() == 0
}

fn text_or_empty(s: &Option<String>) -> (r: String)
    ensures
        r@ == or_empty(*s),
{
    match s {
        Some(t) => t.clone(),
        None => String::new(),
    }
}

/// The segments of some rows, in order.
pub fn build_row_segments(rows: &Vec<SegmentRow>) -> (r: Vec<Segment>)
    ensures
        segment_views(r@) == row_segments(rows@),
{
    let mut out: Vec<Segment> = Vec::new();
    for i in 0..rows.len()
        invariant
            segment_views(out@) == row_segments(rows@.take(i as int)),
    {
        assert(rows@.take(i + 1).drop_last() == rows@.take(i as int));
        let row = &rows[i];
        let text = trim_text(text_or_empty(&row.transcript).as_str());
        if !text.as_str().is_empty() {
            let start: Option<i64> = match row.start {
                Some(t) => Some(t.secs),
                None => None,
            };
            let segment = Segment {
                text,
                ts: fmt_ts(start, row.timestamp.as_ref()),
                speaker: trim_text(text_or_empty(&row.speaker).as_str()),
                order: match row.start {
                    Some(t) => t.order as i128,
                    None => row.position as i128,
                },
            };
            let ghost o = out@;
            let ghost view = segment@;
            out.push(segment);
            assert(segment_views(out@) =~= segment_views(o).push(view));
        }
    }
    assert(rows@.take(rows@.len() as int) == rows@);
    out
}

/// The segments of a transcript in one piece: one for each line that is not blank.
pub fn build_line_segments(blob: &str) -> (r: Vec<Segment>)
    ensures
        segment_views(r@) == line_segments(lines(blob@)),
{
    let ls = split_lines(blob);
    let ghost all = lines(blob@);
    let mut out: Vec<Segment> = Vec::new();
    for i in 0..ls.len()
        invariant
            all == texts(ls@),
            segment_views(out@) == line_segments(all.take(i as int)),
    {
        assert(all.take(i + 1).drop_last() == all.take(i as int));
        let text = trim_text(ls[i].as_str());
        if !text.as_str().is_empty() {
            let segment = Segment {
                text,
                ts: String::new(),
                speaker: String::new(),
                order: i as i128,
            };
            let ghost o = out@;
            let ghost view = segment@;
            out.push(segment);
            assert(segment_views(out@) =~= segment_views(o).push(view));
        }
    }
    assert(all.take(ls@.len() as int) == all);
    out
}

/// Segments in chronological order.
pub fn sort_segments(segments: &Vec<Segment>) -> (r: Vec<Segment>)
    ensures
        segment_views(r@) == chronological(segment_views(segments@)),
{
    let ghost all = segment_views(segments@);
    let ghost orders = Seq::new(all.len(), |i: int| all[i].order);
    let mut keys: Vec<i128> = Vec::new();
    for i in 0..segments.len()
        invariant
            all == segment_views(segments@),
            orders == Seq::new(all.len(), |i: int| all[i].order),
            key_values(keys@) == orders.take(i as int),
    {
        let ghost ks = keys@;
        keys.push(segments[i].order);
        assert(key_values(keys@) =~= key_values(ks).push(all[i as int].order));
        assert(orders.take(i + 1) =~= orders.take(i as int).push(orders[i as int]));
    }
    assert(orders.take(segments@.len() as int) == orders);
    let order = sort_positions(&keys);
    proof {
        stable_order_exists(orders);
    }
    let mut out: Vec<Segment> = Vec::new();
    for j in 0..order.len()
        invariant
            all == segment_views(segments@),
            orders.len() == all.len(),
            is_stable_order(orders, positions(order@)),
            segment_views(out@) == picked(all, positions(order@)).take(j as int),
    {
        assert(0 <= positions(order@)[j as int] < orders.len());
        let segment = segments[order[j]].copy();
        let ghost o = out@;
        let ghost view = segment@;
        out.push(segment);
        assert(segment_views(out@) =~= segment_views(o).push(view));
        assert(view == all[order@[j as int] as int]);
        assert(picked(all, positions(order@)).take(j + 1) =~= picked(all, positions(order@)).take(
            j as int,
        ).push(view));
    }
    assert(picked(all, positions(order@)).take(order@.len() as int) =~= picked(
        all,
        positions(order@),
    ));
    out
}

/// The meeting that a row stands for.
pub fn build_meeting(row: &MeetingRow) -> (r: Meeting)
    requires
        in_calendar(row.created_at as int),
    ensures
        r@ == row.meeting(),
{
    let title = if trim_text(row.title.as_str()).as_str().is_empty() {
        "(untitled)".to_owned()
    } else {
        row.title.clone()
    };
    let mut segments = build_row_segments(&row.segments);
    if segments.len() == 0 {
        if let Some(blob) = &row.blob {
            segments = build_line_segments(blob.as_str());
        }
    }
    assert(segment_views(segments@) =~= stored_segments(row.segments@, row.blob));
    let summary = match &row.summary {
        Some(s) => flatten_summary(s.as_str()),
        None => String::new(),
    };
    Meeting {
        id: row.id.clone(),
        title,
        date: date_of(row.created_at),
        segments: sort_segments(&segments),
        summary,
    }
}

/// The meetings that some rows stand for.
pub open spec fn loaded(rows: Seq<MeetingRow>) -> Seq<MeetingView> {
    Seq::new(rows.len(), |i: int| rows[i].meeting())
}

/// The meetings that some rows stand for, in the order of the rows.
pub fn load_corpus(rows: &Vec<MeetingRow>) -> (r: Vec<Meeting>)
    requires
        forall|i: int| 0 <= i < rows@.len() ==> in_calendar((#[trigger] rows@[i]).created_at as int),
    ensures
        meeting_views(r@) == loaded(rows@),
        meeting_views(r@) == Seq::new(rows@.len(), |i: int| rows@[i].meeting()),
{
    let mut out: Vec<Meeting> = Vec::new();
    for i in 0..rows.len()
        invariant
            forall|i: int|
                0 <= i < rows@.len() ==> in_calendar((#[trigger] rows@[i]).created_at as int),
            out@.len() == i,
            forall|k: int| 0 <= k < i ==> (#[trigger] out@[k])@ == rows@[k].meeting(),
    {
        out.push(build_meeting(&rows[i]));
    }
    assert(meeting_views(out@) =~= Seq::new(rows@.len(), |i: int| rows@[i].meeting()));
    out
}

/// The segments of a meeting stand in chronological order, those that were stored and no others, each as often
/// as it was stored, and none has a blank text.
pub proof fn loaded_segments_are_chronological(row: MeetingRow)
    ensures
        ({
            let loaded = row.meeting().segments;
            let stored = stored_segments(row.segments@, row.blob);
            &&& loaded.len() == stored.len()
            &&& forall|i: int, j: int|
                0 <= i < j < loaded.len() ==> (#[trigger] loaded[i]).order <= (
                #[trigger] loaded[j]).order
            &&& loaded.to_multiset() == stored.to_multiset()
            &&& forall|i: int| 0 <= i < loaded.len() ==> (#[trigger] loaded[i]).text.len() > 0
        }),
{
    let stored = stored_segments(row.segments@, row.blob);
    let keys = Seq::new(stored.len(), |i: int| stored[i].order);
    let order = stable_order(keys);
    let loaded = row.meeting().segments;
    stable_order_exists(keys);
    assert forall|i: int, j: int| 0 <= i < j < loaded.len() implies (#[trigger] loaded[i]).order <= (
    #[trigger] loaded[j]).order by {
        assert(comes_before(keys, order[i], order[j]));
    }
    sorting_rearranges(stored, keys);
    lemma_row_segments(row.segments@);
    lemma_line_segments(
        match row.blob {
            Some(b) => lines(b@),
            None => Seq::empty(),
        },
    );
    assert forall|i: int| 0 <= i < loaded.len() implies (#[trigger] loaded[i]).text.len() > 0 by {
        assert(0 <= order[i] < stored.len());
        assert(loaded[i] == stored[order[i]]);
    }
}

proof fn lemma_row_segments(rows: Seq<SegmentRow>)
    ensures
        forall|i: int|
            0 <= i < row_segments(rows).len() ==> (#[trigger] row_segments(rows)[i]).text.len() > 0,
    decreases rows.len(),
{
    if rows.len() > 0 {
        lemma_row_segments(rows.drop_last());
        let before = row_segments(rows.drop_last());
        assert forall|i: int| 0 <= i < row_segments(rows).len() implies (
        #[trigger] row_segments(rows)[i]).text.len() > 0 by {
            if i < before.len() {
                assert(row_segments(rows)[i] == before[i]);
            }
        }
    }
}

proof fn lemma_line_segments(ls: Seq<Seq<char>>)
    ensures
        forall|i: int|
            0 <= i < line_segments(ls).len() ==> (#[trigger] line_segments(ls)[i]).text.len() > 0,
    decreases ls.len(),
{
    if ls.len() > 0 {
        lemma_line_segments(ls.drop_last());
        let before = line_segments(ls.drop_last());
        assert forall|i: int| 0 <= i < line_segments(ls).len() implies (
        #[trigger] line_segments(ls)[i]).text.len() > 0 by {
            if i < before.len() {
                assert(line_segments(ls)[i] == before[i]);
            }
        }
    }
}

// ---- what every corpus keeps ------------------------------------------------------------------------------

/// Every meeting and every segment is shown, each in its place and with all that it holds.
pub proof fn views_show_everything(v: Seq<Meeting>, m: int, i: int)
    requires
        0 <= m < v.len(),
        0 <= i < v[m].segments@.len(),
    ensures
        meeting_views(v).len() == v.len(),
        meeting_views(v)[m].segments.len() == v[m].segments@.len(),
        ({
            let meeting = meeting_views(v)[m];
            let segment = meeting.segments[i];
            &&& meeting.id == v[m].id@
            &&& meeting.title == v[m].title@
            &&& meeting.date == v[m].date@
            &&& meeting.summary == v[m].summary@
            &&& segment.text == v[m].segments@[i].text@
            &&& segment.ts == v[m].segments@[i].ts@
            &&& segment.speaker == v[m].segments@[i].speaker@
            &&& segment.order == v[m].segments@[i].order
        }),
{
}

/// Every hit, and every row of the index, is shown with all that it says.
pub proof fn lists_are_seen_whole(hits: Seq<SearchHit>, rows: Seq<MeetingInfo>, i: int)
    ensures
        hit_views(hits).len() == hits.len(),
        info_views(rows).len() == rows.len(),
        0 <= i < hits.len() ==> {
            let hit = hit_views(hits)[i];
            &&& hit.meeting_id == hits[i].meeting_id@
            &&& hit.meeting_title == hits[i].meeting_title@
            &&& hit.ts == hits[i].ts@
            &&& hit.speaker == hits[i].speaker@
            &&& hit.snippet == hits[i].snippet@
            &&& hit.score == hits[i].score
        },
        0 <= i < rows.len() ==> {
            let row = info_views(rows)[i];
            &&& row.id == rows[i].id@
            &&& row.title == rows[i].title@
            &&& row.date == rows[i].date@
            &&& row.topic == rows[i].topic@
        },
{
}

/// How many segments some meetings have together.
pub open spec fn segment_total(ms: Seq<MeetingView>) -> nat
    decreases ms.len(),
{
    if ms.len() == 0 {
        0
    } else {
        segment_total(ms.drop_last()) + ms.last().segments.len()
    }
}

/// Every segment of every meeting has a place, exactly one; places come in the order of the meetings and of
/// their segments; and there are as many as the meetings have segments.
pub proof fn every_segment_has_a_place(ms: Seq<MeetingView>, m: int, s: int)
    requires
        0 <= m < ms.len(),
        0 <= s < ms[m].segments.len(),
    ensures
        exists|i: int|
            0 <= i < segment_places(ms).len() && #[trigger] segment_places(ms)[i] == (m, s),
        forall|i: int, j: int|
            0 <= i < segment_places(ms).len() && 0 <= j < segment_places(ms).len()
                && #[trigger] segment_places(ms)[i] == (m, s) && #[trigger] segment_places(ms)[j] == (m, s)
                ==> i == j,
        segment_places(ms).len() == segment_total(ms),
{
    lemma_place_of(ms, m, s);
    lemma_places_ascend(ms);
    lemma_place_count(ms);
}

proof fn lemma_place_of(ms: Seq<MeetingView>, m: int, s: int)
    requires
        0 <= m < ms.len(),
        0 <= s < ms[m].segments.len(),
    ensures
        exists|i: int|
            0 <= i < segment_places(ms).len() && #[trigger] segment_places(ms)[i] == (m, s),
    decreases ms.len(),
{
    let before = segment_places(ms.drop_last());
    let all = segment_places(ms);
    if m < ms.len() - 1 {
        lemma_place_of(ms.drop_last(), m, s);
        let i = choose|i: int| 0 <= i < before.len() && #[trigger] before[i] == (m, s);
        assert(all[i] == (m, s));
    } else {
        assert(all[before.len() + s] == (m, s));
    }
}

proof fn lemma_place_count(ms: Seq<MeetingView>)
    ensures
        segment_places(ms).len() == segment_total(ms),
    decreases ms.len(),
{
    if ms.len() > 0 {
        lemma_place_count(ms.drop_last());
    }
}

proof fn lemma_places_ascend(ms: Seq<MeetingView>)
    ensures
        forall|i: int, j: int|
            0 <= i < j < segment_places(ms).len() ==> {
                let a = #[trigger] segment_places(ms)[i];
                let b = #[trigger] segment_places(ms)[j];
                a.0 < b.0 || (a.0 == b.0 && a.1 < b.1)
            },
    decreases ms.len(),
{
    if ms.len() > 0 {
        let front = ms.drop_last();
        lemma_places_ascend(front);
        lemma_places(front);
        let before = segment_places(front);
        let all = segment_places(ms);
        assert forall|i: int, j: int| 0 <= i < j < all.len() implies {
            let a = #[trigger] all[i];
            let b = #[trigger] all[j];
            a.0 < b.0 || (a.0 == b.0 && a.1 < b.1)
        } by {
            if j < before.len() {
                assert(all[i] == before[i] && all[j] == before[j]);
            } else if i < before.len() {
                assert(all[i] == before[i]);
            }
        }
    }
}

/// Places come in the order of the meetings, and within a meeting in the order of its segments.
pub proof fn places_are_in_order(ms: Seq<MeetingView>, i: int, j: int)
    requires
        0 <= i < j < segment_places(ms).len(),
    ensures
        ({
            let a = segment_places(ms)[i];
            let b = segment_places(ms)[j];
            a.0 < b.0 || (a.0 == b.0 && a.1 < b.1)
        }),
{
    lemma_places_ascend(ms);
}

// ---- what every search finds --------------------------------------------------------------------------------

/// Whether a hit shows a segment of a meeting: where it is from, and its text, up to 320 characters of it.
pub open spec fn shows_segment(h: HitView, m: MeetingView, seg: SegmentView) -> bool {
    &&& h.meeting_id == m.id
    &&& h.meeting_title == m.title
    &&& h.ts == seg.ts
    &&& h.speaker == seg.speaker
    &&& seg.text.len() <= 320 ==> h.snippet == seg.text
    &&& seg.text.len() > 320 ==> h.snippet == seg.text.take(320).push('\u{2026}')
}

/// No segment is passed over: a segment with a term in it is shown by a hit, unless there are as many hits as
/// asked for, and each has at least its score.
pub proof fn matching_segments_are_found(
    ms: Seq<MeetingView>,
    terms: Seq<Seq<char>>,
    scores: Seq<u64>,
    k: nat,
    m: int,
    s: int,
    term: Seq<char>,
)
    requires
        scores.len() == segment_places(ms).len(),
        0 <= m < ms.len(),
        0 <= s < ms[m].segments.len(),
        terms.contains(term),
        tokenized(ms[m].segments[s].text).contains(term),
    ensures
        ({
            let hits = best_hits(ms, terms, scores, k);
            ||| exists|h: int|
                0 <= h < hits.len() && shows_segment(#[trigger] hits[h], ms[m], ms[m].segments[s])
            ||| hits.len() == k && exists|i: int|
                0 <= i < scores.len() && #[trigger] segment_places(ms)[i] == (m, s) && forall|h: int|
                    0 <= h < hits.len() ==> (#[trigger] hits[h]).score >= scores[i]
        }),
{
    let hits = best_hits(ms, terms, scores, k);
    let ranked = ranked_segments(ms, terms, scores);
    let found = matching_segments(ms, terms);
    let keys = rank_keys(found, scores);
    let order = stable_order(keys);
    search_ranks_the_matching_segments(ms, terms, scores, k);
    lemma_place_of(ms, m, s);
    let i = choose|i: int|
        0 <= i < segment_places(ms).len() && #[trigger] segment_places(ms)[i] == (m, s);
    let n = choose|n: int| 0 <= n < terms.len() && terms[n] == term;
    assert(place_tokens(ms, segment_places(ms)[i]).contains(terms[n]));
    assert(has_term(place_tokens(ms, segment_places(ms)[i]), terms));
    lemma_matches(ms, terms, segment_places(ms).len() as int);
    assert(found.contains(i));
    stable_order_exists(keys);
    let p = choose|p: int| 0 <= p < found.len() && found[p] == i;
    assert(order.contains(p));
    let q = choose|q: int| 0 <= q < order.len() && order[q] == p;
    assert(ranked[q] == i);
    if q < hits.len() {
        assert(hits[q] == hit_at(ms, scores, i));
        assert(shows_segment(hits[q], ms[m], ms[m].segments[s]));
    } else {
        assert forall|h: int| 0 <= h < hits.len() implies (#[trigger] hits[h]).score >= scores[i] by {
            assert(hits[h].score >= scores[ranked[q]]);
        }
    }
}

/// Nothing is made up: every hit shows a segment of a meeting in which one of the terms occurs, with that
/// segment's score; no two hits are of the same segment; and hits come by falling score, those with equal
/// scores in the order of the corpus.
pub proof fn hits_are_matching_segments(
    ms: Seq<MeetingView>,
    terms: Seq<Seq<char>>,
    scores: Seq<u64>,
    k: nat,
)
    requires
        scores.len() == segment_places(ms).len(),
    ensures
        ({
            let hits = best_hits(ms, terms, scores, k);
            let ranked = ranked_segments(ms, terms, scores);
            &&& hits.len() <= k
            &&& hits.len() <= ranked.len()
            &&& forall|h: int|
                0 <= h < hits.len() ==> 0 <= #[trigger] ranked[h] < scores.len() && hit_is_of(
                    ms,
                    terms,
                    scores,
                    hits[h],
                    ranked[h],
                )
            &&& forall|i: int, j: int|
                0 <= i < j < hits.len() ==> scores[#[trigger] ranked[i]] > scores[#[trigger] ranked[j]]
                    || (scores[ranked[i]] == scores[ranked[j]] && ranked[i] < ranked[j])
        }),
{
    let found = matching_segments(ms, terms);
    let keys = rank_keys(found, scores);
    let order = stable_order(keys);
    let ranked = ranked_segments(ms, terms, scores);
    let hits = best_hits(ms, terms, scores, k);
    search_ranks_the_matching_segments(ms, terms, scores, k);
    stable_order_exists(keys);
    lemma_matches(ms, terms, segment_places(ms).len() as int);
    lemma_places(ms);
    assert forall|h: int| 0 <= h < hits.len() implies 0 <= #[trigger] ranked[h] < scores.len()
        && hit_is_of(ms, terms, scores, hits[h], ranked[h]) by {
        assert(hits[h] == hit_at(ms, scores, ranked[h]));
        let place = segment_places(ms)[ranked[h]];
        assert(has_term(place_tokens(ms, place), terms));
        let n = choose|n: int|
            0 <= n < terms.len() && place_tokens(ms, place).contains(#[trigger] terms[n]);
        assert(terms.contains(terms[n]));
        assert(tokenized(ms[place.0].segments[place.1].text).contains(terms[n]));
    }
    assert forall|i: int, j: int| 0 <= i < j < hits.len() implies scores[#[trigger] ranked[i]]
        > scores[#[trigger] ranked[j]] || (scores[ranked[i]] == scores[ranked[j]] && ranked[i]
        < ranked[j]) by {
        assert(comes_before(keys, order[i], order[j]));
        assert(0 <= order[i] < found.len() && 0 <= order[j] < found.len());
        assert(ranked[i] == found[order[i]] && ranked[j] == found[order[j]]);
    }
}

/// Whether a hit shows the segment at a position, with its score, and one of the terms occurs in that segment.
pub open spec fn hit_is_of(
    ms: Seq<MeetingView>,
    terms: Seq<Seq<char>>,
    scores: Seq<u64>,
    h: HitView,
    i: int,
) -> bool {
    let place = segment_places(ms)[i];
    &&& 0 <= place.0 < ms.len()
    &&& 0 <= place.1 < ms[place.0].segments.len()
    &&& shows_segment(h, ms[place.0], ms[place.0].segments[place.1])
    &&& h.score == scores[i]
    &&& exists|term: Seq<char>|
        terms.contains(term) && #[trigger] tokenized(ms[place.0].segments[place.1].text).contains(term)
}

/// A term is counted as often as it is among the tokens, and the terms that are present are those that are
/// among them.
pub proof fn terms_are_counted(tokens: Seq<Seq<char>>, terms: Seq<Seq<char>>, term: Seq<char>)
    ensures
        occurrences(tokens, term) == tokens.to_multiset().count(term),
        terms_present(tokens, terms) == terms.filter(|t: Seq<char>| tokens.contains(t)).len(),
{
    lemma_occurrences_count(tokens, term);
    lemma_present_count(tokens, terms);
}

proof fn lemma_occurrences_count(tokens: Seq<Seq<char>>, term: Seq<char>)
    ensures
        occurrences(tokens, term) == tokens.to_multiset().count(term),
    decreases tokens.len(),
{
    tokens.to_multiset_ensures();
    if tokens.len() > 0 {
        let before = tokens.drop_last();
        lemma_occurrences_count(before, term);
        before.to_multiset_ensures();
        assert(before.push(tokens.last()) =~= tokens);
        assert(tokens.to_multiset() =~= before.to_multiset().insert(tokens.last()));
    } else {
        assert(!tokens.contains(term));
    }
}

proof fn lemma_present_count(tokens: Seq<Seq<char>>, terms: Seq<Seq<char>>)
    ensures
        terms_present(tokens, terms) == terms.filter(|t: Seq<char>| tokens.contains(t)).len(),
    decreases terms.len(),
{
    reveal(Seq::filter);
    if terms.len() > 0 {
        lemma_present_count(tokens, terms.drop_last());
    }
}

/// How many tokens the segments of a meeting have together.
pub open spec fn meeting_tokens(segments: Seq<SegmentView>) -> nat
    decreases segments.len(),
{
    if segments.len() == 0 {
        0
    } else {
        meeting_tokens(segments.drop_last()) + tokenized(segments.last().text).len()
    }
}

/// How many tokens some meetings have together.
pub open spec fn corpus_tokens(ms: Seq<MeetingView>) -> nat
    decreases ms.len(),
{
    if ms.len() == 0 {
        0
    } else {
        corpus_tokens(ms.drop_last()) + meeting_tokens(ms.last().segments)
    }
}

/// All tokens are counted: those of all segments of all meetings.
pub proof fn all_tokens_are_counted(ms: Seq<MeetingView>)
    ensures
        tokens_up_to(ms, segment_places(ms).len() as int) == corpus_tokens(ms),
    decreases ms.len(),
{
    if ms.len() > 0 {
        let front = ms.drop_last();
        all_tokens_are_counted(front);
        let n = segment_places(front).len() as int;
        lemma_places(front);
        lemma_front_tokens(ms, n);
        lemma_last_tokens(ms, ms.last().segments.len() as int);
        let segments = ms.last().segments;
        assert(segments.take(segments.len() as int) =~= segments);
    }
}

proof fn lemma_front_tokens(ms: Seq<MeetingView>, n: int)
    requires
        ms.len() > 0,
        0 <= n <= segment_places(ms.drop_last()).len(),
    ensures
        tokens_up_to(ms, n) == tokens_up_to(ms.drop_last(), n),
    decreases n,
{
    if n > 0 {
        lemma_front_tokens(ms, n - 1);
        lemma_places(ms.drop_last());
        let place = segment_places(ms.drop_last())[n - 1];
        assert(segment_places(ms)[n - 1] == place);
        assert(segment_at(ms, place) == segment_at(ms.drop_last(), place));
    }
}

proof fn lemma_last_tokens(ms: Seq<MeetingView>, n: int)
    requires
        ms.len() > 0,
        0 <= n <= ms.last().segments.len(),
    ensures
        tokens_up_to(ms, segment_places(ms.drop_last()).len() + n) == tokens_up_to(
            ms,
            segment_places(ms.drop_last()).len() as int,
        ) + meeting_tokens(ms.last().segments.take(n)),
    decreases n,
{
    let start = segment_places(ms.drop_last()).len() as int;
    let segments = ms.last().segments;
    if n > 0 {
        lemma_last_tokens(ms, n - 1);
        assert(segment_places(ms)[start + n - 1] == (ms.len() - 1, n - 1));
        assert(segments.take(n).drop_last() =~= segments.take(n - 1));
        assert(segments.take(n).last() == segments[n - 1]);
    }
}

/// The words that are too common to search for, and no others.
pub proof fn stop_words_are_these(t: Seq<char>)
    ensures
        stopword(t) <==> (seq![
            "the"@, "a"@, "an"@, "of"@, "to"@, "in"@, "on"@, "and"@, "or"@, "what"@, "did"@, "we"@, "was"@,
        ].contains(t) || seq![
            "is"@, "about"@, "for"@, "how"@, "when"@, "who"@, "which"@, "that"@, "our"@, "do"@, "does"@,
            "with"@,
        ].contains(t)),
{
    let a = seq![
        "the"@, "a"@, "an"@, "of"@, "to"@, "in"@, "on"@, "and"@, "or"@, "what"@, "did"@, "we"@, "was"@,
    ];
    let b = seq![
        "is"@, "about"@, "for"@, "how"@, "when"@, "who"@, "which"@, "that"@, "our"@, "do"@, "does"@, "with"@,
    ];
    assert(a[0] == "the"@ && a[1] == "a"@ && a[2] == "an"@ && a[3] == "of"@ && a[4] == "to"@ && a[5] == "in"@
        && a[6] == "on"@ && a[7] == "and"@ && a[8] == "or"@ && a[9] == "what"@ && a[10] == "did"@ && a[11]
        == "we"@ && a[12] == "was"@);
    assert(b[0] == "is"@ && b[1] == "about"@ && b[2] == "for"@ && b[3] == "how"@ && b[4] == "when"@ && b[5]
        == "who"@ && b[6] == "which"@ && b[7] == "that"@ && b[8] == "our"@ && b[9] == "do"@ && b[10]
        == "does"@ && b[11] == "with"@);
}

// ---- what every reading shows --------------------------------------------------------------------------------

/// Whether a text ends with another.
pub open spec fn ends_with(s: Seq<char>, end: Seq<char>) -> bool {
    end.len() <= s.len() && s.skip(s.len() - end.len()) == end
}

/// Reading in full shows the whole transcript, whatever the summary is; reading in any other mode shows the
/// summary, and the transcript, up to 2000 characters of it, where there is no summary. Title and date are
/// shown in either case, and where an id means no meeting, that is said of it.
pub proof fn readings_show_what_is_asked_for(
    ms: Seq<MeetingView>,
    meeting_id: Seq<char>,
    mode: Seq<char>,
)
    ensures
        ({
            let text = reading(ms, meeting_id, mode);
            match resolved(ms, meeting_id) {
                Some(i) => {
                    let m = ms[i];
                    &&& begins_with(text, "# "@ + m.title + " ("@ + m.date + ")"@)
                    &&& mode == "full"@ ==> ends_with(text, "\n\n"@ + m.full_text())
                    &&& mode != "full"@ && m.summary.len() > 0 ==> ends_with(text, "\n\n"@ + m.summary)
                    &&& mode != "full"@ && m.summary.len() == 0 && m.full_text().len() <= 2000
                        ==> ends_with(text, "\n\n"@ + m.full_text())
                    &&& mode != "full"@ && m.summary.len() == 0 && m.full_text().len() > 2000
                        ==> ends_with(
                        text,
                        "\n\n"@ + m.full_text().take(2000).push('\u{2026}'),
                    )
                },
                None => text == "(no meeting matching '"@ + meeting_id + "')"@,
            }
        }),
{
    reveal_strlit(")");
    reveal_strlit("\n\n");
    reveal_strlit(")\n\n");
    reveal_strlit(") \u{2014} summary\n\n");
    if let Some(i) = resolved(ms, meeting_id) {
        let m = ms[i];
        let text = reading(ms, meeting_id, mode);
        let head = "# "@ + m.title + " ("@ + m.date;
        assert(text.take((head + ")"@).len() as int) =~= head + ")"@);
        let body = if mode == "full"@ {
            m.full_text()
        } else if m.summary.len() > 0 {
            m.summary
        } else {
            clipped(m.full_text(), 2000)
        };
        let end = "\n\n"@ + body;
        assert(text.skip(text.len() - end.len()) =~= end);
    }
}

/// An id that no meeting has means the first meeting whose title contains it, letter case aside, or whose id
/// begins with it.
pub proof fn the_first_resembling_meeting_is_meant(ms: Seq<MeetingView>, meeting_id: Seq<char>, at: int)
    requires
        0 <= at < ms.len(),
        forall|i: int| 0 <= i < ms.len() ==> (#[trigger] ms[i]).id != meeting_id,
        occurs(lowercase(ms[at].title), lowercase(meeting_id)) || begins_with(ms[at].id, meeting_id),
        forall|i: int|
            0 <= i < at ==> !occurs(lowercase((#[trigger] ms[i]).title), lowercase(meeting_id))
                && !begins_with(ms[i].id, meeting_id),
    ensures
        resolved(ms, meeting_id) == Some(at),
{
    let hs = handles(ms, lowered_titles(ms));
    let needle = lowercase(meeting_id);
    lemma_first_from(hs, |h: Handle| h.id == meeting_id, 0);
    lemma_first_from(hs, |h: Handle| resembles(h, meeting_id, needle), 0);
    let exact = first_from(hs, |h: Handle| h.id == meeting_id, 0);
    if exact is Some {
        assert(ms[exact->0].id != meeting_id);
    }
    let like = first_from(hs, |h: Handle| resembles(h, meeting_id, needle), 0);
    assert(resembles(hs[at], meeting_id, needle));
    if like is Some && like->0 < at {
        let i = like->0;
        assert(resembles(hs[i], meeting_id, needle));
        assert(!begins_with(ms[i].id, meeting_id));
    }
}

/// A transcript line shows when a segment was, who spoke, and what was said.
pub proof fn lines_show_the_segment(seg: SegmentView)
    ensures
        begins_with(seg.line(), "["@ + seg.ts + "] "@),
        ends_with(seg.line(), seg.text),
        seg.speaker.len() > 0 ==> seg.line() == "["@ + seg.ts + "] "@ + seg.speaker + ": "@ + seg.text,
        seg.speaker.len() == 0 ==> seg.line() == "["@ + seg.ts + "] "@ + seg.text,
{
    let front = "["@ + seg.ts + "] "@;
    let line = seg.line();
    assert(line.take(front.len() as int) =~= front);
    assert(line.skip(line.len() - seg.text.len()) =~= seg.text);
    if seg.speaker.len() > 0 {
        assert(line =~= "["@ + seg.ts + "] "@ + seg.speaker + ": "@ + seg.text);
    } else {
        assert(line =~= "["@ + seg.ts + "] "@ + seg.text);
    }
}

/// The transcript of a meeting grows by one line with each segment, in the order of the segments.
pub proof fn transcripts_grow_by_a_line(m: MeetingView, seg: SegmentView)
    ensures
        ({
            let longer = MeetingView { segments: m.segments.push(seg), ..m };
            longer.full_text() == if m.segments.len() == 0 {
                seg.line()
            } else {
                m.full_text() + "\n"@ + seg.line()
            }
        }),
{
    let longer = MeetingView { segments: m.segments.push(seg), ..m };
    assert(transcript_lines(longer.segments) =~= transcript_lines(m.segments).push(seg.line()));
    joined_adds_a_part(transcript_lines(m.segments), seg.line(), "\n"@);
}

/// A topic line has the words of the summary, or of the transcript where the summary is blank, with single
/// spaces between them, and is cut after `n` characters.
pub proof fn topics_have_the_words(m: MeetingView, n: nat)
    ensures
        ({
            let base = if all_white(m.summary) {
                m.full_text()
            } else {
                m.summary
            };
            exists|words: Seq<char>| #[trigger]
                single_spaced(words) && runs(words, RunOf::Words) == runs(base, RunOf::Words)
                    && m.blurb(n) == if words.len() <= n {
                    words
                } else {
                    words.take(n as int).push('\u{2026}')
                }
        }),
{
    blank_texts_are_trimmed_away(m.summary);
    let base = if all_white(m.summary) {
        m.full_text()
    } else {
        m.summary
    };
    let found = runs(base, RunOf::Words);
    runs_hold_what_is_kept(base, RunOf::Words);
    runs_are_kept(base, RunOf::Words);
    assert forall|i: int, k: int| 0 <= i < found.len() && 0 <= k < found[i].len() implies !white_space(
        #[trigger] found[i][k],
    ) by {
        assert(RunOf::Words.keeps(found[i][k]));
    }
    words_join_back(found);
    let words = joined(found, " "@);
    assert(single_spaced(words));
}

/// The index has a row for every meeting, in order, with its id, title and date.
pub proof fn the_index_lists_every_meeting(ms: Seq<MeetingView>)
    ensures
        meeting_index(ms).len() == ms.len(),
        forall|i: int|
            0 <= i < ms.len() ==> (#[trigger] meeting_index(ms)[i]).id == ms[i].id
                && meeting_index(ms)[i].title == ms[i].title && meeting_index(ms)[i].date == ms[i].date
                && meeting_index(ms)[i].topic == ms[i].blurb(160),
{
}

// ---- what every loading keeps ---------------------------------------------------------------------------------

/// A time stamp for display reads back: the minutes, and behind a colon two digits for the seconds, make up the
/// whole seconds.
pub proof fn display_stamps_read_back(secs: int)
    requires
        secs >= 0,
    ensures
        ({
            let t = display_ts(Some(secs), None);
            let n = t.len() - 3;
            &&& n >= 2
            &&& t[n] == ':'
            &&& 60 * decimal_value(t.take(n)) + decimal_value(t.skip(n + 1)) == secs
            &&& 0 <= decimal_value(t.skip(n + 1)) < 60
        }),
{
    reveal_strlit(":");
    reveal_strlit("0");
    let minutes = secs / 60;
    let rest = secs % 60;
    let a = two_wide(minutes);
    let b = two_wide(rest);
    let t = display_ts(Some(secs), None);
    lemma_two_wide(minutes);
    lemma_two_wide(rest);
    assert(b.len() == 2);
    let n = t.len() - 3;
    assert(t.take(n) =~= a);
    assert(t.skip(n + 1) =~= b);
}

proof fn lemma_two_wide(n: int)
    requires
        n >= 0,
    ensures
        decimal_value(two_wide(n)) == n,
        two_wide(n).len() >= 2,
        n < 100 ==> two_wide(n).len() == 2,
{
    reveal_strlit("0");
    reveal_with_fuel(decimal, 3);
    reveal_with_fuel(decimal_value, 3);
    decimals_read_back(n as nat);
    let t = two_wide(n);
    if n < 10 {
        assert(t =~= seq!['0', digit(n as nat)]);
        assert(t.drop_last() =~= seq!['0']);
        assert(t.drop_last().drop_last() =~= Seq::empty());
    } else if n < 100 {
        assert(decimal(n as nat) == seq![digit((n / 10) as nat)].push(digit((n % 10) as nat)));
    } else {
        assert(decimal((n / 10) as nat).len() >= 1);
    }
}

/// Without a start, the stored time stamp is shown, or nothing.
pub proof fn stored_stamps_are_shown(raw: Seq<char>, secs: int)
    ensures
        display_ts(None, Some(raw)) == raw,
        display_ts(None, None).len() == 0,
        display_ts(Some(secs), Some(raw)) == display_ts(Some(secs), None),
{
}

/// Whether a segment is that of a stored row: its text and speaker but for white space at their ends, its time
/// stamp, and its place in time, or in the list where the time is not known.
pub open spec fn is_segment_of(seg: SegmentView, row: SegmentRow) -> bool {
    &&& seg.text == trimmed(or_empty(row.transcript))
    &&& seg.speaker == trimmed(or_empty(row.speaker))
    &&& match row.start {
        Some(t) => seg.ts == display_ts(Some(t.secs as int), None) && seg.order == t.order,
        None => seg.ts == or_empty(row.timestamp) && seg.order == row.position,
    }
}

/// No stored row is lost: every row with a text gives a segment, in the order of the rows, and every other row
/// none.
pub proof fn no_row_is_lost(rows: Seq<SegmentRow>, row: SegmentRow)
    ensures
        all_white(or_empty(row.transcript)) ==> row_segments(rows.push(row)) == row_segments(rows),
        !all_white(or_empty(row.transcript)) ==> row_segments(rows.push(row)).len() == row_segments(
            rows,
        ).len() + 1 && row_segments(rows).is_prefix_of(row_segments(rows.push(row))) && is_segment_of(
            row_segments(rows.push(row)).last(),
            row,
        ),
{
    blank_texts_are_trimmed_away(or_empty(row.transcript));
    assert(rows.push(row).drop_last() =~= rows);
}

/// No line of a transcript in one piece is lost: every line that is not blank gives a segment with its text, in
/// the order of the lines, and every other line none.
pub proof fn no_line_is_lost(ls: Seq<Seq<char>>, line: Seq<char>)
    ensures
        all_white(line) ==> line_segments(ls.push(line)) == line_segments(ls),
        !all_white(line) ==> line_segments(ls.push(line)) == line_segments(ls).push(
            SegmentView {
                text: trimmed(line),
                ts: Seq::empty(),
                speaker: Seq::empty(),
                order: ls.len() as int,
            },
        ),
{
    blank_texts_are_trimmed_away(line);
    assert(ls.push(line).drop_last() =~= ls);
}

/// Every stored row with a text is among the segments of the meeting.
pub proof fn every_row_is_loaded(row: MeetingRow, i: int)
    requires
        0 <= i < row.segments@.len(),
        !all_white(or_empty(row.segments@[i].transcript)),
    ensures
        exists|k: int|
            0 <= k < row.meeting().segments.len() && is_segment_of(
                #[trigger] row.meeting().segments[k],
                row.segments@[i],
            ),
{
    let rows = row.segments@;
    let own = row_segments(rows);
    lemma_row_kept(rows, i);
    let n = choose|n: int| 0 <= n < own.len() && is_segment_of(#[trigger] own[n], rows[i]);
    let stored = stored_segments(rows, row.blob);
    assert(stored == own);
    let keys = Seq::new(stored.len(), |j: int| stored[j].order);
    stable_order_exists(keys);
    let order = stable_order(keys);
    assert(order.contains(n));
    let k = choose|k: int| 0 <= k < order.len() && order[k] == n;
    assert(row.meeting().segments[k] == own[n]);
}

proof fn lemma_row_kept(rows: Seq<SegmentRow>, i: int)
    requires
        0 <= i < rows.len(),
        !all_white(or_empty(rows[i].transcript)),
    ensures
        exists|n: int|
            0 <= n < row_segments(rows).len() && is_segment_of(#[trigger] row_segments(rows)[n], rows[i]),
    decreases rows.len(),
{
    let front = rows.drop_last();
    no_row_is_lost(front, rows.last());
    assert(front.push(rows.last()) =~= rows);
    let all = row_segments(rows);
    if i < front.len() {
        lemma_row_kept(front, i);
        let before = row_segments(front);
        let n = choose|n: int| 0 <= n < before.len() && is_segment_of(#[trigger] before[n], front[i]);
        assert(all[n] == before[n]);
    } else {
        assert(is_segment_of(all[all.len() - 1], rows[i]));
    }
}

/// A meeting keeps its id, and its title unless that is blank; its summary is what was stored, flattened; and
/// the transcript in one piece is taken apart where no row has a text, and only there.
pub proof fn meetings_keep_what_was_stored(row: MeetingRow)
    ensures
        row.meeting().id == row.id@,
        row.meeting().date == utc_formatted(row.created_at, 0, "%Y-%m-%d"@),
        all_white(row.title@) ==> row.meeting().title == "(untitled)"@,
        !all_white(row.title@) ==> row.meeting().title == row.title@,
        row.summary is None ==> row.meeting().summary.len() == 0,
        row.summary matches Some(s) ==> row.meeting().summary == flattened_summary(s@),
        ({
            let blank = forall|i: int|
                0 <= i < row.segments@.len() ==> all_white(
                    or_empty((#[trigger] row.segments@[i]).transcript),
                );
            let loaded = row.meeting().segments.to_multiset();
            &&& blank && row.blob is None ==> row.meeting().segments.len() == 0
            &&& blank && row.blob is Some ==> loaded == line_segments(
                lines(row.blob->0@),
            ).to_multiset()
            &&& !blank ==> loaded == row_segments(row.segments@).to_multiset()
        }),
{
    blank_texts_are_trimmed_away(row.title@);
    let rows = row.segments@;
    let own = row_segments(rows);
    let stored = stored_segments(rows, row.blob);
    let keys = Seq::new(stored.len(), |i: int| stored[i].order);
    sorting_rearranges(stored, keys);
    stable_order_exists(keys);
    lemma_blank_rows(rows);
    if exists|i: int|
        0 <= i < rows.len() && !all_white(or_empty((#[trigger] rows[i]).transcript)) {
        let i = choose|i: int|
            0 <= i < rows.len() && !all_white(or_empty((#[trigger] rows[i]).transcript));
        lemma_row_kept(rows, i);
        assert(own.len() > 0);
    }
}

proof fn lemma_blank_rows(rows: Seq<SegmentRow>)
    ensures
        (forall|i: int|
            0 <= i < rows.len() ==> all_white(or_empty((#[trigger] rows[i]).transcript)))
            ==> row_segments(rows).len() == 0,
    decreases rows.len(),
{
    if rows.len() > 0 {
        let front = rows.drop_last();
        lemma_blank_rows(front);
        blank_texts_are_trimmed_away(or_empty(rows.last().transcript));
        if forall|i: int| 0 <= i < rows.len() ==> all_white(or_empty((#[trigger] rows[i]).transcript)) {
            assert forall|i: int| 0 <= i < front.len() implies all_white(
                or_empty((#[trigger] front[i]).transcript),
            ) by {
                assert(all_white(or_empty(rows[i].transcript)));
            }
            assert(all_white(or_empty(rows[rows.len() - 1].transcript)));
        }
    }
}

/// A query is searched for by its words: those of more than one character that are no stop words, wherever it
/// has such a word, else all that it has; and by no others.
pub proof fn words_of_a_query_are_its_terms(tokens: Seq<Seq<char>>, word: Seq<char>)
    requires
        tokens.contains(word),
    ensures
        word.len() > 1 && !stopword(word) ==> terms_of(tokens).contains(word),
        (forall|t: Seq<char>| #[trigger] tokens.contains(t) ==> t.len() <= 1 || stopword(t))
            ==> terms_of(tokens).contains(word),
        forall|other: Seq<char>|
            word.len() > 1 && !stopword(word) && #[trigger] terms_of(tokens).contains(other)
                ==> other.len() > 1 && !stopword(other),
{
    terms_never_collapse(tokens);
    if word.len() > 1 && !stopword(word) {
        assert(salient(word));
    }
    if forall|t: Seq<char>| #[trigger] tokens.contains(t) ==> t.len() <= 1 || stopword(t) {
        let keep = |t: Seq<char>| salient(t);
        let kept = tokens.filter(keep);
        if kept.len() > 0 {
            assert(kept.contains(kept[0]));
            lemma_filter_members(tokens, keep, kept[0]);
        }
        lemma_distinct(tokens);
    }
}

/// Whether a hit of a list shows a segment.
pub open spec fn is_shown(hits: Seq<HitView>, m: MeetingView, seg: SegmentView) -> bool {
    exists|h: int| 0 <= h < hits.len() && shows_segment(#[trigger] hits[h], m, seg)
}

/// A search that asks for enough hits shows every segment that has a word of the query in it, of more than one
/// character and no stop word, however many there are.
pub proof fn every_segment_with_the_word_is_shown(
    ms: Seq<MeetingView>,
    query: Seq<char>,
    scores: Seq<u64>,
    k: nat,
    m: int,
    s: int,
    word: Seq<char>,
)
    requires
        scores.len() == segment_places(ms).len(),
        k > segment_total(ms),
        0 <= m < ms.len(),
        0 <= s < ms[m].segments.len(),
        tokenized(query).contains(word),
        tokenized(ms[m].segments[s].text).contains(word),
        word.len() > 1,
        !stopword(word),
    ensures
        is_shown(searched(ms, query, scores, k), ms[m], ms[m].segments[s]),
{
    let terms = terms_of(tokenized(query));
    words_of_a_query_are_its_terms(tokenized(query), word);
    matching_segments_are_found(ms, terms, scores, k, m, s, word);
    every_segment_has_a_place(ms, m, s);
    search_ranks_the_matching_segments(ms, terms, scores, k);
    let hits = searched(ms, query, scores, k);
    lemma_matches(ms, terms, segment_places(ms).len() as int);
    lemma_increasing(matching_segments(ms, terms), segment_places(ms).len() as int);
    stable_order_exists(rank_keys(matching_segments(ms, terms), scores));
    assert(hits.len() < k);
}

/// Increasing positions below a bound are at most as many as the bound.
proof fn lemma_increasing(p: Seq<int>, n: int)
    requires
        n >= 0,
        forall|i: int| 0 <= i < p.len() ==> 0 <= #[trigger] p[i] < n,
        forall|i: int, j: int| 0 <= i < j < p.len() ==> #[trigger] p[i] < #[trigger] p[j],
    ensures
        p.len() <= n,
    decreases p.len(),
{
    if p.len() > 0 {
        let before = p.drop_last();
        assert forall|i: int| 0 <= i < before.len() implies 0 <= #[trigger] before[i] < p.last() by {
            assert(p[i] < p[p.len() - 1]);
        }
        assert forall|i: int, j: int| 0 <= i < j < before.len() implies #[trigger] before[i]
            < #[trigger] before[j] by {
            assert(p[i] < p[j]);
        }
        lemma_increasing(before, p.last());
    }
}

/// A search gives as many hits as are asked for, or as there are segments with a term in them, where these are
/// fewer.
pub proof fn as_many_hits_as_asked_for(ms: Seq<MeetingView>, query: Seq<char>, scores: Seq<u64>, k: nat)
    requires
        scores.len() == segment_places(ms).len(),
    ensures
        ({
            let there = matching_segments(ms, terms_of(tokenized(query))).len();
            searched(ms, query, scores, k).len() == if there < k { there } else { k }
        }),
{
    stable_order_exists(
        rank_keys(matching_segments(ms, terms_of(tokenized(query))), scores),
    );
}

/// Terms are counted in full: each as often as it is among the tokens, however often that is.
pub proof fn counts_are_in_full(
    stats: SegmentStats,
    tokens: Seq<Seq<char>>,
    terms: Seq<Seq<char>>,
    i: int,
)
    requires
        counts_terms(stats, tokens, terms),
        0 <= i < terms.len(),
    ensures
        stats.tokens == tokens.len(),
        stats.counts@.len() == terms.len(),
        stats.counts@[i] == tokens.to_multiset().count(terms[i]),
        stats.distinct == terms.filter(|t: Seq<char>| tokens.contains(t)).len(),
{
    terms_are_counted(tokens, terms, terms[i]);
    lemma_occurrences_count(tokens, terms[i]);
    lemma_present_count(tokens, terms);
}

/// Every stored meeting is loaded, in its place, with its id.
pub proof fn every_meeting_is_loaded(rows: Seq<MeetingRow>, i: int)
    requires
        0 <= i < rows.len(),
    ensures
        loaded(rows).len() == rows.len(),
        loaded(rows)[i] == rows[i].meeting(),
        loaded(rows)[i].id == rows[i].id@,
{
}

/// The stored transcript stands in exactly where every row is blank.
pub proof fn blank_rows_need_the_transcript(rows: Seq<SegmentRow>)
    ensures
        blob_needed(rows) <==> forall|i: int|
            0 <= i < rows.len() ==> all_white(or_empty((#[trigger] rows[i]).transcript)),
    decreases rows.len(),
{
    if rows.len() > 0 {
        let before = rows.drop_last();
        blank_rows_need_the_transcript(before);
        blank_texts_are_trimmed_away(or_empty(rows.last().transcript));
        if forall|i: int| 0 <= i < before.len() ==> all_white(
            or_empty((#[trigger] before[i]).transcript),
        ) {
            assert forall|i: int| 0 <= i < rows.len() - 1 implies all_white(
                or_empty((#[trigger] rows[i]).transcript),
            ) by {
                assert(before[i] == rows[i]);
            }
        } else {
            let i = choose|i: int|
                0 <= i < before.len() && !all_white(or_empty((#[trigger] before[i]).transcript));
            assert(rows[i] == before[i]);
        }
        assert(rows[rows.len() - 1] == rows.last());
    }
}

} // verus!

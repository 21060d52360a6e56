//! The answer engine: the single-meeting path, the loop over all meetings, and the prompts.
//!
//! A completion takes one system text and one user text, so the loop folds what it has searched and
//! read into a scratchpad that is passed on in the user text.

use crate::chat::retrieval::{
    as_many_hits_as_asked_for, best_hits, hit_at, hit_views, info_views, lemma_places,
    matching_segments, meeting_index, ranked_segments, reading, resolved, resolved_is_a_meeting,
    search_ranks_the_matching_segments, searched, segment_places, terms_of, tokenized,
    tokens_of, Citation, CitationView, Corpus, HitView, InfoView, Meeting, MeetingView,
    SearchHit,
};
use crate::json::{json_parsed, member, member_text, opt_tree, parse_json, Json, JsonTree};
use crate::text::{
    all_white, ascii_lowercase, at_most, begins_with, blank_texts_are_trimmed_away, chars_of,
    find_piece, first_chars, first_from, join_texts, joined, joined_adds_a_part,
    joined_holds_every_part,
    lemma_find_piece, lemma_first_from, lemma_trimmed_twice, occurs, opt_text, same_text,
    string_of, texts, trim_text, trimmed,
};
use vstd::prelude::*;
use vstd::utf8::is_ascii_chars;

verus! {

// ---- cleaning replies -----------------------------------------------------------------------

/// The block that reasoning models put before their answers.
pub const THINK_PATTERN: &'static str = "(?s)<think>.*?</think>";

/// `s` without its blocks: from the first `open` to the first `close` behind it, and so on behind
/// that. An `open` that no `close` follows stays.
pub open spec fn blocks_removed(s: Seq<char>, open: Seq<char>, close: Seq<char>) -> Seq<char>
    decreases s.len(),
{
    match find_piece(s, open, 0) {
        Some(i) => match find_piece(s, close, i + open.len()) {
            Some(j) => {
                proof {
                    lemma_find_piece(s, open, 0);
                    lemma_find_piece(s, close, i + open.len());
                }
                if close.len() > 0 {
                    s.take(i) + blocks_removed(s.skip(j + close.len()), open, close)
                } else {
                    s
                }
            },
            None => s,
        },
        None => s,
    }
}

/// `Regex::new`, then `Regex::replace_all` with nothing as the replacement. With [`THINK_PATTERN`], what
/// comes back is the text without its blocks: matches are taken from the left, each as short as can be,
/// over line ends, and none overlaps another.
#[verifier::external_body]
fn regex_remove_all(pattern: &str, text: &str) -> (r: String)
    requires
        pattern@ == THINK_PATTERN@,
    ensures
        r@ == blocks_removed(text@, "<think>"@, "</think>"@),
{
    regex::Regex::new(pattern).unwrap().replace_all(text, "").into_owned()
}

/// A reply without its thinking blocks and without white space at its ends.
pub open spec fn cleaned(raw: Seq<char>) -> Seq<char> {
    trimmed(blocks_removed(raw, "<think>"@, "</think>"@))
}

/// Strip any `<think>…</think>` block, over line ends too, and trim.
pub fn clean_response(raw: &str) -> (r: String)
    ensures
        r@ == cleaned(raw@),
{
    trim_text(regex_remove_all(THINK_PATTERN, raw).as_str())
}

// ---- actions ------------------------------------------------------------------------------------

/// What the model wants done next.
#[derive(Debug)]
pub struct Action {
    pub action: String,
    pub query: String,
    pub meeting_id: String,
    pub mode: String,
    pub answer: String,
}

/// What an action says.
pub struct ActionView {
    pub action: Seq<char>,
    pub query: Seq<char>,
    pub meeting_id: Seq<char>,
    pub mode: Seq<char>,
    pub answer: Seq<char>,
}

impl View for Action {
    type V = ActionView;

    open spec fn view(&self) -> ActionView {
        ActionView {
            action: self.action@,
            query: self.query@,
            meeting_id: self.meeting_id@,
            mode: self.mode@,
            answer: self.answer@,
        }
    }
}

/// The parts of a text that begin at `a` and end with one of the closing braces before `end`, shortest first.
pub open spec fn braced_from(s: Seq<char>, a: int, end: int) -> Seq<Seq<char>>
    decreases end - a,
{
    if end <= a + 1 {
        Seq::empty()
    } else {
        let before = braced_from(s, a, end - 1);
        if s[end - 1] == '}' {
            before.push(s.subrange(a, end))
        } else {
            before
        }
    }
}

/// The parts of a text that begin with its first opening brace and end with a closing one, shortest first.
pub open spec fn braced(s: Seq<char>) -> Seq<Seq<char>> {
    match first_from(s, |c: char| c == '{', 0) {
        Some(a) => braced_from(s, a, s.len() as int),
        None => Seq::empty(),
    }
}

/// What the first of some parts that parses parses to.
pub open spec fn first_parsed(parts: Seq<Seq<char>>) -> Option<JsonTree> {
    match first_from(parts, |p: Seq<char>| json_parsed(p) is Some, 0) {
        Some(i) => json_parsed(parts[i]),
        None => None,
    }
}

/// The text of a member without white space at its ends, or nothing where it has none.
pub open spec fn field(t: JsonTree, name: Seq<char>) -> Seq<char> {
    match member_text(t, name) {
        Some(s) => trimmed(s),
        None => Seq::empty(),
    }
}

/// `s`, or `default` where it is empty.
pub open spec fn or_default(s: Seq<char>, default: Seq<char>) -> Seq<char> {
    if s.len() == 0 {
        default
    } else {
        s
    }
}

/// The action that a reply means, given what its first `{ … }` parses to: a reply without one is itself the
/// final answer.
pub open spec fn action_of(reply: Seq<char>, parsed: Option<JsonTree>) -> ActionView {
    match parsed {
        Some(t) => ActionView {
            action: or_default(field(t, "action"@), "final"@),
            query: field(t, "query"@),
            meeting_id: field(t, "meeting_id"@),
            mode: or_default(field(t, "mode"@), "summary"@),
            answer: field(t, "answer"@),
        },
        None => ActionView {
            action: "final"@,
            query: Seq::empty(),
            meeting_id: Seq::empty(),
            mode: "summary"@,
            answer: reply,
        },
    }
}

/// The action that a reply means.
pub open spec fn parsed_action(raw: Seq<char>) -> ActionView {
    let reply = trimmed(raw);
    action_of(reply, first_parsed(braced(reply)))
}

/// The parts of a text that begin with its first opening brace and end with a closing one, shortest first.
pub fn braced_parts(s: &str) -> (r: Vec<String>)
    ensures
        texts(r@) == braced(s@),
{
    let chars = chars_of(s);
    let ghost left = |c: char| c == '{';
    let mut a: usize = 0;
    while a < chars.len() && chars[a] != '{'
        invariant
            a <= chars.len(),
            left == (|c: char| c == '{'),
            first_from(chars@, left, 0) == first_from(chars@, left, a as int),
        decreases chars.len() - a,
    {
        a = a + 1;
    }
    let mut out: Vec<String> = Vec::new();
    assert(texts(out@) =~= Seq::empty());
    if a == chars.len() {
        return out;
    }
    for end in a..chars.len()
        invariant
            a < chars@.len(),
            chars@[a as int] == '{',
            texts(out@) == braced_from(chars@, a as int, end as int),
    {
        if chars[end] == '}' {
            let ghost o = out@;
            out.push(string_of(&chars, a, end + 1));
            assert(texts(out@) =~= texts(o).push(chars@.subrange(a as int, end + 1)));
        }
    }
    out
}

/// What the first of some parts that parses parses to.
fn parse_first(parts: &Vec<String>) -> (r: Option<Json>)
    ensures
        opt_tree(r) == first_parsed(texts(parts@)),
{
    let ghost all = texts(parts@);
    let ghost parses = |p: Seq<char>| json_parsed(p) is Some;
    for i in 0..parts.len()
        invariant
            all == texts(parts@),
            parses == (|p: Seq<char>| json_parsed(p) is Some),
            first_from(all, parses, 0) == first_from(all, parses, i as int),
    {
        assert(all[i as int] == parts@[i as int]@);
        let value = parse_json(parts[i].as_str());
        if value.is_some() {
            return value;
        }
    }
    None
}

/// Whether a part of a text begins at `a` and ends with the closing brace before `end`.
pub open spec fn braced_at(s: Seq<char>, a: int, end: int, part: Seq<char>) -> bool {
    a + 1 < end <= s.len() && s[end - 1] == '}' && part == s.subrange(a, end)
}

/// Whether a part of a text begins at `a` and ends with one of the closing braces before `end`.
pub open spec fn braced_before(s: Seq<char>, a: int, end: int, part: Seq<char>) -> bool {
    exists|e: int| e <= end && #[trigger] braced_at(s, a, e, part)
}

/// The parts of a reply that are tried are those, and only those, that begin with its first opening brace
/// and end with a closing one behind it, and a shorter one is tried before a longer one.
pub proof fn braced_parts_begin_at_the_first_brace(s: Seq<char>, a: int)
    requires
        0 <= a < s.len(),
        s[a] == '{',
        !s.take(a).contains('{'),
    ensures
        forall|k: int|
            0 <= k < braced(s).len() ==> braced_before(
                s,
                a,
                s.len() as int,
                #[trigger] braced(s)[k],
            ),
        forall|end: int, part: Seq<char>|
            #[trigger] braced_at(s, a, end, part) ==> braced(s).contains(part),
        forall|j: int, k: int|
            0 <= j < k < braced(s).len() ==> (#[trigger] braced(s)[j]).len() < (
            #[trigger] braced(s)[k]).len(),
{
    lemma_first_brace(s, a);
    lemma_braced_from(s, a, s.len() as int);
}

proof fn lemma_first_brace(s: Seq<char>, a: int)
    requires
        0 <= a < s.len(),
        s[a] == '{',
        !s.take(a).contains('{'),
    ensures
        first_from(s, |c: char| c == '{', 0) == Some(a),
{
    let left = |c: char| c == '{';
    lemma_first_from(s, left, 0);
    assert(left(s[a]));
    let found = first_from(s, left, 0)->0;
    if found < a {
        assert(s.take(a)[found] == '{');
    }
}

proof fn lemma_braced_from(s: Seq<char>, a: int, end: int)
    requires
        0 <= a < s.len(),
        end <= s.len(),
    ensures
        forall|k: int|
            0 <= k < braced_from(s, a, end).len() ==> braced_before(
                s,
                a,
                end,
                #[trigger] braced_from(s, a, end)[k],
            ),
        forall|e: int, part: Seq<char>|
            e <= end && #[trigger] braced_at(s, a, e, part) ==> braced_from(s, a, end).contains(
                part,
            ),
        forall|j: int, k: int|
            0 <= j < k < braced_from(s, a, end).len() ==> (#[trigger] braced_from(s, a, end)[j]).len()
                < (#[trigger] braced_from(s, a, end)[k]).len(),
    decreases end - a,
{
    if end > a + 1 {
        lemma_braced_from(s, a, end - 1);
        let before = braced_from(s, a, end - 1);
        let all = braced_from(s, a, end);
        assert forall|k: int| 0 <= k < all.len() implies braced_before(
            s,
            a,
            end,
            #[trigger] all[k],
        ) by {
            if k < before.len() {
                assert(braced_before(s, a, end - 1, before[k]));
                let e = choose|e: int| e <= end - 1 && #[trigger] braced_at(s, a, e, before[k]);
                assert(braced_at(s, a, e, all[k]));
            } else {
                assert(braced_at(s, a, end, all[k]));
            }
        }
        assert forall|e: int, part: Seq<char>|
            e <= end && #[trigger] braced_at(s, a, e, part) implies all.contains(part) by {
            if e < end {
                assert(before.contains(part));
                let k = choose|k: int| 0 <= k < before.len() && before[k] == part;
                assert(all[k] == part);
            } else {
                assert(all[before.len() as int] == part);
            }
        }
        assert forall|j: int, k: int| 0 <= j < k < all.len() implies (#[trigger] all[j]).len() < (
        #[trigger] all[k]).len() by {
            assert(all[j] == before[j]);
            if k < before.len() {
                assert(all[k] == before[k]);
            } else {
                assert(braced_before(s, a, end - 1, before[j]));
                let e = choose|e: int| e <= end - 1 && #[trigger] braced_at(s, a, e, before[j]);
                assert(braced_at(s, a, e, before[j]));
                assert(all[k] == s.subrange(a, end));
            }
        }
    }
}

/// Only the first `{ … }` counts: once it parses, what stands behind it does not matter.
pub proof fn what_follows_the_first_object_does_not_matter(s: Seq<char>, more: Seq<char>)
    requires
        first_parsed(braced(s)) is Some,
    ensures
        first_parsed(braced(s + more)) == first_parsed(braced(s)),
{
    let left = |c: char| c == '{';
    let whole = s + more;
    lemma_first_from(s, left, 0);
    lemma_first_from(whole, left, 0);
    let a = first_from(s, left, 0)->0;
    let b = first_from(whole, left, 0)->0;
    assert(whole[a] == s[a]);
    assert(left(whole[a]));
    if b < a {
        assert(whole[b] == s[b]);
        assert(!left(s[b]));
    }
    lemma_braced_prefix(s, more, a, whole.len() as int);
    let parts = braced(s);
    let longer = braced(whole);
    let parses = |p: Seq<char>| json_parsed(p) is Some;
    lemma_first_from(parts, parses, 0);
    lemma_first_from(longer, parses, 0);
    let i = first_from(parts, parses, 0)->0;
    let k = first_from(longer, parses, 0)->0;
    assert(longer[i] == parts[i]);
    assert(parses(longer[i]));
    if k < i {
        assert(longer[k] == parts[k]);
        assert(!parses(parts[k]));
    }
}

proof fn lemma_braced_prefix(s: Seq<char>, more: Seq<char>, a: int, end: int)
    requires
        0 <= a < s.len(),
        end <= s.len() + more.len(),
    ensures
        ({
            let shorter = braced_from(s, a, if end < s.len() { end } else { s.len() as int });
            shorter.is_prefix_of(braced_from(s + more, a, end))
        }),
        end <= s.len() ==> braced_from(s + more, a, end) == braced_from(s, a, end),
    decreases end - a,
{
    if end > a + 1 {
        lemma_braced_prefix(s, more, a, end - 1);
        if end <= s.len() {
            assert((s + more).subrange(a, end) =~= s.subrange(a, end));
        }
    }
}

fn field_text(value: &Json, name: &str) -> (r: String)
    ensures
        r@ == field(value.tree(), name@),
{
    match value.text_of(name) {
        Some(s) => trim_text(s.as_str()),
        None => String::new(),
    }
}

fn text_or_default(s: String, default: &str) -> (r: String)
    ensures
        r@ == or_default(s@, default@),
{
    if s.as_str().is_empty() {
        default.to_owned()
    } else {
        s
    }
}

/// The action that a reply means, given what its first `{ … }` parses to.
pub fn action_from(reply: &str, parsed: &Option<Json>) -> (r: Action)
    ensures
        r@ == action_of(reply@, opt_tree(*parsed)),
{
    match parsed {
        Some(value) => Action {
            action: text_or_default(field_text(value, "action"), "final"),
            query: field_text(value, "query"),
            meeting_id: field_text(value, "meeting_id"),
            mode: text_or_default(field_text(value, "mode"), "summary"),
            answer: field_text(value, "answer"),
        },
        None => Action {
            action: "final".to_owned(),
            query: String::new(),
            meeting_id: String::new(),
            mode: "summary".to_owned(),
            answer: reply.to_owned(),
        },
    }
}

/// Robustly parse the model's action: find the first `{ … }` and parse it; on any failure the whole reply is
/// a free-form final answer. The `{ … }` begins at the first opening brace and ends at the first closing one
/// with which it parses.
pub fn parse_action(raw: &str) -> (r: Action)
    ensures
        r@ == parsed_action(raw@),
{
    let reply = trim_text(raw);
    let parsed = parse_first(&braced_parts(reply.as_str()));
    action_from(reply.as_str(), &parsed)
}

// ---- citations ------------------------------------------------------------------------------------

/// How many citations an answer carries at most.
pub const MAX_CITATIONS: usize = 8;

/// What each citation of a list says.
pub open spec fn citation_views(v: Seq<Citation>) -> Seq<CitationView> {
    Seq::new(v.len(), |i: int| v[i]@)
}

/// Whether two citations point to the same place.
pub open spec fn same_place(a: CitationView, b: CitationView) -> bool {
    a.meeting_id == b.meeting_id && a.ts == b.ts
}

/// Whether a list of citations holds one for the same place.
pub open spec fn cites(cs: Seq<CitationView>, c: CitationView) -> bool {
    exists|i: int| 0 <= i < cs.len() && same_place(#[trigger] cs[i], c)
}

/// The citations after one more: a place is cited once, and a full list stays as it is.
pub open spec fn with_citation(cs: Seq<CitationView>, c: CitationView) -> Seq<CitationView> {
    if cs.len() >= MAX_CITATIONS || cites(cs, c) {
        cs
    } else {
        cs.push(c)
    }
}

/// Whether there are not too many citations, and no two for the same place.
pub open spec fn well_cited(cs: Seq<CitationView>) -> bool {
    &&& cs.len() <= MAX_CITATIONS
    &&& forall|i: int, j: int|
        0 <= i < j < cs.len() ==> !same_place(#[trigger] cs[i], #[trigger] cs[j])
}

/// Add a citation, unless its place is cited already or the list is full.
pub fn push_citation(citations: &mut Vec<Citation>, c: Citation)
    ensures
        citation_views(final(citations)@) == with_citation(citation_views(old(citations)@), c@),
        well_cited(citation_views(old(citations)@)) ==> well_cited(
            citation_views(final(citations)@),
        ),
{
    let ghost before = citation_views(citations@);
    if citations.len() >= MAX_CITATIONS {
        return;
    }
    for i in 0..citations.len()
        invariant
            before == citation_views(citations@),
            citations@.len() < MAX_CITATIONS,
            *citations == *old(citations),
            forall|k: int| 0 <= k < i ==> !same_place(#[trigger] before[k], c@),
    {
        assert(before[i as int] == citations@[i as int]@);
        if citations[i].meeting_id == c.meeting_id && citations[i].ts == c.ts {
            assert(same_place(before[i as int], c@));
            return;
        }
    }
    let ghost view = c@;
    citations.push(c);
    assert(citation_views(citations@) =~= before.push(view));
}

/// The citation of a search hit.
pub open spec fn hit_citation_of(h: HitView) -> CitationView {
    CitationView { meeting_id: h.meeting_id, title: h.meeting_title, ts: h.ts }
}

/// The citation of a whole meeting.
pub open spec fn meeting_citation_of(m: MeetingView) -> CitationView {
    CitationView { meeting_id: m.id, title: m.title, ts: Seq::empty() }
}

/// The citation of a search hit.
pub fn hit_citation(h: &SearchHit) -> (r: Citation)
    ensures
        r@ == hit_citation_of(h@),
{
    Citation { meeting_id: h.meeting_id.clone(), title: h.meeting_title.clone(), ts: h.ts.clone() }
}

/// The citation of a whole meeting.
pub fn meeting_citation(m: &Meeting) -> (r: Citation)
    ensures
        r@ == meeting_citation_of(m@),
{
    Citation { meeting_id: m.id.clone(), title: m.title.clone(), ts: String::new() }
}

/// The citations after those of some hits, one after the other.
pub open spec fn with_hits(cs: Seq<CitationView>, hits: Seq<HitView>) -> Seq<CitationView>
    decreases hits.len(),
{
    if hits.len() == 0 {
        cs
    } else {
        with_citation(with_hits(cs, hits.drop_last()), hit_citation_of(hits.last()))
    }
}

// ---- prompts --------------------------------------------------------------------------------------

/// One completion to ask the model for.
#[derive(Debug)]
pub struct LlmCall {
    pub system: String,
    pub user: String,
    pub max_tokens: u32,
    /// The sampling temperature, in tenths.
    pub temperature_tenths: u32,
}

/// What a completion asks.
pub struct CallView {
    pub system: Seq<char>,
    pub user: Seq<char>,
    pub max_tokens: u32,
    pub temperature_tenths: u32,
}

impl View for LlmCall {
    type V = CallView;

    open spec fn view(&self) -> CallView {
        CallView {
            system: self.system@,
            user: self.user@,
            max_tokens: self.max_tokens,
            temperature_tenths: self.temperature_tenths,
        }
    }
}

/// Keeps the reasoning out of an answer.
pub const NO_THINK: &'static str =
    "Answer directly and concisely. Do NOT show your reasoning or thinking. Output only the final answer.";

/// What the model is told about its tools. The meeting index follows.
pub const SYSTEM_AGENT: &'static str =
    "You answer questions about the user's recorded meetings. You cannot see the meetings directly \u{2014} you must retrieve with tools, one action per turn.\n\nRespond with ONLY ONE compact JSON object per turn and nothing else. Do NOT show your reasoning. Shapes:\n- {\"thought\":\"...\",\"action\":\"search\",\"query\":\"keywords\"} \u{2014} full-text search across ALL meetings; returns ranked snippets with meeting title + timestamp.\n- {\"thought\":\"...\",\"action\":\"read\",\"meeting_id\":\"<id>\",\"mode\":\"summary\"|\"full\"} \u{2014} read a meeting's summary (cheap) or full transcript (for detail/quotes).\n- {\"thought\":\"...\",\"action\":\"final\",\"answer\":\"...\"} \u{2014} give the final answer. Ground EVERY claim in what you retrieved and cite as [Meeting Title @ mm:ss]. If nothing relevant was found, say so honestly.\n\nRules: prefer search first to locate evidence, then read the most relevant meeting(s); do not invent facts; be concise; stop and answer as soon as you have enough evidence.\n\nMeeting index (id \u{2014} title \u{2014} date \u{2014} topic):\n";

/// What the model is told about a single meeting, before [`NO_THINK`].
pub const SINGLE_HEAD: &'static str =
    "You answer questions about ONE meeting, using only the transcript/summary below. ";

/// What the model is told about a single meeting, behind [`NO_THINK`]. The meeting follows.
pub const SINGLE_TAIL: &'static str =
    " Cite timestamps like [@ mm:ss] when quoting. If the answer isn't in it, say so.\n\n";

/// How many meetings the index of a prompt lists at most.
pub const MAX_INDEX: usize = 40;

/// How many characters of a read go into the scratchpad at most.
pub const MAX_READ: usize = 8000;

/// How many hits a search of the model gives at most.
pub const SEARCH_HITS: usize = 8;

/// How many actions the model may take before it has to answer.
pub const MAX_STEPS: usize = 6;

/// A meeting as the prompt shows it: its title, its date, its summary, if any, and its whole transcript.
pub open spec fn meeting_document(m: MeetingView) -> Seq<char> {
    let head = "# "@ + m.title + " ("@ + m.date + ")\n"@;
    let summary = if m.summary.len() == 0 {
        Seq::<char>::empty()
    } else {
        "\n## Summary\n"@ + m.summary + "\n"@
    };
    head + summary + "\n## Transcript\n"@ + m.full_text()
}

/// What to ask about a single meeting.
pub open spec fn single_call(m: MeetingView, question: Seq<char>) -> CallView {
    CallView {
        system: SINGLE_HEAD@ + NO_THINK@ + SINGLE_TAIL@ + meeting_document(m),
        user: question,
        max_tokens: 1536,
        temperature_tenths: 2,
    }
}

/// The completion that answers a question about a single meeting: the whole transcript and the
/// summary are put into the prompt.
pub fn single_meeting_call(m: &Meeting, question: &str) -> (r: LlmCall)
    ensures
        r@ == single_call(m@, question@),
{
    let mut ctx = "# ".to_owned();
    ctx.append(m.title.as_str());
    ctx.append(" (");
    ctx.append(m.date.as_str());
    ctx.append(")\n");
    let ghost head = ctx@;
    if !m.summary.as_str().is_empty() {
        ctx.append("\n## Summary\n");
        ctx.append(m.summary.as_str());
        ctx.append("\n");
        assert(ctx@ =~= head + ("\n## Summary\n"@ + m.summary@ + "\n"@));
    } else {
        assert(ctx@ =~= head + Seq::<char>::empty());
    }
    ctx.append("\n## Transcript\n");
    ctx.append(m.full_text().as_str());
    let mut system = SINGLE_HEAD.to_owned();
    system.append(NO_THINK);
    system.append(SINGLE_TAIL);
    system.append(ctx.as_str());
    LlmCall { system, user: question.to_owned(), max_tokens: 1536, temperature_tenths: 2 }
}

/// The whole transcript and the summary are put before the model, however long they are: the transcript stands
/// at the end of what it is told, the summary before it.
pub proof fn whole_transcript_is_shown(m: MeetingView, question: Seq<char>)
    ensures
        ({
            let system = single_call(m, question).system;
            &&& m.full_text().len() <= system.len()
            &&& system.skip(system.len() - m.full_text().len()) == m.full_text()
            &&& occurs(system, m.summary)
        }),
{
    let system = single_call(m, question).system;
    assert(system.skip(system.len() - m.full_text().len()) =~= m.full_text());
    let before = SINGLE_HEAD@ + NO_THINK@ + SINGLE_TAIL@ + ("# "@ + m.title + " ("@ + m.date + ")\n"@);
    if m.summary.len() == 0 {
        let at = 0int;
        assert(system.subrange(at, at + m.summary.len()) =~= m.summary);
    } else {
        let at = (before + "\n## Summary\n"@).len() as int;
        assert(system.subrange(at, at + m.summary.len()) =~= m.summary);
    }
}

/// A row of the meeting index as the prompt shows it.
pub open spec fn index_line(m: InfoView) -> Seq<char> {
    "- "@ + m.id + " \u{2014} "@ + m.title + " \u{2014} "@ + m.date + " \u{2014} "@ + m.topic
}

/// The lines of the meeting index as the prompt shows them.
pub open spec fn index_lines(rows: Seq<InfoView>) -> Seq<Seq<char>> {
    Seq::new(rows.len(), |i: int| index_line(rows[i]))
}

/// What the model is told in the loop over all meetings.
pub open spec fn agent_system(ms: Seq<MeetingView>) -> Seq<char> {
    SYSTEM_AGENT@ + joined(index_lines(at_most(meeting_index(ms), MAX_INDEX as nat)), "\n"@)
}

/// What the model is asked in each step of the loop.
pub open spec fn step_prompt(question: Seq<char>, scratch: Seq<char>) -> Seq<char> {
    "QUESTION: "@ + question + "\n\n"@ + scratch + "\nRespond with ONE JSON action now."@
}

/// What the model is asked when it has to answer.
pub open spec fn closing_prompt(question: Seq<char>, scratch: Seq<char>) -> Seq<char> {
    "QUESTION: "@ + question + "\n\n"@ + scratch
        + "\nWrite the complete final answer now, grounded in the retrieved content above, with [Meeting Title @ mm:ss] citations. "@
        + NO_THINK@
}

fn agent_system_text(corpus: &Corpus) -> (r: String)
    ensures
        r@ == agent_system(corpus@),
{
    let rows = corpus.list_meetings();
    let ghost all = meeting_index(corpus@);
    let n: usize = if rows.len() > MAX_INDEX { MAX_INDEX } else { rows.len() };
    let ghost shown = at_most(all, MAX_INDEX as nat);
    let mut ls: Vec<String> = Vec::new();
    for i in 0..n
        invariant
            n <= rows@.len(),
            all == info_views(rows@),
            n == shown.len(),
            forall|k: int| 0 <= k < n ==> #[trigger] shown[k] == all[k],
            texts(ls@) == index_lines(shown).take(i as int),
    {
        let m = &rows[i];
        let mut line = "- ".to_owned();
        line.append(m.id.as_str());
        line.append(" \u{2014} ");
        line.append(m.title.as_str());
        line.append(" \u{2014} ");
        line.append(m.date.as_str());
        line.append(" \u{2014} ");
        line.append(m.topic.as_str());
        let ghost o = ls@;
        let ghost view = line@;
        assert(shown[i as int] == m@);
        ls.push(line);
        assert(texts(ls@) =~= texts(o).push(view));
        assert(index_lines(shown).take(i + 1) =~= index_lines(shown).take(i as int).push(view));
    }
    assert(index_lines(shown).take(n as int) =~= index_lines(shown));
    let mut system = SYSTEM_AGENT.to_owned();
    system.append(join_texts(&ls, "\n").as_str());
    system
}

// ---- answers ----------------------------------------------------------------------------------------

/// A finished answer with the citations it was grounded in.
#[derive(Debug, Clone)]
pub struct AgentAnswer {
    pub answer: String,
    pub citations: Vec<Citation>,
}

/// What an answer says.
pub struct AnswerView {
    pub answer: Seq<char>,
    pub citations: Seq<CitationView>,
}

impl View for AgentAnswer {
    type V = AnswerView;

    open spec fn view(&self) -> AnswerView {
        AnswerView { answer: self.answer@, citations: citation_views(self.citations@) }
    }
}

/// The answer to a question about a single meeting that a reply makes.
pub open spec fn single_answer(m: MeetingView, raw: Seq<char>) -> AnswerView {
    AnswerView { answer: cleaned(raw), citations: seq![meeting_citation_of(m)] }
}

/// What comes back from a question about a single meeting, given the model's reply: the cleaned
/// reply, with the meeting as its one citation, or the model's failure.
pub fn single_meeting_answer(m: &Meeting, reply: Result<String, String>) -> (r: Result<
    AgentAnswer,
    String,
>)
    ensures
        reply matches Ok(raw) ==> r is Ok && r->Ok_0@ == single_answer(m@, raw@),
        match reply {
            Ok(raw) => r is Ok && r->Ok_0@ == (AnswerView {
                answer: cleaned(raw@),
                citations: seq![meeting_citation_of(m@)],
            }),
            Err(e) => r == Err::<AgentAnswer, String>(e),
        },
{
    match reply {
        Ok(raw) => {
            let mut citations: Vec<Citation> = Vec::new();
            citations.push(meeting_citation(m));
            assert(citation_views(citations@) =~= seq![meeting_citation_of(m@)]);
            Ok(AgentAnswer { answer: clean_response(raw.as_str()), citations })
        },
        Err(e) => Err(e),
    }
}

// ---- the loop over all meetings -----------------------------------------------------------------------

/// A run of the loop that waits for a reply of the model.
pub struct AgentRun {
    system: String,
    question: String,
    scratch: String,
    citations: Vec<Citation>,
    steps: usize,
    closing: bool,
}

/// The state of a run.
pub struct RunView {
    pub system: Seq<char>,
    pub question: Seq<char>,
    /// What has been searched and read so far.
    pub scratch: Seq<char>,
    pub citations: Seq<CitationView>,
    /// How many actions the model has taken.
    pub steps: nat,
    /// Whether the model has to answer now.
    pub closing: bool,
}

impl View for AgentRun {
    type V = RunView;

    closed spec fn view(&self) -> RunView {
        RunView {
            system: self.system@,
            question: self.question@,
            scratch: self.scratch@,
            citations: citation_views(self.citations@),
            steps: self.steps as nat,
            closing: self.closing,
        }
    }
}

/// A run of the loop that waits for the hits of a search.
pub struct PendingSearch {
    run: AgentRun,
    query: String,
}

/// The state of a run that waits for hits: the run with the search's step taken, and the query.
pub struct SearchView {
    pub run: RunView,
    pub query: Seq<char>,
}

impl View for PendingSearch {
    type V = SearchView;

    closed spec fn view(&self) -> SearchView {
        SearchView { run: self.run@, query: self.query@ }
    }
}

/// What the loop does after a reply.
pub enum AgentTurn {
    /// Ask the model again.
    Ask(AgentRun),
    /// Search, and go on with the hits.
    Search(PendingSearch),
    /// The answer is there.
    Done(AgentAnswer),
    /// The model failed.
    Failed(String),
}

/// What an [`AgentTurn`] says.
pub enum TurnView {
    Ask(RunView),
    Search(SearchView),
    Done(AnswerView),
    Failed(Seq<char>),
}

impl View for AgentTurn {
    type V = TurnView;

    open spec fn view(&self) -> TurnView {
        match *self {
            AgentTurn::Ask(run) => TurnView::Ask(run@),
            AgentTurn::Search(search) => TurnView::Search(search@),
            AgentTurn::Done(answer) => TurnView::Done(answer@),
            AgentTurn::Failed(e) => TurnView::Failed(e@),
        }
    }
}

impl RunView {
    /// Whether this is a state that a run can wait for a reply in.
    pub open spec fn is_valid(self) -> bool {
        &&& self.steps <= MAX_STEPS
        &&& self.steps == MAX_STEPS ==> self.closing
        &&& well_cited(self.citations)
    }

    /// A run that has just begun.
    pub open spec fn fresh(ms: Seq<MeetingView>, question: Seq<char>) -> RunView {
        RunView {
            system: agent_system(ms),
            question,
            scratch: Seq::empty(),
            citations: Seq::empty(),
            steps: 0,
            closing: false,
        }
    }

    /// What the model is asked next.
    pub open spec fn call(self) -> CallView {
        if self.closing {
            CallView {
                system: self.system,
                user: closing_prompt(self.question, self.scratch),
                max_tokens: 1536,
                temperature_tenths: 2,
            }
        } else {
            CallView {
                system: self.system,
                user: step_prompt(self.question, self.scratch),
                max_tokens: 640,
                temperature_tenths: 1,
            }
        }
    }

    /// The run with one more action taken.
    pub open spec fn stepped(self) -> RunView {
        RunView { steps: self.steps + 1, closing: self.steps + 1 >= MAX_STEPS, ..self }
    }

    /// The run with more on the scratchpad.
    pub open spec fn noted(self, note: Seq<char>) -> RunView {
        RunView { scratch: self.scratch + note, ..self }
    }

    /// The run after reading a meeting.
    pub open spec fn after_read(
        self,
        ms: Seq<MeetingView>,
        meeting_id: Seq<char>,
        mode: Seq<char>,
    ) -> RunView {
        let text = at_most(reading(ms, meeting_id, mode), MAX_READ as nat);
        let citations = match resolved(ms, meeting_id) {
            Some(i) => with_citation(self.citations, meeting_citation_of(ms[i])),
            None => self.citations,
        };
        let note = "ACTION: read "@ + meeting_id + " ("@ + mode + ")\nCONTENT: "@ + text + "\n\n"@;
        RunView { citations, ..self.noted(note) }
    }

    /// What follows an action of the model.
    pub open spec fn after_action(self, ms: Seq<MeetingView>, act: ActionView) -> TurnView {
        if act.action == "search"@ {
            TurnView::Search(
                SearchView { run: self.stepped(), query: or_default(act.query, self.question) },
            )
        } else if act.action == "read"@ {
            TurnView::Ask(self.stepped().after_read(ms, act.meeting_id, act.mode))
        } else if act.action == "final"@ {
            let answer = trimmed(act.answer);
            if answer.len() > 0 {
                TurnView::Done(AnswerView { answer, citations: self.citations })
            } else {
                TurnView::Ask(RunView { closing: true, ..self })
            }
        } else {
            TurnView::Ask(
                self.stepped().noted("NOTE: unknown action; use search, read, or final.\n\n"@),
            )
        }
    }

    /// What follows a reply of the model.
    pub open spec fn after_reply(self, ms: Seq<MeetingView>, raw: Seq<char>) -> TurnView {
        let reply = cleaned(raw);
        if self.closing {
            TurnView::Done(AnswerView { answer: reply, citations: self.citations })
        } else {
            self.after_action(ms, parsed_action(reply))
        }
    }

    /// What follows an attempt to get a reply of the model.
    pub open spec fn after_attempt(
        self,
        ms: Seq<MeetingView>,
        reply: Result<Seq<char>, Seq<char>>,
    ) -> TurnView {
        match reply {
            Ok(raw) => self.after_reply(ms, raw),
            Err(e) => TurnView::Failed(e),
        }
    }

    /// How many more replies of the model the run can need.
    pub open spec fn replies_left(self) -> nat {
        if self.closing {
            1
        } else {
            (MAX_STEPS - self.steps + 1) as nat
        }
    }
}

impl SearchView {
    /// What the scratchpad shows of the hits: their rendering, where there are any and there is one.
    pub open spec fn observation(hits: Seq<HitView>, rendered: Option<Seq<char>>) -> Seq<char> {
        match rendered {
            Some(t) => if hits.len() > 0 {
                t
            } else {
                "no matches"@
            },
            None => "no matches"@,
        }
    }

    /// What the search finds, given the scores of all segments.
    pub open spec fn hits(self, ms: Seq<MeetingView>, scores: Seq<u64>) -> Seq<HitView> {
        searched(ms, self.query, scores, SEARCH_HITS as nat)
    }

    /// The run after the search.
    pub open spec fn found(self, hits: Seq<HitView>, rendered: Option<Seq<char>>) -> RunView {
        let note = "ACTION: search \""@ + self.query + "\"\nRESULTS: "@ + SearchView::observation(
            hits,
            rendered,
        ) + "\n\n"@;
        RunView { citations: with_hits(self.run.citations, hits), ..self.run.noted(note) }
    }
}

/// Adding the citations of hits keeps a list well cited.
pub proof fn lemma_with_hits(cs: Seq<CitationView>, hits: Seq<HitView>)
    requires
        well_cited(cs),
    ensures
        well_cited(with_hits(cs, hits)),
    decreases hits.len(),
{
    if hits.len() > 0 {
        lemma_with_hits(cs, hits.drop_last());
    }
}

impl AgentRun {
    #[verifier::type_invariant]
    spec fn valid(self) -> bool {
        self@.is_valid()
    }

    /// A run that has just begun.
    pub fn new(corpus: &Corpus, question: &str) -> (r: Self)
        ensures
            r@ == RunView::fresh(corpus@, question@),
            r@.is_valid(),
    {
        let citations: Vec<Citation> = Vec::new();
        assert(citation_views(citations@) =~= Seq::empty());
        AgentRun {
            system: agent_system_text(corpus),
            question: question.to_owned(),
            scratch: String::new(),
            citations,
            steps: 0,
            closing: false,
        }
    }

    /// What to ask the model next.
    pub fn call(&self) -> (r: LlmCall)
        ensures
            r@ == self@.call(),
    {
        let mut user = "QUESTION: ".to_owned();
        user.append(self.question.as_str());
        user.append("\n\n");
        user.append(self.scratch.as_str());
        if self.closing {
            user.append(
                "\nWrite the complete final answer now, grounded in the retrieved content above, with [Meeting Title @ mm:ss] citations. ",
            );
            user.append(NO_THINK);
            LlmCall { system: self.system.clone(), user, max_tokens: 1536, temperature_tenths: 2 }
        } else {
            user.append("\nRespond with ONE JSON action now.");
            LlmCall { system: self.system.clone(), user, max_tokens: 640, temperature_tenths: 1 }
        }
    }

    /// Whether the model has to answer now.
    pub fn is_closing(&self) -> (r: bool)
        ensures
            r == self@.closing,
    {
        self.closing
    }

    /// What follows an action of the model.
    pub fn act(self, corpus: &Corpus, act: &Action) -> (r: AgentTurn)
        requires
            !self@.closing,
        ensures
            r@ == self@.after_action(corpus@, act@),
    {
        proof {
            use_type_invariant(&self);
        }
        let AgentRun { system, question, scratch, citations, steps, closing } = self;
        let mut scratch = scratch;
        let mut citations = citations;
        let steps: usize = steps + 1;
        if same_text(act.action.as_str(), "search") {
            let query = if act.query.as_str().is_empty() {
                question.clone()
            } else {
                act.query.clone()
            };
            let run = AgentRun {
                system,
                question,
                scratch,
                citations,
                steps,
                closing: steps >= MAX_STEPS,
            };
            AgentTurn::Search(PendingSearch { run, query })
        } else if same_text(act.action.as_str(), "read") {
            let text = corpus.read_meeting(act.meeting_id.as_str(), act.mode.as_str());
            let text = first_chars(text.as_str(), MAX_READ);
            if let Some(m) = corpus.get(act.meeting_id.as_str()) {
                push_citation(&mut citations, meeting_citation(m));
            }
            let ghost before = scratch@;
            scratch.append("ACTION: read ");
            scratch.append(act.meeting_id.as_str());
            scratch.append(" (");
            scratch.append(act.mode.as_str());
            scratch.append(")\nCONTENT: ");
            scratch.append(text.as_str());
            scratch.append("\n\n");
            assert(scratch@ =~= before + ("ACTION: read "@ + act.meeting_id@ + " ("@ + act.mode@
                + ")\nCONTENT: "@ + text@ + "\n\n"@));
            let run = AgentRun {
                system,
                question,
                scratch,
                citations,
                steps,
                closing: steps >= MAX_STEPS,
            };
            AgentTurn::Ask(run)
        } else if same_text(act.action.as_str(), "final") {
            let answer = trim_text(act.answer.as_str());
            if !answer.as_str().is_empty() {
                AgentTurn::Done(AgentAnswer { answer, citations })
            } else {
                // An empty final answer: have one written from everything gathered.
                AgentTurn::Ask(
                    AgentRun { system, question, scratch, citations, steps: steps - 1, closing: true },
                )
            }
        } else {
            scratch.append("NOTE: unknown action; use search, read, or final.\n\n");
            let run = AgentRun {
                system,
                question,
                scratch,
                citations,
                steps,
                closing: steps >= MAX_STEPS,
            };
            AgentTurn::Ask(run)
        }
    }
}

/// One turn of the loop over all meetings: take in the model's reply, and say what to do next.
pub fn agentic_answer(run: AgentRun, corpus: &Corpus, reply: Result<String, String>) -> (r:
    AgentTurn)
    ensures
        r@ == run@.after_attempt(
            corpus@,
            match reply {
                Ok(raw) => Ok(raw@),
                Err(e) => Err(e@),
            },
        ),
        match reply {
            Ok(raw) => r@ == run@.after_reply(corpus@, raw@),
            Err(e) => r@ == TurnView::Failed(e@),
        },
{
    match reply {
        Err(e) => AgentTurn::Failed(e),
        Ok(raw) => {
            let text = clean_response(raw.as_str());
            if run.closing {
                AgentTurn::Done(AgentAnswer { answer: text, citations: run.citations })
            } else {
                let act = parse_action(text.as_str());
                run.act(corpus, &act)
            }
        },
    }
}

impl PendingSearch {
    /// What to search for.
    pub fn query(&self) -> (r: &str)
        ensures
            r@ == self@.query,
    {
        self.query.as_str()
    }

    /// The hits of the search, given a score for each segment.
    pub fn hits(&self, corpus: &Corpus, scores: &Vec<u64>) -> (r: Vec<SearchHit>)
        requires
            scores@.len() == segment_places(corpus@).len(),
        ensures
            hit_views(r@) == self@.hits(corpus@, scores@),
            hit_views(r@) == best_hits(
                corpus@,
                terms_of(tokenized(self@.query)),
                scores@,
                SEARCH_HITS as nat,
            ),
            is_ascii_chars(self@.query) ==> hit_views(r@) == best_hits(
                corpus@,
                terms_of(tokens_of(ascii_lowercase(self@.query))),
                scores@,
                SEARCH_HITS as nat,
            ),
    {
        corpus.search(self.query.as_str(), scores, SEARCH_HITS)
    }

    /// Go on with the hits of the search, and their rendering as text.
    pub fn found(self, hits: &Vec<SearchHit>, rendered: Option<String>) -> (r: AgentRun)
        ensures
            r@ == self@.found(hit_views(hits@), opt_text(rendered)),
    {
        let ghost all = hit_views(hits@);
        let PendingSearch { run, query } = self;
        proof {
            use_type_invariant(&run);
        }
        let AgentRun { system, question, scratch, citations, steps, closing } = run;
        let mut scratch = scratch;
        let mut citations = citations;
        let ghost start = citation_views(citations@);
        for i in 0..hits.len()
            invariant
                all == hit_views(hits@),
                well_cited(citation_views(citations@)),
                citation_views(citations@) == with_hits(start, all.take(i as int)),
        {
            assert(all.take(i + 1).drop_last() == all.take(i as int));
            assert(all[i as int] == hits@[i as int]@);
            push_citation(&mut citations, hit_citation(&hits[i]));
        }
        assert(all.take(hits@.len() as int) == all);
        let ghost before = scratch@;
        scratch.append("ACTION: search \"");
        scratch.append(query.as_str());
        scratch.append("\"\nRESULTS: ");
        let observation = match rendered {
            Some(t) => if hits.len() > 0 {
                t
            } else {
                "no matches".to_owned()
            },
            None => "no matches".to_owned(),
        };
        scratch.append(observation.as_str());
        scratch.append("\n\n");
        assert(scratch@ =~= before + ("ACTION: search \""@ + query@ + "\"\nRESULTS: "@
            + observation@ + "\n\n"@));
        AgentRun { system, question, scratch, citations, steps, closing }
    }
}

// ---- what holds of every run -------------------------------------------------------------------------

/// The loop ends: every reply brings a run nearer to its answer, searching does not take it back, and a
/// run needs at most one reply more than there are actions to take.
pub proof fn runs_end(
    run: RunView,
    ms: Seq<MeetingView>,
    raw: Seq<char>,
    hits: Seq<HitView>,
    rendered: Option<Seq<char>>,
)
    requires
        run.is_valid(),
    ensures
        run.replies_left() <= MAX_STEPS + 1,
        match run.after_reply(ms, raw) {
            TurnView::Ask(next) => next.is_valid() && next.replies_left() < run.replies_left(),
            TurnView::Search(search) => {
                let next = search.found(hits, rendered);
                next.is_valid() && next.replies_left() < run.replies_left()
            },
            TurnView::Done(answer) => well_cited(answer.citations),
            TurnView::Failed(_) => false,
        },
{
    lemma_with_hits(run.citations, hits);
}

/// A run that has to answer answers with the model's next reply, whatever it says.
pub proof fn closing_runs_answer(run: RunView, ms: Seq<MeetingView>, raw: Seq<char>)
    requires
        run.closing,
    ensures
        run.after_reply(ms, raw) == TurnView::Done(
            AnswerView { answer: cleaned(raw), citations: run.citations },
        ),
{
}

/// Citations that a run has are kept.
pub proof fn citations_are_kept(
    run: RunView,
    ms: Seq<MeetingView>,
    raw: Seq<char>,
    hits: Seq<HitView>,
    rendered: Option<Seq<char>>,
)
    ensures
        match run.after_reply(ms, raw) {
            TurnView::Ask(next) => run.citations.is_prefix_of(next.citations),
            TurnView::Search(search) => run.citations.is_prefix_of(
                search.found(hits, rendered).citations,
            ),
            TurnView::Done(answer) => answer.citations == run.citations,
            TurnView::Failed(_) => false,
        },
{
    lemma_with_hits_grows(run.citations, hits);
}

proof fn lemma_with_hits_grows(cs: Seq<CitationView>, hits: Seq<HitView>)
    ensures
        cs.is_prefix_of(with_hits(cs, hits)),
    decreases hits.len(),
{
    if hits.len() > 0 {
        lemma_with_hits_grows(cs, hits.drop_last());
    }
}

/// Whether a citation names a meeting of the corpus, by its id and its title.
pub open spec fn names_meeting(ms: Seq<MeetingView>, c: CitationView) -> bool {
    exists|i: int|
        0 <= i < ms.len() && (#[trigger] ms[i]).id == c.meeting_id && ms[i].title == c.title
}

/// Whether every citation names a meeting of the corpus.
pub open spec fn grounded(ms: Seq<MeetingView>, cs: Seq<CitationView>) -> bool {
    forall|i: int| 0 <= i < cs.len() ==> names_meeting(ms, #[trigger] cs[i])
}

/// An answer cites nothing that is not there: as long as hits come from searching the corpus, every
/// citation of a run names a meeting of the corpus.
pub proof fn citations_are_grounded(
    run: RunView,
    ms: Seq<MeetingView>,
    raw: Seq<char>,
    terms: Seq<Seq<char>>,
    scores: Seq<u64>,
    rendered: Option<Seq<char>>,
)
    requires
        grounded(ms, run.citations),
        scores.len() == segment_places(ms).len(),
    ensures
        grounded(ms, RunView::fresh(ms, run.question).citations),
        match run.after_reply(ms, raw) {
            TurnView::Ask(next) => grounded(ms, next.citations),
            TurnView::Search(search) => grounded(
                ms,
                search.found(
                    best_hits(ms, terms, scores, SEARCH_HITS as nat),
                    rendered,
                ).citations,
            ),
            TurnView::Done(answer) => grounded(ms, answer.citations),
            TurnView::Failed(_) => false,
        },
{
    let hits = best_hits(ms, terms, scores, SEARCH_HITS as nat);
    search_ranks_the_matching_segments(ms, terms, scores, SEARCH_HITS as nat);
    lemma_places(ms);
    assert forall|i: int| 0 <= i < hits.len() implies names_meeting(
        ms,
        hit_citation_of(#[trigger] hits[i]),
    ) by {
        let at = ranked_segments(ms, terms, scores)[i];
        let place = segment_places(ms)[at];
        assert(hits[i] == hit_at(ms, scores, at));
        assert(ms[place.0].id == hits[i].meeting_id);
    }
    lemma_hits_grounded(ms, run.citations, hits);
    let act = parsed_action(cleaned(raw));
    resolved_is_a_meeting(ms, act.meeting_id);
    if resolved(ms, act.meeting_id) is Some {
        let m = ms[resolved(ms, act.meeting_id)->0];
        assert(names_meeting(ms, meeting_citation_of(m)));
    }
}

proof fn lemma_hits_grounded(ms: Seq<MeetingView>, cs: Seq<CitationView>, hits: Seq<HitView>)
    requires
        grounded(ms, cs),
        forall|i: int| 0 <= i < hits.len() ==> names_meeting(ms, hit_citation_of(#[trigger] hits[i])),
    ensures
        grounded(ms, with_hits(cs, hits)),
    decreases hits.len(),
{
    if hits.len() > 0 {
        let before = hits.drop_last();
        assert forall|i: int| 0 <= i < before.len() implies names_meeting(
            ms,
            hit_citation_of(#[trigger] before[i]),
        ) by {
            assert(before[i] == hits[i]);
        }
        lemma_hits_grounded(ms, cs, before);
        assert(names_meeting(ms, hit_citation_of(hits[hits.len() - 1])));
    }
}

/// A reply without an opening brace is a final answer in itself.
pub proof fn plain_replies_are_answers(run: RunView, ms: Seq<MeetingView>, raw: Seq<char>)
    requires
        !cleaned(raw).contains('{'),
        cleaned(raw).len() > 0,
    ensures
        run.after_reply(ms, raw) == TurnView::Done(
            AnswerView { answer: cleaned(raw), citations: run.citations },
        ),
{
    let reply = cleaned(raw);
    lemma_trimmed_twice(blocks_removed(raw, "<think>"@, "</think>"@));
    assert(trimmed(reply) == reply);
    lemma_first_from(reply, |c: char| c == '{', 0);
    if first_from(reply, |c: char| c == '{', 0) is Some {
        let a = first_from(reply, |c: char| c == '{', 0)->0;
        assert(reply[a] == '{');
        assert(reply.contains('{'));
    }
    assert(braced(reply).len() == 0);
    assert("final"@ != "search"@ && "final"@ != "read"@) by {
        reveal_strlit("final");
        reveal_strlit("search");
        reveal_strlit("read");
        assert("final"@.len() == 5);
        assert("search"@.len() == 6);
        assert("read"@.len() == 4);
    }
}

/// Text without an opening tag is only trimmed.
pub proof fn text_without_blocks_is_kept(raw: Seq<char>)
    requires
        !occurs(raw, "<think>"@),
    ensures
        cleaned(raw) == trimmed(raw),
{
    lemma_find_piece(raw, "<think>"@, 0);
    let found = find_piece(raw, "<think>"@, 0);
    if found is Some {
        let i = found->0;
        assert(raw.subrange(i, i + "<think>"@.len()) == "<think>"@);
    }
}

/// A block goes, with all that is in it: what stands before it is kept, what stands behind it is
/// cleaned in turn.
pub proof fn blocks_go(before: Seq<char>, inside: Seq<char>, after: Seq<char>)
    requires
        find_piece(before + "<think>"@, "<think>"@, 0) == Some(before.len() as int),
        find_piece(inside + "</think>"@, "</think>"@, 0) == Some(inside.len() as int),
    ensures
        blocks_removed(
            before + "<think>"@ + inside + "</think>"@ + after,
            "<think>"@,
            "</think>"@,
        ) == before + blocks_removed(after, "<think>"@, "</think>"@),
{
    let open = "<think>"@;
    let close = "</think>"@;
    let whole = before + open + inside + close + after;
    reveal_strlit("</think>");
    let a = before.len() as int;
    let b = a + open.len() + inside.len();
    lemma_find_in_longer(before + open, inside + close + after, open, 0);
    assert((before + open) + (inside + close + after) =~= whole);
    assert(find_piece(whole, open, 0) == Some(a));
    lemma_find_shifted(before + open, inside + close + after, close, 0);
    lemma_find_in_longer(inside + close, after, close, 0);
    assert(find_piece(whole, close, a + open.len()) == Some(b));
    assert(whole.take(a) =~= before);
    assert(whole.skip(b + close.len()) =~= after);
}

proof fn lemma_find_in_longer(s: Seq<char>, more: Seq<char>, p: Seq<char>, from: int)
    requires
        find_piece(s, p, from) is Some,
    ensures
        find_piece(s + more, p, from) == find_piece(s, p, from),
    decreases s.len() + 1 - from,
{
    assert((s + more).subrange(from, from + p.len()) =~= s.subrange(from, from + p.len()));
    if s.subrange(from, from + p.len()) != p {
        lemma_find_in_longer(s, more, p, from + 1);
    }
}

proof fn lemma_find_shifted(front: Seq<char>, s: Seq<char>, p: Seq<char>, from: int)
    requires
        0 <= from,
    ensures
        find_piece(front + s, p, front.len() + from) == match find_piece(s, p, from) {
            Some(i) => Some(front.len() + i),
            None => None,
        },
    decreases s.len() + 1 - from,
{
    let at = front.len() + from;
    if from + p.len() <= s.len() {
        assert((front + s).subrange(at, at + p.len()) =~= s.subrange(from, from + p.len()));
        if s.subrange(from, from + p.len()) != p {
            lemma_find_shifted(front, s, p, from + 1);
        }
    }
}

// ---- what the model is shown -----------------------------------------------------------------------------

/// What the model has been shown is never lost: whatever it replies and whatever a search finds, the scratchpad
/// of the run that follows begins with the scratchpad of the run before, the question and what the model is told
/// stay the same, and so the next call shows the question and all that was on the scratchpad.
pub proof fn nothing_shown_is_lost(
    run: RunView,
    ms: Seq<MeetingView>,
    raw: Seq<char>,
    hits: Seq<HitView>,
    rendered: Option<Seq<char>>,
)
    ensures
        match run.after_reply(ms, raw) {
            TurnView::Ask(next) => continues(run, next),
            TurnView::Search(search) => continues(run, search.run) && continues(
                run,
                search.found(hits, rendered),
            ),
            _ => true,
        },
{
    match run.after_reply(ms, raw) {
        TurnView::Ask(next) => {
            lemma_shown_again(run, next);
        },
        TurnView::Search(search) => {
            lemma_shown_again(run, search.run);
            lemma_shown_again(run, search.found(hits, rendered));
        },
        _ => {},
    }
}

proof fn lemma_shown_again(run: RunView, next: RunView)
    requires
        run.scratch.is_prefix_of(next.scratch),
        next.question == run.question,
    ensures
        begins_with(next.call().user, "QUESTION: "@ + run.question + "\n\n"@ + run.scratch),
{
    let front = "QUESTION: "@ + run.question + "\n\n"@ + run.scratch;
    assert(next.scratch =~= run.scratch + next.scratch.skip(run.scratch.len() as int));
    assert(next.call().user.take(front.len() as int) =~= front);
}

/// Whether a run goes on from another: it is about the same question, and has and shows all that was on the
/// scratchpad.
pub open spec fn continues(run: RunView, next: RunView) -> bool {
    &&& run.scratch.is_prefix_of(next.scratch)
    &&& next.question == run.question
    &&& next.system == run.system
    &&& begins_with(next.call().user, "QUESTION: "@ + run.question + "\n\n"@ + run.scratch)
}

/// Every call tells the model the question and shows it the whole scratchpad, under the same instructions.
pub proof fn calls_show_the_scratchpad(run: RunView)
    ensures
        run.call().system == run.system,
        begins_with(run.call().user, "QUESTION: "@ + run.question + "\n\n"@ + run.scratch),
        !run.closing ==> run.call().max_tokens == 640 && run.call().temperature_tenths == 1,
        run.closing ==> run.call().max_tokens == 1536 && run.call().temperature_tenths == 2,
{
    let front = "QUESTION: "@ + run.question + "\n\n"@ + run.scratch;
    assert(run.call().user.take(front.len() as int) =~= front);
}

/// A read goes onto the scratchpad: the id, the mode, and the reading, up to 8000 characters of it; and the
/// meeting is cited, unless it is cited already or there is no room.
pub proof fn reads_are_shown(run: RunView, ms: Seq<MeetingView>, act: ActionView)
    requires
        act.action == "read"@,
    ensures
        run.after_action(ms, act) is Ask,
        ({
            let next = run.after_action(ms, act)->Ask_0;
            let note = next.scratch.skip(run.scratch.len() as int);
            let text = reading(ms, act.meeting_id, act.mode);
            &&& begins_with(note, "ACTION: read "@ + act.meeting_id + " ("@ + act.mode + ")\nCONTENT: "@)
            &&& text.len() <= 8000 ==> occurs(note, text)
            &&& text.len() > 8000 ==> occurs(note, text.take(8000))
            &&& resolved(ms, act.meeting_id) matches Some(i) ==> next.citations.len() >= 8 || cited(
                next.citations,
                ms[i].id,
                Seq::empty(),
            )
        }),
{
    lemma_action_names();
    let next = run.after_action(ms, act)->Ask_0;
    let note = next.scratch.skip(run.scratch.len() as int);
    let text = reading(ms, act.meeting_id, act.mode);
    let shown = at_most(text, MAX_READ as nat);
    let front = "ACTION: read "@ + act.meeting_id + " ("@ + act.mode + ")\nCONTENT: "@;
    assert(note =~= front + shown + "\n\n"@);
    assert(note.take(front.len() as int) =~= front);
    let at = front.len() as int;
    assert(note.subrange(at, at + shown.len()) =~= shown);
    if let Some(i) = resolved(ms, act.meeting_id) {
        let c = meeting_citation_of(ms[i]);
        lemma_cited(run.citations, c);
    }
}

/// Whether a place is cited: a meeting, and a time in it.
pub open spec fn cited(cs: Seq<CitationView>, meeting_id: Seq<char>, ts: Seq<char>) -> bool {
    exists|i: int| 0 <= i < cs.len() && (#[trigger] cs[i]).meeting_id == meeting_id && cs[i].ts == ts
}

proof fn lemma_cited(cs: Seq<CitationView>, c: CitationView)
    ensures
        with_citation(cs, c).len() >= 8 || cited(with_citation(cs, c), c.meeting_id, c.ts),
{
    let all = with_citation(cs, c);
    if cs.len() < 8 {
        if cites(cs, c) {
            let i = choose|i: int| 0 <= i < cs.len() && same_place(#[trigger] cs[i], c);
            assert(all[i].meeting_id == c.meeting_id);
        } else {
            assert(all[cs.len() as int] == c);
        }
    }
}

proof fn lemma_action_names()
    ensures
        "search"@ != "read"@,
        "search"@ != "final"@,
        "read"@ != "final"@,
{
    reveal_strlit("search");
    reveal_strlit("read");
    reveal_strlit("final");
    assert("search"@.len() == 6 && "read"@.len() == 4 && "final"@.len() == 5);
}

/// A search is made for the query, or for the question where there is none; and what it finds goes onto the
/// scratchpad: the query, and the hits as they are rendered, or that there are none.
pub proof fn searches_are_shown(
    run: RunView,
    ms: Seq<MeetingView>,
    act: ActionView,
    hits: Seq<HitView>,
    rendered: Seq<char>,
)
    requires
        act.action == "search"@,
    ensures
        run.after_action(ms, act) is Search,
        ({
            let search = run.after_action(ms, act)->Search_0;
            let next = search.found(hits, Some(rendered));
            let note = next.scratch.skip(run.scratch.len() as int);
            &&& act.query.len() > 0 ==> search.query == act.query
            &&& act.query.len() == 0 ==> search.query == run.question
            &&& begins_with(note, "ACTION: search \""@ + search.query + "\"\nRESULTS: "@)
            &&& hits.len() > 0 ==> occurs(note, rendered)
            &&& hits.len() == 0 ==> occurs(note, "no matches"@)
        }),
{
    lemma_action_names();
    let search = run.after_action(ms, act)->Search_0;
    let next = search.found(hits, Some(rendered));
    let note = next.scratch.skip(run.scratch.len() as int);
    let shown = if hits.len() > 0 {
        rendered
    } else {
        "no matches"@
    };
    let front = "ACTION: search \""@ + search.query + "\"\nRESULTS: "@;
    assert(note =~= front + shown + "\n\n"@);
    assert(note.take(front.len() as int) =~= front);
    let at = front.len() as int;
    assert(note.subrange(at, at + shown.len()) =~= shown);
}

/// Every hit of a search is cited, as long as there is room for eight citations; and every citation that a
/// search adds is that of a hit.
pub proof fn every_hit_is_cited(search: SearchView, hits: Seq<HitView>, rendered: Option<Seq<char>>)
    ensures
        ({
            let before = search.run.citations;
            let after = search.found(hits, rendered).citations;
            &&& forall|h: int|
                0 <= h < hits.len() ==> after.len() >= 8 || cited(
                    after,
                    (#[trigger] hits[h]).meeting_id,
                    hits[h].ts,
                )
            &&& forall|i: int|
                before.len() <= i < after.len() ==> exists|h: int|
                    0 <= h < hits.len() && (#[trigger] after[i]).meeting_id == (
                    #[trigger] hits[h]).meeting_id && after[i].title == hits[h].meeting_title && after[i].ts
                        == hits[h].ts
        }),
{
    lemma_hits_cited(search.run.citations, hits);
}

proof fn lemma_hits_cited(cs: Seq<CitationView>, hits: Seq<HitView>)
    ensures
        cs.len() <= with_hits(cs, hits).len(),
        forall|h: int|
            0 <= h < hits.len() ==> with_hits(cs, hits).len() >= 8 || cited(
                with_hits(cs, hits),
                (#[trigger] hits[h]).meeting_id,
                hits[h].ts,
            ),
        forall|i: int|
            cs.len() <= i < with_hits(cs, hits).len() ==> from_hits(
                #[trigger] with_hits(cs, hits)[i],
                hits,
            ),
    decreases hits.len(),
{
    if hits.len() > 0 {
        let front = hits.drop_last();
        lemma_hits_cited(cs, front);
        let before = with_hits(cs, front);
        let all = with_hits(cs, hits);
        let last = hits[hits.len() - 1];
        lemma_cited(before, hit_citation_of(last));
        assert forall|h: int| 0 <= h < hits.len() implies all.len() >= 8 || cited(
            all,
            (#[trigger] hits[h]).meeting_id,
            hits[h].ts,
        ) by {
            if h < front.len() && all.len() < 8 {
                assert(front[h] == hits[h]);
                assert(cited(before, front[h].meeting_id, front[h].ts));
                let i = choose|i: int|
                    0 <= i < before.len() && (#[trigger] before[i]).meeting_id == hits[h].meeting_id
                        && before[i].ts == hits[h].ts;
                assert(all[i] == before[i]);
            }
        }
        assert forall|i: int| cs.len() <= i < all.len() implies from_hits(#[trigger] all[i], hits) by {
            if i < before.len() {
                assert(all[i] == before[i]);
                assert(from_hits(before[i], front));
                let h = choose|h: int|
                    0 <= h < front.len() && before[i].meeting_id == (#[trigger] front[h]).meeting_id
                        && before[i].title == front[h].meeting_title && before[i].ts == front[h].ts;
                assert(hits[h] == front[h]);
            } else {
                assert(all[i] == hit_citation_of(last));
            }
        }
    }
}

/// Whether a citation is that of one of some hits.
pub open spec fn from_hits(c: CitationView, hits: Seq<HitView>) -> bool {
    exists|h: int|
        0 <= h < hits.len() && c.meeting_id == (#[trigger] hits[h]).meeting_id && c.title
            == hits[h].meeting_title && c.ts == hits[h].ts
}

/// A final answer that is not blank is the answer, and a blank one has one written; an unknown action is noted,
/// and nothing else comes of it.
pub proof fn final_answers_are_given(run: RunView, ms: Seq<MeetingView>, act: ActionView)
    ensures
        act.action == "final"@ && !all_white(act.answer) ==> run.after_action(ms, act)
            == TurnView::Done(AnswerView { answer: trimmed(act.answer), citations: run.citations }),
        act.action == "final"@ && all_white(act.answer) ==> run.after_action(ms, act) == TurnView::Ask(
            RunView { closing: true, ..run },
        ),
        act.action != "final"@ && act.action != "search"@ && act.action != "read"@ ==> {
            let turn = run.after_action(ms, act);
            &&& turn is Ask
            &&& turn->Ask_0.citations == run.citations
            &&& turn->Ask_0.scratch == run.scratch
                + "NOTE: unknown action; use search, read, or final.\n\n"@
        },
{
    lemma_action_names();
    blank_texts_are_trimmed_away(act.answer);
}

/// The model may take six actions before it has to answer: a run that has taken fewer than five is not made to
/// answer by one more, and one that has taken five is.
pub proof fn six_actions_are_allowed(
    run: RunView,
    ms: Seq<MeetingView>,
    act: ActionView,
    hits: Seq<HitView>,
    rendered: Option<Seq<char>>,
)
    requires
        !run.closing,
        act.action != "final"@,
    ensures
        RunView::fresh(ms, run.question).steps == 0,
        !RunView::fresh(ms, run.question).closing,
        match run.after_action(ms, act) {
            TurnView::Ask(next) => next.steps == run.steps + 1 && (next.closing <==> run.steps >= 5),
            TurnView::Search(search) => {
                let next = search.found(hits, rendered);
                next.steps == run.steps + 1 && (next.closing <==> run.steps >= 5)
            },
            _ => false,
        },
{
    lemma_action_names();
}

/// What the model is told in the loop begins with its instructions, and shows every one of the first forty
/// meetings: id, title, date and topic.
pub proof fn the_index_is_shown(ms: Seq<MeetingView>, question: Seq<char>, i: int)
    requires
        0 <= i < ms.len(),
        i < 40,
    ensures
        begins_with(RunView::fresh(ms, question).system, SYSTEM_AGENT@),
        occurs(
            RunView::fresh(ms, question).system,
            "- "@ + ms[i].id + " \u{2014} "@ + ms[i].title + " \u{2014} "@ + ms[i].date + " \u{2014} "@
                + ms[i].blurb(160),
        ),
        RunView::fresh(ms, question).question == question,
        RunView::fresh(ms, question).scratch.len() == 0,
        RunView::fresh(ms, question).citations.len() == 0,
{
    let rows = at_most(meeting_index(ms), MAX_INDEX as nat);
    let ls = index_lines(rows);
    let text = joined(ls, "\n"@);
    let system = agent_system(ms);
    assert(system.take(SYSTEM_AGENT@.len() as int) =~= SYSTEM_AGENT@);
    joined_holds_every_part(ls, "\n"@, i);
    let line = ls[i];
    let at = choose|at: int|
        0 <= at <= text.len() - line.len() && #[trigger] text.subrange(at, at + line.len()) == line;
    let there = SYSTEM_AGENT@.len() + at;
    assert(system.subrange(there, there + line.len()) =~= text.subrange(at, at + line.len()));
}

/// A reply that holds an action is read by its members: each field is the text of the member with its name, but
/// for white space at its ends, or nothing; without an action it is a final answer, without a mode a summary is
/// meant.
pub proof fn actions_are_read_from_the_object(reply: Seq<char>, t: JsonTree)
    ensures
        ({
            let act = action_of(reply, Some(t));
            let text = |name: Seq<char>| match member(t, name) {
                Some(JsonTree::Text(s)) => trimmed(s),
                _ => Seq::<char>::empty(),
            };
            &&& act.query == text("query"@)
            &&& act.meeting_id == text("meeting_id"@)
            &&& act.answer == text("answer"@)
            &&& text("action"@).len() > 0 ==> act.action == text("action"@)
            &&& text("action"@).len() == 0 ==> act.action == "final"@
            &&& text("mode"@).len() > 0 ==> act.mode == text("mode"@)
            &&& text("mode"@).len() == 0 ==> act.mode == "summary"@
        }),
        action_of(reply, None).action == "final"@,
        action_of(reply, None).answer == reply,
{
}

/// A citation is added at the end, where its place is not cited yet and there are fewer than eight; else nothing
/// changes.
pub proof fn citations_are_added_once(cs: Seq<CitationView>, c: CitationView)
    ensures
        with_citation(cs, c) == if cs.len() < 8 && !cited(cs, c.meeting_id, c.ts) {
            cs.push(c)
        } else {
            cs
        },
{
    if cites(cs, c) {
        let i = choose|i: int| 0 <= i < cs.len() && same_place(#[trigger] cs[i], c);
        assert(cs[i].meeting_id == c.meeting_id && cs[i].ts == c.ts);
    }
    if cited(cs, c.meeting_id, c.ts) {
        let i = choose|i: int|
            0 <= i < cs.len() && (#[trigger] cs[i]).meeting_id == c.meeting_id && cs[i].ts == c.ts;
        assert(same_place(cs[i], c));
    }
}

/// A question about one meeting is asked as it is, and title and date of the meeting are shown.
pub proof fn questions_are_asked_as_they_are(m: MeetingView, question: Seq<char>)
    ensures
        single_call(m, question).user == question,
        occurs(single_call(m, question).system, "# "@ + m.title + " ("@ + m.date + ")\n"@),
        occurs(single_call(m, question).system, NO_THINK@),
        single_call(m, question).max_tokens == 1536,
        single_call(m, question).temperature_tenths == 2,
{
    let system = single_call(m, question).system;
    let head = "# "@ + m.title + " ("@ + m.date + ")\n"@;
    let at = (SINGLE_HEAD@ + NO_THINK@ + SINGLE_TAIL@).len() as int;
    assert(system.subrange(at, at + head.len()) =~= head);
    let there = SINGLE_HEAD@.len() as int;
    assert(system.subrange(there, there + NO_THINK@.len()) =~= NO_THINK@);
}

/// A block that is never closed stays.
pub proof fn open_blocks_stay(raw: Seq<char>)
    requires
        !occurs(raw, "</think>"@),
    ensures
        cleaned(raw) == trimmed(raw),
{
    let open = "<think>"@;
    let close = "</think>"@;
    lemma_find_piece(raw, open, 0);
    if let Some(i) = find_piece(raw, open, 0) {
        lemma_find_piece(raw, close, i + open.len());
        let found = find_piece(raw, close, i + open.len());
        if found is Some {
            let j = found->0;
            assert(raw.subrange(j, j + close.len()) == close);
        }
    }
}

/// A search of the model gives the eight best hits for its query, or all, where there are fewer segments with
/// a term in them.
pub proof fn searches_give_eight_hits(search: SearchView, ms: Seq<MeetingView>, scores: Seq<u64>)
    requires
        scores.len() == segment_places(ms).len(),
    ensures
        ({
            let there = matching_segments(ms, terms_of(tokenized(search.query))).len();
            let hits = search.hits(ms, scores);
            &&& hits.len() == if there < 8 { there } else { 8 }
            &&& hits == searched(ms, search.query, scores, 8)
        }),
{
    as_many_hits_as_asked_for(ms, search.query, scores, 8);
}

/// An answer about a single meeting is the cleaned reply, all of it, and cites that meeting.
pub proof fn single_answers_cite_their_meeting(m: MeetingView, raw: Seq<char>)
    ensures
        single_answer(m, raw).answer == cleaned(raw),
        single_answer(m, raw).citations.len() == 1,
        single_answer(m, raw).citations[0].meeting_id == m.id,
        single_answer(m, raw).citations[0].title == m.title,
        single_answer(m, raw).citations[0].ts.len() == 0,
{
}

/// A failure of the model ends a run, and is passed on as it is; a reply never makes a run fail.
pub proof fn failures_are_passed_on(run: RunView, ms: Seq<MeetingView>, e: Seq<char>, raw: Seq<char>)
    ensures
        run.after_attempt(ms, Err(e)) == TurnView::Failed(e),
        run.after_attempt(ms, Ok(raw)) !is Failed,
{
}

/// The object in a reply is the action: it begins at the first opening brace and ends at the first closing one
/// with which it parses, whatever stands before and behind it.
pub proof fn the_object_in_a_reply_is_the_action(
    raw: Seq<char>,
    before: Seq<char>,
    object: Seq<char>,
    after: Seq<char>,
)
    requires
        trimmed(raw) == before + object + after,
        !before.contains('{'),
        object.len() >= 2,
        object[0] == '{',
        object.last() == '}',
        json_parsed(object) is Some,
        forall|n: int|
            2 <= n < object.len() && object[n - 1] == '}' ==> json_parsed(#[trigger] object.take(n))
                is None,
    ensures
        parsed_action(raw) == action_of(trimmed(raw), json_parsed(object)),
{
    let s = before + object + after;
    let a = before.len() as int;
    let end = a + object.len();
    assert(s[a] == object[0]);
    assert(s.take(a) =~= before);
    braced_parts_begin_at_the_first_brace(s, a);
    assert(s.subrange(a, end) =~= object);
    assert(s[end - 1] == object.last());
    assert(braced_at(s, a, end, object));
    let parts = braced(s);
    let k = choose|k: int| 0 <= k < parts.len() && parts[k] == object;
    let parses = |p: Seq<char>| json_parsed(p) is Some;
    lemma_first_from(parts, parses, 0);
    assert(parses(parts[k]));
    let i = first_from(parts, parses, 0)->0;
    if i < k {
        assert(braced_before(s, a, s.len() as int, parts[i]));
        let e = choose|e: int| e <= s.len() && #[trigger] braced_at(s, a, e, parts[i]);
        assert(parts[i].len() < parts[k].len());
        assert(parts[i].len() == e - a);
        let n = e - a;
        assert(parts[i] =~= object.take(n));
        assert(object[n - 1] == s[e - 1]);
        assert(parses(parts[i]));
    }
}

/// What each citation of a list says is seen whole.
pub proof fn citations_are_seen_whole(v: Seq<Citation>, i: int)
    requires
        0 <= i < v.len(),
    ensures
        citation_views(v).len() == v.len(),
        citation_views(v)[i].meeting_id == v[i].meeting_id@,
        citation_views(v)[i].title == v[i].title@,
        citation_views(v)[i].ts == v[i].ts@,
{
}

/// The index lists the meetings one under the other, in order: with one more meeting it has one line more at
/// its end, up to forty; a later meeting is not listed.
pub proof fn the_index_grows_by_a_line(ms: Seq<MeetingView>, m: MeetingView)
    ensures
        agent_system(Seq::empty()) == SYSTEM_AGENT@,
        ms.len() >= 40 ==> agent_system(ms.push(m)) == agent_system(ms),
        ms.len() < 40 ==> agent_system(ms.push(m)) == agent_system(ms) + (if ms.len() > 0 {
            "\n"@
        } else {
            Seq::empty()
        }) + "- "@ + m.id + " \u{2014} "@ + m.title + " \u{2014} "@ + m.date + " \u{2014} "@ + m.blurb(160),
{
    let none = Seq::<MeetingView>::empty();
    assert(index_lines(at_most(meeting_index(none), MAX_INDEX as nat)) =~= Seq::empty());
    assert(SYSTEM_AGENT@ + Seq::<char>::empty() =~= SYSTEM_AGENT@);
    let ls = index_lines(at_most(meeting_index(ms), MAX_INDEX as nat));
    let more = index_lines(at_most(meeting_index(ms.push(m)), MAX_INDEX as nat));
    if ms.len() >= 40 {
        assert(more =~= ls);
    } else {
        let line = index_line(meeting_index(ms.push(m))[ms.len() as int]);
        assert(more =~= ls.push(line));
        joined_adds_a_part(ls, line, "\n"@);
        let gap = if ms.len() > 0 {
            "\n"@
        } else {
            Seq::empty()
        };
        assert(joined(more, "\n"@) =~= joined(ls, "\n"@) + gap + line);
        assert(agent_system(ms.push(m)) =~= agent_system(ms) + gap + "- "@ + m.id + " \u{2014} "@
            + m.title + " \u{2014} "@ + m.date + " \u{2014} "@ + m.blurb(160));
    }
}

/// Hits are cited in their order, each as if it had been added alone.
pub proof fn hits_are_cited_in_order(cs: Seq<CitationView>, hits: Seq<HitView>, h: HitView)
    ensures
        with_hits(cs, Seq::empty()) == cs,
        ({
            let before = with_hits(cs, hits);
            let after = with_hits(cs, hits.push(h));
            if before.len() < 8 && !cited(before, h.meeting_id, h.ts) {
                after == before.push(
                    CitationView { meeting_id: h.meeting_id, title: h.meeting_title, ts: h.ts },
                )
            } else {
                after == before
            }
        }),
{
    assert(hits.push(h).drop_last() =~= hits);
    citations_are_added_once(with_hits(cs, hits), hit_citation_of(h));
}

// ---- which model to ask -------------------------------------------------------------------------------

/// The settings of a custom OpenAI-compatible server.
#[derive(Debug)]
pub struct CustomOpenAi {
    pub endpoint: String,
    pub api_key: Option<String>,
    /// Nucleus sampling, as the bits of a single-precision number.
    pub top_p: Option<u32>,
}

/// The kind of a provider, with what the stored settings say about it.
#[derive(Debug)]
pub enum ProviderSettings {
    /// A local server, with its endpoint where one is set.
    Ollama(Option<String>),
    /// The model that comes with the app.
    BuiltInAI,
    /// A custom server, with its configuration, if reading it worked and there is one.
    CustomOpenAI(Result<Option<CustomOpenAi>, String>),
    /// Any provider that needs an API key, with the key, if reading it worked and there is one.
    Keyed(Result<Option<String>, String>),
}

/// The resolved configuration of the model.
#[derive(Debug)]
pub struct LlmRunner {
    pub model_name: String,
    pub api_key: String,
    pub ollama_endpoint: Option<String>,
    pub custom_openai_endpoint: Option<String>,
    /// Nucleus sampling, as the bits of a single-precision number.
    pub top_p: Option<u32>,
}

/// What a configuration says.
pub struct RunnerView {
    pub model_name: Seq<char>,
    pub api_key: Seq<char>,
    pub ollama_endpoint: Option<Seq<char>>,
    pub custom_openai_endpoint: Option<Seq<char>>,
    pub top_p: Option<u32>,
}

impl View for LlmRunner {
    type V = RunnerView;

    open spec fn view(&self) -> RunnerView {
        RunnerView {
            model_name: self.model_name@,
            api_key: self.api_key@,
            ollama_endpoint: opt_text(self.ollama_endpoint),
            custom_openai_endpoint: opt_text(self.custom_openai_endpoint),
            top_p: self.top_p,
        }
    }
}

/// The configuration that settings resolve to, or what is wrong with them.
pub open spec fn resolved_runner(
    settings: ProviderSettings,
    provider: Seq<char>,
    model: Seq<char>,
) -> Result<RunnerView, Seq<char>> {
    let plain = RunnerView {
        model_name: model,
        api_key: Seq::empty(),
        ollama_endpoint: None,
        custom_openai_endpoint: None,
        top_p: None,
    };
    match settings {
        ProviderSettings::Ollama(endpoint) => Ok(
            RunnerView { ollama_endpoint: opt_text(endpoint), ..plain },
        ),
        ProviderSettings::BuiltInAI => Ok(plain),
        ProviderSettings::CustomOpenAI(Ok(Some(c))) => Ok(
            RunnerView {
                api_key: match c.api_key {
                    Some(k) => k@,
                    None => Seq::empty(),
                },
                custom_openai_endpoint: Some(c.endpoint@),
                top_p: c.top_p,
                ..plain
            },
        ),
        ProviderSettings::CustomOpenAI(Ok(None)) => Err(
            "Custom OpenAI provider selected but no configuration found"@,
        ),
        ProviderSettings::CustomOpenAI(Err(e)) => Err(
            "Failed to retrieve custom OpenAI config: "@ + e@,
        ),
        ProviderSettings::Keyed(Ok(Some(k))) => if k@.len() > 0 {
            Ok(RunnerView { api_key: k@, ..plain })
        } else {
            Err("API key not found for "@ + provider)
        },
        ProviderSettings::Keyed(Ok(None)) => Err("API key not found for "@ + provider),
        ProviderSettings::Keyed(Err(e)) => Err(
            "Failed to retrieve API key for "@ + provider + ": "@ + e@,
        ),
    }
}

impl LlmRunner {
    /// Resolve the API key, the endpoints and the sampling from the stored settings.
    pub fn resolve(settings: ProviderSettings, provider: &str, model: &str) -> (r: Result<
        Self,
        String,
    >)
        ensures
            match r {
                Ok(runner) => resolved_runner(settings, provider@, model@) == Ok::<
                    RunnerView,
                    Seq<char>,
                >(runner@),
                Err(e) => resolved_runner(settings, provider@, model@) == Err::<
                    RunnerView,
                    Seq<char>,
                >(e@),
            },
    {
        let mut runner = LlmRunner {
            model_name: model.to_owned(),
            api_key: String::new(),
            ollama_endpoint: None,
            custom_openai_endpoint: None,
            top_p: None,
        };
        match settings {
            ProviderSettings::Ollama(endpoint) => {
                runner.ollama_endpoint = endpoint;
                Ok(runner)
            },
            ProviderSettings::BuiltInAI => Ok(runner),
            ProviderSettings::CustomOpenAI(Ok(Some(c))) => {
                let CustomOpenAi { endpoint, api_key, top_p } = c;
                runner.api_key = match api_key {
                    Some(k) => k,
                    None => String::new(),
                };
                runner.custom_openai_endpoint = Some(endpoint);
                runner.top_p = top_p;
                Ok(runner)
            },
            ProviderSettings::CustomOpenAI(Ok(None)) => Err(
                "Custom OpenAI provider selected but no configuration found".to_owned(),
            ),
            ProviderSettings::CustomOpenAI(Err(e)) => {
                let mut message = "Failed to retrieve custom OpenAI config: ".to_owned();
                message.append(e.as_str());
                Err(message)
            },
            ProviderSettings::Keyed(Ok(key)) => {
                if let Some(k) = key {
                    if !k.as_str().is_empty() {
                        runner.api_key = k;
                        return Ok(runner);
                    }
                }
                let mut message = "API key not found for ".to_owned();
                message.append(provider);
                Err(message)
            },
            ProviderSettings::Keyed(Err(e)) => {
                let mut message = "Failed to retrieve API key for ".to_owned();
                message.append(provider);
                message.append(": ");
                message.append(e.as_str());
                Err(message)
            },
        }
    }
}

/// A key that is there is used, and nothing goes on without one; the local providers need none.
pub proof fn keys_are_used(provider: Seq<char>, model: Seq<char>, key: String, endpoint: Option<String>)
    ensures
        ({
            let keyed = resolved_runner(ProviderSettings::Keyed(Ok(Some(key))), provider, model);
            &&& key@.len() > 0 ==> keyed is Ok && keyed->Ok_0.api_key == key@ && keyed->Ok_0.model_name
                == model && keyed->Ok_0.ollama_endpoint is None
                && keyed->Ok_0.custom_openai_endpoint is None && keyed->Ok_0.top_p is None
            &&& key@.len() == 0 ==> keyed is Err
        }),
        resolved_runner(ProviderSettings::Keyed(Ok(None)), provider, model) is Err,
        ({
            let local = resolved_runner(ProviderSettings::Ollama(endpoint), provider, model);
            local is Ok && local->Ok_0.model_name == model && local->Ok_0.ollama_endpoint == opt_text(
                endpoint,
            ) && local->Ok_0.api_key.len() == 0 && local->Ok_0.custom_openai_endpoint is None
                && local->Ok_0.top_p is None
        }),
        ({
            let own = resolved_runner(ProviderSettings::BuiltInAI, provider, model);
            own is Ok && own->Ok_0.model_name == model && own->Ok_0.api_key.len() == 0
                && own->Ok_0.ollama_endpoint is None && own->Ok_0.custom_openai_endpoint is None
        }),
{
}

/// A custom server is reached at its own endpoint, with its own key and sampling; without a configuration
/// nothing goes on.
pub proof fn custom_servers_are_used(c: CustomOpenAi, provider: Seq<char>, model: Seq<char>)
    ensures
        ({
            let r = resolved_runner(ProviderSettings::CustomOpenAI(Ok(Some(c))), provider, model);
            &&& r is Ok
            &&& r->Ok_0.model_name == model
            &&& r->Ok_0.custom_openai_endpoint == Some(c.endpoint@)
            &&& r->Ok_0.top_p == c.top_p
            &&& r->Ok_0.ollama_endpoint is None
            &&& c.api_key matches Some(k) ==> r->Ok_0.api_key == k@
            &&& c.api_key is None ==> r->Ok_0.api_key.len() == 0
        }),
        resolved_runner(ProviderSettings::CustomOpenAI(Ok(None)), provider, model) is Err,
{
}

/// What went wrong in reading the settings is passed on.
pub proof fn settings_errors_are_passed_on(e: String, provider: Seq<char>, model: Seq<char>)
    ensures
        resolved_runner(ProviderSettings::Keyed(Err(e)), provider, model) matches Err(m) && occurs(
            m,
            e@,
        ) && occurs(m, provider),
        resolved_runner(ProviderSettings::CustomOpenAI(Err(e)), provider, model) matches Err(m)
            && occurs(m, e@),
{
    let a = "Failed to retrieve API key for "@ + provider + ": "@ + e@;
    let at = ("Failed to retrieve API key for "@ + provider + ": "@).len() as int;
    assert(a.subrange(at, at + e@.len()) =~= e@);
    let there = "Failed to retrieve API key for "@.len() as int;
    assert(a.subrange(there, there + provider.len()) =~= provider);
    let b = "Failed to retrieve custom OpenAI config: "@ + e@;
    let from = "Failed to retrieve custom OpenAI config: "@.len() as int;
    assert(b.subrange(from, from + e@.len()) =~= e@);
}

} // verus!

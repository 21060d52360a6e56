use meetily::chat::retrieval::{
    build_line_segments, build_meeting, fmt_ts, is_stopword, load_corpus, needs_blob, query_terms, segment_stats,
    sort_segments, terms_of_tokens, tokenize, Corpus, Meeting, MeetingRow, Segment, SegmentRow, StartTime,
};

fn seg(text: &str, ts: &str, speaker: &str, order: i128) -> Segment {
    Segment { text: text.to_string(), ts: ts.to_string(), speaker: speaker.to_string(), order }
}

fn meeting(id: &str, title: &str, segments: Vec<Segment>, summary: &str) -> Meeting {
    Meeting {
        id: id.to_string(),
        title: title.to_string(),
        date: "2026-07-06".to_string(),
        segments,
        summary: summary.to_string(),
    }
}

fn sample() -> Corpus {
    Corpus::new(vec![
        meeting(
            "m-01",
            "Budget Review",
            vec![
                seg("The budget for Q3 is fixed.", "00:05", "me", 5),
                seg("Security first!", "00:12", "", 12),
            ],
            "",
        ),
        meeting("m-02", "Security Sync", vec![seg("Budget, budget and security.", "01:00", "them", 60)], "All good."),
        meeting("m-03", "Empty", vec![], ""),
    ])
}

fn strings(v: &[&str]) -> Vec<String> {
    v.iter().map(|s| s.to_string()).collect()
}

// ---- meetings

#[test]
fn transcripts_have_a_line_for_each_segment() {
    let m = meeting("m", "T", vec![seg("hi", "00:01", "me", 1), seg("ho", "00:02", "", 2)], "");
    assert_eq!(m.full_text(), "[00:01] me: hi\n[00:02] ho");
    assert!(m.segments.iter().all(|s| m.full_text().contains(&s.line())));
    assert_eq!(meeting("m", "T", vec![], "").full_text(), "");
}

#[test]
fn blurbs_take_the_summary_first() {
    let m = meeting("m", "T", vec![seg("hi  there", "00:01", "me", 1)], " a\n b  c ");
    assert_eq!(m.blurb(160), "a b c");
    assert_eq!(m.blurb(3), "a b\u{2026}");
    let bare = meeting("m", "T", vec![seg("hi  there", "00:01", "me", 1)], " \n ");
    assert_eq!(bare.blurb(160), "[00:01] me: hi there");
}

// ---- tokens and terms

#[test]
fn tokens_are_lower_case_runs() {
    assert_eq!(tokenize("HeLLo, WORLD's 2nd"), strings(&["hello", "world's", "2nd"]));
    assert_eq!(tokenize("\u{212a}elvin"), strings(&["kelvin"]));
    assert_eq!(tokenize("\u{c9}T\u{c9}"), strings(&["t"]));
    assert_eq!(tokenize(" -- "), Vec::<String>::new());
}

#[test]
fn stop_words_are_stop_words() {
    for w in [
        "the", "a", "an", "of", "to", "in", "on", "and", "or", "what", "did", "we", "was", "is", "about", "for", "how",
        "when", "who", "which", "that", "our", "do", "does", "with",
    ] {
        assert!(is_stopword(w), "{}", w);
    }
    assert!(!is_stopword("budget"));
    assert!(!is_stopword("The"));
    assert!(!is_stopword(""));
}

#[test]
fn queries_keep_what_is_salient() {
    assert_eq!(query_terms("What did we decide about the Q3 budget? Budget!"), strings(&["decide", "q3", "budget"]));
    assert_eq!(query_terms("x budget y"), strings(&["budget"]));
}

#[test]
fn recall_never_collapses() {
    assert_eq!(query_terms("what is the what"), strings(&["what", "is", "the"]));
    assert_eq!(query_terms("a b a"), strings(&["a", "b"]));
    assert_eq!(query_terms("?!"), Vec::<String>::new());
    assert_eq!(terms_of_tokens(strings(&["to", "me", "to"])), strings(&["me"]));
}

// ---- search

#[test]
fn counts_what_scores_depend_on() {
    let stats = segment_stats(&strings(&["a", "b", "a", "c"]), &strings(&["a", "c", "x"]));
    assert_eq!(stats.tokens, 4);
    assert_eq!(stats.counts, vec![2, 1, 0]);
    assert_eq!(stats.distinct, 2);
    let corpus = sample();
    assert_eq!(corpus.segment_count(), 3);
    assert_eq!(corpus.token_count(), 6 + 2 + 4);
    let all = corpus.query_stats("security budget");
    assert_eq!(all.len(), 3);
    assert_eq!(all[0].counts, vec![0, 1]);
    assert_eq!(all[1].counts, vec![1, 0]);
    assert_eq!(all[2].counts, vec![1, 2]);
    assert_eq!((all[2].tokens, all[2].distinct), (4, 2));
}

#[test]
fn search_ranks_by_score() {
    let corpus = sample();
    let hits = corpus.search("security budget", &vec![10, 20, 30], 8);
    let places: Vec<(&str, &str)> = hits.iter().map(|h| (h.meeting_id.as_str(), h.ts.as_str())).collect();
    assert_eq!(places, vec![("m-02", "01:00"), ("m-01", "00:12"), ("m-01", "00:05")]);
    assert_eq!(hits[0].meeting_title, "Security Sync");
    assert_eq!(hits[0].speaker, "them");
    assert_eq!(hits[0].snippet, "Budget, budget and security.");
    assert_eq!(hits.iter().map(|h| h.score).collect::<Vec<_>>(), vec![30, 20, 10]);
}

#[test]
fn equal_scores_keep_the_order_of_the_corpus() {
    let hits = sample().search("security budget", &vec![7, 7, 7], 2);
    let places: Vec<&str> = hits.iter().map(|h| h.ts.as_str()).collect();
    assert_eq!(places, vec!["00:05", "00:12"]);
}

#[test]
fn search_finds_matching_segments_only_and_all_of_them() {
    let corpus = sample();
    let hits = corpus.search("budget", &vec![1, 9, 2], 8);
    assert_eq!(hits.iter().map(|h| h.ts.as_str()).collect::<Vec<_>>(), vec!["01:00", "00:05"]);
    assert!(corpus.search("nothing", &vec![1, 2, 3], 8).is_empty());
    assert!(corpus.search("?", &vec![1, 2, 3], 8).is_empty());
    assert!(corpus.search("budget", &vec![1, 2, 3], 0).is_empty());
    let terms = strings(&["fixed"]);
    assert_eq!(corpus.search_terms(&terms, &vec![0, 0, 0], 8).len(), 1);
}

#[test]
fn hits_show_long_segments_clipped() {
    let long = format!("budget {}", "x".repeat(400));
    let corpus = Corpus::new(vec![meeting("m", "T", vec![seg(&long, "", "", 0)], "")]);
    let hits = corpus.search("budget", &vec![1], 8);
    assert_eq!(hits[0].snippet.chars().count(), 321);
    assert!(hits[0].snippet.ends_with('\u{2026}'));
}

#[test]
fn what_is_found_can_be_read() {
    let corpus = sample();
    for hit in corpus.search("budget security", &vec![1, 2, 3], 8) {
        assert_eq!(corpus.get(&hit.meeting_id).unwrap().id, hit.meeting_id);
    }
}

// ---- reading

#[test]
fn the_index_lists_every_meeting() {
    let rows = sample().list_meetings();
    assert_eq!(rows.iter().map(|r| r.id.as_str()).collect::<Vec<_>>(), vec!["m-01", "m-02", "m-03"]);
    assert_eq!(rows[1].topic, "All good.");
    assert_eq!(rows[0].topic, "[00:05] me: The budget for Q3 is fixed. [00:12] Security first!");
    assert_eq!(rows[2].topic, "");
    assert_eq!((rows[0].title.as_str(), rows[0].date.as_str()), ("Budget Review", "2026-07-06"));
}

#[test]
fn ids_titles_and_parts_of_ids_resolve() {
    let corpus = sample();
    assert_eq!(corpus.get("m-02").unwrap().id, "m-02");
    assert_eq!(corpus.get("security").unwrap().id, "m-02");
    assert_eq!(corpus.get("BUDGET rev").unwrap().id, "m-01");
    assert_eq!(corpus.get("m-0").unwrap().id, "m-01");
    assert!(corpus.get("zzz").is_none());
    assert!(corpus.get("M-02").is_none());
    assert_eq!(corpus.get("").unwrap().id, "m-01");
}

#[test]
fn an_exact_id_wins_over_titles() {
    let corpus = Corpus::new(vec![meeting("a", "All about b", vec![], ""), meeting("b", "Other", vec![], "")]);
    assert_eq!(corpus.get("b").unwrap().title, "Other");
    assert_eq!(corpus.get("about").unwrap().id, "a");
}

#[test]
fn lookups_go_by_the_given_lower_case_forms() {
    let corpus = sample();
    let titles = strings(&["one", "two", "three"]);
    assert_eq!(corpus.resolve(&titles, "Two", "two").unwrap().id, "m-02");
    assert_eq!(corpus.resolve(&titles, "m-03", "one").unwrap().id, "m-03");
    assert!(corpus.resolve(&titles, "Two", "TWO").is_none());
}

#[test]
fn titles_resolve_whatever_the_letter_case() {
    let corpus = Corpus::new(vec![meeting("x", "\u{c9}t\u{e9} Planning", vec![], "")]);
    assert_eq!(corpus.get("\u{e9}T\u{c9} plan").unwrap().id, "x");
}

#[test]
fn meetings_are_read_in_full_or_by_summary() {
    let corpus = sample();
    assert_eq!(
        corpus.read_meeting("m-01", "full"),
        "# Budget Review (2026-07-06)\n\n[00:05] me: The budget for Q3 is fixed.\n[00:12] Security first!"
    );
    assert_eq!(corpus.read_meeting("m-02", "summary"), "# Security Sync (2026-07-06) \u{2014} summary\n\nAll good.");
    assert_eq!(
        corpus.read_meeting("m-01", "anything"),
        "# Budget Review (2026-07-06) \u{2014} summary\n\n[00:05] me: The budget for Q3 is fixed.\n[00:12] Security first!"
    );
    assert_eq!(corpus.read_meeting("zzz", "full"), "(no meeting matching 'zzz')");
}

#[test]
fn a_long_transcript_stands_in_for_a_summary_clipped() {
    let corpus = Corpus::new(vec![meeting("m", "T", vec![seg(&"y".repeat(3000), "0", "", 0)], "")]);
    let text = corpus.read_meeting("m", "summary");
    let body = text.split("\n\n").nth(1).unwrap();
    assert_eq!(body.chars().count(), 2001);
    assert!(body.starts_with("[0] yyy") && body.ends_with('\u{2026}'));
}

// ---- time stamps

#[test]
fn display_stamps_are_minutes_and_seconds() {
    assert_eq!(fmt_ts(Some(0), None), "00:00");
    assert_eq!(fmt_ts(Some(65), None), "01:05");
    assert_eq!(fmt_ts(Some(6000), None), "100:00");
    assert_eq!(fmt_ts(Some(-5), None), "00:-5");
    assert_eq!(fmt_ts(Some(-75), None), "-1:-15");
    assert_eq!(fmt_ts(Some(i64::MIN), None), "-153722867280912930:-8");
    assert_eq!(fmt_ts(Some(3), Some(&"raw".to_string())), "00:03");
    assert_eq!(fmt_ts(None, Some(&"12:34".to_string())), "12:34");
    assert_eq!(fmt_ts(None, None), "");
    for s in [0i64, 59, 60, -59, -60, 359999, i64::MAX, i64::MIN] {
        assert_eq!(fmt_ts(Some(s), None), format!("{:02}:{:02}", s / 60, s % 60));
    }
}

// ---- loading

fn row(text: Option<&str>, start: Option<(i64, i64)>, speaker: Option<&str>, position: i64) -> SegmentRow {
    SegmentRow {
        transcript: text.map(|t| t.to_string()),
        timestamp: Some("raw".to_string()),
        start: start.map(|(secs, order)| StartTime { secs, order }),
        speaker: speaker.map(|t| t.to_string()),
        position,
    }
}

fn meeting_row(title: &str, segments: Vec<SegmentRow>, blob: Option<&str>, summary: Option<&str>) -> MeetingRow {
    MeetingRow {
        id: "m".to_string(),
        title: title.to_string(),
        created_at: 1783296000,
        segments,
        blob: blob.map(|t| t.to_string()),
        summary: summary.map(|t| t.to_string()),
    }
}

#[test]
fn rows_become_segments_in_order_of_time() {
    let m = build_meeting(&meeting_row(
        "Sync",
        vec![
            row(Some(" late "), Some((90, 900)), Some(" them "), 0),
            row(Some("early"), Some((5, 50)), None, 1),
            row(Some("  "), Some((1, 10)), Some("me"), 2),
            row(None, None, None, 3),
            row(Some("middle"), None, Some("me"), 400),
        ],
        Some("unused"),
        Some("{\"title\": \"Notes\", \"text\": \"Done.\"}"),
    ));
    assert_eq!(m.title, "Sync");
    assert_eq!(m.date, "2026-07-06");
    assert_eq!(m.summary, "Notes\nDone.");
    let shown: Vec<(&str, &str, &str)> =
        m.segments.iter().map(|s| (s.text.as_str(), s.ts.as_str(), s.speaker.as_str())).collect();
    assert_eq!(shown, vec![("early", "00:05", ""), ("middle", "raw", "me"), ("late", "01:30", "them")]);
}

#[test]
fn loaded_segments_are_in_order_and_not_blank() {
    let m = build_meeting(&meeting_row(
        "x",
        vec![row(Some("c"), None, None, 3), row(Some("a"), None, None, 1), row(Some(" "), None, None, 0), row(Some("b"), None, None, 1)],
        None,
        None,
    ));
    assert_eq!(m.segments.iter().map(|s| s.text.as_str()).collect::<Vec<_>>(), vec!["a", "b", "c"]);
    assert!(m.segments.windows(2).all(|w| w[0].order <= w[1].order));
}

#[test]
fn repeated_segments_are_all_loaded() {
    let m = build_meeting(&meeting_row(
        "x",
        vec![row(Some("again"), None, None, 2), row(Some("first"), None, None, 1), row(Some("again"), None, None, 2)],
        None,
        None,
    ));
    assert_eq!(m.segments.iter().map(|s| s.text.as_str()).collect::<Vec<_>>(), vec!["first", "again", "again"]);
}

#[test]
fn the_transcript_in_one_piece_stands_in() {
    let blank = vec![row(Some(" "), None, None, 0)];
    assert!(needs_blob(&blank));
    let m = build_meeting(&meeting_row("  ", blank, Some("one\n\n two \n"), None));
    assert_eq!(m.title, "(untitled)");
    assert_eq!(m.summary, "");
    assert_eq!(m.segments.iter().map(|s| (s.text.as_str(), s.order)).collect::<Vec<_>>(), vec![("one", 0), ("two", 2)]);
    assert!(m.segments.iter().all(|s| s.ts.is_empty() && s.speaker.is_empty()));
    assert!(!needs_blob(&vec![row(Some("x"), None, None, 0)]));
    assert!(build_meeting(&meeting_row("t", vec![], None, None)).segments.is_empty());
    assert_eq!(build_line_segments("a\nb").len(), 2);
}

#[test]
fn sorting_segments_is_stable() {
    let sorted = sort_segments(&vec![seg("b", "", "", 2), seg("a", "", "", 1), seg("c", "", "", 2)]);
    assert_eq!(sorted.iter().map(|s| s.text.as_str()).collect::<Vec<_>>(), vec!["a", "b", "c"]);
}

#[test]
fn corpora_are_loaded_in_the_order_of_the_rows() {
    let mut second = meeting_row("two", vec![], None, Some("plain words"));
    second.id = "n".to_string();
    let meetings = load_corpus(&vec![meeting_row("one", vec![], None, None), second]);
    assert_eq!(meetings.iter().map(|m| (m.id.as_str(), m.title.as_str())).collect::<Vec<_>>(), vec![("m", "one"), ("n", "two")]);
    assert_eq!(meetings[1].summary, "plain words");
}

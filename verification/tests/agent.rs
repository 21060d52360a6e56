use meetily::chat::agent::{
    action_from, agentic_answer, braced_parts, clean_response, hit_citation, meeting_citation, parse_action,
    push_citation, single_meeting_answer, single_meeting_call, AgentRun, AgentTurn, CustomOpenAi, LlmRunner,
    ProviderSettings, MAX_STEPS, NO_THINK,
};
use meetily::chat::retrieval::{Citation, Corpus, Meeting, SearchHit, Segment};

fn meeting(id: &str, title: &str, lines: &[&str], summary: &str) -> Meeting {
    Meeting {
        id: id.to_string(),
        title: title.to_string(),
        date: "2026-07-06".to_string(),
        segments: lines
            .iter()
            .enumerate()
            .map(|(i, t)| Segment { text: t.to_string(), ts: format!("00:0{}", i), speaker: String::new(), order: i as i128 })
            .collect(),
        summary: summary.to_string(),
    }
}

fn sample() -> Corpus {
    Corpus::new(vec![
        meeting("m-1", "Budget", &["the budget is fixed", "budget again"], ""),
        meeting("m-2", "Other", &["nothing here"], "Short."),
    ])
}

fn cite(id: &str, ts: &str) -> Citation {
    Citation { meeting_id: id.to_string(), title: "t".to_string(), ts: ts.to_string() }
}

fn ok(s: &str) -> Result<String, String> {
    Ok(s.to_string())
}

fn ask(turn: AgentTurn) -> AgentRun {
    match turn {
        AgentTurn::Ask(run) => run,
        _ => panic!("the loop should ask again"),
    }
}

// ---- replies

#[test]
fn thinking_blocks_are_stripped() {
    assert_eq!(clean_response("<think>plan\nmore</think> Answer. "), "Answer.");
    assert_eq!(clean_response("a<think>x</think>b<think>y</think>c"), "abc");
    assert_eq!(clean_response("a<think>x<think>y</think>z</think>b"), "az</think>b");
    assert_eq!(clean_response("<think></think>"), "");
    assert_eq!(clean_response("</think>x<think>"), "</think>x<think>");
    assert_eq!(clean_response("$0 <think>$1</think>\u{e9}"), "$0 \u{e9}");
    assert_eq!(clean_response("<THINK>x</THINK>"), "<THINK>x</THINK>");
}

#[test]
fn text_without_blocks_is_only_trimmed() {
    assert_eq!(clean_response("  plain </think> text\n"), "plain </think> text");
    assert_eq!(clean_response(""), "");
}

#[test]
fn actions_are_parsed() {
    let a = parse_action("Sure: {\"action\": \" search \", \"query\": \"q3\"} done");
    assert_eq!((a.action.as_str(), a.query.as_str(), a.mode.as_str()), ("search", "q3", "summary"));
    let a = parse_action("{\"action\":\"read\",\"meeting_id\":\"m-1\",\"mode\":\"full\"}");
    assert_eq!((a.action.as_str(), a.meeting_id.as_str(), a.mode.as_str()), ("read", "m-1", "full"));
    let a = parse_action("{\"answer\": \" yes \"}");
    assert_eq!((a.action.as_str(), a.answer.as_str()), ("final", "yes"));
    let a = parse_action("{\"action\": 3, \"query\": null}");
    assert_eq!((a.action.as_str(), a.query.as_str(), a.answer.as_str()), ("final", "", ""));
}

#[test]
fn what_does_not_parse_is_the_answer() {
    for raw in ["  just words ", "{broken", "} {", "{]", "{not json} {\"action\":\"search\"}", "{\"a\": }"] {
        let a = parse_action(raw);
        assert_eq!((a.action.as_str(), a.answer.as_str(), a.mode.as_str()), ("final", raw.trim(), "summary"));
    }
    assert_eq!(parse_action("").answer, "");
}

#[test]
fn the_first_object_is_the_one_parsed() {
    let two = "{\"action\":\"search\",\"query\":\"x\"} {\"action\":\"final\",\"answer\":\"y\"}";
    let a = parse_action(two);
    assert_eq!((a.action.as_str(), a.query.as_str(), a.answer.as_str()), ("search", "x", ""));
    let a = parse_action("{\"a\":1} and {\"answer\":\"y\"}");
    assert_eq!((a.action.as_str(), a.answer.as_str()), ("final", ""));
    let a = parse_action("{\"action\":\"search\",\"query\":\"a } b\",\"more\":{\"n\":1}} }");
    assert_eq!((a.action.as_str(), a.query.as_str()), ("search", "a } b"));
}

#[test]
fn what_follows_the_first_object_does_not_matter() {
    let object = "{\"action\":\"read\",\"meeting_id\":\"m\"}";
    for more in ["", " }", " {", " {\"action\":\"final\"}", " words"] {
        let a = parse_action(&format!("so: {}{}", object, more));
        assert_eq!((a.action.as_str(), a.meeting_id.as_str()), ("read", "m"), "{}", more);
    }
}

#[test]
fn parts_begin_at_the_first_brace_and_grow() {
    assert_eq!(braced_parts("x{a{b}c}y"), vec!["{a{b}".to_string(), "{a{b}c}".to_string()]);
    assert_eq!(braced_parts("}{}"), vec!["{}".to_string()]);
    assert!(braced_parts("}{").is_empty());
    assert!(braced_parts("{").is_empty());
    assert!(braced_parts("").is_empty());
    assert_eq!(action_from("whole", &None).answer, "whole");
}

// ---- citations

#[test]
fn places_are_cited_once_and_at_most_eight() {
    let mut list = Vec::new();
    push_citation(&mut list, cite("a", "1"));
    push_citation(&mut list, cite("a", "1"));
    push_citation(&mut list, cite("a", "2"));
    push_citation(&mut list, cite("b", "1"));
    assert_eq!(list.len(), 3);
    for i in 0..20 {
        push_citation(&mut list, cite("c", &i.to_string()));
    }
    assert_eq!(list.len(), 8);
    assert_eq!((list[2].meeting_id.as_str(), list[7].ts.as_str()), ("b", "4"));
}

#[test]
fn citations_are_taken_from_hits_and_meetings() {
    let hit = SearchHit {
        meeting_id: "m".to_string(),
        meeting_title: "T".to_string(),
        ts: "00:01".to_string(),
        speaker: "me".to_string(),
        snippet: "s".to_string(),
        score: 1,
    };
    let c = hit_citation(&hit);
    assert_eq!((c.meeting_id.as_str(), c.title.as_str(), c.ts.as_str()), ("m", "T", "00:01"));
    let c = meeting_citation(&meeting("m", "T", &["x"], ""));
    assert_eq!((c.meeting_id.as_str(), c.title.as_str(), c.ts.as_str()), ("m", "T", ""));
}

// ---- one meeting

#[test]
fn a_single_meeting_goes_into_the_prompt_whole() {
    let call = single_meeting_call(&meeting("m", "T", &["x"], "S"), "why?");
    assert_eq!(
        call.system,
        format!(
            "You answer questions about ONE meeting, using only the transcript/summary below. {} Cite timestamps like [@ mm:ss] when quoting. If the answer isn't in it, say so.\n\n# T (2026-07-06)\n\n## Summary\nS\n\n## Transcript\n[00:00] x",
            NO_THINK
        )
    );
    assert_eq!((call.user.as_str(), call.max_tokens, call.temperature_tenths), ("why?", 1536, 2));
    let bare = single_meeting_call(&meeting("m", "T", &["x"], ""), "");
    assert!(bare.system.ends_with("# T (2026-07-06)\n\n## Transcript\n[00:00] x"));
}

#[test]
fn a_long_meeting_is_shown_whole() {
    let long = "\u{e9}".repeat(40000);
    let summary = "s".repeat(30000);
    let m = meeting("m", "T", &[&long, "the end"], &summary);
    let call = single_meeting_call(&m, "q");
    assert!(call.system.ends_with(&m.full_text()));
    assert!(call.system.contains(&summary));
    assert_eq!(call.user, "q");
}

#[test]
fn a_single_meeting_is_its_own_citation() {
    let m = meeting("m", "T", &["x"], "");
    let a = single_meeting_answer(&m, ok("<think>hm</think> because ")).unwrap();
    assert_eq!(a.answer, "because");
    assert_eq!(a.citations.len(), 1);
    assert_eq!((a.citations[0].meeting_id.as_str(), a.citations[0].ts.as_str()), ("m", ""));
    assert_eq!(single_meeting_answer(&m, Err("offline".to_string())).unwrap_err(), "offline");
}

// ---- all meetings

#[test]
fn the_first_prompt_has_the_index_and_the_question() {
    let call = AgentRun::new(&sample(), "what about the budget?").call();
    assert!(call.system.starts_with("You answer questions about the user's recorded meetings. You cannot see the meetings directly \u{2014} you must"));
    assert!(call.system.ends_with(
        "Meeting index (id \u{2014} title \u{2014} date \u{2014} topic):\n- m-1 \u{2014} Budget \u{2014} 2026-07-06 \u{2014} [00:00] the budget is fixed [00:01] budget again\n- m-2 \u{2014} Other \u{2014} 2026-07-06 \u{2014} Short."
    ));
    assert_eq!(call.user, "QUESTION: what about the budget?\n\n\nRespond with ONE JSON action now.");
    assert_eq!((call.max_tokens, call.temperature_tenths), (640, 1));
}

#[test]
fn the_index_of_a_prompt_is_bounded() {
    let many: Vec<Meeting> = (0..50).map(|i| meeting(&format!("m{}", i), "T", &[], "s")).collect();
    let call = AgentRun::new(&Corpus::new(many), "q").call();
    assert_eq!(call.system.matches("\n- m").count(), 40);
    assert!(call.system.contains("- m39 \u{2014}") && !call.system.contains("- m40 \u{2014}"));
}

#[test]
fn searching_fills_the_scratchpad_and_cites() {
    let corpus = sample();
    let run = AgentRun::new(&corpus, "budget?");
    let search = match agentic_answer(run, &corpus, ok("{\"action\":\"search\",\"query\":\"budget\"}")) {
        AgentTurn::Search(s) => s,
        _ => panic!("the loop should search"),
    };
    assert_eq!(search.query(), "budget");
    let hits = search.hits(&corpus, &vec![3, 9, 0]);
    assert_eq!(hits.len(), 2);
    let run = search.found(&hits, Some("[hits]".to_string()));
    assert_eq!(
        run.call().user,
        "QUESTION: budget?\n\nACTION: search \"budget\"\nRESULTS: [hits]\n\n\nRespond with ONE JSON action now."
    );
    match agentic_answer(run, &corpus, ok("{\"action\":\"final\",\"answer\":\"It is fixed.\"}")) {
        AgentTurn::Done(a) => {
            assert_eq!(a.answer, "It is fixed.");
            let places: Vec<(&str, &str)> = a.citations.iter().map(|c| (c.meeting_id.as_str(), c.ts.as_str())).collect();
            assert_eq!(places, vec![("m-1", "00:01"), ("m-1", "00:00")]);
        },
        _ => panic!("the loop should be done"),
    }
}

#[test]
fn a_search_without_a_query_takes_the_question() {
    let corpus = sample();
    let turn = agentic_answer(AgentRun::new(&corpus, "unheard of"), &corpus, ok("{\"action\":\"search\"}"));
    let search = match turn {
        AgentTurn::Search(s) => s,
        _ => panic!("the loop should search"),
    };
    assert_eq!(search.query(), "unheard of");
    let hits = search.hits(&corpus, &vec![1, 1, 1]);
    assert!(hits.is_empty());
    let run = search.found(&hits, Some("[]".to_string()));
    assert!(run.call().user.contains("ACTION: search \"unheard of\"\nRESULTS: no matches\n\n"));
}

#[test]
fn hits_that_cannot_be_rendered_count_as_none() {
    let corpus = sample();
    let turn = agentic_answer(AgentRun::new(&corpus, "budget"), &corpus, ok("{\"action\":\"search\"}"));
    if let AgentTurn::Search(search) = turn {
        let hits = search.hits(&corpus, &vec![1, 1, 1]);
        assert!(search.found(&hits, None).call().user.contains("RESULTS: no matches"));
    } else {
        panic!("the loop should search");
    }
}

#[test]
fn reading_fills_the_scratchpad_and_cites() {
    let corpus = sample();
    let run = ask(agentic_answer(
        AgentRun::new(&corpus, "q"),
        &corpus,
        ok("{\"action\":\"read\",\"meeting_id\":\"Other\"}"),
    ));
    assert_eq!(
        run.call().user,
        "QUESTION: q\n\nACTION: read Other (summary)\nCONTENT: # Other (2026-07-06) \u{2014} summary\n\nShort.\n\n\nRespond with ONE JSON action now."
    );
    let run = ask(agentic_answer(run, &corpus, ok("{\"action\":\"read\",\"meeting_id\":\"zzz\",\"mode\":\"full\"}")));
    assert!(run.call().user.contains("ACTION: read zzz (full)\nCONTENT: (no meeting matching 'zzz')\n\n"));
    match agentic_answer(run, &corpus, ok("So it is.")) {
        AgentTurn::Done(a) => {
            assert_eq!(a.answer, "So it is.");
            assert_eq!(a.citations.len(), 1);
            assert_eq!(a.citations[0].meeting_id, "m-2");
        },
        _ => panic!("the loop should be done"),
    }
}

#[test]
fn a_read_is_cut_for_the_scratchpad() {
    let long = "z".repeat(20000);
    let corpus = Corpus::new(vec![meeting("m", "T", &[&long], "")]);
    let run = ask(agentic_answer(
        AgentRun::new(&corpus, "q"),
        &corpus,
        ok("{\"action\":\"read\",\"meeting_id\":\"m\",\"mode\":\"full\"}"),
    ));
    let user = run.call().user;
    let content = user.split("CONTENT: ").nth(1).unwrap();
    assert_eq!(content.split("\n\n\nRespond").next().unwrap().chars().count(), 8000);
}

#[test]
fn an_unknown_action_is_noted() {
    let corpus = sample();
    let run = ask(agentic_answer(AgentRun::new(&corpus, "q"), &corpus, ok("{\"action\":\"dance\"}")));
    assert_eq!(
        run.call().user,
        "QUESTION: q\n\nNOTE: unknown action; use search, read, or final.\n\n\nRespond with ONE JSON action now."
    );
}

#[test]
fn plain_replies_are_final_answers() {
    let corpus = sample();
    match agentic_answer(AgentRun::new(&corpus, "q"), &corpus, ok(" <think>x</think>I do not know. ")) {
        AgentTurn::Done(a) => {
            assert_eq!(a.answer, "I do not know.");
            assert!(a.citations.is_empty());
        },
        _ => panic!("the loop should be done"),
    }
}

#[test]
fn an_empty_final_answer_is_written_out() {
    let corpus = sample();
    let run = ask(agentic_answer(AgentRun::new(&corpus, "q"), &corpus, ok("{\"action\":\"final\",\"answer\":\" \"}")));
    assert!(run.is_closing());
    let call = run.call();
    assert_eq!(
        call.user,
        format!(
            "QUESTION: q\n\n\nWrite the complete final answer now, grounded in the retrieved content above, with [Meeting Title @ mm:ss] citations. {}",
            NO_THINK
        )
    );
    assert_eq!((call.max_tokens, call.temperature_tenths), (1536, 2));
    match agentic_answer(run, &corpus, ok("{\"action\":\"search\"}")) {
        AgentTurn::Done(a) => assert_eq!(a.answer, "{\"action\":\"search\"}"),
        _ => panic!("a closing run should be done"),
    }
}

#[test]
fn runs_end_after_six_actions() {
    let corpus = sample();
    let mut run = AgentRun::new(&corpus, "q");
    for step in 0..MAX_STEPS {
        assert!(!run.is_closing(), "{}", step);
        run = ask(agentic_answer(run, &corpus, ok("{\"action\":\"read\",\"meeting_id\":\"m-1\"}")));
    }
    assert!(run.is_closing());
    match agentic_answer(run, &corpus, ok("")) {
        AgentTurn::Done(a) => {
            assert_eq!(a.answer, "");
            assert_eq!(a.citations.len(), 1);
            assert_eq!(a.citations[0].title, "Budget");
        },
        _ => panic!("a closing run should be done"),
    }
}

#[test]
fn a_failing_model_ends_the_run() {
    let corpus = sample();
    match agentic_answer(AgentRun::new(&corpus, "q"), &corpus, Err("timeout".to_string())) {
        AgentTurn::Failed(e) => assert_eq!(e, "timeout"),
        _ => panic!("the failure should come through"),
    }
}

// ---- settings

#[test]
fn local_providers_need_no_key() {
    let r = LlmRunner::resolve(ProviderSettings::Ollama(Some("http://host".to_string())), "ollama", "qwen").unwrap();
    assert_eq!((r.model_name.as_str(), r.api_key.as_str()), ("qwen", ""));
    assert_eq!(r.ollama_endpoint.as_deref(), Some("http://host"));
    assert!(r.custom_openai_endpoint.is_none() && r.top_p.is_none());
    let r = LlmRunner::resolve(ProviderSettings::Ollama(None), "ollama", "qwen").unwrap();
    assert!(r.ollama_endpoint.is_none());
    let r = LlmRunner::resolve(ProviderSettings::BuiltInAI, "builtin-ai", "m").unwrap();
    assert_eq!((r.model_name.as_str(), r.api_key.as_str()), ("m", ""));
}

#[test]
fn keyed_providers_need_a_key() {
    let r = LlmRunner::resolve(ProviderSettings::Keyed(Ok(Some("k".to_string()))), "groq", "m").unwrap();
    assert_eq!(r.api_key, "k");
    let none = LlmRunner::resolve(ProviderSettings::Keyed(Ok(None)), "groq", "m");
    assert_eq!(none.unwrap_err(), "API key not found for groq");
    let empty = LlmRunner::resolve(ProviderSettings::Keyed(Ok(Some(String::new()))), "groq", "m");
    assert_eq!(empty.unwrap_err(), "API key not found for groq");
    let failed = LlmRunner::resolve(ProviderSettings::Keyed(Err("locked".to_string())), "groq", "m");
    assert_eq!(failed.unwrap_err(), "Failed to retrieve API key for groq: locked");
}

#[test]
fn a_custom_provider_needs_its_configuration() {
    let custom = CustomOpenAi {
        endpoint: "http://c".to_string(),
        api_key: Some("k".to_string()),
        top_p: Some(0.9f32.to_bits()),
    };
    let r = LlmRunner::resolve(ProviderSettings::CustomOpenAI(Ok(Some(custom))), "custom-openai", "m").unwrap();
    assert_eq!((r.custom_openai_endpoint.as_deref(), r.api_key.as_str()), (Some("http://c"), "k"));
    assert_eq!(r.top_p.map(f32::from_bits), Some(0.9));
    let bare = CustomOpenAi { endpoint: "e".to_string(), api_key: None, top_p: None };
    let r = LlmRunner::resolve(ProviderSettings::CustomOpenAI(Ok(Some(bare))), "custom-openai", "m").unwrap();
    assert_eq!(r.api_key, "");
    let none = LlmRunner::resolve(ProviderSettings::CustomOpenAI(Ok(None)), "custom-openai", "m");
    assert_eq!(none.unwrap_err(), "Custom OpenAI provider selected but no configuration found");
    let failed = LlmRunner::resolve(ProviderSettings::CustomOpenAI(Err("io".to_string())), "custom-openai", "m");
    assert_eq!(failed.unwrap_err(), "Failed to retrieve custom OpenAI config: io");
}

use meetily::chat::agent::AgentAnswer;
use meetily::chat::commands::{chat_route, chat_send, persist_message, ChatRoute};
use meetily::chat::retrieval::{Citation, Corpus, Meeting};

fn corpus() -> Corpus {
    Corpus::new(vec![Meeting {
        id: "m-1".to_string(),
        title: "Budget".to_string(),
        date: "2026-07-06".to_string(),
        segments: vec![],
        summary: String::new(),
    }])
}

fn is_uuid(s: &str) -> bool {
    s.len() == 36
        && s.chars().enumerate().all(|(i, c)| match i {
            8 | 13 | 18 | 23 => c == '-',
            14 => c == '4',
            19 => matches!(c, '8' | '9' | 'a' | 'b'),
            _ => c.is_ascii_digit() || ('a'..='f').contains(&c),
        })
}

#[test]
fn scopes_mean_all_meetings_or_one() {
    let c = corpus();
    assert!(matches!(chat_route(&c, "all"), Ok(ChatRoute::All)));
    match chat_route(&c, "m-1") {
        Ok(ChatRoute::One(m)) => assert_eq!(m.title, "Budget"),
        _ => panic!("the meeting should be found"),
    }
    match chat_route(&c, "nope") {
        Err(e) => assert_eq!(e, "no meeting matching 'nope'"),
        _ => panic!("there is no such meeting"),
    }
}

#[test]
fn stored_messages_are_fresh() {
    let a = persist_message("all", "user", "hi", None);
    let b = persist_message("all", "assistant", "ho", Some("[]".to_string()));
    assert!(is_uuid(&a.id) && is_uuid(&b.id));
    assert_ne!(a.id, b.id);
    assert_eq!((a.scope.as_str(), a.role.as_str(), a.content.as_str()), ("all", "user", "hi"));
    assert_eq!(a.citations, None);
    assert_eq!(b.citations.as_deref(), Some("[]"));
    assert_eq!(a.created_at.len(), 26);
    assert!(a.created_at <= b.created_at);
}

#[test]
fn an_exchange_stores_the_question_and_the_answer() {
    let answer = AgentAnswer {
        answer: "Yes.".to_string(),
        citations: vec![Citation { meeting_id: "m-1".to_string(), title: "Budget".to_string(), ts: "00:05".to_string() }],
    };
    let x = chat_send("m-1", "Really?", answer, Some("[1]".to_string()));
    assert_eq!((x.token.scope.as_str(), x.token.delta.as_str()), ("m-1", "Yes."));
    assert_eq!((x.asked.role.as_str(), x.asked.content.as_str()), ("user", "Really?"));
    assert_eq!(x.asked.citations, None);
    assert_eq!((x.replied.role.as_str(), x.replied.content.as_str()), ("assistant", "Yes."));
    assert_eq!(x.replied.citations.as_deref(), Some("[1]"));
    assert_eq!((x.asked.scope.as_str(), x.replied.scope.as_str()), ("m-1", "m-1"));
    assert_eq!(x.response.answer, "Yes.");
    assert_eq!(x.response.citations.len(), 1);
    assert_eq!(x.response.citations[0].ts, "00:05");
}

//! Sending a message: where it goes, what is stored of it, and what comes back.

use crate::chat::agent::{citation_views, AgentAnswer, AnswerView};
use crate::chat::retrieval::{
    exact_id_wins, resolved, resolved_is_a_meeting, Citation, Corpus, Meeting, MeetingView,
};
use crate::clock::{in_calendar, in_four_digit_years, is_stamp, now_stamp, utc_formatted, STAMP_PATTERN};
use crate::ident::{fresh_uuid, is_uuid};
use crate::text::{occurs, opt_text, same_text};
use vstd::prelude::*;

verus! {

/// The final answer, as returned to the frontend.
#[derive(Debug, Clone)]
pub struct ChatResponse {
    pub answer: String,
    pub citations: Vec<Citation>,
}

/// A stored chat message.
#[derive(Debug, Clone)]
pub struct ChatMessage {
    pub id: String,
    pub scope: String,
    pub role: String,
    pub content: String,
    /// A JSON array, or nothing.
    pub citations: Option<String>,
    pub created_at: String,
}

/// What a stored chat message says.
pub struct MessageView {
    pub id: Seq<char>,
    pub scope: Seq<char>,
    pub role: Seq<char>,
    pub content: Seq<char>,
    pub citations: Option<Seq<char>>,
    pub created_at: Seq<char>,
}

impl View for ChatMessage {
    type V = MessageView;

    open spec fn view(&self) -> MessageView {
        MessageView {
            id: self.id@,
            scope: self.scope@,
            role: self.role@,
            content: self.content@,
            citations: opt_text(self.citations),
            created_at: self.created_at@,
        }
    }
}

/// Progress to show while an answer arrives.
#[derive(Debug, Clone)]
pub struct TokenPayload {
    pub scope: String,
    pub delta: String,
}

/// Which meetings a message is about.
pub enum ChatRoute<'a> {
    /// All of them.
    All,
    /// One of them.
    One(&'a Meeting),
}

/// Which meetings a scope means: all of them, or the one that it names.
pub open spec fn routed(ms: Seq<MeetingView>, scope: Seq<char>) -> Result<
    Option<MeetingView>,
    Seq<char>,
> {
    if scope == "all"@ {
        Ok(None)
    } else {
        match resolved(ms, scope) {
            Some(i) => Ok(Some(ms[i])),
            None => Err("no meeting matching '"@ + scope + "'"@),
        }
    }
}

/// Which meetings a scope means: one meeting by its id, or `all`.
pub fn chat_route<'a>(corpus: &'a Corpus, scope: &str) -> (r: Result<ChatRoute<'a>, String>)
    ensures
        match r {
            Ok(ChatRoute::All) => routed(corpus@, scope@) == Ok::<Option<MeetingView>, Seq<char>>(
                None,
            ),
            Ok(ChatRoute::One(m)) => routed(corpus@, scope@) == Ok::<
                Option<MeetingView>,
                Seq<char>,
            >(Some(m@)),
            Err(e) => routed(corpus@, scope@) == Err::<Option<MeetingView>, Seq<char>>(e@),
        },
{
    if same_text(scope, "all") {
        return Ok(ChatRoute::All);
    }
    match corpus.get(scope) {
        Some(m) => Ok(ChatRoute::One(m)),
        None => {
            let mut message = "no meeting matching '".to_owned();
            message.append(scope);
            message.append("'");
            Err(message)
        },
    }
}

/// Whether `t` is the time stamp of some instant since 1970.
pub open spec fn some_stamp(t: Seq<char>) -> bool {
    exists|secs: i64, nanos: u32|
        #![trigger utc_formatted(secs, nanos, STAMP_PATTERN@)]
        0 <= secs && in_calendar(secs as int) && nanos < 1_000_000_000 && t == utc_formatted(
            secs,
            nanos,
            STAMP_PATTERN@,
        ) && (in_four_digit_years(secs as int) ==> is_stamp(secs as int, nanos as int, t))
}

/// Whether a message is one just made, with this scope, role, content and citations.
pub open spec fn fresh_message(
    m: MessageView,
    scope: Seq<char>,
    role: Seq<char>,
    content: Seq<char>,
    citations: Option<Seq<char>>,
) -> bool {
    &&& is_uuid(m.id)
    &&& m.scope == scope
    &&& m.role == role
    &&& m.content == content
    &&& m.citations == citations
    &&& some_stamp(m.created_at)
}

/// The message to store, with a fresh id and the present time.
pub fn persist_message(scope: &str, role: &str, content: &str, citations: Option<String>) -> (r:
    ChatMessage)
    ensures
        fresh_message(r@, scope@, role@, content@, opt_text(citations)),
{
    ChatMessage {
        id: fresh_uuid(),
        scope: scope.to_owned(),
        role: role.to_owned(),
        content: content.to_owned(),
        citations,
        created_at: now_stamp(),
    }
}

/// What a message that has been answered leads to.
#[derive(Debug)]
pub struct Exchange {
    /// The progress to show.
    pub token: TokenPayload,
    /// The user's message, to be stored first.
    pub asked: ChatMessage,
    /// The assistant's reply, to be stored behind it.
    pub replied: ChatMessage,
    pub response: ChatResponse,
}

/// Whether an exchange is what a message leads to that has been answered so.
pub open spec fn is_exchange(
    e: Exchange,
    scope: Seq<char>,
    message: Seq<char>,
    answer: AnswerView,
    citations_json: Option<Seq<char>>,
) -> bool {
    &&& e.token.scope@ == scope
    &&& e.token.delta@ == answer.answer
    &&& fresh_message(e.asked@, scope, "user"@, message, None)
    &&& fresh_message(e.replied@, scope, "assistant"@, answer.answer, citations_json)
    &&& e.response.answer@ == answer.answer
    &&& citation_views(e.response.citations@) == answer.citations
}

/// What a message that has been answered leads to: the whole answer as progress, the two messages to
/// store, and the response. `citations_json` are the citations of the answer as a JSON array, where
/// they could be written so.
pub fn chat_send(scope: &str, message: &str, result: AgentAnswer, citations_json: Option<String>)
    -> (r: Exchange)
    ensures
        is_exchange(r, scope@, message@, result@, opt_text(citations_json)),
        r.token.scope@ == scope@,
        r.token.delta@ == result@.answer,
        fresh_message(r.asked@, scope@, "user"@, message@, None),
        fresh_message(
            r.replied@,
            scope@,
            "assistant"@,
            result@.answer,
            opt_text(citations_json),
        ),
        r.response.answer@ == result@.answer,
        citation_views(r.response.citations@) == result@.citations,
{
    let token = TokenPayload { scope: scope.to_owned(), delta: result.answer.clone() };
    let asked = persist_message(scope, "user", message, None);
    let replied = persist_message(scope, "assistant", result.answer.as_str(), citations_json);
    let response = ChatResponse { answer: result.answer, citations: result.citations };
    Exchange { token, asked, replied, response }
}

/// "all" means all meetings; any other scope means one of them, or is an error that says so. The scope of a
/// meeting's own id means the first meeting with that id.
pub proof fn scopes_mean_meetings(ms: Seq<MeetingView>, scope: Seq<char>, at: int)
    ensures
        routed(ms, "all"@) == Ok::<Option<MeetingView>, Seq<char>>(None),
        scope != "all"@ ==> match routed(ms, scope) {
            Ok(m) => m is Some && ms.contains(m->0),
            Err(e) => occurs(e, scope) && forall|i: int|
                0 <= i < ms.len() ==> (#[trigger] ms[i]).id != scope,
        },
        scope != "all"@ && 0 <= at < ms.len() && ms[at].id == scope && (forall|i: int|
            0 <= i < at ==> (#[trigger] ms[i]).id != scope) ==> routed(ms, scope) == Ok::<
            Option<MeetingView>,
            Seq<char>,
        >(Some(ms[at])),
{
    if scope != "all"@ {
        resolved_is_a_meeting(ms, scope);
        match resolved(ms, scope) {
            Some(i) => {
                assert(ms.contains(ms[i]));
            },
            None => {
                let e = "no meeting matching '"@ + scope + "'"@;
                let from = "no meeting matching '"@.len() as int;
                assert(e.subrange(from, from + scope.len()) =~= scope);
                assert forall|i: int| 0 <= i < ms.len() implies (#[trigger] ms[i]).id != scope by {
                    if ms[i].id == scope {
                        lemma_own_id(ms, scope, i);
                    }
                }
            },
        }
        if 0 <= at < ms.len() && ms[at].id == scope && (forall|i: int|
            0 <= i < at ==> (#[trigger] ms[i]).id != scope) {
            exact_id_wins(ms, at);
        }
    }
}

/// Some meeting with this id is the first one.
proof fn lemma_own_id(ms: Seq<MeetingView>, id: Seq<char>, at: int)
    requires
        0 <= at < ms.len(),
        ms[at].id == id,
    ensures
        resolved(ms, id) is Some,
    decreases at,
{
    if forall|i: int| 0 <= i < at ==> (#[trigger] ms[i]).id != id {
        exact_id_wins(ms, at);
    } else {
        let i = choose|i: int| 0 <= i < at && (#[trigger] ms[i]).id == id;
        lemma_own_id(ms, id, i);
    }
}

/// What an exchange leaves behind says the same everywhere: the progress, the stored reply and the response
/// all hold the whole answer, the question is stored as it was asked, and all is stored under the scope.
pub proof fn answers_are_kept_whole(
    e: Exchange,
    scope: Seq<char>,
    message: Seq<char>,
    answer: AnswerView,
    citations_json: Option<Seq<char>>,
)
    requires
        is_exchange(e, scope, message, answer, citations_json),
    ensures
        e.token.delta@ == answer.answer,
        e.replied@.content == answer.answer,
        e.response.answer@ == answer.answer,
        e.asked@.content == message,
        e.token.scope@ == scope,
        e.asked@.scope == scope,
        e.replied@.scope == scope,
        e.asked@.role == "user"@,
        e.replied@.role == "assistant"@,
        e.asked@.citations is None,
        e.replied@.citations == citations_json,
        citation_views(e.response.citations@) == answer.citations,
{
}

} // verus!

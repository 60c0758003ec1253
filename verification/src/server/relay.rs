//! Relaying a token stream as server-sent events.
use vstd::prelude::*;

use super::openai::{
    finish_reason_str, finish_text, usage_body, ChatChunkChoice, ChatCompletionChunk, ChatDelta,
    CompletionChunk, CompletionChunkChoice, UsageBody,
};
use crate::engine::stream::{pieces, EventView};
use crate::engine::StreamEvent;

verus! {

/// One server-sent event.
#[derive(Debug)]
pub enum Frame {
    /// A comment: a partial multi-byte character, nothing to show yet.
    Partial,
    /// A piece of a chat completion.
    Chat(ChatCompletionChunk),
    /// A piece of a text completion.
    Text(CompletionChunk),
    /// The marker that closes a stream that ended without saying so.
    Closed,
}

/// One choice of a chunk, as values. A choice of a text completion has no role.
#[verifier::ext_equal]
pub struct ChoiceView {
    pub index: usize,
    pub role: Option<Seq<char>>,
    pub content: Option<Seq<char>>,
    pub finish_reason: Option<Seq<char>>,
}

/// A chunk, as values.
#[verifier::ext_equal]
pub struct ChunkView {
    pub id: Seq<char>,
    pub object: Seq<char>,
    pub created: u64,
    pub model: Seq<char>,
    pub choices: Seq<ChoiceView>,
    pub usage: Option<UsageBody>,
}

/// One server-sent event, as values.
#[verifier::ext_equal]
pub enum FrameView {
    Partial,
    Chat(ChunkView),
    Text(ChunkView),
    Closed,
}

/// A text that may be missing, as a value.
pub open spec fn text_or_none(text: Option<&'static str>) -> Option<Seq<char>> {
    match text {
        Some(s) => Some(s@),
        None => None,
    }
}

impl View for ChatChunkChoice {
    type V = ChoiceView;

    open spec fn view(&self) -> ChoiceView {
        ChoiceView {
            index: self.index,
            role: text_or_none(self.delta.role),
            content: match self.delta.content {
                Some(s) => Some(s@),
                None => None,
            },
            finish_reason: text_or_none(self.finish_reason),
        }
    }
}

impl View for ChatCompletionChunk {
    type V = ChunkView;

    open spec fn view(&self) -> ChunkView {
        ChunkView {
            id: self.id@,
            object: self.object@,
            created: self.created,
            model: self.model@,
            choices: Seq::new(self.choices@.len(), |i: int| self.choices@[i]@),
            usage: self.usage,
        }
    }
}

impl View for CompletionChunkChoice {
    type V = ChoiceView;

    open spec fn view(&self) -> ChoiceView {
        ChoiceView {
            index: self.index,
            role: None,
            content: Some(self.text@),
            finish_reason: text_or_none(self.finish_reason),
        }
    }
}

impl View for CompletionChunk {
    type V = ChunkView;

    open spec fn view(&self) -> ChunkView {
        ChunkView {
            id: self.id@,
            object: self.object@,
            created: self.created,
            model: self.model@,
            choices: Seq::new(self.choices@.len(), |i: int| self.choices@[i]@),
            usage: self.usage,
        }
    }
}

impl View for Frame {
    type V = FrameView;

    open spec fn view(&self) -> FrameView {
        match self {
            Frame::Partial => FrameView::Partial,
            Frame::Chat(c) => FrameView::Chat(c@),
            Frame::Text(c) => FrameView::Text(c@),
            Frame::Closed => FrameView::Closed,
        }
    }
}

/// A stream on its way to a client.
#[derive(Debug)]
pub struct Relay {
    id: String,
    model: String,
    chat: bool,
    created: u64,
    sent_role: bool,
    done: bool,
}

/// A stream on its way to a client, as values.
#[verifier::ext_equal]
pub struct RelayView {
    pub id: Seq<char>,
    pub model: Seq<char>,
    pub chat: bool,
    pub created: u64,
    /// The client knows who speaks.
    pub sent_role: bool,
    /// Nothing more is sent.
    pub done: bool,
}

impl View for Relay {
    type V = RelayView;

    closed spec fn view(&self) -> RelayView {
        RelayView {
            id: self.id@,
            model: self.model@,
            chat: self.chat,
            created: self.created,
            sent_role: self.sent_role,
            done: self.done,
        }
    }
}

impl RelayView {
    /// A stream of which nothing was sent.
    pub open spec fn fresh(id: Seq<char>, model: Seq<char>, chat: bool, created: u64) -> RelayView {
        RelayView { id, model, chat, created, sent_role: false, done: false }
    }

    /// A frame with one choice.
    pub open spec fn frame(self, choice: ChoiceView, usage: Option<UsageBody>) -> FrameView {
        let chunk = ChunkView {
            id: self.id,
            object: if self.chat {
                "chat.completion.chunk"@
            } else {
                "text_completion"@
            },
            created: self.created,
            model: self.model,
            choices: seq![choice],
            usage,
        };
        if self.chat {
            FrameView::Chat(chunk)
        } else {
            FrameView::Text(chunk)
        }
    }

    /// What is sent for what the stream yields next, and what follows. The
    /// first chat chunk with text names the speaker. A stream that is dropped
    /// without an end is closed rather than left hanging.
    pub open spec fn relayed(self, event: Option<EventView>) -> (RelayView, Option<FrameView>) {
        if self.done {
            (self, None)
        } else {
            match event {
                None => (RelayView { done: true, ..self }, Some(FrameView::Closed)),
                Some(EventView::Token { text, .. }) => if text.len() == 0 {
                    (self, Some(FrameView::Partial))
                } else {
                    (
                        RelayView { sent_role: self.sent_role || self.chat, ..self },
                        Some(
                            self.frame(
                                ChoiceView {
                                    index: 0,
                                    role: if self.chat && !self.sent_role {
                                        Some("assistant"@)
                                    } else {
                                        None
                                    },
                                    content: Some(text),
                                    finish_reason: None,
                                },
                                None,
                            ),
                        ),
                    )
                },
                Some(EventView::Done { reason, trailing_text, usage }) => (
                    RelayView { done: true, ..self },
                    Some(
                        self.frame(
                            ChoiceView {
                                index: 0,
                                role: None,
                                content: if self.chat && trailing_text.len() == 0 {
                                    None
                                } else {
                                    Some(trailing_text)
                                },
                                finish_reason: Some(finish_text(reason)),
                            },
                            Some(usage.body()),
                        ),
                    ),
                ),
            }
        }
    }

    /// After the first `n` events of a stream, and the frames sent for them.
    pub open spec fn relayed_all(self, events: Seq<EventView>, n: nat) -> (
        RelayView,
        Seq<FrameView>,
    )
        decreases n,
    {
        if n == 0 {
            (self, Seq::empty())
        } else {
            let (before, sent) = self.relayed_all(events, (n - 1) as nat);
            let (after, frame) = before.relayed(Some(events[n - 1]));
            (
                after,
                match frame {
                    Some(f) => sent.push(f),
                    None => sent,
                },
            )
        }
    }
}

/// An event whose usage, if it has any, can be added up.
pub open spec fn countable(event: Option<EventView>) -> bool {
    match event {
        Some(EventView::Done { usage, .. }) => usage.countable(),
        _ => true,
    }
}

/// What an event that may be missing is, as a value.
pub open spec fn event_view(event: Option<StreamEvent>) -> Option<EventView> {
    match event {
        Some(e) => Some(e@),
        None => None,
    }
}

impl Relay {
    pub fn new(id: String, model: String, chat: bool, created: u64) -> (r: Self)
        ensures
            r@ == RelayView::fresh(id@, model@, chat, created),
    {
        Relay { id, model, chat, created, sent_role: false, done: false }
    }

    /// Nothing more is sent.
    pub fn is_done(&self) -> (r: bool)
        ensures
            r == self@.done,
    {
        self.done
    }

    fn chunk(
        &self,
        role: Option<&'static str>,
        content: Option<String>,
        finish_reason: Option<&'static str>,
        usage: Option<UsageBody>,
    ) -> (r: Frame)
        requires
            content is Some || self@.chat,
            role is Some ==> self@.chat,
        ensures
            r@ == self@.frame(
                ChoiceView {
                    index: 0,
                    role: text_or_none(role),
                    content: match content {
                        Some(s) => Some(s@),
                        None => None,
                    },
                    finish_reason: text_or_none(finish_reason),
                },
                usage,
            ),
    {
        if self.chat {
            let chunk = ChatCompletionChunk {
                id: self.id.clone(),
                object: "chat.completion.chunk",
                created: self.created,
                model: self.model.clone(),
                choices: vec![
                    ChatChunkChoice { index: 0, delta: ChatDelta { role, content }, finish_reason },
                ],
                usage,
            };
            assert(chunk@.choices =~= seq![chunk.choices@[0]@]);
            return Frame::Chat(chunk);
        }
        let text = match content {
            Some(s) => s,
            None => String::new(),
        };
        let chunk = CompletionChunk {
            id: self.id.clone(),
            object: "text_completion",
            created: self.created,
            model: self.model.clone(),
            choices: vec![CompletionChunkChoice { index: 0, text, finish_reason }],
            usage,
        };
        assert(chunk@.choices =~= seq![chunk.choices@[0]@]);
        Frame::Text(chunk)
    }

    /// What to send for what the stream yields next: nothing once the stream is
    /// over. `None` is a stream that was dropped.
    pub fn relay(&mut self, event: Option<StreamEvent>) -> (r: Option<Frame>)
        requires
            countable(event_view(event)),
        ensures
            final(self)@ == old(self)@.relayed(event_view(event)).0,
            match r {
                Some(frame) => old(self)@.relayed(event_view(event)).1 == Some(frame@),
                None => old(self)@.relayed(event_view(event)).1 is None,
            },
    {
        if self.done {
            return None;
        }
        match event {
            None => {
                self.done = true;
                Some(Frame::Closed)
            },
            Some(StreamEvent::Token { index: _, token: _, text }) => {
                if text.as_str().is_empty() {
                    return Some(Frame::Partial);
                }
                let role = if self.chat && !self.sent_role {
                    Some("assistant")
                } else {
                    None
                };
                let frame = self.chunk(role, Some(text), None, None);
                if self.chat {
                    self.sent_role = true;
                }
                Some(frame)
            },
            Some(StreamEvent::Done { reason, trailing_text, usage }) => {
                self.done = true;
                let content = if self.chat && trailing_text.as_str().is_empty() {
                    None
                } else {
                    Some(trailing_text)
                };
                Some(
                    self.chunk(
                        None,
                        content,
                        Some(finish_reason_str(reason)),
                        Some(usage_body(usage)),
                    ),
                )
            },
        }
    }
}

/// The text that a frame carries.
pub open spec fn frame_text(frame: FrameView) -> Seq<char> {
    match frame {
        FrameView::Chat(c) | FrameView::Text(c) => match c.choices[0].content {
            Some(text) => text,
            None => Seq::empty(),
        },
        FrameView::Partial | FrameView::Closed => Seq::empty(),
    }
}

/// The text that the frames carry, in order.
pub open spec fn frames_text(frames: Seq<FrameView>) -> Seq<char>
    decreases frames.len(),
{
    if frames.len() == 0 {
        Seq::empty()
    } else {
        frames_text(frames.drop_last()) + frame_text(frames.last())
    }
}

/// A frame names the speaker.
pub open spec fn names_speaker(frame: FrameView) -> bool {
    match frame {
        FrameView::Chat(c) | FrameView::Text(c) => c.choices[0].role is Some,
        FrameView::Partial | FrameView::Closed => false,
    }
}

proof fn lemma_relayed(v: RelayView, events: Seq<EventView>, n: nat)
    requires
        !v.done,
        n <= events.len(),
        forall|i: int| 0 <= i < n ==> (#[trigger] events[i]) is Token,
    ensures
        v.relayed_all(events, n).0 == (RelayView {
            sent_role: v.relayed_all(events, n).0.sent_role,
            ..v
        }),
        v.relayed_all(events, n).1.len() == n,
        frames_text(v.relayed_all(events, n).1) == pieces(events, n),
        v.chat ==> (v.relayed_all(events, n).0.sent_role <==> v.sent_role || pieces(
            events,
            n,
        ).len() > 0),
    decreases n,
{
    if n > 0 {
        let m = (n - 1) as nat;
        lemma_relayed(v, events, m);
        let (before, sent) = v.relayed_all(events, m);
        let f = before.relayed(Some(events[n - 1])).1->0;
        assert(sent.push(f).drop_last() =~= sent);
        assert(events[n - 1] is Token);
        assert(pieces(events, n) =~= pieces(events, m) + events[n - 1]->text);
        assert(frame_text(f) =~= events[n - 1]->text);
    }
}

/// What a client reads, piece by piece, is the text of the stream: every event
/// sends one frame, and together the frames carry the text of the tokens and
/// what the end flushes.
pub proof fn law_a_relay_sends_the_text(
    v: RelayView,
    events: Seq<EventView>,
)
    requires
        !v.done,
        events.len() > 0,
        forall|i: int| 0 <= i < events.len() - 1 ==> (#[trigger] events[i]) is Token,
    ensures
        v.relayed_all(events, events.len()).1.len() == events.len(),
        frames_text(v.relayed_all(events, events.len()).1) == pieces(events, events.len()),
        v.relayed_all(events, events.len()).0.done <==> events.last() is Done,
{
    let m = (events.len() - 1) as nat;
    lemma_relayed(v, events, m);
    let (before, sent) = v.relayed_all(events, m);
    let f = before.relayed(Some(events[m as int])).1->0;
    assert(sent.push(f).drop_last() =~= sent);
    match events[m as int] {
        EventView::Token { text, .. } => {
            assert(frame_text(f) =~= text);
        },
        EventView::Done { trailing_text, .. } => {
            assert(frame_text(f) =~= trailing_text);
        },
    }
}

/// The speaker of a chat is named in the first frame that carries text, and in
/// no other.
pub proof fn law_the_speaker_is_named_once(
    id: Seq<char>,
    model: Seq<char>,
    created: u64,
    events: Seq<EventView>,
    n: nat,
)
    requires
        n < events.len(),
        forall|i: int| 0 <= i <= n ==> (#[trigger] events[i]) is Token,
    ensures
        ({
            let v = RelayView::fresh(id, model, true, created);
            let frame = v.relayed_all(events, n).0.relayed(Some(events[n as int])).1->0;
            names_speaker(frame) <==> events[n as int]->text.len() > 0 && pieces(
                events,
                n,
            ).len() == 0
        }),
{
    lemma_relayed(RelayView::fresh(id, model, true, created), events, n);
    assert(events[n as int] is Token);
}

/// Nothing is sent once the stream is over, and a stream that is over stays so.
pub proof fn law_nothing_follows_the_end(v: RelayView, event: Option<EventView>)
    requires
        v.done,
    ensures
        v.relayed(event) == (v, None::<FrameView>),
{
}

/// A stream that is dropped before its end is closed all the same.
pub proof fn law_a_dropped_stream_is_closed(v: RelayView)
    requires
        !v.done,
    ensures
        v.relayed(None).1 == Some(FrameView::Closed),
        v.relayed(None).0.done,
{
}

/// The one chunk that a frame holds, of a chat or of a text completion.
pub open spec fn chunk_of(frame: FrameView) -> ChunkView
    recommends
        frame is Chat || frame is Text,
{
    match frame {
        FrameView::Chat(c) => c,
        FrameView::Text(c) => c,
        _ => arbitrary(),
    }
}

/// A token with text goes out as one chunk with that text, under the identifier and
/// the model of the stream, with neither an end nor usage; the end goes out as one
/// chunk with the held-back text, its reason and its usage. Only a chat names the
/// speaker, and only until it has. A token without text is a mere comment.
pub proof fn law_a_frame_says_what_happened(v: RelayView, event: EventView)
    requires
        !v.done,
        event is Done ==> event->usage.countable(),
    ensures
        ({
            let (w, sent) = v.relayed(Some(event));
            let c = chunk_of(sent->0);
            let choice = c.choices[0];
            &&& sent is Some
            &&& w.id == v.id && w.model == v.model && w.chat == v.chat && w.created == v.created
            &&& w.done <==> event is Done
            &&& event is Token && event->text.len() == 0 ==> sent->0 is Partial && w == v
            &&& !(event is Token && event->text.len() == 0) ==> {
                &&& sent->0 is Chat <==> v.chat
                &&& sent->0 is Text <==> !v.chat
                &&& c.id == v.id
                &&& c.model == v.model
                &&& c.created == v.created
                &&& c.object == if v.chat {
                    "chat.completion.chunk"@
                } else {
                    "text_completion"@
                }
                &&& c.choices.len() == 1
                &&& choice.index == 0
            }
            &&& event is Token && event->text.len() > 0 ==> {
                &&& choice.content == Some(event->text)
                &&& choice.finish_reason is None
                &&& c.usage is None
                &&& choice.role is Some <==> v.chat && !v.sent_role
                &&& choice.role is Some ==> choice.role->0 == "assistant"@
                &&& v.chat ==> w.sent_role
            }
            &&& event is Done ==> {
                &&& choice.finish_reason == Some(finish_text(event->reason))
                &&& event->trailing_text.len() > 0 ==> choice.content == Some(
                    event->trailing_text,
                )
                &&& event->trailing_text.len() == 0 && v.chat ==> choice.content is None
                &&& event->trailing_text.len() == 0 && !v.chat ==> choice.content is Some
                    && choice.content->0.len() == 0
                &&& choice.role is None
                &&& c.usage is Some
                &&& c.usage->0.prompt_tokens == event->usage.prompt_tokens
                &&& c.usage->0.completion_tokens == event->usage.completion_tokens
                &&& c.usage->0.total_tokens == event->usage.prompt_tokens
                    + event->usage.completion_tokens
                &&& c.usage->0.stride_cached_prompt_tokens == event->usage.cached_prompt_tokens
            }
        }),
{
}

} // verus!

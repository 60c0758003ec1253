//! Per-request token streams.
use vstd::prelude::*;

use crate::sequence::FinishReason;
use crate::TokenId;

verus! {

/// Token accounting for one completed sequence.
#[derive(Debug, Clone, Copy, PartialEq, Eq, Structural)]
pub struct Usage {
    pub prompt_tokens: usize,
    pub completion_tokens: usize,
    /// Prompt tokens served from the prefix cache rather than recomputed.
    /// Reported because it is what a cached system prompt actually saves.
    pub cached_prompt_tokens: usize,
}

impl Usage {
    pub open spec fn none() -> Usage {
        Usage { prompt_tokens: 0, completion_tokens: 0, cached_prompt_tokens: 0 }
    }

    /// The tokens can be added up.
    pub open spec fn countable(self) -> bool {
        self.prompt_tokens + self.completion_tokens <= usize::MAX
    }

    pub fn total_tokens(&self) -> (r: usize)
        requires
            self.countable(),
        ensures
            r == self.prompt_tokens + self.completion_tokens,
    {
        self.prompt_tokens + self.completion_tokens
    }
}

impl Default for Usage {
    fn default() -> (r: Self)
        ensures
            r == Usage::none(),
    {
        Usage { prompt_tokens: 0, completion_tokens: 0, cached_prompt_tokens: 0 }
    }
}

#[derive(Debug, Clone)]
pub enum StreamEvent {
    Token {
        /// Zero-based position in the completion.
        index: usize,
        token: TokenId,
        /// Decoded text. Empty when the token completes only part of a
        /// multi-byte character; the remainder arrives with a later token.
        text: String,
    },
    Done {
        reason: FinishReason,
        /// Any text held back until the end of the stream.
        trailing_text: String,
        usage: Usage,
    },
}

/// What happens on a stream, as values.
#[verifier::ext_equal]
pub enum EventView {
    Token { index: usize, token: TokenId, text: Seq<char> },
    Done { reason: FinishReason, trailing_text: Seq<char>, usage: Usage },
}

impl View for StreamEvent {
    type V = EventView;

    open spec fn view(&self) -> EventView {
        match self {
            StreamEvent::Token { index, token, text } => EventView::Token {
                index: *index,
                token: *token,
                text: text@,
            },
            StreamEvent::Done { reason, trailing_text, usage } => EventView::Done {
                reason: *reason,
                trailing_text: trailing_text@,
                usage: *usage,
            },
        }
    }
}

/// A whole stream in one piece: its text, with its usage and how it ended once
/// it has.
#[derive(Debug)]
pub struct Collected {
    pub text: String,
    pub usage: Usage,
    pub reason: Option<FinishReason>,
}

/// A whole stream in one piece, as values.
#[verifier::ext_equal]
pub struct CollectedView {
    pub text: Seq<char>,
    pub usage: Usage,
    pub reason: Option<FinishReason>,
}

impl View for Collected {
    type V = CollectedView;

    open spec fn view(&self) -> CollectedView {
        CollectedView { text: self.text@, usage: self.usage, reason: self.reason }
    }
}

impl CollectedView {
    pub open spec fn nothing() -> CollectedView {
        CollectedView { text: Seq::empty(), usage: Usage::none(), reason: None }
    }

    /// After one more event. Nothing follows the end.
    pub open spec fn with(self, event: EventView) -> CollectedView {
        if self.reason is Some {
            self
        } else {
            match event {
                EventView::Token { text, .. } => CollectedView { text: self.text + text, ..self },
                EventView::Done { reason, trailing_text, usage } => CollectedView {
                    text: self.text + trailing_text,
                    usage,
                    reason: Some(reason),
                },
            }
        }
    }

    /// After the first `n` events.
    pub open spec fn with_all(self, events: Seq<EventView>, n: nat) -> CollectedView
        decreases n,
    {
        if n == 0 {
            self
        } else {
            self.with_all(events, (n - 1) as nat).with(events[n - 1])
        }
    }
}

impl Collected {
    pub fn new() -> (r: Self)
        ensures
            r@ == CollectedView::nothing(),
    {
        Collected { text: String::new(), usage: Usage::default(), reason: None }
    }

    /// Take one event in. Returns whether the stream has ended.
    pub fn take(&mut self, event: StreamEvent) -> (r: bool)
        ensures
            final(self)@ == old(self)@.with(event@),
            r == (final(self)@.reason is Some),
    {
        if self.reason.is_some() {
            return true;
        }
        match event {
            StreamEvent::Token { text, .. } => {
                self.text.append(text.as_str());
                false
            },
            StreamEvent::Done { reason, trailing_text, usage } => {
                self.text.append(trailing_text.as_str());
                self.usage = usage;
                self.reason = Some(reason);
                true
            },
        }
    }
}

/// The text of a stream is the text of its tokens, in order, and then what its
/// end flushes.
pub proof fn law_a_stream_collects_its_pieces(
    events: Seq<EventView>,
    reason: FinishReason,
    trailing: Seq<char>,
    usage: Usage,
)
    requires
        forall|i: int| 0 <= i < events.len() ==> (#[trigger] events[i]) is Token,
    ensures
        CollectedView::nothing().with_all(events, events.len()).reason is None,
        CollectedView::nothing().with_all(events, events.len()).text == pieces(
            events,
            events.len(),
        ),
        CollectedView::nothing().with_all(events, events.len()).with(
            EventView::Done { reason, trailing_text: trailing, usage },
        ) == (CollectedView {
            text: pieces(events, events.len()) + trailing,
            usage,
            reason: Some(reason),
        }),
{
    lemma_collected(events, events.len());
}

/// The text of the first `n` events taken together.
pub open spec fn pieces(events: Seq<EventView>, n: nat) -> Seq<char>
    decreases n,
{
    if n == 0 {
        Seq::empty()
    } else {
        pieces(events, (n - 1) as nat) + match events[n - 1] {
            EventView::Token { text, .. } => text,
            EventView::Done { trailing_text, .. } => trailing_text,
        }
    }
}

proof fn lemma_collected(events: Seq<EventView>, n: nat)
    requires
        n <= events.len(),
        forall|i: int| 0 <= i < events.len() ==> (#[trigger] events[i]) is Token,
    ensures
        CollectedView::nothing().with_all(events, n) == (CollectedView {
            text: pieces(events, n),
            usage: Usage::none(),
            reason: None,
        }),
    decreases n,
{
    if n > 0 {
        lemma_collected(events, (n - 1) as nat);
        assert(events[n - 1] is Token);
    }
}

/// Nothing is taken in after the end of a stream. Before it, a token adds its text
/// and nothing else, and the end adds what was held back, with its usage and its
/// reason.
pub proof fn law_a_stream_ends_once(v: CollectedView, event: EventView)
    ensures
        v.reason is Some ==> v.with(event) == v,
        v.reason is None && event is Token ==> {
            &&& v.with(event).text == v.text + event->text
            &&& v.with(event).usage == v.usage
            &&& v.with(event).reason is None
        },
        v.reason is None && event is Done ==> {
            &&& v.with(event).text == v.text + event->trailing_text
            &&& v.with(event).usage == event->usage
            &&& v.with(event).reason == Some(event->reason)
        },
{
}

/// A stream of which nothing has come yet has no text, no usage and no end.
pub proof fn law_nothing_is_nothing()
    ensures
        CollectedView::nothing().text.len() == 0,
        CollectedView::nothing().reason is None,
        CollectedView::nothing().usage.prompt_tokens == 0,
        CollectedView::nothing().usage.completion_tokens == 0,
        CollectedView::nothing().usage.cached_prompt_tokens == 0,
{
}

} // verus!

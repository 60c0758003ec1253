//! What text a client receives.
use vstd::prelude::*;

use super::model::{EngineView, NoticeView};
use super::stream::EventView;
use crate::backend::tokenizer::{fed, streamed, DecoderView, Tokenizer};
use crate::ids::SequenceId;
use crate::sched::model::FinishedView;
use crate::sequence::FinishReason;
use crate::TokenId;

verus! {

/// The tokens of one sequence among those of many, in order.
pub open spec fn tokens_of(tokens: Seq<(SequenceId, TokenId)>, id: SequenceId) -> Seq<TokenId>
    decreases tokens.len(),
{
    if tokens.len() == 0 {
        Seq::empty()
    } else if tokens.last().0 == id {
        tokens_of(tokens.drop_last(), id).push(tokens.last().1)
    } else {
        tokens_of(tokens.drop_last(), id)
    }
}

/// The text that the notices send for one sequence with its tokens.
pub open spec fn text_sent(notices: Seq<NoticeView>, id: SequenceId) -> Seq<char>
    decreases notices.len(),
{
    if notices.len() == 0 {
        Seq::empty()
    } else {
        text_sent(notices.drop_last(), id) + if notices.last().seq == id {
            match notices.last().event {
                EventView::Token { text, .. } => text,
                _ => Seq::empty(),
            }
        } else {
            Seq::empty()
        }
    }
}

/// Wherever the notices tell that the sequence has ended, they send `tail` last.
pub open spec fn parts_with(notices: Seq<NoticeView>, id: SequenceId, tail: Seq<char>) -> bool {
    forall|i: int|
        0 <= i < notices.len() && (#[trigger] notices[i]).seq == id && notices[i].event is Done
            ==> notices[i].event->trailing_text == tail
}

proof fn lemma_text_sent_concat(a: Seq<NoticeView>, b: Seq<NoticeView>, id: SequenceId)
    ensures
        text_sent(a + b, id) == text_sent(a, id) + text_sent(b, id),
    decreases b.len(),
{
    if b.len() == 0 {
        assert(a + b =~= a);
        assert(text_sent(a, id) + text_sent(b, id) =~= text_sent(a, id));
    } else {
        assert((a + b).drop_last() =~= a + b.drop_last());
        lemma_text_sent_concat(a, b.drop_last(), id);
        assert(text_sent(a + b, id) =~= text_sent(a, id) + text_sent(b, id));
    }
}

proof fn lemma_streamed_push<T: Tokenizer>(
    t: T,
    d: DecoderView,
    tokens: Seq<TokenId>,
    token: TokenId,
)
    ensures
        ({
            let (before, text) = streamed(t, d, tokens);
            let (after, more) = fed(t, before, token);
            streamed(t, d, tokens.push(token)) == (after, text + more)
        }),
    decreases tokens.len(),
{
    let all = tokens.push(token);
    if tokens.len() == 0 {
        assert(all.drop_first() =~= Seq::<TokenId>::empty());
        let (after, more) = fed(t, d, token);
        let none = Seq::<TokenId>::empty();
        assert(all[0] == token);
        assert(streamed(t, after, none) == (after, Seq::<char>::empty()));
        assert(Seq::<char>::empty() + more =~= more + Seq::<char>::empty());
    } else {
        let (next, first) = fed(t, d, tokens[0]);
        assert(all[0] == tokens[0]);
        assert(all.drop_first() =~= tokens.drop_first().push(token));
        lemma_streamed_push(t, next, tokens.drop_first(), token);
        let (before, text) = streamed(t, next, tokens.drop_first());
        let more = fed(t, before, token).1;
        assert(first + (text + more) =~= (first + text) + more);
    }
}

/// Emitting tokens streams those of each sequence through its decoder.
proof fn lemma_emitting_streams<T: Tokenizer>(
    v: EngineView,
    t: T,
    tokens: Seq<(SequenceId, TokenId)>,
    n: nat,
    id: SequenceId,
)
    requires
        n <= tokens.len(),
        v.serves(id),
    ensures
        ({
            let (u, told) = v.emitted_all(t, tokens, n);
            &&& u.serves(id)
            &&& (u.active_of(id).decoder, text_sent(told, id)) == streamed(
                t,
                v.active_of(id).decoder,
                tokens_of(tokens.take(n as int), id),
            )
            &&& forall|i: int| 0 <= i < told.len() ==> (#[trigger] told[i]).event is Token
        }),
    decreases n,
{
    if n > 0 {
        let m = (n - 1) as nat;
        lemma_emitting_streams(v, t, tokens, m, id);
        let (u, told) = v.emitted_all(t, tokens, m);
        let (seq, token) = tokens[n - 1];
        let (w, more) = u.emitted(t, seq, token);
        lemma_text_sent_concat(told, more, id);
        let taken = tokens.take(n as int);
        assert(taken.drop_last() =~= tokens.take(m as int));
        assert(taken.last() == tokens[n - 1]);
        let none = Seq::<NoticeView>::empty();
        assert(text_sent(none, id) =~= Seq::<char>::empty());
        if seq == id {
            lemma_streamed_push(
                t,
                v.active_of(id).decoder,
                tokens_of(tokens.take(m as int), id),
                token,
            );
            assert(more.drop_last() =~= none);
            let text = fed(t, u.active_of(id).decoder, token).1;
            assert(text_sent(more, id) =~= text);
        } else {
            if u.serves(seq) {
                assert(more.drop_last() =~= none);
            }
            assert(text_sent(more, id) =~= Seq::<char>::empty());
            assert(text_sent(told, id) + Seq::<char>::empty() =~= text_sent(told, id));
        }
    } else {
        assert(tokens_of(tokens.take(0), id) =~= Seq::<TokenId>::empty());
    }
}

/// The notices are ends, and those of the sequence part with its tail.
spec fn parting(v: EngineView, u: EngineView, told: Seq<NoticeView>, id: SequenceId) -> bool {
    &&& forall|i: int| 0 <= i < told.len() ==> (#[trigger] told[i]).event is Done
    &&& u.serves(id) ==> v.serves(id) && u.active_of(id) == v.active_of(id)
    &&& v.serves(id) ==> parts_with(told, id, v.active_of(id).decoder.tail)
    &&& !v.serves(id) ==> forall|i: int| 0 <= i < told.len() ==> (#[trigger] told[i]).seq != id
}

proof fn lemma_parting_goes_on(
    v: EngineView,
    u: EngineView,
    told: Seq<NoticeView>,
    seq: SequenceId,
    reason: FinishReason,
    id: SequenceId,
)
    requires
        parting(v, u, told, id),
    ensures
        ({
            let (w, more) = u.retired(seq, reason);
            parting(v, w, told + more, id)
        }),
{
    let (w, more) = u.retired(seq, reason);
    let all = told + more;
    assert forall|i: int| 0 <= i < all.len() implies (#[trigger] all[i]).event is Done by {
        if i < told.len() {
            assert(told[i] == all[i]);
        } else {
            assert(all[i] == more[i - told.len()]);
        }
    }
    assert forall|i: int| 0 <= i < all.len() && (#[trigger] all[i]).seq == id implies v.serves(id)
        && all[i].event->trailing_text == v.active_of(id).decoder.tail by {
        if i < told.len() {
            assert(told[i] == all[i]);
        } else {
            assert(all[i] == more[i - told.len()]);
        }
    }
}

proof fn lemma_stops_part(v: EngineView, stops: Seq<SequenceId>, n: nat, id: SequenceId)
    requires
        n <= stops.len(),
    ensures
        parting(v, v.stopped_all(stops, n).0, v.stopped_all(stops, n).1, id),
    decreases n,
{
    if n > 0 {
        let m = (n - 1) as nat;
        lemma_stops_part(v, stops, m, id);
        let (u, told) = v.stopped_all(stops, m);
        let halted = EngineView { sched: u.sched.retired(stops[n - 1], FinishReason::Stop).0, ..u };
        lemma_parting_goes_on(v, halted, told, stops[n - 1], FinishReason::Stop, id);
    }
}

proof fn lemma_finishes_part(v: EngineView, done: Seq<FinishedView>, n: nat, id: SequenceId)
    requires
        n <= done.len(),
    ensures
        parting(v, v.retired_all(done, n).0, v.retired_all(done, n).1, id),
    decreases n,
{
    if n > 0 {
        let m = (n - 1) as nat;
        lemma_finishes_part(v, done, m, id);
        let (u, told) = v.retired_all(done, m);
        lemma_parting_goes_on(v, u, told, done[n - 1].seq, done[n - 1].reason, id);
    }
}

proof fn lemma_ends_send_no_text(notices: Seq<NoticeView>, id: SequenceId)
    requires
        forall|i: int| 0 <= i < notices.len() ==> (#[trigger] notices[i]).event is Done,
    ensures
        text_sent(notices, id) == Seq::<char>::empty(),
    decreases notices.len(),
{
    if notices.len() > 0 {
        let rest = notices.drop_last();
        assert forall|i: int| 0 <= i < rest.len() implies (#[trigger] rest[i]).event is Done by {
            assert(notices[i] == rest[i]);
        }
        lemma_ends_send_no_text(rest, id);
        assert(notices.last() == notices[notices.len() - 1]);
        assert(Seq::<char>::empty() + Seq::<char>::empty() =~= Seq::<char>::empty());
    }
}

/// A client receives the text of its tokens: settling a pass sends what the
/// sequence's decoder makes of the tokens it drew, piece by piece. Where the
/// sequence ends, what was held back comes last; where it goes on, its decoder
/// goes on from there.
pub proof fn law_a_client_receives_the_text_of_its_tokens<T: Tokenizer>(
    v: EngineView,
    t: T,
    drawn: Seq<(SequenceId, TokenId)>,
    id: SequenceId,
)
    requires
        v.serves(id),
    ensures
        ({
            let (w, told) = v.settled(t, drawn);
            let (decoder, text) = streamed(
                t,
                v.active_of(id).decoder,
                tokens_of(v.sampled(drawn, drawn.len()), id),
            );
            &&& text_sent(told, id) == text
            &&& parts_with(told, id, decoder.tail)
            &&& w.serves(id) ==> w.active_of(id).decoder == decoder
        }),
{
    let kept = v.sampled(drawn, drawn.len());
    let stops = v.stopped(drawn, drawn.len());
    let (sched, done) = v.sched.fed(kept, kept.len(), v.now);
    let v0 = EngineView { sched, ..v };
    lemma_emitting_streams(v0, t, kept, kept.len(), id);
    assert(kept.take(kept.len() as int) =~= kept);
    let (v1, told1) = v0.emitted_all(t, kept, kept.len());
    lemma_stops_part(v1, stops, stops.len(), id);
    let (v2, told2) = v1.stopped_all(stops, stops.len());
    lemma_finishes_part(v2, done, done.len(), id);
    let (v3, told3) = v2.retired_all(done, done.len());
    lemma_ends_send_no_text(told2, id);
    lemma_ends_send_no_text(told3, id);
    lemma_text_sent_concat(told1, told2, id);
    lemma_text_sent_concat(told1 + told2, told3, id);
    let all = told1 + told2 + told3;
    let text = text_sent(told1, id);
    assert(text + Seq::<char>::empty() =~= text);
    let tail = v1.active_of(id).decoder.tail;
    assert forall|i: int|
        0 <= i < all.len() && (#[trigger] all[i]).seq == id
            && all[i].event is Done implies all[i].event->trailing_text == tail by {
        if i < told1.len() {
            assert(all[i] == told1[i]);
        } else if i < told1.len() + told2.len() {
            assert(all[i] == told2[i - told1.len()]);
        } else {
            assert(all[i] == told3[i - told1.len() - told2.len()]);
        }
    }
}

} // verus!

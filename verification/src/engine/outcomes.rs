//! What a pass asks of the backend and what its outcome does to each sequence.
use vstd::prelude::*;

use super::model::{
    chunk_work, decode_work, decodes_work, pass_work, prefill_work, EngineView, NoticeView,
};
use super::serving::{lemma_settled, lemma_stopped_all};
use super::stream::EventView;
use super::texts::tokens_of;
use crate::backend::tokenizer::Tokenizer;
use crate::backend::PassCost;
use crate::ids::{RequestId, SequenceId};
use crate::request::ServiceClass;
use crate::sampling::SamplingView;
use crate::sched::deadlines::law_a_cancellation_reports_what_it_ends;
use crate::sched::model::{FinishedView, PrefillChunk, SchedView};
use crate::sched::order::{lemma_ended, lemma_fed_token, lemma_stepped};
use crate::sched::progress::law_a_pass_takes_prompts_as_far_as_it_can;
use crate::sequence::{FinishReason, SequenceState};
use crate::{Tick, TokenId};

verus! {

proof fn lemma_prefill_work(s: SchedView, chunks: Seq<PrefillChunk>, n: nat)
    requires
        n <= chunks.len(),
    ensures
        prefill_work(s, chunks, n).len() == n,
        forall|k: int|
            0 <= k < n ==> #[trigger] prefill_work(s, chunks, n)[k] == chunk_work(s, chunks[k]),
    decreases n,
{
    if n > 0 {
        let m = (n - 1) as nat;
        lemma_prefill_work(s, chunks, m);
        let earlier = prefill_work(s, chunks, m);
        let all = prefill_work(s, chunks, n);
        assert forall|k: int| 0 <= k < n implies #[trigger] all[k] == chunk_work(
            s,
            chunks[k],
        ) by {
            if k < m {
                assert(all[k] == earlier[k]);
            }
        }
    }
}

proof fn lemma_decodes_work(s: SchedView, ids: Seq<SequenceId>, n: nat)
    requires
        n <= ids.len(),
        forall|k: int| 0 <= k < ids.len() ==> s.seq_of(#[trigger] ids[k]).tokens.len() > 0,
    ensures
        decodes_work(s, ids, n).len() == n,
        forall|k: int|
            0 <= k < n ==> #[trigger] decodes_work(s, ids, n)[k] == decode_work(s, ids[k]),
    decreases n,
{
    if n > 0 {
        let m = (n - 1) as nat;
        lemma_decodes_work(s, ids, m);
        assert(s.seq_of(ids[n - 1]).tokens.len() > 0);
        let earlier = decodes_work(s, ids, m);
        let all = decodes_work(s, ids, n);
        assert forall|k: int| 0 <= k < n implies #[trigger] all[k] == decode_work(s, ids[k]) by {
            if k < m {
                assert(all[k] == earlier[k]);
            }
        }
    }
}

/// A pass runs a slice of each of its sequences, each sequence once, with its own
/// blocks. Logits are asked for exactly where the slice ends at the last token of
/// the sequence; such a sequence owes a token, and generates. Where the slice ends
/// sooner, the sequence does not generate yet.
pub proof fn law_logits_are_asked_for_where_a_token_is_due(v: EngineView, i: int)
    requires
        v.wf(),
        0 <= i < pass_work(v.begun().sched, v.sched.stepped(v.now).1).len(),
    ensures
        ({
            let s = v.begun().sched;
            let all = pass_work(s, v.sched.stepped(v.now).1);
            let work = all[i];
            let tokens = s.seq_of(work.seq).tokens;
            let end = work.position + work.tokens.len();
            &&& s.known(work.seq)
            &&& work.tokens.len() > 0
            &&& end <= tokens.len()
            &&& work.tokens == tokens.subrange(work.position as int, end as int)
            &&& tokens == v.sched.seq_of(work.seq).tokens
            &&& work.blocks == s.table_of(work.seq)
            &&& work.needs_logits <==> end == tokens.len()
            &&& work.needs_logits <==> s.in_state(work.seq, SequenceState::Decoding)
            &&& !work.needs_logits <==> s.in_state(work.seq, SequenceState::Prefilling)
            &&& forall|j: int|
                0 <= j < all.len() && j != i ==> (#[trigger] all[j]).seq != work.seq
        }),
{
    let (s, batch) = v.sched.stepped(v.now);
    lemma_stepped(v.sched, v.now);
    law_a_pass_takes_prompts_as_far_as_it_can(v.sched, v.now);
    let all = pass_work(s, batch);
    assert forall|k: int| 0 <= k < batch.decode.len() implies s.seq_of(
        #[trigger] batch.decode[k],
    ).tokens.len() > 0 by {
        let id = batch.decode[k];
        assert(s.in_state(id, SequenceState::Decoding));
        assert(s.seqs[id.0 - 1].wf());
        assert(s.seqs[id.0 - 1].state.active() ==> s.seqs[id.0 - 1].computed > 0);
    }
    lemma_prefill_work(s, batch.prefill, batch.prefill.len());
    lemma_decodes_work(s, batch.decode, batch.decode.len());
    let chunks = prefill_work(s, batch.prefill, batch.prefill.len());
    let decodes = decodes_work(s, batch.decode, batch.decode.len());
    let work = all[i];
    if i < chunks.len() {
        assert(work == chunks[i]);
        let c = batch.prefill[i];
        assert(work == chunk_work(s, c));
        assert(work.seq == c.seq);
    } else {
        assert(work == decodes[i - chunks.len()]);
        let id = batch.decode[i - chunks.len()];
        assert(s.in_state(id, SequenceState::Decoding));
        let tokens = s.seq_of(id).tokens;
        assert(work.tokens =~= tokens.subrange(work.position as int, tokens.len() as int));
    }
    assert(crate::sched::model::same_stream(
        v.sched.seqs[work.seq.0 - 1],
        s.seqs[work.seq.0 - 1],
    ));
    assert forall|j: int| 0 <= j < all.len() && j != i implies (#[trigger] all[j]).seq
        != work.seq by {
        if j < chunks.len() {
            assert(all[j] == chunks[j]);
            assert(all[j].seq == batch.prefill[j].seq);
        } else {
            assert(all[j] == decodes[j - chunks.len()]);
            assert(all[j].seq == batch.decode[j - chunks.len()]);
        }
        if i < chunks.len() {
            assert(work.seq == batch.prefill[i].seq);
        } else {
            assert(work.seq == batch.decode[i - chunks.len()]);
        }
    }
}

/// Every chunk and every decode slot of the step is run by the pass, and nothing
/// else is.
pub proof fn law_a_pass_runs_all_that_was_scheduled(v: EngineView)
    requires
        v.wf(),
    ensures
        ({
            let (s, batch) = v.sched.stepped(v.now);
            let all = pass_work(v.begun().sched, batch);
            &&& all.len() == batch.prefill.len() + batch.decode.len()
            &&& forall|k: int|
                0 <= k < batch.prefill.len() ==> (#[trigger] all[k]).seq == batch.prefill[k].seq
                    && all[k].position == batch.prefill[k].start && all[k].tokens.len()
                    == batch.prefill[k].len
            &&& forall|k: int|
                batch.prefill.len() <= k < all.len() ==> (#[trigger] all[k]).seq
                    == batch.decode[k - batch.prefill.len()] && all[k].tokens.len() == 1
        }),
{
    let (s, batch) = v.sched.stepped(v.now);
    lemma_stepped(v.sched, v.now);
    law_a_pass_takes_prompts_as_far_as_it_can(v.sched, v.now);
    assert forall|k: int| 0 <= k < batch.decode.len() implies s.seq_of(
        #[trigger] batch.decode[k],
    ).tokens.len() > 0 by {
        let id = batch.decode[k];
        assert(s.in_state(id, SequenceState::Decoding));
        assert(s.seqs[id.0 - 1].wf());
        assert(s.seqs[id.0 - 1].state.active() ==> s.seqs[id.0 - 1].computed > 0);
    }
    lemma_prefill_work(s, batch.prefill, batch.prefill.len());
    lemma_decodes_work(s, batch.decode, batch.decode.len());
    let chunks = prefill_work(s, batch.prefill, batch.prefill.len());
    let decodes = decodes_work(s, batch.decode, batch.decode.len());
    let all = pass_work(s, batch);
    assert forall|k: int| 0 <= k < batch.prefill.len() implies (#[trigger] all[k]).seq
        == batch.prefill[k].seq && all[k].position == batch.prefill[k].start
        && all[k].tokens.len() == batch.prefill[k].len by {
        assert(all[k] == chunks[k]);
        let c = batch.prefill[k];
        assert(c.start + c.len <= s.seq_of(c.seq).tokens.len());
    }
    assert forall|k: int| batch.prefill.len() <= k < all.len() implies (#[trigger] all[k]).seq
        == batch.decode[k - batch.prefill.len()] && all[k].tokens.len() == 1 by {
        assert(all[k] == decodes[k - batch.prefill.len()]);
    }
}

/// The tokens that the notices tell of one sequence, in order.
pub open spec fn tokens_told(notices: Seq<NoticeView>, id: SequenceId) -> Seq<TokenId>
    decreases notices.len(),
{
    if notices.len() == 0 {
        Seq::empty()
    } else {
        let earlier = tokens_told(notices.drop_last(), id);
        match notices.last().event {
            EventView::Token { token, .. } => if notices.last().seq == id {
                earlier.push(token)
            } else {
                earlier
            },
            EventView::Done { .. } => earlier,
        }
    }
}

proof fn lemma_told_concat(a: Seq<NoticeView>, b: Seq<NoticeView>, id: SequenceId)
    ensures
        tokens_told(a + b, id) == tokens_told(a, id) + tokens_told(b, id),
    decreases b.len(),
{
    if b.len() == 0 {
        assert(a + b =~= a);
        assert(tokens_told(a, id) + tokens_told(b, id) =~= tokens_told(a, id));
    } else {
        assert((a + b).drop_last() =~= a + b.drop_last());
        lemma_told_concat(a, b.drop_last(), id);
        assert(tokens_told(a + b, id) =~= tokens_told(a, id) + tokens_told(b, id));
    }
}

proof fn lemma_ends_tell_no_token(notices: Seq<NoticeView>, id: SequenceId)
    requires
        forall|i: int| 0 <= i < notices.len() ==> (#[trigger] notices[i]).event is Done,
    ensures
        tokens_told(notices, id) == Seq::<TokenId>::empty(),
    decreases notices.len(),
{
    if notices.len() > 0 {
        let rest = notices.drop_last();
        assert forall|i: int| 0 <= i < rest.len() implies (#[trigger] rest[i]).event is Done by {
            assert(notices[i] == rest[i]);
        }
        lemma_ends_tell_no_token(rest, id);
        assert(notices.last() == notices[notices.len() - 1]);
    }
}

/// No sequence is drawn for twice.
pub open spec fn drawn_once(drawn: Seq<(SequenceId, TokenId)>) -> bool {
    forall|i: int, j: int|
        0 <= i < drawn.len() && 0 <= j < drawn.len() && i != j ==> (#[trigger] drawn[i]).0 != (
        #[trigger] drawn[j]).0
}

/// Every sequence drawn for generates, and can take one more token.
pub open spec fn drawn_for_generating(s: SchedView, drawn: Seq<(SequenceId, TokenId)>) -> bool {
    forall|i: int|
        0 <= i < drawn.len() ==> s.in_state((#[trigger] drawn[i]).0, SequenceState::Decoding)
            && s.seq_of(drawn[i].0).tokens.len() < usize::MAX
}

proof fn lemma_sampled_comes_from_draws(
    v: EngineView,
    drawn: Seq<(SequenceId, TokenId)>,
    n: nat,
)
    requires
        n <= drawn.len(),
        drawn_once(drawn),
    ensures
        forall|i: int|
            0 <= i < v.sampled(drawn, n).len() ==> exists|j: int|
                0 <= j < n && drawn[j] == #[trigger] v.sampled(drawn, n)[i],
        drawn_once(v.sampled(drawn, n)),
        forall|i: int|
            0 <= i < v.sampled(drawn, n).len() ==> v.serves(
                (#[trigger] v.sampled(drawn, n)[i]).0,
            ),
    decreases n,
{
    if n > 0 {
        let m = (n - 1) as nat;
        lemma_sampled_comes_from_draws(v, drawn, m);
        let earlier = v.sampled(drawn, m);
        let all = v.sampled(drawn, n);
        assert forall|i: int| 0 <= i < all.len() implies exists|j: int|
            0 <= j < n && drawn[j] == #[trigger] all[i] by {
            if i < earlier.len() {
                assert(all[i] == earlier[i]);
                let j = choose|j: int| 0 <= j < m && drawn[j] == earlier[i];
                assert(drawn[j] == all[i]);
            } else {
                assert(drawn[m as int] == all[i]);
            }
        }
        assert forall|i: int, j: int|
            0 <= i < all.len() && 0 <= j < all.len() && i != j implies (#[trigger] all[i]).0 != (
        #[trigger] all[j]).0 by {
            if i < earlier.len() {
                assert(all[i] == earlier[i]);
                let k = choose|k: int| 0 <= k < m && drawn[k] == earlier[i];
                assert(drawn[k].0 != drawn[m as int].0);
            }
            if j < earlier.len() {
                assert(all[j] == earlier[j]);
                let k = choose|k: int| 0 <= k < m && drawn[k] == earlier[j];
                assert(drawn[k].0 != drawn[m as int].0);
            }
        }
        assert forall|i: int| 0 <= i < all.len() implies v.serves((#[trigger] all[i]).0) by {
            if i < earlier.len() {
                assert(all[i] == earlier[i]);
            }
        }
    }
}

/// What is sampled for a sequence that was drawn for at `k`.
proof fn lemma_sampled_of_a_draw(
    v: EngineView,
    drawn: Seq<(SequenceId, TokenId)>,
    n: nat,
    k: int,
)
    requires
        n <= drawn.len(),
        0 <= k < drawn.len(),
        drawn_once(drawn),
    ensures
        ({
            let (id, token) = drawn[k];
            &&& tokens_of(v.sampled(drawn, n), id) == if k < n && v.serves(id) && !v.is_stop(
                id,
                token,
            ) {
                seq![token]
            } else {
                Seq::<TokenId>::empty()
            }
            &&& v.stopped(drawn, n).contains(id) <==> k < n && v.is_stop(id, token)
        }),
    decreases n,
{
    let (id, token) = drawn[k];
    if n > 0 {
        let m = (n - 1) as nat;
        lemma_sampled_of_a_draw(v, drawn, m, k);
        let earlier = v.sampled(drawn, m);
        let all = v.sampled(drawn, n);
        if all.len() > earlier.len() {
            assert(all.drop_last() =~= earlier);
            assert(Seq::<TokenId>::empty().push(token) =~= seq![token]);
        }
        let halted = v.stopped(drawn, m);
        let stops = v.stopped(drawn, n);
        if m != k {
            assert(drawn[m as int].0 != id);
        }
        if stops.len() > halted.len() {
            assert(stops[halted.len() as int] == drawn[m as int].0);
            if halted.contains(id) {
                assert(stops[halted.index_of(id)] == id);
            }
            if stops.contains(id) && stops.index_of(id) < halted.len() {
                assert(halted[stops.index_of(id)] == id);
            }
        }
    } else {
        assert(!v.stopped(drawn, 0).contains(id));
    }
}

proof fn lemma_nothing_sampled_undrawn(
    v: EngineView,
    drawn: Seq<(SequenceId, TokenId)>,
    n: nat,
    id: SequenceId,
)
    requires
        n <= drawn.len(),
        forall|i: int| 0 <= i < drawn.len() ==> (#[trigger] drawn[i]).0 != id,
    ensures
        tokens_of(v.sampled(drawn, n), id) == Seq::<TokenId>::empty(),
        !v.stopped(drawn, n).contains(id),
    decreases n,
{
    if n > 0 {
        let m = (n - 1) as nat;
        lemma_nothing_sampled_undrawn(v, drawn, m, id);
        let earlier = v.sampled(drawn, m);
        let all = v.sampled(drawn, n);
        assert(drawn[m as int].0 != id);
        if all.len() > earlier.len() {
            assert(all.drop_last() =~= earlier);
        }
        let halted = v.stopped(drawn, m);
        let stops = v.stopped(drawn, n);
        if stops.contains(id) {
            let k = stops.index_of(id);
            if k < halted.len() {
                assert(halted[k] == id);
            }
        }
    }
}

proof fn lemma_not_among(tokens: Seq<(SequenceId, TokenId)>, id: SequenceId)
    requires
        forall|i: int| 0 <= i < tokens.len() ==> (#[trigger] tokens[i]).0 != id,
    ensures
        tokens_of(tokens, id) == Seq::<TokenId>::empty(),
    decreases tokens.len(),
{
    if tokens.len() > 0 {
        let rest = tokens.drop_last();
        assert forall|i: int| 0 <= i < rest.len() implies (#[trigger] rest[i]).0 != id by {
            assert(rest[i] == tokens[i]);
        }
        lemma_not_among(rest, id);
        assert(tokens.last() == tokens[tokens.len() - 1]);
    }
}

/// Feeding tokens back appends them to their sequences. A sequence that reaches its
/// limit by it ends, and one that got no token stays as it was.
proof fn lemma_feeding_appends(
    s: SchedView,
    outputs: Seq<(SequenceId, TokenId)>,
    n: nat,
    now: Tick,
    p: SequenceId,
)
    requires
        s.wf(),
        n <= outputs.len(),
        drawn_once(outputs),
        drawn_for_generating(s, outputs),
        s.known(p),
    ensures
        ({
            let (w, done) = s.fed(outputs, n, now);
            let some = tokens_of(outputs.take(n as int), p);
            let (q0, q) = (s.seq_of(p), w.seq_of(p));
            &&& w.wf()
            &&& w.seqs.len() == s.seqs.len()
            &&& q.tokens == q0.tokens + some
            &&& some.len() == 0 ==> q == q0
            &&& some.len() <= 1
            &&& some.len() == 1 ==> q.state == if q0.output_len() + 1 >= q0.max_tokens {
                SequenceState::Finished(FinishReason::Length)
            } else {
                SequenceState::Decoding
            }
            &&& forall|i: int| 0 <= i < done.len() ==> (#[trigger] done[i]).reason
                == FinishReason::Length
        }),
    decreases n,
{
    if n == 0 {
        assert(outputs.take(0) =~= Seq::<(SequenceId, TokenId)>::empty());
        assert(s.seq_of(p).tokens + Seq::<TokenId>::empty() =~= s.seq_of(p).tokens);
    } else {
        let m = (n - 1) as nat;
        let (id, token) = outputs[m as int];
        assert(s.in_state(outputs[m as int].0, SequenceState::Decoding));
        lemma_feeding_appends(s, outputs, m, now, p);
        lemma_feeding_appends(s, outputs, m, now, id);
        let (u, before) = s.fed(outputs, m, now);
        let (w, done) = s.fed(outputs, n, now);
        let shorter = outputs.take(m as int);
        let longer = outputs.take(n as int);
        assert(longer.drop_last() =~= shorter);
        assert(longer.last() == outputs[m as int]);
        assert forall|i: int| 0 <= i < shorter.len() implies (#[trigger] shorter[i]).0 != id by {
            assert(shorter[i] == outputs[i]);
        }
        lemma_not_among(shorter, id);
        assert(u.seq_of(id) == s.seq_of(id));
        lemma_fed_token(u, id, token, now);
        let next = u.fed_token(id, token, now);
        assert(next.seq_of(id) == u.seq_of(id).pushed(token, now));
        if next.seq_of(id).at_limit() {
            assert(next.open(id));
            lemma_ended(next, id, FinishReason::Length);
        }
        if p == id {
            assert(tokens_of(longer, p) =~= seq![token]);
            assert(s.seq_of(p).tokens.push(token) =~= s.seq_of(p).tokens + seq![token]);
        }
        let more = u.fed_one(id, token, now).1;
        assert(done == before + more);
        assert forall|i: int| 0 <= i < done.len() implies (#[trigger] done[i]).reason
            == FinishReason::Length by {
            if i < before.len() {
                assert(done[i] == before[i]);
            } else {
                assert(done[i] == more[i - before.len()]);
            }
        }
    }
}

proof fn lemma_emitting_tells<T: Tokenizer>(
    v: EngineView,
    t: T,
    tokens: Seq<(SequenceId, TokenId)>,
    n: nat,
    id: SequenceId,
)
    requires
        n <= tokens.len(),
        v.serves(id),
    ensures
        ({
            let (u, told) = v.emitted_all(t, tokens, n);
            &&& u.sched == v.sched
            &&& u.active.len() == v.active.len()
            &&& u.serves(id)
            &&& tokens_told(told, id) == tokens_of(tokens.take(n as int), id)
            &&& forall|i: int| 0 <= i < told.len() ==> (#[trigger] told[i]).event is Token
        }),
    decreases n,
{
    if n == 0 {
        assert(tokens.take(0) =~= Seq::<(SequenceId, TokenId)>::empty());
    } else {
        let m = (n - 1) as nat;
        lemma_emitting_tells(v, t, tokens, m, id);
        let (u, told) = v.emitted_all(t, tokens, m);
        let (seq, token) = tokens[m as int];
        let more = u.emitted(t, seq, token).1;
        lemma_told_concat(told, more, id);
        assert(tokens.take(n as int).drop_last() =~= tokens.take(m as int));
        if u.serves(seq) {
            assert(more.drop_last() =~= Seq::<NoticeView>::empty());
            assert(tokens_told(more.drop_last(), id) == Seq::<TokenId>::empty());
            assert(tokens_told(more, id) =~= if seq == id {
                seq![token]
            } else {
                Seq::<TokenId>::empty()
            });
        } else {
            assert(tokens_told(more, id) == Seq::<TokenId>::empty());
        }
        let longer = tokens_of(tokens.take(n as int), id);
        let shorter = tokens_of(tokens.take(m as int), id);
        assert(longer =~= shorter + tokens_told(more, id));
        let all = told + more;
        assert forall|i: int| 0 <= i < all.len() implies (#[trigger] all[i]).event is Token by {
            if i < told.len() {
                assert(all[i] == told[i]);
            } else {
                assert(all[i] == more[i - told.len()]);
            }
        }
    }
}

/// Stops end the sequences they name, and no other.
proof fn lemma_stops_end(v: EngineView, stops: Seq<SequenceId>, n: nat, p: SequenceId)
    requires
        n <= stops.len(),
        v.sched.known(p),
    ensures
        ({
            let (w, told) = v.stopped_all(stops, n);
            let stopped = stops.take(n as int).contains(p);
            let (q0, q) = (v.sched.seq_of(p), w.sched.seq_of(p));
            &&& w.sched.seqs.len() == v.sched.seqs.len()
            &&& q.tokens == q0.tokens
            &&& stopped && v.sched.open(p) ==> q.state == SequenceState::Finished(
                FinishReason::Stop,
            )
            &&& !stopped || !v.sched.open(p) ==> q == q0
            &&& forall|i: int|
                0 <= i < told.len() ==> (#[trigger] told[i]).event is Done && told[i].event->reason
                    == FinishReason::Stop && stops.take(n as int).contains(told[i].seq)
        }),
    decreases n,
{
    if n == 0 {
        assert(!stops.take(0).contains(p));
    } else {
        let m = (n - 1) as nat;
        lemma_stops_end(v, stops, m, p);
        let (u, told) = v.stopped_all(stops, m);
        let seq = stops[m as int];
        let halted = EngineView { sched: u.sched.retired(seq, FinishReason::Stop).0, ..u };
        let more = halted.retired(seq, FinishReason::Stop).1;
        let shorter = stops.take(m as int);
        let longer = stops.take(n as int);
        assert(longer =~= shorter.push(seq));
        assert(longer[m as int] == seq);
        if shorter.contains(p) {
            assert(longer[shorter.index_of(p)] == p);
        }
        if longer.contains(p) && p != seq {
            assert(shorter[longer.index_of(p)] == p);
        }
        let all = told + more;
        assert forall|i: int| 0 <= i < all.len() implies (#[trigger] all[i]).event is Done
            && all[i].event->reason == FinishReason::Stop && longer.contains(all[i].seq) by {
            if i < told.len() {
                assert(all[i] == told[i]);
                assert(longer[shorter.index_of(told[i].seq)] == told[i].seq);
            } else {
                assert(all[i] == more[i - told.len()]);
            }
        }
    }
}

proof fn lemma_finishes_tell(v: EngineView, done: Seq<FinishedView>, n: nat)
    requires
        n <= done.len(),
        forall|i: int| 0 <= i < done.len() ==> (#[trigger] done[i]).reason == FinishReason::Length,
    ensures
        ({
            let (w, told) = v.retired_all(done, n);
            &&& w.sched == v.sched
            &&& forall|id: SequenceId| #[trigger] w.serves(id) ==> v.serves(id)
            &&& forall|i: int|
                0 <= i < told.len() ==> (#[trigger] told[i]).event is Done && told[i].event->reason
                    == FinishReason::Length && v.serves(told[i].seq)
        }),
    decreases n,
{
    if n > 0 {
        let m = (n - 1) as nat;
        lemma_finishes_tell(v, done, m);
        let (u, told) = v.retired_all(done, m);
        let more = u.retired(done[m as int].seq, done[m as int].reason).1;
        let w = v.retired_all(done, n).0;
        assert forall|id: SequenceId| #[trigger] w.serves(id) implies v.serves(id) by {
            assert(u.serves(id));
        }
        let all = told + more;
        assert forall|i: int| 0 <= i < all.len() implies (#[trigger] all[i]).event is Done
            && all[i].event->reason == FinishReason::Length && v.serves(all[i].seq) by {
            if i < told.len() {
                assert(all[i] == told[i]);
            } else {
                assert(all[i] == more[i - told.len()]);
            }
        }
    }
}

/// The token ends the sequence: it is the end token, and that counts, or the request
/// named it.
pub open spec fn ends(v: EngineView, id: SequenceId, token: TokenId) -> bool {
    let sampler = v.active_of(id).sampler;
    ||| token == sampler.eos && !sampler.params.ignore_eos
    ||| sampler.params.stop_tokens.contains(token)
}

/// A token that is drawn for a sequence, and does not end it, is told to its client
/// and appended to the sequence, that token and no other. A token that ends the
/// sequence is neither: the sequence stops as it stands. One that reaches its
/// limit ends for its length. The client is told of the end, with its reason, and
/// the engine lets go of the sequence, in these two events only.
pub proof fn law_a_drawn_token_is_told_and_kept<T: Tokenizer>(
    v: EngineView,
    t: T,
    drawn: Seq<(SequenceId, TokenId)>,
    k: int,
)
    requires
        v.wf(),
        drawn_once(drawn),
        drawn_for_generating(v.sched, drawn),
        0 <= k < drawn.len(),
    ensures
        ({
            let (id, token) = drawn[k];
            let (w, told) = v.settled(t, drawn);
            let (q0, q) = (v.sched.seq_of(id), w.sched.seq_of(id));
            let full = q0.tokens.len() + 1 - q0.prompt_len >= q0.max_tokens;
            &&& ends(v, id, token) ==> {
                &&& tokens_told(told, id).len() == 0
                &&& q.tokens == q0.tokens
                &&& q.state == SequenceState::Finished(FinishReason::Stop)
                &&& !w.serves(id)
            }
            &&& !ends(v, id, token) ==> {
                &&& tokens_told(told, id) == seq![token]
                &&& q.tokens == q0.tokens.push(token)
                &&& q.state == if full {
                    SequenceState::Finished(FinishReason::Length)
                } else {
                    SequenceState::Decoding
                }
                &&& w.serves(id) <==> !full
            }
            &&& forall|i: int|
                0 <= i < told.len() && (#[trigger] told[i]).seq == id && told[i].event is Done
                    ==> told[i].event->reason == if ends(v, id, token) {
                    FinishReason::Stop
                } else {
                    FinishReason::Length
                }
        }),
{
    let (id, token) = drawn[k];
    let kept = v.sampled(drawn, drawn.len());
    let stops = v.stopped(drawn, drawn.len());
    let (sched, done) = v.sched.fed(kept, kept.len(), v.now);
    assert(v.sched.in_state(drawn[k].0, SequenceState::Decoding));
    assert(v.sched.open(id));
    assert(v.serves(id));
    lemma_sampled_comes_from_draws(v, drawn, drawn.len());
    lemma_sampled_of_a_draw(v, drawn, drawn.len(), k);
    assert(v.is_stop(id, token) <==> ends(v, id, token));
    lemma_kept_can_be_fed(v, drawn);
    assert(kept.take(kept.len() as int) =~= kept);
    assert(stops.take(stops.len() as int) =~= stops);
    lemma_feeding_appends(v.sched, kept, kept.len(), v.now, id);
    lemma_settled(v, t, drawn);
    let v0 = EngineView { sched, ..v };
    lemma_emitting_tells(v0, t, kept, kept.len(), id);
    let (v1, told1) = v0.emitted_all(t, kept, kept.len());
    lemma_stops_end(v1, stops, stops.len(), id);
    lemma_stopped_all(v1, stops, stops.len());
    let (v2, told2) = v1.stopped_all(stops, stops.len());
    lemma_finishes_tell(v2, done, done.len());
    let (w, told3) = v2.retired_all(done, done.len());
    lemma_ends_tell_no_token(told2, id);
    lemma_ends_tell_no_token(told3, id);
    lemma_told_concat(told1, told2, id);
    lemma_told_concat(told1 + told2, told3, id);
    let all = told1 + told2 + told3;
    assert(tokens_told(all, id) =~= tokens_of(kept, id));
    let q0 = v.sched.seq_of(id);
    assert(q0.tokens + Seq::<TokenId>::empty() =~= q0.tokens);
    assert(q0.tokens + seq![token] =~= q0.tokens.push(token));
    assert(v.sched.seqs[id.0 - 1].wf());
    assert(w.sched.open(id) <==> w.serves(id));
    assert(v2.serves(id) <==> v1.serves(id) && !stops.take(stops.len() as int).contains(id));
    assert forall|i: int|
        0 <= i < all.len() && (#[trigger] all[i]).seq == id && all[i].event is Done implies all[i].event->reason
        == if ends(v, id, token) {
        FinishReason::Stop
    } else {
        FinishReason::Length
    } by {
        if i < told1.len() {
            assert(all[i] == told1[i]);
        } else if i < told1.len() + told2.len() {
            assert(all[i] == told2[i - told1.len()]);
        } else {
            assert(all[i] == told3[i - told1.len() - told2.len()]);
        }
    }
}

proof fn lemma_kept_can_be_fed(v: EngineView, drawn: Seq<(SequenceId, TokenId)>)
    requires
        drawn_once(drawn),
        drawn_for_generating(v.sched, drawn),
    ensures
        drawn_for_generating(v.sched, v.sampled(drawn, drawn.len())),
{
    let kept = v.sampled(drawn, drawn.len());
    lemma_sampled_comes_from_draws(v, drawn, drawn.len());
    assert forall|i: int| 0 <= i < kept.len() implies v.sched.in_state(
        (#[trigger] kept[i]).0,
        SequenceState::Decoding,
    ) && v.sched.seq_of(kept[i].0).tokens.len() < usize::MAX by {
        let j = choose|j: int| 0 <= j < drawn.len() && drawn[j] == kept[i];
        assert(v.sched.in_state(drawn[j].0, SequenceState::Decoding));
    }
}

/// A sequence for which nothing was drawn is told nothing and stays as it was.
pub proof fn law_settling_touches_only_what_was_drawn_for<T: Tokenizer>(
    v: EngineView,
    t: T,
    drawn: Seq<(SequenceId, TokenId)>,
    id: SequenceId,
)
    requires
        v.wf(),
        v.serves(id),
        drawn_once(drawn),
        drawn_for_generating(v.sched, drawn),
        forall|i: int| 0 <= i < drawn.len() ==> (#[trigger] drawn[i]).0 != id,
    ensures
        ({
            let (w, told) = v.settled(t, drawn);
            &&& tokens_told(told, id).len() == 0
            &&& w.sched.seq_of(id) == v.sched.seq_of(id)
            &&& w.serves(id)
        }),
{
    let kept = v.sampled(drawn, drawn.len());
    let stops = v.stopped(drawn, drawn.len());
    let (sched, done) = v.sched.fed(kept, kept.len(), v.now);
    assert(v.sched.open(id) <==> v.serves(id));
    lemma_sampled_comes_from_draws(v, drawn, drawn.len());
    lemma_nothing_sampled_undrawn(v, drawn, drawn.len(), id);
    lemma_kept_can_be_fed(v, drawn);
    assert(kept.take(kept.len() as int) =~= kept);
    assert(stops.take(stops.len() as int) =~= stops);
    lemma_feeding_appends(v.sched, kept, kept.len(), v.now, id);
    lemma_settled(v, t, drawn);
    let v0 = EngineView { sched, ..v };
    lemma_emitting_tells(v0, t, kept, kept.len(), id);
    let (v1, told1) = v0.emitted_all(t, kept, kept.len());
    lemma_stops_end(v1, stops, stops.len(), id);
    let (v2, told2) = v1.stopped_all(stops, stops.len());
    lemma_finishes_tell(v2, done, done.len());
    let (w, told3) = v2.retired_all(done, done.len());
    lemma_ends_tell_no_token(told2, id);
    lemma_ends_tell_no_token(told3, id);
    lemma_told_concat(told1, told2, id);
    lemma_told_concat(told1 + told2, told3, id);
    assert(tokens_told(told1 + told2 + told3, id) =~= tokens_of(kept, id));
    assert(w.sched.open(id) <==> w.serves(id));
}

/// A request that is accepted arrives now, under the next number, and is one
/// sequence. What the engine keeps of it starts with nothing said; it draws from the
/// seed of the request, or else from the engine's plus the number of the request.
pub proof fn law_a_request_arrives_now(
    v: EngineView,
    tenant: Seq<char>,
    prompt: Seq<TokenId>,
    params: SamplingView,
    class: ServiceClass,
    eos: TokenId,
)
    requires
        v.wf(),
        prompt.len() <= usize::MAX,
        v.sched.seqs.len() < usize::MAX,
    ensures
        ({
            let request = v.request_of(tenant, prompt, params, class);
            let w = v.accepted(request, eos);
            let id = SequenceId((v.sched.seqs.len() + 1) as u64);
            let a = w.active_of(id);
            &&& request.id.0 == v.next_request
            &&& request.arrived_at == v.now
            &&& request.tenant == tenant
            &&& request.prompt == prompt
            &&& request.params == params
            &&& request.class == class
            &&& request.n == 1
            &&& w.serves(id)
            &&& w.sched.seqs.len() == v.sched.seqs.len() + 1
            &&& w.sched.seq_of(id).tokens == prompt
            &&& w.sched.seq_of(id).arrived_at == v.now
            &&& w.sched.seq_of(id).max_tokens == params.max_tokens
            &&& a.emitted == 0
            &&& a.prompt_tokens == prompt.len()
            &&& a.request.0 == v.next_request
            &&& a.sampler.params == params
            &&& a.sampler.eos == eos
            &&& params.seed is Some ==> a.sampler.seed == params.seed->0
            &&& params.seed is None ==> a.sampler.seed as int == (v.config.base_seed
                + v.next_request) % 0x1_0000_0000_0000_0000
            &&& w.now == v.now
            &&& v.next_request < u64::MAX ==> w.next_request == v.next_request + 1
        }),
{
    assert(v.active.len() == v.sched.seqs.len());
}

/// A pass that has run is on record, and the clock moves on by its duration, and by
/// one microsecond at least. Nothing else changes.
pub proof fn law_a_pass_is_on_record(v: EngineView, cost: PassCost)
    requires
        v.now + cost.duration_us < u64::MAX,
        v.busy_us + cost.duration_us <= u64::MAX,
        v.forward_passes < u64::MAX,
    ensures
        v.passed(cost).forward_passes == v.forward_passes + 1,
        v.passed(cost).busy_us == v.busy_us + cost.duration_us,
        v.passed(cost).estimated == cost.estimated,
        cost.duration_us > 0 ==> v.passed(cost).now == v.now + cost.duration_us,
        cost.duration_us == 0 ==> v.passed(cost).now == v.now + 1,
        v.passed(cost).sched == v.sched,
        v.passed(cost).active == v.active,
{
}

/// What a client is told at the end counts what happened: the tokens of its prompt,
/// those that were told, and how much of the context came from the cache.
pub proof fn law_usage_is_what_was_used(v: EngineView, id: SequenceId, reason: FinishReason)
    requires
        v.wf(),
        v.serves(id),
    ensures
        ({
            let told = v.retired(id, reason).1;
            &&& told.len() == 1
            &&& told[0].seq == id
            &&& told[0].event is Done
            &&& told[0].event->reason == reason
            &&& told[0].event->usage.prompt_tokens == v.active_of(id).prompt_tokens
            &&& told[0].event->usage.completion_tokens == v.active_of(id).emitted
            &&& told[0].event->usage.cached_prompt_tokens == v.sched.seq_of(id).cached_prefix_len
            &&& !v.retired(id, reason).0.serves(id)
        }),
{
    assert(v.sched.open(id));
    assert(v.sched.seqs[id.0 - 1].wf());
}

/// A step that runs something leaves the clock to the pass, and a step changes
/// nothing of what the engine keeps of its sequences.
pub proof fn law_a_busy_step_leaves_the_clock(v: EngineView)
    ensures
        v.sched.stepped(v.now).1.prefill.len() + v.sched.stepped(v.now).1.decode.len() > 0
            ==> v.begun().now == v.now,
        v.begun().active == v.active,
        v.begun().sched == v.sched.stepped(v.now).0,
        v.begun().forward_passes == v.forward_passes,
        v.begun().busy_us == v.busy_us,
        v.begun().next_request == v.next_request,
{
}

/// A draw moves on the generator of its own sequence, and changes nothing else.
pub proof fn law_a_draw_moves_its_own_generator(v: EngineView, id: SequenceId, other: SequenceId)
    requires
        v.serves(id),
        other != id,
    ensures
        ({
            let w = v.drew(id);
            &&& w.serves(id)
            &&& w.active_of(id).sampler.seed == v.active_of(id).sampler.seed
            &&& w.active_of(id).sampler.params == v.active_of(id).sampler.params
            &&& w.active_of(id).emitted == v.active_of(id).emitted
            &&& w.active_of(id).decoder == v.active_of(id).decoder
            &&& w.serves(other) <==> v.serves(other)
            &&& v.serves(other) ==> w.active_of(other) == v.active_of(other)
            &&& w.sched == v.sched
            &&& w.now == v.now
        }),
{
}

proof fn lemma_ends_have_their_reasons(v: EngineView, done: Seq<FinishedView>, n: nat)
    requires
        n <= done.len(),
    ensures
        forall|i: int|
            0 <= i < v.retired_all(done, n).1.len() ==> exists|k: int|
                0 <= k < n && done[k].seq == (#[trigger] v.retired_all(done, n).1[i]).seq
                    && v.retired_all(done, n).1[i].event is Done && v.retired_all(
                    done,
                    n,
                ).1[i].event->reason == done[k].reason,
        v.retired_all(done, n).0.sched == v.sched,
        v.retired_all(done, n).0.active.len() == v.active.len(),
        forall|id: SequenceId|
            (forall|k: int| 0 <= k < n ==> (#[trigger] done[k]).seq != id) ==> (
            #[trigger] v.retired_all(done, n).0.serves(id) <==> v.serves(id)),
        forall|k: int| 0 <= k < n ==> !v.retired_all(done, n).0.serves((#[trigger] done[k]).seq),
    decreases n,
{
    if n > 0 {
        let m = (n - 1) as nat;
        lemma_ends_have_their_reasons(v, done, m);
        let (u, told) = v.retired_all(done, m);
        let more = u.retired(done[m as int].seq, done[m as int].reason).1;
        let (w, all) = v.retired_all(done, n);
        assert(all == told + more);
        assert forall|i: int| 0 <= i < all.len() implies exists|k: int|
            0 <= k < n && done[k].seq == (#[trigger] all[i]).seq && all[i].event is Done
                && all[i].event->reason == done[k].reason by {
            if i < told.len() {
                assert(all[i] == told[i]);
                let k = choose|k: int|
                    0 <= k < m && done[k].seq == told[i].seq && told[i].event is Done
                        && told[i].event->reason == done[k].reason;
                assert(done[k].seq == all[i].seq);
            } else {
                assert(all[i] == more[0]);
                assert(done[m as int].seq == all[i].seq);
            }
        }
        assert forall|id: SequenceId|
            (forall|k: int| 0 <= k < n ==> (#[trigger] done[k]).seq != id) implies (
        #[trigger] w.serves(id) <==> v.serves(id)) by {
            assert(done[m as int].seq != id);
            assert(u.serves(id) <==> v.serves(id));
        }
        assert forall|k: int| 0 <= k < n implies !w.serves((#[trigger] done[k]).seq) by {
            if k < m {
                assert(!u.serves(done[k].seq));
            }
        }
    }
}

/// Whoever is told of an end by a cancellation is told that it was cancelled, and is
/// a client of the request. The engine lets go of every sequence of the request, and
/// of no other.
pub proof fn law_a_cancellation_is_told_as_such(v: EngineView, request: RequestId, id: SequenceId)
    requires
        v.wf(),
        v.serves(id),
    ensures
        ({
            let (w, told) = v.cancelled(request);
            &&& w.serves(id) <==> v.sched.seq_of(id).request != request
            &&& forall|i: int|
                0 <= i < told.len() ==> (#[trigger] told[i]).event is Done && told[i].event->reason
                    == FinishReason::Cancelled && v.sched.known(told[i].seq) && v.sched.seq_of(
                    told[i].seq,
                ).request == request
        }),
{
    let n = v.sched.seqs.len();
    law_a_cancellation_reports_what_it_ends(v.sched, request, n);
    let (sched, done) = v.sched.cancelled(request, n);
    let v0 = EngineView { sched, ..v };
    lemma_ends_have_their_reasons(v0, done, done.len());
    let (w, told) = v0.retired_all(done, done.len());
    lemma_reports_name_their_request(v.sched, request, n);
    assert forall|i: int| 0 <= i < told.len() implies (#[trigger] told[i]).event is Done
        && told[i].event->reason == FinishReason::Cancelled && v.sched.known(told[i].seq)
        && v.sched.seq_of(told[i].seq).request == request by {
        let k = choose|k: int|
            0 <= k < done.len() && done[k].seq == told[i].seq && told[i].event is Done
                && told[i].event->reason == done[k].reason;
        assert(done[k].reason == FinishReason::Cancelled);
        assert(v.sched.open(done[k].seq));
    }
    assert(v.sched.open(id) <==> v.serves(id));
    assert(v0.serves(id));
    if v.sched.seq_of(id).request == request {
        let k = choose|k: int| 0 <= k < done.len() && (#[trigger] done[k]).seq == id;
        assert(!w.serves(done[k].seq));
    } else {
        assert forall|k: int| 0 <= k < done.len() implies (#[trigger] done[k]).seq != id by {
            assert(v.sched.seq_of(done[k].seq).request == request);
        }
    }
}

proof fn lemma_reports_name_their_request(s: SchedView, request: RequestId, n: nat)
    requires
        s.wf(),
        n <= s.seqs.len(),
    ensures
        forall|k: int|
            0 <= k < s.cancelled(request, n).1.len() ==> s.seq_of(
                (#[trigger] s.cancelled(request, n).1[k]).seq,
            ).request == request,
    decreases n,
{
    if n > 0 {
        let m = (n - 1) as nat;
        lemma_reports_name_their_request(s, request, m);
        law_a_cancellation_reports_what_it_ends(s, request, m);
        let (before, done) = s.cancelled(request, m);
        let all = s.cancelled(request, n).1;
        assert(before.seqs[n - 1] == s.seqs[n - 1]);
        assert forall|k: int| 0 <= k < all.len() implies s.seq_of((#[trigger] all[k]).seq).request
            == request by {
            if k < done.len() {
                assert(all[k] == done[k]);
            } else {
                assert(all[k].seq == SequenceId(n as u64));
            }
        }
    }
}

/// The notices tell a client nothing after the end of its sequence.
pub open spec fn ends_last(notices: Seq<NoticeView>) -> bool {
    forall|i: int, j: int|
        0 <= i < j < notices.len() && (#[trigger] notices[i]).seq == (#[trigger] notices[j]).seq
            ==> notices[i].event is Token
}

/// Ends are told after all tokens, and no client is told of an end twice: nothing
/// follows the end of a sequence.
pub proof fn law_nothing_is_told_after_the_end<T: Tokenizer>(
    v: EngineView,
    t: T,
    drawn: Seq<(SequenceId, TokenId)>,
)
    ensures
        ends_last(v.settled(t, drawn).1),
{
    let all = v.settled(t, drawn).1;
    let kept = v.sampled(drawn, drawn.len());
    let stops = v.stopped(drawn, drawn.len());
    let (sched, done) = v.sched.fed(kept, kept.len(), v.now);
    let v0 = EngineView { sched, ..v };
    let (v1, told1) = v0.emitted_all(t, kept, kept.len());
    let (v2, told2) = v1.stopped_all(stops, stops.len());
    let (v3, told3) = v2.retired_all(done, done.len());
    lemma_all_are_tokens(v0, t, kept, kept.len());
    lemma_stops_are_told_once(v1, stops, stops.len());
    lemma_finishes_are_told_once(v2, done, done.len());
    assert(all == told1 + told2 + told3);
    assert forall|i: int, j: int|
        0 <= i < j < all.len() && (#[trigger] all[i]).seq == (
        #[trigger] all[j]).seq implies all[i].event is Token by {
        let (a, b) = (told1.len() as int, told2.len() as int);
        if i < a {
            assert(all[i] == told1[i]);
        } else if i < a + b {
            assert(all[i] == told2[i - a]);
            if j < a + b {
                assert(all[j] == told2[j - a]);
            } else {
                assert(all[j] == told3[j - a - b]);
            }
        } else {
            assert(all[i] == told3[i - a - b]);
            assert(all[j] == told3[j - a - b]);
        }
    }
}

proof fn lemma_all_are_tokens<T: Tokenizer>(
    v: EngineView,
    t: T,
    tokens: Seq<(SequenceId, TokenId)>,
    n: nat,
)
    ensures
        forall|i: int|
            0 <= i < v.emitted_all(t, tokens, n).1.len() ==> (#[trigger] v.emitted_all(
                t,
                tokens,
                n,
            ).1[i]).event is Token,
    decreases n,
{
    if n > 0 {
        lemma_all_are_tokens(v, t, tokens, (n - 1) as nat);
    }
}

/// The notices are of sequences that were served and are no more, each of one.
spec fn told_once(v: EngineView, w: EngineView, told: Seq<NoticeView>) -> bool {
    &&& forall|i: int| 0 <= i < told.len() ==> !w.serves((#[trigger] told[i]).seq)
    &&& forall|i: int, j: int|
        0 <= i < j < told.len() ==> (#[trigger] told[i]).seq != (#[trigger] told[j]).seq
    &&& forall|i: int| 0 <= i < told.len() ==> v.serves((#[trigger] told[i]).seq)
    &&& forall|id: SequenceId| #[trigger] w.serves(id) ==> v.serves(id)
}

proof fn lemma_told_once_goes_on(
    v: EngineView,
    u: EngineView,
    told: Seq<NoticeView>,
    seq: SequenceId,
    reason: FinishReason,
)
    requires
        told_once(v, u, told),
    ensures
        told_once(v, u.retired(seq, reason).0, told + u.retired(seq, reason).1),
{
    let (w, more) = u.retired(seq, reason);
    let all = told + more;
    assert forall|i: int| 0 <= i < all.len() implies !w.serves((#[trigger] all[i]).seq) by {
        if i < told.len() {
            assert(all[i] == told[i]);
            assert(!u.serves(told[i].seq));
        }
    }
    assert forall|i: int, j: int| 0 <= i < j < all.len() implies (#[trigger] all[i]).seq != (
    #[trigger] all[j]).seq by {
        assert(all[i] == told[i]);
        if j < told.len() {
            assert(all[j] == told[j]);
        } else {
            assert(u.serves(seq));
            assert(!u.serves(told[i].seq));
        }
    }
    assert forall|i: int| 0 <= i < all.len() implies v.serves((#[trigger] all[i]).seq) by {
        if i < told.len() {
            assert(all[i] == told[i]);
        } else {
            assert(u.serves(seq));
        }
    }
    assert forall|id: SequenceId| #[trigger] w.serves(id) implies v.serves(id) by {
        assert(u.serves(id));
    }
}

proof fn lemma_stops_are_told_once(v: EngineView, stops: Seq<SequenceId>, n: nat)
    requires
        n <= stops.len(),
    ensures
        told_once(v, v.stopped_all(stops, n).0, v.stopped_all(stops, n).1),
    decreases n,
{
    if n > 0 {
        let m = (n - 1) as nat;
        lemma_stops_are_told_once(v, stops, m);
        let (u, told) = v.stopped_all(stops, m);
        let halted = EngineView { sched: u.sched.retired(stops[n - 1], FinishReason::Stop).0, ..u };
        assert(told_once(v, halted, told)) by {
            assert forall|i: int| 0 <= i < told.len() implies !halted.serves(
                (#[trigger] told[i]).seq,
            ) by {
                assert(!u.serves(told[i].seq));
            }
            assert forall|id: SequenceId| #[trigger] halted.serves(id) implies v.serves(id) by {
                assert(u.serves(id));
            }
        }
        lemma_told_once_goes_on(v, halted, told, stops[n - 1], FinishReason::Stop);
    }
}

proof fn lemma_finishes_are_told_once(v: EngineView, done: Seq<FinishedView>, n: nat)
    requires
        n <= done.len(),
    ensures
        told_once(v, v.retired_all(done, n).0, v.retired_all(done, n).1),
    decreases n,
{
    if n > 0 {
        let m = (n - 1) as nat;
        lemma_finishes_are_told_once(v, done, m);
        let (u, told) = v.retired_all(done, m);
        lemma_told_once_goes_on(v, u, told, done[n - 1].seq, done[n - 1].reason);
    }
}

/// What is drawn from the logits of a pass can be settled: with one draw for each
/// piece of work that asked for logits, no sequence is drawn for twice, and every
/// sequence that is drawn for generates. So each token that is told is kept.
pub proof fn law_the_draws_of_a_pass_can_be_settled(
    v: EngineView,
    drawn: Seq<(SequenceId, TokenId)>,
    from: Seq<int>,
)
    requires
        v.wf(),
        from.len() == drawn.len(),
        from.no_duplicates(),
        forall|k: int|
            0 <= k < drawn.len() ==> {
                let all = pass_work(v.begun().sched, v.sched.stepped(v.now).1);
                &&& 0 <= #[trigger] from[k] < all.len()
                &&& all[from[k]].needs_logits
                &&& all[from[k]].seq == drawn[k].0
                &&& v.sched.seq_of(drawn[k].0).tokens.len() < usize::MAX
            },
    ensures
        drawn_once(drawn),
        drawn_for_generating(v.begun().sched, drawn),
{
    let s = v.begun().sched;
    let all = pass_work(s, v.sched.stepped(v.now).1);
    assert forall|i: int, j: int|
        0 <= i < drawn.len() && 0 <= j < drawn.len() && i != j implies (#[trigger] drawn[i]).0 != (
    #[trigger] drawn[j]).0 by {
        law_logits_are_asked_for_where_a_token_is_due(v, from[i]);
        assert(from[i] != from[j]);
        assert(all[from[j]].seq != all[from[i]].seq);
    }
    assert forall|i: int| 0 <= i < drawn.len() implies s.in_state(
        (#[trigger] drawn[i]).0,
        SequenceState::Decoding,
    ) && s.seq_of(drawn[i].0).tokens.len() < usize::MAX by {
        law_logits_are_asked_for_where_a_token_is_due(v, from[i]);
        assert(all[from[i]].seq == drawn[i].0);
    }
}

} // verus!

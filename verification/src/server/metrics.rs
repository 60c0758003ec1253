//! The Prometheus text exposition.
use vstd::prelude::*;

use crate::engine::EngineMetrics;
use crate::number::Ratio;

verus! {

/// What a sample shows.
#[derive(Debug, Clone, Copy, PartialEq, Eq, Structural)]
pub enum Figure {
    Count(u64),
    Rate(Ratio),
}

/// One metric with its value.
#[derive(Debug, Clone, Copy)]
pub struct Sample {
    pub name: &'static str,
    pub help: &'static str,
    /// Never falls. A metric that can is a gauge.
    pub counter: bool,
    pub figure: Figure,
}

/// One metric with its value, as values.
#[verifier::ext_equal]
pub struct SampleView {
    pub name: Seq<char>,
    pub help: Seq<char>,
    pub counter: bool,
    pub figure: Figure,
}

impl View for Sample {
    type V = SampleView;

    open spec fn view(&self) -> SampleView {
        SampleView {
            name: self.name@,
            help: self.help@,
            counter: self.counter,
            figure: self.figure,
        }
    }
}

/// A gauge that shows `figure`.
pub open spec fn gauge(name: Seq<char>, help: Seq<char>, figure: Figure) -> SampleView {
    SampleView { name, help, counter: false, figure }
}

/// A counter that shows `n`.
pub open spec fn counter(name: Seq<char>, help: Seq<char>, n: u64) -> SampleView {
    SampleView { name, help, counter: true, figure: Figure::Count(n) }
}

/// What the exposition reports, in order.
pub open spec fn samples_of(m: EngineMetrics) -> Seq<SampleView> {
    seq![
        gauge(
            "stride_requests_queued"@,
            "Requests waiting for admission."@,
            Figure::Count(m.queued as u64),
        ),
        gauge(
            "stride_sequences_running"@,
            "Sequences holding KV blocks."@,
            Figure::Count(m.running as u64),
        ),
        gauge(
            "stride_kv_blocks_total"@,
            "KV blocks in the pool."@,
            Figure::Count(m.kv_blocks_total as u64),
        ),
        gauge(
            "stride_kv_blocks_live"@,
            "KV blocks held by live sequences."@,
            Figure::Count(m.kv_blocks_live as u64),
        ),
        gauge(
            "stride_kv_blocks_cached"@,
            "Unreferenced but reusable KV blocks."@,
            Figure::Count(m.kv_blocks_cached as u64),
        ),
        gauge(
            "stride_kv_block_hit_rate"@,
            "Share of block lookups served from cache."@,
            Figure::Rate(m.kv_block_hit_rate),
        ),
        gauge(
            "stride_prefill_reuse_rate"@,
            "Share of context tokens skipped via prefix reuse."@,
            Figure::Rate(m.scheduler.reuse_rate()),
        ),
        gauge(
            "stride_backend_estimated"@,
            "1 when latency figures come from the analytic model rather than hardware."@,
            if m.estimated {
                Figure::Count(1)
            } else {
                Figure::Count(0)
            },
        ),
        counter(
            "stride_requests_admitted_total"@,
            "Sequences admitted."@,
            m.scheduler.admitted,
        ),
        counter(
            "stride_requests_finished_total"@,
            "Sequences finished."@,
            m.scheduler.finished,
        ),
        counter(
            "stride_preemptions_total"@,
            "Sequences evicted under memory pressure."@,
            m.scheduler.preemptions,
        ),
        counter(
            "stride_ttft_deadline_misses_total"@,
            "First tokens later than the class budget."@,
            m.scheduler.ttft_deadline_misses,
        ),
        counter(
            "stride_scheduler_steps_total"@,
            "Scheduler steps."@,
            m.scheduler.steps,
        ),
        counter(
            "stride_forward_passes_total"@,
            "Forward passes executed."@,
            m.forward_passes,
        ),
        counter(
            "stride_prefill_tokens_computed_total"@,
            "Context tokens run through the model."@,
            m.scheduler.prefill_tokens_computed,
        ),
        counter(
            "stride_prefill_tokens_reused_total"@,
            "Context tokens served from the prefix cache."@,
            m.scheduler.prefill_tokens_reused,
        ),
        counter(
            "stride_execution_busy_microseconds_total"@,
            "Time spent in forward passes."@,
            m.busy_us,
        ),
    ]
}

/// The three lines of a sample, with its value as it is displayed.
pub open spec fn lines_of(s: SampleView, shown: Seq<char>) -> Seq<char> {
    "# HELP "@ + s.name + " "@ + s.help + "\n# TYPE "@ + s.name + (if s.counter {
        " counter\n"@
    } else {
        " gauge\n"@
    }) + s.name + " "@ + shown + "\n"@
}

/// The lines of the first `n` samples.
pub open spec fn exposition(samples: Seq<SampleView>, shown: Seq<Seq<char>>, n: nat) -> Seq<char>
    decreases n,
{
    if n == 0 {
        Seq::empty()
    } else {
        exposition(samples, shown, (n - 1) as nat) + lines_of(samples[n - 1], shown[n - 1])
    }
}

fn whole(name: &'static str, help: &'static str, n: u64) -> (r: Sample)
    ensures
        r@ == gauge(name@, help@, Figure::Count(n)),
{
    Sample { name, help, counter: false, figure: Figure::Count(n) }
}

fn rate(name: &'static str, help: &'static str, share: Ratio) -> (r: Sample)
    ensures
        r@ == gauge(name@, help@, Figure::Rate(share)),
{
    Sample { name, help, counter: false, figure: Figure::Rate(share) }
}

fn total(name: &'static str, help: &'static str, n: u64) -> (r: Sample)
    ensures
        r@ == counter(name@, help@, n),
{
    Sample { name, help, counter: true, figure: Figure::Count(n) }
}

/// The samples as values.
pub open spec fn views_of(samples: Seq<Sample>) -> Seq<SampleView> {
    Seq::new(samples.len(), |i: int| samples[i]@)
}

/// What the exposition reports.
pub fn metrics(m: &EngineMetrics) -> (r: Vec<Sample>)
    ensures
        views_of(r@) == samples_of(*m),
{
    let s = m.scheduler;
    let r = vec![
        whole("stride_requests_queued", "Requests waiting for admission.", m.queued as u64),
        whole("stride_sequences_running", "Sequences holding KV blocks.", m.running as u64),
        whole("stride_kv_blocks_total", "KV blocks in the pool.", m.kv_blocks_total as u64),
        whole(
            "stride_kv_blocks_live",
            "KV blocks held by live sequences.",
            m.kv_blocks_live as u64,
        ),
        whole(
            "stride_kv_blocks_cached",
            "Unreferenced but reusable KV blocks.",
            m.kv_blocks_cached as u64,
        ),
        rate(
            "stride_kv_block_hit_rate",
            "Share of block lookups served from cache.",
            m.kv_block_hit_rate,
        ),
        rate(
            "stride_prefill_reuse_rate",
            "Share of context tokens skipped via prefix reuse.",
            s.prefill_reuse_rate(),
        ),
        whole(
            "stride_backend_estimated",
            "1 when latency figures come from the analytic model rather than hardware.",
            if m.estimated {
                1
            } else {
                0
            },
        ),
        total("stride_requests_admitted_total", "Sequences admitted.", s.admitted),
        total("stride_requests_finished_total", "Sequences finished.", s.finished),
        total(
            "stride_preemptions_total",
            "Sequences evicted under memory pressure.",
            s.preemptions,
        ),
        total(
            "stride_ttft_deadline_misses_total",
            "First tokens later than the class budget.",
            s.ttft_deadline_misses,
        ),
        total("stride_scheduler_steps_total", "Scheduler steps.", s.steps),
        total("stride_forward_passes_total", "Forward passes executed.", m.forward_passes),
        total(
            "stride_prefill_tokens_computed_total",
            "Context tokens run through the model.",
            s.prefill_tokens_computed,
        ),
        total(
            "stride_prefill_tokens_reused_total",
            "Context tokens served from the prefix cache.",
            s.prefill_tokens_reused,
        ),
        total(
            "stride_execution_busy_microseconds_total",
            "Time spent in forward passes.",
            m.busy_us,
        ),
    ];
    assert(views_of(r@) =~= samples_of(*m));
    r
}

fn push_sample(out: &mut String, s: &Sample, shown: &str)
    ensures
        final(out)@ == old(out)@ + lines_of(s@, shown@),
{
    out.append("# HELP ");
    out.append(s.name);
    out.append(" ");
    out.append(s.help);
    out.append("\n# TYPE ");
    out.append(s.name);
    if s.counter {
        out.append(" counter\n");
    } else {
        out.append(" gauge\n");
    }
    out.append(s.name);
    out.append(" ");
    out.append(shown);
    out.append("\n");
    assert(out@ =~= old(out)@ + lines_of(s@, shown@));
}

/// The texts as values.
pub open spec fn texts_of(texts: Seq<String>) -> Seq<Seq<char>> {
    Seq::new(texts.len(), |i: int| texts[i]@)
}

/// The text exposition of the samples. `shown` is the value of each as the
/// caller displays it.
pub fn expose(samples: &[Sample], shown: &[String]) -> (r: String)
    requires
        shown@.len() == samples@.len(),
    ensures
        r@ == exposition(views_of(samples@), texts_of(shown@), samples@.len()),
{
    let ghost views = views_of(samples@);
    let ghost texts = texts_of(shown@);
    let mut out = String::new();
    assert(out@ =~= exposition(views, texts, 0));
    let mut i: usize = 0;
    while i < samples.len()
        invariant
            i <= samples@.len(),
            shown@.len() == samples@.len(),
            views == views_of(samples@),
            texts == texts_of(shown@),
            out@ == exposition(views, texts, i as nat),
        decreases samples@.len() - i,
    {
        assert(views[i as int] == samples@[i as int]@);
        assert(texts[i as int] == shown@[i as int]@);
        push_sample(&mut out, &samples[i], shown[i].as_str());
        i += 1;
    }
    out
}

/// One more sample is three more lines: what it is, of which kind, and its value
/// after its name.
pub proof fn law_a_sample_is_three_lines(
    samples: Seq<SampleView>,
    shown: Seq<Seq<char>>,
    n: nat,
)
    requires
        n < samples.len(),
        n < shown.len(),
    ensures
        exposition(samples, shown, 0).len() == 0,
        exposition(samples, shown, n + 1) == exposition(samples, shown, n) + ("# HELP "@
            + samples[n as int].name + " "@ + samples[n as int].help + "\n# TYPE "@
            + samples[n as int].name + (if samples[n as int].counter {
            " counter\n"@
        } else {
            " gauge\n"@
        }) + samples[n as int].name + " "@ + shown[n as int] + "\n"@),
{
}

/// The sample of that name shows that figure.
pub open spec fn shows(
    samples: Seq<SampleView>,
    i: int,
    name: Seq<char>,
    counter: bool,
    figure: Figure,
) -> bool {
    &&& samples[i].name == name
    &&& samples[i].counter == counter
    &&& samples[i].figure == figure
}

/// Each metric shows what it is named for, and is a counter exactly where it counts
/// what has happened.
pub proof fn law_each_metric_shows_what_it_is_named_for(m: EngineMetrics)
    ensures
        ({
            let s = samples_of(m);
            let t = m.scheduler;
            &&& s.len() == 17
            &&& shows(s, 0, "stride_requests_queued"@, false, Figure::Count(m.queued as u64))
            &&& shows(s, 1, "stride_sequences_running"@, false, Figure::Count(m.running as u64))
            &&& shows(s, 2, "stride_kv_blocks_total"@, false, Figure::Count(
                m.kv_blocks_total as u64,
            ))
            &&& shows(s, 3, "stride_kv_blocks_live"@, false, Figure::Count(
                m.kv_blocks_live as u64,
            ))
            &&& shows(s, 4, "stride_kv_blocks_cached"@, false, Figure::Count(
                m.kv_blocks_cached as u64,
            ))
            &&& shows(s, 5, "stride_kv_block_hit_rate"@, false, Figure::Rate(m.kv_block_hit_rate))
            &&& s[6].name == "stride_prefill_reuse_rate"@ && !s[6].counter
            &&& t.prefill_tokens_reused + t.prefill_tokens_computed > 0 ==> s[6].figure
                == Figure::Rate(
                Ratio {
                    part: t.prefill_tokens_reused as u128,
                    whole: (t.prefill_tokens_reused + t.prefill_tokens_computed) as u128,
                },
            )
            &&& shows(s, 7, "stride_backend_estimated"@, false, Figure::Count(
                if m.estimated {
                    1
                } else {
                    0
                },
            ))
            &&& shows(s, 8, "stride_requests_admitted_total"@, true, Figure::Count(t.admitted))
            &&& shows(s, 9, "stride_requests_finished_total"@, true, Figure::Count(t.finished))
            &&& shows(s, 10, "stride_preemptions_total"@, true, Figure::Count(t.preemptions))
            &&& shows(s, 11, "stride_ttft_deadline_misses_total"@, true, Figure::Count(
                t.ttft_deadline_misses,
            ))
            &&& shows(s, 12, "stride_scheduler_steps_total"@, true, Figure::Count(t.steps))
            &&& shows(s, 13, "stride_forward_passes_total"@, true, Figure::Count(
                m.forward_passes,
            ))
            &&& shows(s, 14, "stride_prefill_tokens_computed_total"@, true, Figure::Count(
                t.prefill_tokens_computed,
            ))
            &&& shows(s, 15, "stride_prefill_tokens_reused_total"@, true, Figure::Count(
                t.prefill_tokens_reused,
            ))
            &&& shows(s, 16, "stride_execution_busy_microseconds_total"@, true, Figure::Count(
                m.busy_us,
            ))
        }),
{
}

} // verus!

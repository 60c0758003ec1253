//! What a forward pass is made of, and what stands in for a model.

use stride::backend::executor::{context_seed, legible_draws};
use stride::backend::remote::{
    check_geometry, forward_inner, frame, frame_length, or_stalled, query_info, wire_forward,
    MAX_FRAME_BYTES,
};
use stride::backend::{ForwardPass, RemoteError, SequenceWork, WorkerInfo};
use stride::ids::SequenceId;
use stride::kvcache::BlockId;
use stride::model::presets;
use stride::number::F32;
use stride::TokenId;

fn work<'a>(seq: u64, tokens: &'a [TokenId], blocks: &'a [BlockId]) -> SequenceWork<'a> {
    SequenceWork {
        seq: SequenceId(seq),
        tokens,
        position: 0,
        blocks,
        needs_logits: true,
    }
}

#[test]
fn logits_are_deterministic_for_the_same_context() {
    let tokens = [7u32, 8, 9];
    let a = legible_draws(&tokens, 0, 258);
    let b = legible_draws(&tokens, 0, 258);
    assert_eq!(a, b);
    assert_eq!(a.len(), 27);
}

#[test]
fn different_contexts_give_different_logits() {
    let (x, y) = ([1u32, 2, 3], [1u32, 2, 4]);
    assert_ne!(legible_draws(&x, 0, 258), legible_draws(&y, 0, 258));
    assert_ne!(context_seed(&x, 0), context_seed(&y, 0));
    assert_ne!(context_seed(&x, 0), context_seed(&x, 1));
}

#[test]
fn only_sequences_that_need_logits_receive_them() {
    let t = [1u32, 2, 3];
    let pass = ForwardPass {
        work: vec![
            SequenceWork {
                needs_logits: false,
                ..work(1, &t, &[])
            },
            SequenceWork {
                needs_logits: true,
                ..work(2, &t, &[])
            },
        ],
    };
    let slots = pass.logit_positions();
    assert_eq!(slots.len(), 1, "mid-prompt chunks produce no logits");
    assert_eq!(pass.work[slots[0]].seq, SequenceId(2));
}

#[test]
fn a_pass_counts_its_tokens() {
    let (one, three) = ([1u32], [1u32, 2, 3]);
    let pass = ForwardPass {
        work: vec![work(1, &one, &[]), work(2, &three, &[]), work(3, &one, &[])],
    };
    assert_eq!(pass.num_tokens(), 5);
    assert_eq!(pass.num_sequences(), 3);
    assert_eq!(pass.num_prefill_tokens(), 3);
    assert_eq!(pass.num_tokens() - pass.num_prefill_tokens(), 2, "two are single tokens");
}

#[test]
fn a_context_seed_is_the_digest_of_its_tokens() {
    let mut h: u64 = 0xcbf2_9ce4_8422_2325;
    for t in [5u64, 70_000] {
        h = (h ^ t).wrapping_mul(0x0000_0100_0000_01b3);
    }
    h ^= 3u64.wrapping_mul(0x9E37_79B9_7F4A_7C15);
    assert_eq!(context_seed(&[5, 70_000], 3), h);
}

#[test]
fn a_small_vocabulary_has_fewer_letters() {
    let draws = legible_draws(&[1], 0, 100);
    let slots: Vec<usize> = draws.iter().map(|d| d.0).collect();
    assert_eq!(slots, vec![97, 98, 99, 32]);
}

fn response(header: &str, body: &[u8]) -> Vec<u8> {
    let mut out = (header.len() as u32).to_be_bytes().to_vec();
    out.extend_from_slice(header.as_bytes());
    out.extend_from_slice(body);
    out
}

fn little(xs: &[f32]) -> Vec<u8> {
    xs.iter().flat_map(|x| x.to_le_bytes()).collect()
}

#[test]
fn a_frame_is_its_length_and_its_bytes() {
    assert_eq!(frame(&[7, 8, 9]), vec![0, 0, 0, 3, 7, 8, 9]);
    assert_eq!(frame_length(&[0, 0, 1, 2]).unwrap(), 258);
    let long = frame_length(&[0xff, 0, 0, 0]).unwrap_err();
    assert_eq!(
        long.text(),
        format!(
            "worker sent a malformed message: frame of {} bytes exceeds the {} cap",
            0xff00_0000u32, MAX_FRAME_BYTES
        )
    );
}

#[test]
fn logits_come_back_row_by_row() {
    let body = little(&[1.5, -2.0, 0.0, 4.0]);
    let frame = response(
        r#"{"type":"result","seqs":[3,9],"vocab_size":2,"duration_us":77}"#,
        &body,
    );
    let pass = forward_inner(&frame).unwrap();
    assert_eq!(pass.logits.len(), 2);
    assert_eq!(pass.logits[0].seq, SequenceId(3));
    assert_eq!(pass.logits[1].seq, SequenceId(9));
    let row: Vec<f32> = pass.logits[1].logits.iter().map(|x| f32::from_bits(x.bits)).collect();
    assert_eq!(row, vec![0.0, 4.0]);
    assert_eq!(pass.logits[0].logits[0], F32 { bits: 1.5f32.to_bits() });
    assert_eq!(pass.cost.duration_us, 77);
    assert!(!pass.cost.estimated, "the worker's time is measured");
}

#[test]
fn a_malformed_response_is_told_apart() {
    let text = |frame: &[u8]| forward_inner(frame).unwrap_err().text();
    assert_eq!(
        text(&[0, 0]),
        "worker sent a malformed message: response shorter than its header"
    );
    assert_eq!(
        text(&[0, 0, 0, 9, 1]),
        "worker sent a malformed message: header length runs past the frame"
    );
    assert!(text(&response("{", &[])).contains("EOF"));
    assert_eq!(
        text(&response("{}", &[])),
        "worker sent a malformed message: response is missing `seqs`"
    );
    assert_eq!(
        text(&response(r#"{"seqs":[1]}"#, &[])),
        "worker sent a malformed message: response is missing `vocab_size`"
    );
    assert_eq!(
        text(&response(r#"{"seqs":[1],"vocab_size":2}"#, &[0; 4])),
        "worker sent a malformed message: expected 8 bytes of logits for 1 sequences, got 4"
    );
}

#[test]
fn an_error_of_the_worker_is_passed_on() {
    let frame = response(r#"{"type":"error","kind":"oom","message":"no memory"}"#, &[]);
    assert_eq!(forward_inner(&frame).unwrap_err().text(), "worker reported oom: no memory");
    let frame = response(r#"{"type":"error"}"#, &[]);
    assert_eq!(
        forward_inner(&frame).unwrap_err().text(),
        "worker reported unknown: (no message)"
    );
    // A pass that failed stalls its sequences instead of ending the loop.
    let pass = or_stalled(forward_inner(&frame));
    assert!(pass.logits.is_empty());
    assert_eq!(pass.cost.duration_us, 0);
    assert!(!pass.cost.estimated);
    assert_eq!(
        RemoteError::Io("broken pipe".to_string()).text(),
        "worker transport failed: broken pipe"
    );
}

const INFO: &str = r#"{"type":"info","vocab_size":128256,"num_layers":32,"num_kv_heads":8,
    "head_dim":128,"num_blocks":500,"block_size":16,"device":"cuda:0","dtype":"bfloat16"}"#;

fn info() -> WorkerInfo {
    query_info(&response(INFO, &[])).unwrap()
}

#[test]
fn a_worker_describes_itself() {
    let info = info();
    assert_eq!(info.vocab_size, 128_256);
    assert_eq!(info.num_blocks, 500);
    assert_eq!(info.block_size, 16);
    assert_eq!(info.tensor_parallel_size, 1, "older workers do not say");
    assert_eq!(info.device, "cuda:0");
    assert_eq!(info.dtype, "bfloat16");
    let missing = query_info(&response(r#"{"vocab_size":1}"#, &[])).unwrap_err();
    assert_eq!(
        missing.text(),
        "worker sent a malformed message: info is missing `num_layers`"
    );
}

#[test]
fn a_worker_with_another_checkpoint_is_refused() {
    assert!(check_geometry(&info(), &presets::llama3_8b()).is_ok());
    let err = check_geometry(&info(), &presets::llama3_70b()).unwrap_err();
    assert_eq!(
        err.text(),
        "worker sent a malformed message: worker and control plane disagree on layer count: \
         80 here, 32 there. They are not serving the same checkpoint."
    );
    let mut m = presets::llama3_8b();
    m.attention.num_kv_heads = 4;
    assert!(check_geometry(&info(), &m).unwrap_err().text().contains("KV head count: 4 here"));
    let mut m = presets::llama3_8b();
    m.attention.head_dim = 64;
    assert!(check_geometry(&info(), &m).unwrap_err().text().contains("head dimension: 64 here"));
}

#[test]
fn a_pass_goes_over_the_wire_as_it_is() {
    let tokens = [4u32, 5];
    let blocks = [BlockId(9), BlockId(2)];
    let pass = ForwardPass {
        work: vec![SequenceWork {
            seq: SequenceId(6),
            tokens: &tokens,
            position: 11,
            blocks: &blocks,
            needs_logits: false,
        }],
    };
    let wire = wire_forward(&pass);
    assert_eq!(wire.len(), 1);
    assert_eq!(wire[0].seq, 6);
    assert_eq!(wire[0].tokens, vec![4, 5]);
    assert_eq!(wire[0].position, 11);
    assert_eq!(wire[0].blocks, vec![9, 2]);
    assert!(!wire[0].needs_logits);
}

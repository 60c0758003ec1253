//! The protocol spoken with the GPU worker.
//!
//! The wire format is deliberately plain: a 4-byte big-endian length, then a
//! UTF-8 JSON message. A forward response carries a JSON header followed by
//! raw little-endian float32 logits, because JSON-encoding a 128k-wide
//! distribution per sequence would cost more than the forward pass it
//! describes.
use vstd::prelude::*;

use super::executor::{ForwardPass, PassCost, PassResult, SequenceLogits, SequenceWork};
use crate::ids::SequenceId;
use crate::json::{
    json_of_bytes, list_of, members_of, parse_bytes, text_of, uint_of, values, Json, JsonField,
    JsonObject, Members,
};
use crate::kvcache::BlockId;
use crate::model::config::{ModelConfig, ModelView};
use crate::number::F32;
use crate::text::{decimal, push_decimal};

verus! {

/// The longest frame that is accepted.
pub const MAX_FRAME_BYTES: usize = 268_435_456;

/// The message that asks a worker for its geometry.
pub const INFO_REQUEST: &'static str = "{\"type\":\"info\"}";

#[derive(Debug)]
pub enum RemoteError {
    /// The transport failed, in its own words.
    Io(String),
    Protocol(String),
    Worker { kind: String, message: String },
}

/// What went wrong with a worker, as values.
#[verifier::ext_equal]
pub enum RemoteErrorView {
    Io(Seq<char>),
    Protocol(Seq<char>),
    Worker { kind: Seq<char>, message: Seq<char> },
}

impl View for RemoteError {
    type V = RemoteErrorView;

    open spec fn view(&self) -> RemoteErrorView {
        match self {
            RemoteError::Io(e) => RemoteErrorView::Io(e@),
            RemoteError::Protocol(e) => RemoteErrorView::Protocol(e@),
            RemoteError::Worker { kind, message } => RemoteErrorView::Worker {
                kind: kind@,
                message: message@,
            },
        }
    }
}

impl RemoteErrorView {
    /// The wording of the error.
    pub open spec fn text(self) -> Seq<char> {
        match self {
            RemoteErrorView::Io(e) => "worker transport failed: "@ + e,
            RemoteErrorView::Protocol(e) => "worker sent a malformed message: "@ + e,
            RemoteErrorView::Worker { kind, message } => "worker reported "@ + kind + ": "@
                + message,
        }
    }
}

impl RemoteError {
    pub fn text(&self) -> (r: String)
        ensures
            r@ == self@.text(),
    {
        match self {
            RemoteError::Io(e) => {
                let mut out = String::from_str("worker transport failed: ");
                out.append(e.as_str());
                out
            },
            RemoteError::Protocol(e) => {
                let mut out = String::from_str("worker sent a malformed message: ");
                out.append(e.as_str());
                out
            },
            RemoteError::Worker { kind, message } => {
                let mut out = String::from_str("worker reported ");
                out.append(kind.as_str());
                out.append(": ");
                out.append(message.as_str());
                out
            },
        }
    }
}

/// The outcome of talking to a worker.
pub type Outcome<T> = std::result::Result<T, RemoteError>;

fn malformed<T>(why: &str) -> (r: Outcome<T>)
    ensures
        r is Err,
        r->Err_0@ == RemoteErrorView::Protocol(why@),
{
    Err(RemoteError::Protocol(String::from_str(why)))
}

/// The number that four bytes stand for, most significant first.
pub open spec fn be_value(b: Seq<u8>) -> nat {
    (b[0] as nat) * 0x100_0000 + (b[1] as nat) * 0x1_0000 + (b[2] as nat) * 0x100 + b[3] as nat
}

/// The number that the four bytes from `at` on stand for, least significant
/// first.
pub open spec fn le_value(b: Seq<u8>, at: int) -> nat {
    b[at] as nat + (b[at + 1] as nat) * 0x100 + (b[at + 2] as nat) * 0x1_0000 + (b[at
        + 3] as nat) * 0x100_0000
}

/// The four bytes of a length, most significant first.
pub open spec fn be_bytes(n: nat) -> Seq<u8> {
    seq![
        (n / 0x100_0000) as u8,
        (n / 0x1_0000 % 0x100) as u8,
        (n / 0x100 % 0x100) as u8,
        (n % 0x100) as u8,
    ]
}

/// A message as it goes over the wire.
pub open spec fn framed(payload: Seq<u8>) -> Seq<u8> {
    be_bytes(payload.len()) + payload
}

/// A message as it goes over the wire: its length, then its bytes.
pub fn frame(payload: &[u8]) -> (r: Vec<u8>)
    requires
        payload@.len() <= u32::MAX,
    ensures
        r@ == framed(payload@),
{
    let n: usize = payload.len();
    let mut out: Vec<u8> = Vec::with_capacity(4);
    out.push((n / 0x100_0000) as u8);
    out.push((n / 0x1_0000 % 0x100) as u8);
    out.push((n / 0x100 % 0x100) as u8);
    out.push((n % 0x100) as u8);
    let mut body: Vec<u8> = vstd::slice::slice_to_vec(payload);
    out.append(&mut body);
    assert(out@ =~= framed(payload@));
    out
}

fn read_be(b: &[u8]) -> (r: usize)
    requires
        b@.len() >= 4,
    ensures
        r == be_value(b@),
{
    (b[0] as u32 * 0x100_0000 + b[1] as u32 * 0x1_0000 + b[2] as u32 * 0x100 + b[3] as u32) as usize
}

/// What is said of a frame that is too long.
pub open spec fn oversized(len: nat) -> Seq<char> {
    "frame of "@ + decimal(len) + " bytes exceeds the "@ + decimal(MAX_FRAME_BYTES as nat)
        + " cap"@
}

/// The length of the frame that the four bytes in front of it announce.
pub fn frame_length(header: &[u8]) -> (r: Outcome<usize>)
    requires
        header@.len() == 4,
    ensures
        be_value(header@) > MAX_FRAME_BYTES ==> r is Err && r->Err_0@ == RemoteErrorView::Protocol(
            oversized(be_value(header@)),
        ),
        be_value(header@) <= MAX_FRAME_BYTES ==> r is Ok && r->Ok_0 == be_value(header@),
{
    let len: usize = read_be(header);
    if len > MAX_FRAME_BYTES {
        let mut e = String::from_str("frame of ");
        push_decimal(&mut e, len as u64);
        e.append(" bytes exceeds the ");
        push_decimal(&mut e, MAX_FRAME_BYTES as u64);
        e.append(" cap");
        return Err(RemoteError::Protocol(e));
    }
    Ok(len)
}

/// A frame announces the length of what it carries, and carries it unchanged.
pub proof fn law_a_frame_carries_its_payload(payload: Seq<u8>)
    requires
        payload.len() <= u32::MAX,
    ensures
        be_value(framed(payload).take(4)) == payload.len(),
        framed(payload).skip(4) == payload,
{
    let n = payload.len();
    assert(framed(payload).take(4) =~= be_bytes(n));
    assert(framed(payload).skip(4) =~= payload);
    let (a, b, c, d) = (n / 0x100_0000, n / 0x1_0000 % 0x100, n / 0x100 % 0x100, n % 0x100);
    assert(n / 0x1_0000 / 0x100 == a);
    assert(n / 0x100 / 0x100 == n / 0x1_0000);
}

/// Where the header of a response ends, if it ends within the frame.
pub open spec fn header_end(frame: Seq<u8>) -> Option<nat> {
    if frame.len() >= 4 && 4 + be_value(frame) <= frame.len() {
        Some(4 + be_value(frame))
    } else {
        None
    }
}

/// What a response header that reports an error says.
pub open spec fn reported_error(header: Members) -> Option<RemoteErrorView> {
    if text_of(header, "type"@) == Some("error"@) {
        Some(
            RemoteErrorView::Worker {
                kind: match text_of(header, "kind"@) {
                    Some(k) => k,
                    None => "unknown"@,
                },
                message: match text_of(header, "message"@) {
                    Some(m) => m,
                    None => "(no message)"@,
                },
            },
        )
    } else {
        None
    }
}

/// What a frame cannot be read for, before its header is looked at.
pub open spec fn frame_fault(frame: Seq<u8>) -> Option<RemoteErrorView> {
    if frame.len() < 4 {
        Some(RemoteErrorView::Protocol("response shorter than its header"@))
    } else if header_end(frame) is None {
        Some(RemoteErrorView::Protocol("header length runs past the frame"@))
    } else {
        None
    }
}

/// Reject a header that reports an error.
pub fn check_header(header: &JsonObject) -> (r: Outcome<()>)
    ensures
        match r {
            Ok(_) => reported_error(header@) is None,
            Err(e) => reported_error(header@) == Some(e@),
        },
{
    let failed: bool = match header.text("type") {
        Some(t) => String::from_str(t) == String::from_str("error"),
        None => false,
    };
    if !failed {
        return Ok(());
    }
    let kind = match header.text("kind") {
        Some(k) => String::from_str(k),
        None => String::from_str("unknown"),
    };
    let message = match header.text("message") {
        Some(m) => String::from_str(m),
        None => String::from_str("(no message)"),
    };
    Err(RemoteError::Worker { kind, message })
}

/// Split a response frame into its JSON header and the raw logits after it.
pub fn split_response(frame: &[u8]) -> (r: Outcome<(JsonObject, &[u8])>)
    ensures
        match frame_fault(frame@) {
            Some(fault) => r is Err && r->Err_0@ == fault,
            None => {
                let end = header_end(frame@)->0 as int;
                match json_of_bytes(frame@.subrange(4, end)) {
                    Err(why) => r is Err && r->Err_0@ == RemoteErrorView::Protocol(why),
                    Ok(doc) => match reported_error(members_of(doc)) {
                        Some(error) => r is Err && r->Err_0@ == error,
                        None => r is Ok && r->Ok_0.0@ == members_of(doc) && r->Ok_0.1@
                            == frame@.skip(end),
                    },
                }
            },
        },
{
    if frame.len() < 4 {
        return malformed("response shorter than its header");
    }
    let header_len: usize = read_be(frame);
    if header_len > frame.len() - 4 {
        return malformed("header length runs past the frame");
    }
    let end: usize = 4 + header_len;
    let header = match parse_bytes(vstd::slice::slice_subrange(frame, 4, end)) {
        Ok(h) => h,
        Err(why) => return Err(RemoteError::Protocol(why)),
    };
    if let Err(e) = check_header(&header) {
        return Err(e);
    }
    let body = vstd::slice::slice_subrange(frame, end, frame.len());
    assert(body@ =~= frame@.skip(end as int));
    Ok((header, body))
}

/// Geometry the worker reports at connection time.
#[derive(Debug, Clone, PartialEq)]
pub struct WorkerInfo {
    pub vocab_size: usize,
    pub num_layers: usize,
    pub num_kv_heads: usize,
    pub head_dim: usize,
    pub num_blocks: usize,
    pub block_size: usize,
    /// Ranks the worker is sharded across. The control plane addresses one
    /// worker regardless; this is reported so a mismatch with the planned
    /// degree is caught rather than silently ignored.
    pub tensor_parallel_size: usize,
    pub device: String,
    pub dtype: String,
}

/// Geometry the worker reports, as values.
#[verifier::ext_equal]
pub struct WorkerView {
    pub vocab_size: usize,
    pub num_layers: usize,
    pub num_kv_heads: usize,
    pub head_dim: usize,
    pub num_blocks: usize,
    pub block_size: usize,
    pub tensor_parallel_size: usize,
    pub device: Seq<char>,
    pub dtype: Seq<char>,
}

impl View for WorkerInfo {
    type V = WorkerView;

    open spec fn view(&self) -> WorkerView {
        WorkerView {
            vocab_size: self.vocab_size,
            num_layers: self.num_layers,
            num_kv_heads: self.num_kv_heads,
            head_dim: self.head_dim,
            num_blocks: self.num_blocks,
            block_size: self.block_size,
            tensor_parallel_size: self.tensor_parallel_size,
            device: self.device@,
            dtype: self.dtype@,
        }
    }
}

/// What is said of a member of the geometry that is not there.
pub open spec fn info_missing(name: Seq<char>) -> RemoteErrorView {
    RemoteErrorView::Protocol("info is missing `"@ + name + "`"@)
}

/// The member called `name`, as text, or `unknown`.
pub open spec fn named(header: Members, name: Seq<char>) -> Seq<char> {
    match text_of(header, name) {
        Some(s) => s,
        None => "unknown"@,
    }
}

/// The geometry that a header describes, or the first member that is missing.
/// Older workers predate sharding and simply omit its degree.
pub open spec fn info_of(header: Members) -> std::result::Result<WorkerView, RemoteErrorView> {
    if uint_of(header, "vocab_size"@) is None {
        Err(info_missing("vocab_size"@))
    } else if uint_of(header, "num_layers"@) is None {
        Err(info_missing("num_layers"@))
    } else if uint_of(header, "num_kv_heads"@) is None {
        Err(info_missing("num_kv_heads"@))
    } else if uint_of(header, "head_dim"@) is None {
        Err(info_missing("head_dim"@))
    } else if uint_of(header, "num_blocks"@) is None {
        Err(info_missing("num_blocks"@))
    } else if uint_of(header, "block_size"@) is None {
        Err(info_missing("block_size"@))
    } else {
        Ok(
            WorkerView {
                vocab_size: uint_of(header, "vocab_size"@)->0 as usize,
                num_layers: uint_of(header, "num_layers"@)->0 as usize,
                num_kv_heads: uint_of(header, "num_kv_heads"@)->0 as usize,
                head_dim: uint_of(header, "head_dim"@)->0 as usize,
                num_blocks: uint_of(header, "num_blocks"@)->0 as usize,
                block_size: uint_of(header, "block_size"@)->0 as usize,
                tensor_parallel_size: match uint_of(header, "tensor_parallel_size"@) {
                    Some(n) => n as usize,
                    None => 1,
                },
                device: named(header, "device"@),
                dtype: named(header, "dtype"@),
            },
        )
    }
}

fn info_field(header: &JsonObject, name: &str) -> (r: Outcome<usize>)
    ensures
        match r {
            Ok(n) => uint_of(header@, name@) is Some && n == (uint_of(
                header@,
                name@,
            )->0 as usize),
            Err(e) => uint_of(header@, name@) is None && e@ == info_missing(name@),
        },
{
    match header.uint(name) {
        Some(n) => Ok(#[verifier::truncate] (n as usize)),
        None => {
            let mut e = String::from_str("info is missing `");
            e.append(name);
            e.append("`");
            Err(RemoteError::Protocol(e))
        },
    }
}

fn name_field(header: &JsonObject, name: &str) -> (r: String)
    ensures
        r@ == named(header@, name@),
{
    match header.text(name) {
        Some(s) => String::from_str(s),
        None => String::from_str("unknown"),
    }
}

/// Read a worker's geometry out of the header of its response.
pub fn worker_info(header: &JsonObject) -> (r: Outcome<WorkerInfo>)
    ensures
        match r {
            Ok(info) => info_of(header@) == Ok::<WorkerView, RemoteErrorView>(info@),
            Err(e) => info_of(header@) == Err::<WorkerView, RemoteErrorView>(e@),
        },
{
    let vocab_size: usize = match info_field(header, "vocab_size") {
        Ok(n) => n,
        Err(e) => return Err(e),
    };
    let num_layers: usize = match info_field(header, "num_layers") {
        Ok(n) => n,
        Err(e) => return Err(e),
    };
    let num_kv_heads: usize = match info_field(header, "num_kv_heads") {
        Ok(n) => n,
        Err(e) => return Err(e),
    };
    let head_dim: usize = match info_field(header, "head_dim") {
        Ok(n) => n,
        Err(e) => return Err(e),
    };
    let num_blocks: usize = match info_field(header, "num_blocks") {
        Ok(n) => n,
        Err(e) => return Err(e),
    };
    let block_size: usize = match info_field(header, "block_size") {
        Ok(n) => n,
        Err(e) => return Err(e),
    };
    Ok(
        WorkerInfo {
            vocab_size,
            num_layers,
            num_kv_heads,
            head_dim,
            num_blocks,
            block_size,
            tensor_parallel_size: match header.uint("tensor_parallel_size") {
                Some(n) => #[verifier::truncate] (n as usize),
                None => 1,
            },
            device: name_field(header, "device"),
            dtype: name_field(header, "dtype"),
        },
    )
}

/// Read a worker's geometry out of its response.
pub fn query_info(frame: &[u8]) -> (r: Outcome<WorkerInfo>)
    ensures
        match frame_fault(frame@) {
            Some(fault) => r is Err && r->Err_0@ == fault,
            None => match json_of_bytes(frame@.subrange(4, header_end(frame@)->0 as int)) {
                Err(why) => r is Err && r->Err_0@ == RemoteErrorView::Protocol(why),
                Ok(doc) => match reported_error(members_of(doc)) {
                    Some(error) => r is Err && r->Err_0@ == error,
                    None => match r {
                        Ok(info) => info_of(members_of(doc)) == Ok::<
                            WorkerView,
                            RemoteErrorView,
                        >(info@),
                        Err(e) => info_of(members_of(doc)) == Err::<
                            WorkerView,
                            RemoteErrorView,
                        >(e@),
                    },
                },
            },
        },
{
    match split_response(frame) {
        Ok((header, _)) => worker_info(&header),
        Err(e) => Err(e),
    }
}

/// How the two sides disagree.
pub open spec fn disagreement(what: Seq<char>, ours: nat, theirs: nat) -> RemoteErrorView {
    RemoteErrorView::Protocol(
        "worker and control plane disagree on "@ + what + ": "@ + decimal(ours) + " here, "@
            + decimal(theirs) + " there. They are not serving the same checkpoint."@,
    )
}

/// The first thing that a worker and a model disagree on.
pub open spec fn geometry_fault(info: WorkerView, m: ModelView) -> Option<RemoteErrorView> {
    if info.num_layers != m.num_layers {
        Some(disagreement("layer count"@, m.num_layers as nat, info.num_layers as nat))
    } else if info.num_kv_heads != m.attention.num_kv_heads {
        Some(
            disagreement(
                "KV head count"@,
                m.attention.num_kv_heads as nat,
                info.num_kv_heads as nat,
            ),
        )
    } else if info.head_dim != m.attention.head_dim {
        Some(
            disagreement("head dimension"@, m.attention.head_dim as nat, info.head_dim as nat),
        )
    } else {
        None
    }
}

fn mismatch(what: &str, ours: usize, theirs: usize) -> (r: Outcome<()>)
    ensures
        r is Err,
        r->Err_0@ == disagreement(what@, ours as nat, theirs as nat),
{
    let mut e = String::from_str("worker and control plane disagree on ");
    e.append(what);
    e.append(": ");
    push_decimal(&mut e, ours as u64);
    e.append(" here, ");
    push_decimal(&mut e, theirs as u64);
    e.append(" there. They are not serving the same checkpoint.");
    Err(RemoteError::Protocol(e))
}

/// The reported geometry is checked against the model the control plane
/// thinks it is serving. A mismatch means the two sides disagree about the
/// checkpoint, which would corrupt every KV write, so it is a hard error at
/// startup rather than a warning.
pub fn check_geometry(info: &WorkerInfo, model: &ModelConfig) -> (r: Outcome<()>)
    ensures
        match r {
            Ok(_) => geometry_fault(info@, model@) is None,
            Err(e) => geometry_fault(info@, model@) == Some(e@),
        },
{
    if info.num_layers != model.num_layers {
        return mismatch("layer count", model.num_layers, info.num_layers);
    }
    if info.num_kv_heads != model.attention.num_kv_heads {
        return mismatch("KV head count", model.attention.num_kv_heads, info.num_kv_heads);
    }
    if info.head_dim != model.attention.head_dim {
        return mismatch("head dimension", model.attention.head_dim, info.head_dim);
    }
    Ok(())
}

/// One sequence's work as a worker is told of it.
#[derive(Debug)]
pub struct WireWork {
    pub seq: u64,
    pub tokens: Vec<u32>,
    pub position: usize,
    pub blocks: Vec<u32>,
    pub needs_logits: bool,
}

/// The raw indices of blocks.
pub open spec fn raw_blocks(blocks: Seq<BlockId>) -> Seq<u32> {
    Seq::new(blocks.len(), |i: int| blocks[i].0)
}

/// `w` tells a worker of `work`.
pub open spec fn tells_of(w: WireWork, work: SequenceWork<'_>) -> bool {
    &&& w.seq == work.seq.0
    &&& w.tokens@ == work.tokens@
    &&& w.position == work.position
    &&& w.blocks@ == raw_blocks(work.blocks@)
    &&& w.needs_logits == work.needs_logits
}

fn wire_work(work: &SequenceWork<'_>) -> (r: WireWork)
    ensures
        tells_of(r, *work),
{
    let mut blocks: Vec<u32> = Vec::with_capacity(work.blocks.len());
    for i in 0..work.blocks.len()
        invariant
            blocks@ == raw_blocks(work.blocks@).take(i as int),
    {
        blocks.push(work.blocks[i].0);
        assert(blocks@ =~= raw_blocks(work.blocks@).take(i + 1));
    }
    assert(blocks@ =~= raw_blocks(work.blocks@));
    WireWork {
        seq: work.seq.raw(),
        tokens: vstd::slice::slice_to_vec(work.tokens),
        position: work.position,
        blocks,
        needs_logits: work.needs_logits,
    }
}

/// A forward pass as a worker is told of it.
pub fn wire_forward(pass: &ForwardPass<'_>) -> (r: Vec<WireWork>)
    ensures
        r@.len() == pass.work@.len(),
        forall|i: int| 0 <= i < r@.len() ==> tells_of(#[trigger] r@[i], pass.work@[i]),
{
    let mut out: Vec<WireWork> = Vec::with_capacity(pass.work.len());
    for i in 0..pass.work.len()
        invariant
            out@.len() == i,
            forall|j: int| 0 <= j < i ==> tells_of(#[trigger] out@[j], pass.work@[j]),
    {
        out.push(wire_work(&pass.work[i]));
    }
    out
}

/// The logits of one sequence, as values.
#[verifier::ext_equal]
pub struct LogitsView {
    pub seq: SequenceId,
    pub logits: Seq<F32>,
}

/// What a pass gave, as values.
#[verifier::ext_equal]
pub struct PassView {
    pub logits: Seq<LogitsView>,
    pub cost: PassCost,
}

impl View for SequenceLogits {
    type V = LogitsView;

    open spec fn view(&self) -> LogitsView {
        LogitsView { seq: self.seq, logits: self.logits@ }
    }
}

impl View for PassResult {
    type V = PassView;

    open spec fn view(&self) -> PassView {
        PassView {
            logits: Seq::new(self.logits@.len(), |i: int| self.logits@[i]@),
            cost: self.cost,
        }
    }
}

/// The numbers in a list, leaving out what is none.
pub open spec fn numbers(list: Seq<Json>) -> Seq<u64>
    decreases list.len(),
{
    if list.len() == 0 {
        Seq::empty()
    } else {
        match list.last() {
            Json::Number(Some(n)) => numbers(list.drop_last()).push(n),
            _ => numbers(list.drop_last()),
        }
    }
}

fn read_numbers(list: &Vec<JsonField>) -> (r: Vec<u64>)
    ensures
        r@ == numbers(values(list@)),
{
    let ghost all = values(list@);
    let mut out: Vec<u64> = Vec::new();
    for i in 0..list.len()
        invariant
            all == values(list@),
            out@ == numbers(all.take(i as int)),
    {
        assert(all.take(i + 1).drop_last() =~= all.take(i as int));
        assert(all.take(i + 1).last() == list@[i as int]@);
        if let JsonField::Number(Some(n)) = &list[i] {
            out.push(*n);
        }
    }
    assert(all.take(list@.len() as int) =~= all);
    out
}

/// Row `i` of a table of little-endian numbers, `vocab` of them to a row.
pub open spec fn row(body: Seq<u8>, vocab: nat, i: int) -> Seq<F32> {
    Seq::new(vocab, |j: int| F32 { bits: le_value(body, (i * vocab + j) * 4) as u32 })
}

/// What is said of logits that are not as many as announced.
pub open spec fn wrong_size(expected: nat, seqs: nat, got: nat) -> RemoteErrorView {
    RemoteErrorView::Protocol(
        "expected "@ + decimal(expected) + " bytes of logits for "@ + decimal(seqs)
            + " sequences, got "@ + decimal(got),
    )
}

/// What a response to a forward pass says: one row of logits for each sequence
/// that its header lists, and how long the pass took on the device.
pub open spec fn pass_of(header: Members, body: Seq<u8>) -> std::result::Result<
    PassView,
    RemoteErrorView,
> {
    if list_of(header, "seqs"@) is None {
        Err(RemoteErrorView::Protocol("response is missing `seqs`"@))
    } else if uint_of(header, "vocab_size"@) is None {
        Err(RemoteErrorView::Protocol("response is missing `vocab_size`"@))
    } else {
        let seqs = numbers(list_of(header, "seqs"@)->0);
        let vocab = (uint_of(header, "vocab_size"@)->0 as usize) as nat;
        let expected = seqs.len() * vocab * 4;
        if expected > usize::MAX {
            Err(RemoteErrorView::Protocol("the announced logits fit no frame"@))
        } else if body.len() != expected {
            Err(wrong_size(expected, seqs.len(), body.len()))
        } else {
            Ok(
                PassView {
                    logits: Seq::new(
                        seqs.len(),
                        |i: int|
                            LogitsView { seq: SequenceId(seqs[i]), logits: row(body, vocab, i) },
                    ),
                    cost: PassCost {
                        duration_us: match uint_of(header, "duration_us"@) {
                            Some(n) => n,
                            None => 0,
                        },
                        estimated: false,
                    },
                },
            )
        }
    }
}

fn read_le(body: &[u8], at: usize) -> (r: F32)
    requires
        at + 4 <= body@.len(),
    ensures
        r == (F32 { bits: le_value(body@, at as int) as u32 }),
{
    F32 {
        bits: body[at] as u32 + body[at + 1] as u32 * 0x100 + body[at + 2] as u32 * 0x1_0000
            + body[at + 3] as u32 * 0x100_0000,
    }
}

proof fn lemma_cell_in_table(rows: int, vocab: int, i: int, j: int)
    requires
        0 <= i < rows,
        0 <= j < vocab,
    ensures
        0 <= (i * vocab + j) * 4,
        (i * vocab + j) * 4 + 4 <= rows * vocab * 4,
{
    assert(i * vocab + j + 1 <= rows * vocab && 0 <= i * vocab) by (nonlinear_arith)
        requires
            0 <= i < rows,
            0 <= j < vocab,
    ;
}

fn read_row(body: &[u8], vocab: usize, i: usize, Ghost(rows): Ghost<int>) -> (r: Vec<F32>)
    requires
        i < rows,
        rows * vocab * 4 == body@.len(),
    ensures
        r@ == row(body@, vocab as nat, i as int),
{
    let len: usize = body.len();
    let mut out: Vec<F32> = Vec::with_capacity(vocab);
    let mut j: usize = 0;
    while j < vocab
        invariant
            j <= vocab,
            i < rows,
            len == body@.len(),
            rows * vocab * 4 == len,
            out@ == row(body@, vocab as nat, i as int).take(j as int),
        decreases vocab - j,
    {
        proof {
            lemma_cell_in_table(rows, vocab as int, i as int, j as int);
            lemma_cell_in_table(rows, vocab as int, i as int, 0);
        }
        out.push(read_le(body, (i * vocab + j) * 4));
        j = j + 1;
        assert(out@ =~= row(body@, vocab as nat, i as int).take(j as int));
    }
    assert(out@ =~= row(body@, vocab as nat, i as int));
    out
}

/// Read what a forward pass gave out of the header and the body of a response.
pub fn read_pass(header: &JsonObject, body: &[u8]) -> (r: Outcome<PassResult>)
    ensures
        match r {
            Ok(p) => pass_of(header@, body@) == Ok::<PassView, RemoteErrorView>(p@),
            Err(e) => pass_of(header@, body@) == Err::<PassView, RemoteErrorView>(e@),
        },
{
    let seqs: Vec<u64> = match header.list("seqs") {
        Some(l) => read_numbers(l),
        None => return malformed("response is missing `seqs`"),
    };
    let vocab: usize = match header.uint("vocab_size") {
        Some(n) => #[verifier::truncate] (n as usize),
        None => return malformed("response is missing `vocab_size`"),
    };
    let expected: usize = match seqs.len().checked_mul(vocab) {
        Some(n) => match n.checked_mul(4) {
            Some(n) => n,
            None => return malformed("the announced logits fit no frame"),
        },
        None => {
            assert(seqs@.len() * vocab as nat * 4 > usize::MAX);
            return malformed("the announced logits fit no frame");
        },
    };
    if body.len() != expected {
        let mut e = String::from_str("expected ");
        push_decimal(&mut e, expected as u64);
        e.append(" bytes of logits for ");
        push_decimal(&mut e, seqs.len() as u64);
        e.append(" sequences, got ");
        push_decimal(&mut e, body.len() as u64);
        return Err(RemoteError::Protocol(e));
    }
    let ghost rows = seqs@.len() as int;
    let mut logits: Vec<SequenceLogits> = Vec::with_capacity(seqs.len());
    let mut i: usize = 0;
    while i < seqs.len()
        invariant
            i <= seqs@.len(),
            rows == seqs@.len(),
            rows * vocab * 4 == body@.len(),
            logits@.len() == i,
            forall|k: int|
                0 <= k < i ==> (#[trigger] logits@[k])@ == (LogitsView {
                    seq: SequenceId(seqs@[k]),
                    logits: row(body@, vocab as nat, k),
                }),
        decreases seqs.len() - i,
    {
        let values = read_row(body, vocab, i, Ghost(rows));
        logits.push(SequenceLogits { seq: SequenceId(seqs[i]), logits: values });
        i = i + 1;
    }
    let result = PassResult {
        logits,
        cost: PassCost {
            duration_us: match header.uint("duration_us") {
                Some(n) => n,
                None => 0,
            },
            // The worker times the pass on the device. This is measured.
            estimated: false,
        },
    };
    proof {
        let goal = pass_of(header@, body@)->Ok_0;
        assert(result@.logits =~= goal.logits);
    }
    Ok(result)
}

/// Read what a forward pass gave out of a worker's response.
pub fn forward_inner(frame: &[u8]) -> (r: Outcome<PassResult>)
    ensures
        match frame_fault(frame@) {
            Some(fault) => r is Err && r->Err_0@ == fault,
            None => {
                let end = header_end(frame@)->0 as int;
                match json_of_bytes(frame@.subrange(4, end)) {
                    Err(why) => r is Err && r->Err_0@ == RemoteErrorView::Protocol(why),
                    Ok(doc) => match reported_error(members_of(doc)) {
                        Some(error) => r is Err && r->Err_0@ == error,
                        None => match r {
                            Ok(p) => pass_of(members_of(doc), frame@.skip(end)) == Ok::<
                                PassView,
                                RemoteErrorView,
                            >(p@),
                            Err(e) => pass_of(members_of(doc), frame@.skip(end)) == Err::<
                                PassView,
                                RemoteErrorView,
                            >(e@),
                        },
                    },
                }
            },
        },
{
    match split_response(frame) {
        Ok((header, body)) => read_pass(&header, body),
        Err(e) => Err(e),
    }
}

/// What counts as the result of a pass that failed on the worker.
///
/// Returning no logits stalls the affected sequences rather than killing the
/// loop. The engine keeps serving everything else.
pub fn or_stalled(outcome: Outcome<PassResult>) -> (r: PassResult)
    ensures
        match outcome {
            Ok(p) => r == p,
            Err(_) => r@ == (PassView {
                logits: Seq::empty(),
                cost: PassCost { duration_us: 0, estimated: false },
            }),
        },
{
    match outcome {
        Ok(p) => p,
        Err(_) => {
            let r = PassResult {
                logits: Vec::new(),
                cost: PassCost { duration_us: 0, estimated: false },
            };
            assert(r@.logits =~= Seq::empty());
            r
        },
    }
}

/// A response that is read has one full row for each sequence it lists, and its
/// duration is a measurement.
pub proof fn law_a_pass_that_is_read_is_complete(header: Members, body: Seq<u8>, i: int)
    requires
        pass_of(header, body) is Ok,
        0 <= i < pass_of(header, body)->Ok_0.logits.len(),
    ensures
        pass_of(header, body)->Ok_0.logits[i].logits.len() == (uint_of(
            header,
            "vocab_size"@,
        )->0 as usize),
        !pass_of(header, body)->Ok_0.cost.estimated,
{
}

/// Lengths go over the wire as 32 bits, most significant byte first.
pub proof fn law_lengths_are_big_endian(payload: Seq<u8>)
    requires
        payload.len() <= u32::MAX,
    ensures
        ({
            let f = framed(payload);
            &&& f.len() == payload.len() + 4
            &&& f[0] * 16_777_216 + f[1] * 65_536 + f[2] * 256 + f[3] == payload.len()
            &&& forall|i: int| 0 <= i < payload.len() ==> #[trigger] f[i + 4] == payload[i]
            &&& be_value(f) == payload.len()
        }),
{
    let n = payload.len();
    assert(n / 0x1_0000 / 0x100 == n / 0x100_0000);
    assert(n / 0x100 / 0x100 == n / 0x1_0000);
}

/// A response can be split exactly where it has four bytes that announce a header,
/// and the header is there.
pub proof fn law_a_response_has_its_header(frame: Seq<u8>)
    ensures
        frame_fault(frame) is None <==> frame.len() >= 4 && 4 + (frame[0] * 16_777_216 + frame[1]
            * 65_536 + frame[2] * 256 + frame[3]) <= frame.len(),
        frame_fault(frame) is None ==> header_end(frame) == Some(
            (4 + (frame[0] * 16_777_216 + frame[1] * 65_536 + frame[2] * 256 + frame[3])) as nat,
        ),
        frame_fault(frame) is Some ==> frame_fault(frame)->0 is Protocol,
        MAX_FRAME_BYTES == 256 * 1024 * 1024,
{
}

/// A worker that reports an error is not believed anything else, and what it
/// reports is passed on.
pub proof fn law_a_reported_error_is_passed_on(header: Members)
    ensures
        reported_error(header) is Some <==> text_of(header, "type"@) == Some("error"@),
        reported_error(header) matches Some(e) ==> {
            &&& e is Worker
            &&& text_of(header, "kind"@) is Some ==> e->kind == text_of(header, "kind"@)->0
            &&& text_of(header, "kind"@) is None ==> e->kind == "unknown"@
            &&& text_of(header, "message"@) is Some ==> e->message == text_of(
                header,
                "message"@,
            )->0
            &&& text_of(header, "message"@) is None ==> e->message == "(no message)"@
        },
{
}

/// The geometry of a worker is what its members say, all of which have to be there
/// but its degree and its descriptions. A worker that does not say its degree is
/// not sharded.
pub proof fn law_a_worker_is_read_member_by_member(header: Members)
    requires
        usize::BITS == 64,
    ensures
        info_of(header) is Ok <==> {
            &&& uint_of(header, "vocab_size"@) is Some
            &&& uint_of(header, "num_layers"@) is Some
            &&& uint_of(header, "num_kv_heads"@) is Some
            &&& uint_of(header, "head_dim"@) is Some
            &&& uint_of(header, "num_blocks"@) is Some
            &&& uint_of(header, "block_size"@) is Some
        },
        info_of(header) matches Ok(info) ==> {
            &&& info.vocab_size == uint_of(header, "vocab_size"@)->0
            &&& info.num_layers == uint_of(header, "num_layers"@)->0
            &&& info.num_kv_heads == uint_of(header, "num_kv_heads"@)->0
            &&& info.head_dim == uint_of(header, "head_dim"@)->0
            &&& info.num_blocks == uint_of(header, "num_blocks"@)->0
            &&& info.block_size == uint_of(header, "block_size"@)->0
            &&& uint_of(header, "tensor_parallel_size"@) is Some ==> info.tensor_parallel_size
                == uint_of(header, "tensor_parallel_size"@)->0
            &&& uint_of(header, "tensor_parallel_size"@) is None ==> info.tensor_parallel_size == 1
            &&& text_of(header, "device"@) is Some ==> info.device == text_of(
                header,
                "device"@,
            )->0
            &&& text_of(header, "dtype"@) is Some ==> info.dtype == text_of(header, "dtype"@)->0
        },
{
}

/// A worker is accepted exactly where it has as many layers and heads, of the same
/// width, as the model that is served.
pub proof fn law_a_worker_agrees_with_the_model(info: WorkerView, m: ModelView)
    ensures
        geometry_fault(info, m) is None <==> {
            &&& info.num_layers == m.num_layers
            &&& info.num_kv_heads == m.attention.num_kv_heads
            &&& info.head_dim == m.attention.head_dim
        },
        geometry_fault(info, m) is Some ==> geometry_fault(info, m)->0 is Protocol,
{
}

proof fn lemma_numbers_are_kept(list: Seq<Json>, given: Seq<u64>)
    requires
        list.len() == given.len(),
        forall|i: int|
            0 <= i < list.len() ==> #[trigger] list[i] == Json::Number(Some(given[i])),
    ensures
        numbers(list) == given,
    decreases list.len(),
{
    if list.len() > 0 {
        let (rest, fewer) = (list.drop_last(), given.drop_last());
        assert forall|i: int| 0 <= i < rest.len() implies #[trigger] rest[i] == Json::Number(
            Some(fewer[i]),
        ) by {
            assert(rest[i] == list[i]);
        }
        lemma_numbers_are_kept(rest, fewer);
        assert(list.last() == list[list.len() - 1]);
        assert(numbers(list) =~= given);
    } else {
        assert(numbers(list) =~= given);
    }
}

/// A worker's answer is read as it was written: with a list of sequences, and for
/// each of them, in that order, a row of as many numbers as the vocabulary has,
/// four bytes to a number and the least significant first, every sequence gets its
/// own row, number by number. A table of any other size is refused.
pub proof fn law_logits_are_read_as_they_were_written(
    header: Members,
    body: Seq<u8>,
    seqs: Seq<u64>,
    vocab: nat,
    table: Seq<Seq<u32>>,
    i: int,
    j: int,
)
    requires
        usize::BITS == 64,
        list_of(header, "seqs"@) is Some,
        list_of(header, "seqs"@)->0.len() == seqs.len(),
        forall|k: int|
            0 <= k < seqs.len() ==> #[trigger] list_of(header, "seqs"@)->0[k] == Json::Number(
                Some(seqs[k]),
            ),
        uint_of(header, "vocab_size"@) is Some,
        uint_of(header, "vocab_size"@)->0 == vocab,
        seqs.len() * vocab * 4 <= usize::MAX,
        0 <= i < seqs.len(),
        0 <= j < vocab,
        body.len() == seqs.len() * vocab * 4 ==> {
            let at = (i * vocab + j) * 4;
            let x = table[i][j];
            &&& body[at] == x % 256
            &&& body[at + 1] == (x as int / 256) % 256
            &&& body[at + 2] == (x as int / 65_536) % 256
            &&& body[at + 3] == x as int / 16_777_216
        },
    ensures
        pass_of(header, body) is Ok <==> body.len() == seqs.len() * vocab * 4,
        pass_of(header, body) matches Ok(pass) ==> {
            &&& pass.logits.len() == seqs.len()
            &&& pass.logits[i].seq.0 == seqs[i]
            &&& pass.logits[i].logits.len() == vocab
            &&& pass.logits[i].logits[j].bits == table[i][j]
            &&& !pass.cost.estimated
            &&& uint_of(header, "duration_us"@) is Some ==> pass.cost.duration_us == uint_of(
                header,
                "duration_us"@,
            )->0
            &&& uint_of(header, "duration_us"@) is None ==> pass.cost.duration_us == 0
        },
{
    lemma_numbers_are_kept(list_of(header, "seqs"@)->0, seqs);
    if body.len() == seqs.len() * vocab * 4 {
        let at = (i * vocab + j) * 4;
        let x = table[i][j] as int;
        assert(x / 256 / 256 == x / 65_536);
        assert(x / 65_536 / 256 == x / 16_777_216);
        assert(le_value(body, at) == x);
        assert(row(body, vocab, i)[j].bits == x);
    }
}

/// A worker is told of the whole work of a sequence, as it is: its number, every
/// token and every block in order, where it starts, and whether logits are due.
pub proof fn law_a_worker_is_told_the_whole_work(w: WireWork, work: SequenceWork<'_>)
    requires
        tells_of(w, work),
    ensures
        w.seq == work.seq.0,
        w.position == work.position,
        w.needs_logits == work.needs_logits,
        w.tokens@.len() == work.tokens@.len(),
        w.blocks@.len() == work.blocks@.len(),
        forall|i: int| 0 <= i < w.tokens@.len() ==> #[trigger] w.tokens@[i] == work.tokens@[i],
        forall|i: int| 0 <= i < w.blocks@.len() ==> #[trigger] w.blocks@[i] == work.blocks@[i].0,
{
}

/// Only numbers are read out of a list, and all of them, in order.
pub proof fn law_only_numbers_are_read(list: Seq<Json>, entry: Json)
    ensures
        numbers(Seq::empty()).len() == 0,
        entry matches Json::Number(Some(n)) ==> numbers(list.push(entry)) == numbers(list).push(n),
        !(entry is Number) ==> numbers(list.push(entry)) == numbers(list),
        entry == Json::Number(None) ==> numbers(list.push(entry)) == numbers(list),
{
    assert(list.push(entry).drop_last() =~= list);
}

/// What went wrong with a worker is told apart by how it starts, and ends with what
/// was said.
pub proof fn law_a_worker_error_says_what_was_said(kind: Seq<char>, what: Seq<char>)
    ensures
        RemoteErrorView::Io(what).text() == "worker transport failed: "@ + what,
        RemoteErrorView::Protocol(what).text() == "worker sent a malformed message: "@ + what,
        (RemoteErrorView::Worker { kind, message: what }).text() == "worker reported "@ + kind
            + ": "@ + what,
{
}

/// Of several disagreements the first is named, with both numbers: the layers, the
/// heads of the cache, and their width.
pub proof fn law_the_first_disagreement_is_named(info: WorkerView, m: ModelView)
    ensures
        ({
            let told = |what: Seq<char>, ours: usize, theirs: usize|
                Some(
                    RemoteErrorView::Protocol(
                        "worker and control plane disagree on "@ + what + ": "@ + decimal(
                            ours as nat,
                        ) + " here, "@ + decimal(theirs as nat)
                            + " there. They are not serving the same checkpoint."@,
                    ),
                );
            let layers = info.num_layers == m.num_layers;
            let heads = info.num_kv_heads == m.attention.num_kv_heads;
            &&& !layers ==> geometry_fault(info, m) == told(
                "layer count"@,
                m.num_layers,
                info.num_layers,
            )
            &&& layers && !heads ==> geometry_fault(info, m) == told(
                "KV head count"@,
                m.attention.num_kv_heads,
                info.num_kv_heads,
            )
            &&& layers && heads && info.head_dim != m.attention.head_dim ==> geometry_fault(info, m)
                == told("head dimension"@, m.attention.head_dim, info.head_dim)
        }),
{
}

/// Of several members that a worker leaves out, the first is named.
pub proof fn law_the_first_missing_member_is_named(header: Members)
    ensures
        ({
            let there = |name: Seq<char>| uint_of(header, name) is Some;
            let lacks = |name: Seq<char>|
                Err::<WorkerView, RemoteErrorView>(
                    RemoteErrorView::Protocol("info is missing `"@ + name + "`"@),
                );
            &&& !there("vocab_size"@) ==> info_of(header) == lacks("vocab_size"@)
            &&& there("vocab_size"@) && !there("num_layers"@) ==> info_of(header) == lacks(
                "num_layers"@,
            )
            &&& there("vocab_size"@) && there("num_layers"@) && !there("num_kv_heads"@) ==> info_of(
                header,
            ) == lacks("num_kv_heads"@)
            &&& there("vocab_size"@) && there("num_layers"@) && there("num_kv_heads"@) && !there(
                "head_dim"@,
            ) ==> info_of(header) == lacks("head_dim"@)
            &&& there("vocab_size"@) && there("num_layers"@) && there("num_kv_heads"@) && there(
                "head_dim"@,
            ) && !there("num_blocks"@) ==> info_of(header) == lacks("num_blocks"@)
            &&& there("vocab_size"@) && there("num_layers"@) && there("num_kv_heads"@) && there(
                "head_dim"@,
            ) && there("num_blocks"@) && !there("block_size"@) ==> info_of(header) == lacks(
                "block_size"@,
            )
        }),
{
}

/// An answer without its list, without its vocabulary, or of another size than it
/// announces is refused for the first of these.
pub proof fn law_an_incomplete_answer_is_refused(header: Members, body: Seq<u8>)
    requires
        usize::BITS == 64,
    ensures
        list_of(header, "seqs"@) is None ==> pass_of(header, body) == Err::<
            PassView,
            RemoteErrorView,
        >(RemoteErrorView::Protocol("response is missing `seqs`"@)),
        list_of(header, "seqs"@) is Some && uint_of(header, "vocab_size"@) is None ==> pass_of(
            header,
            body,
        ) == Err::<PassView, RemoteErrorView>(
            RemoteErrorView::Protocol("response is missing `vocab_size`"@),
        ),
        list_of(header, "seqs"@) is Some && uint_of(header, "vocab_size"@) is Some ==> {
            let rows = numbers(list_of(header, "seqs"@)->0).len();
            let expected = rows * (uint_of(header, "vocab_size"@)->0 as nat) * 4;
            expected <= usize::MAX && body.len() != expected ==> pass_of(header, body) == Err::<
                PassView,
                RemoteErrorView,
            >(
                RemoteErrorView::Protocol(
                    "expected "@ + decimal(expected) + " bytes of logits for "@ + decimal(rows)
                        + " sequences, got "@ + decimal(body.len()),
                ),
            )
        },
{
}

} // verus!

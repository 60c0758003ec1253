//! Text to tokens and back.
//!
//! The runtime is deliberately generic over tokenization. A production
//! deployment slots in the model's own tokenizer; [`ByteTokenizer`] exists so
//! the full serving path can be exercised without a checkpoint on disk, and it
//! is exactly reversible, which makes it useful for round-trip tests that a
//! lossy BPE would fail for uninteresting reasons.
use vstd::prelude::*;
use vstd::utf8::{
    decode_utf8, encode_scalar, encode_utf8, encode_utf8_decode_utf8, encode_utf8_first_scalar,
    encode_utf8_valid_utf8, is_continuation_byte, length_of_first_scalar, valid_first_scalar,
    valid_utf8,
};

use crate::text::has_at;
use crate::TokenId;

verus! {

pub trait Tokenizer: Send + Sync {
    /// Whether `tokens` is an encoding of `text`.
    spec fn encodes(&self, text: Seq<char>, tokens: Seq<TokenId>) -> bool;

    /// The text that tokens stand for.
    spec fn decoded(&self, tokens: Seq<TokenId>) -> Seq<char>;

    spec fn vocab(&self) -> nat;

    spec fn end(&self) -> TokenId;

    /// The tokens that should never be shown to a client.
    spec fn special(&self, token: TokenId) -> bool;

    /// How many of the last tokens may still become a character together with
    /// tokens that follow.
    spec fn unfinished(&self, tokens: Seq<TokenId>) -> nat;

    fn encode(&self, text: &str) -> (r: Vec<TokenId>)
        ensures
            self.encodes(text@, r@),
    ;

    fn decode(&self, tokens: &[TokenId]) -> (r: String)
        ensures
            r@ == self.decoded(tokens@),
    ;

    fn vocab_size(&self) -> (r: usize)
        ensures
            r == self.vocab(),
    ;

    /// Token that ends generation.
    fn eos(&self) -> (r: TokenId)
        ensures
            r == self.end(),
    ;

    /// True for tokens that should never be shown to a client: the end of
    /// generation, unless there are more.
    fn is_special(&self, token: TokenId) -> (r: bool)
        default_ensures
            r == (token == self.end()),
    {
        token == self.eos()
    }

    /// How many of the last tokens are part of a character that is not complete
    /// yet, and should not be shown to a client before it is. Where the text of
    /// the tokens ends in a replacement character, that may be all of them.
    fn unfinished_tokens(&self, tokens: &[TokenId]) -> (r: usize)
        default_ensures
            r == held_back(self.decoded(tokens@), tokens@.len()),
    {
        let text = self.decode(tokens);
        let n: usize = text.as_str().unicode_len();
        if n > 0 && text.as_str().get_char(n - 1) == REPLACEMENT {
            tokens.len()
        } else {
            0
        }
    }

    /// What is told of a token is whether it is special.
    proof fn special_is_told(&self, token: TokenId, r: bool)
        requires
            call_ensures(Self::is_special, (self, token), r),
        ensures
            r == self.special(token),
    ;

    /// What is told of tokens is how many of the last are unfinished.
    proof fn unfinished_are_told(&self, tokens: &[TokenId], r: usize)
        requires
            call_ensures(Self::unfinished_tokens, (self, tokens), r),
        ensures
            r == self.unfinished(tokens@),
            r <= tokens@.len(),
    ;
}

/// What stands in a text for bytes that are no character.
pub const REPLACEMENT: char = '\u{FFFD}';

/// How many of `n` tokens are held back: all of them where their text ends in a
/// replacement character, which may stand for half a character.
pub open spec fn held_back(text: Seq<char>, n: nat) -> nat {
    if text.len() > 0 && text.last() == REPLACEMENT {
        n
    } else {
        0
    }
}

/// What `String::from_utf8_lossy` makes of bytes that are not valid UTF-8.
pub uninterp spec fn repaired(bytes: Seq<u8>) -> Seq<char>;

/// Bytes as text, with replacement characters wherever they are not valid.
pub open spec fn lossy(bytes: Seq<u8>) -> Seq<char> {
    if valid_utf8(bytes) {
        decode_utf8(bytes)
    } else {
        repaired(bytes)
    }
}

/// `String::from_utf8_lossy`. Claimed is what its documentation says of valid
/// UTF-8, that the text is then the one the bytes encode; and of other bytes no
/// more than that the text depends on them alone.
#[verifier::external_body]
fn lossy_text(bytes: &[u8]) -> (r: String)
    ensures
        valid_utf8(bytes@) ==> r@ == decode_utf8(bytes@),
        !valid_utf8(bytes@) ==> r@ == repaired(bytes@),
{
    String::from_utf8_lossy(bytes).into_owned()
}

/// Bytes that are not valid UTF-8, and may become so with bytes that follow.
pub open spec fn opens(bytes: Seq<u8>) -> bool {
    &&& !valid_utf8(bytes)
    &&& exists|more: Seq<u8>| #[trigger] valid_utf8(bytes + more)
}

/// What bytes are as UTF-8.
pub enum Reading {
    Valid,
    /// Not valid, and bytes that follow may mend it.
    EndsEarly,
    /// Not valid, whatever follows.
    Malformed,
}

/// `std::str::from_utf8`, its error told apart by `error_len`. Claimed is what the
/// documentation says: success exactly on valid UTF-8, and an `error_len` of
/// nothing where it is the end of the bytes that came too early, so that with
/// bytes that follow they may be valid.
#[verifier::external_body]
pub(crate) fn read_utf8(bytes: &[u8]) -> (r: Reading)
    ensures
        r is Valid <==> valid_utf8(bytes@),
        r is EndsEarly <==> opens(bytes@),
{
    match std::str::from_utf8(bytes) {
        Ok(_) => Reading::Valid,
        Err(e) => match e.error_len() {
            None => Reading::EndsEarly,
            Some(_) => Reading::Malformed,
        },
    }
}

/// One token per UTF-8 byte, plus a small block of special ids above them.
///
/// Byte-level means every string round-trips exactly and no text is
/// unrepresentable — including partial multi-byte characters, which matters
/// when tokens are streamed one at a time.
#[derive(Debug, Clone, Copy, Default)]
pub struct ByteTokenizer;

impl ByteTokenizer {
    pub const EOS: TokenId = 256;

    pub const BOS: TokenId = 257;

    pub const VOCAB: usize = 258;
}

/// The token of each byte.
pub open spec fn byte_tokens(bytes: Seq<u8>) -> Seq<TokenId> {
    Seq::new(bytes.len(), |i: int| bytes[i] as TokenId)
}

/// The bytes among tokens, in order.
pub open spec fn token_bytes(tokens: Seq<TokenId>) -> Seq<u8>
    decreases tokens.len(),
{
    if tokens.len() == 0 {
        Seq::empty()
    } else if tokens.last() < 256 {
        token_bytes(tokens.drop_last()).push(tokens.last() as u8)
    } else {
        token_bytes(tokens.drop_last())
    }
}

/// Whether the last `m` tokens are the first bytes of a character, without its
/// last.
pub open spec fn ends_open(tokens: Seq<TokenId>, m: nat) -> bool {
    m <= tokens.len() && opens(token_bytes(tokens.skip(tokens.len() - m)))
}

fn bytes_of(tokens: &[TokenId]) -> (r: Vec<u8>)
    ensures
        r@ == token_bytes(tokens@),
{
    let mut bytes: Vec<u8> = Vec::new();
    for i in 0..tokens.len()
        invariant
            bytes@ == token_bytes(tokens@.take(i as int)),
    {
        let t: TokenId = tokens[i];
        assert(tokens@.take(i + 1).drop_last() =~= tokens@.take(i as int));
        if t < 256 {
            bytes.push(t as u8);
        }
    }
    assert(tokens@.take(tokens@.len() as int) =~= tokens@);
    bytes
}

fn check_open(tokens: &[TokenId], m: usize) -> (r: bool)
    ensures
        r == ends_open(tokens@, m as nat),
{
    if m > tokens.len() {
        return false;
    }
    let last = vstd::slice::slice_subrange(tokens, tokens.len() - m, tokens.len());
    assert(last@ =~= tokens@.skip(tokens@.len() - m));
    matches!(read_utf8(bytes_of(last).as_slice()), Reading::EndsEarly)
}

impl Tokenizer for ByteTokenizer {
    open spec fn encodes(&self, text: Seq<char>, tokens: Seq<TokenId>) -> bool {
        tokens == byte_tokens(encode_utf8(text))
    }

    open spec fn decoded(&self, tokens: Seq<TokenId>) -> Seq<char> {
        lossy(token_bytes(tokens))
    }

    open spec fn vocab(&self) -> nat {
        258
    }

    open spec fn end(&self) -> TokenId {
        256
    }

    open spec fn special(&self, token: TokenId) -> bool {
        token >= 256
    }

    /// A character has four bytes at most.
    open spec fn unfinished(&self, tokens: Seq<TokenId>) -> nat {
        if ends_open(tokens, 1) {
            1
        } else if ends_open(tokens, 2) {
            2
        } else if ends_open(tokens, 3) {
            3
        } else {
            0
        }
    }

    fn encode(&self, text: &str) -> (r: Vec<TokenId>) {
        let bytes = text.as_bytes();
        let mut r: Vec<TokenId> = Vec::with_capacity(bytes.len());
        for i in 0..bytes.len()
            invariant
                r@ == byte_tokens(bytes@).take(i as int),
        {
            r.push(bytes[i] as TokenId);
            assert(r@ =~= byte_tokens(bytes@).take(i + 1));
        }
        assert(r@ =~= byte_tokens(bytes@));
        r
    }

    /// Decode, replacing any byte sequence that is not valid UTF-8.
    ///
    /// A streamed response can cut a multi-byte character in half, so this has
    /// to be lossy rather than an error. Callers that stream should buffer
    /// with [`IncrementalDecoder`] instead of decoding token by token.
    fn decode(&self, tokens: &[TokenId]) -> (r: String) {
        lossy_text(bytes_of(tokens).as_slice())
    }

    fn vocab_size(&self) -> (r: usize) {
        Self::VOCAB
    }

    fn eos(&self) -> (r: TokenId) {
        Self::EOS
    }

    fn is_special(&self, token: TokenId) -> (r: bool)
        ensures
            r == self.special(token),
    {
        token >= 256
    }

    fn unfinished_tokens(&self, tokens: &[TokenId]) -> (r: usize)
        ensures
            r == self.unfinished(tokens@),
    {
        if check_open(tokens, 1) {
            1
        } else if check_open(tokens, 2) {
            2
        } else if check_open(tokens, 3) {
            3
        } else {
            0
        }
    }

    proof fn special_is_told(&self, token: TokenId, r: bool) {
    }

    proof fn unfinished_are_told(&self, tokens: &[TokenId], r: usize) {
    }
}

/// Holds tokens back so a character that spans several of them is only emitted
/// once it is complete.
///
/// Without this, streaming a character like `é` one byte at a time yields two
/// replacement characters instead of one letter. The text of a token may depend
/// on what stands before it, so the tokens that were emitted last are kept too.
#[derive(Debug)]
pub struct IncrementalDecoder {
    shown: Vec<TokenId>,
    pending: Vec<TokenId>,
    tail: String,
}

/// What a decoder holds, as values.
#[verifier::ext_equal]
pub struct DecoderView {
    /// The tokens that were emitted last.
    pub shown: Seq<TokenId>,
    /// The tokens after them, which are held back.
    pub pending: Seq<TokenId>,
    /// What the tokens that are held back would add.
    pub tail: Seq<char>,
}

impl DecoderView {
    pub open spec fn fresh() -> DecoderView {
        DecoderView { shown: Seq::empty(), pending: Seq::empty(), tail: Seq::empty() }
    }
}

/// The text that tokens add to the text of those before them.
pub open spec fn added<T: Tokenizer>(
    t: T,
    shown: Seq<TokenId>,
    more: Seq<TokenId>,
) -> Seq<char> {
    let before = t.decoded(shown);
    let after = t.decoded(shown + more);
    if before.is_prefix_of(after) {
        after.skip(before.len() as int)
    } else {
        t.decoded(more)
    }
}

/// A decoder after one more token, and the text that is now complete.
pub open spec fn fed<T: Tokenizer>(t: T, d: DecoderView, token: TokenId) -> (
    DecoderView,
    Seq<char>,
) {
    let all = d.pending.push(token);
    let complete = all.len() - t.unfinished(all);
    let done = all.take(complete);
    let rest = all.skip(complete);
    if t.special(token) {
        (d, Seq::empty())
    } else if complete <= 0 {
        (DecoderView { shown: d.shown, pending: all, tail: added(t, d.shown, all) }, Seq::empty())
    } else {
        (
            DecoderView { shown: done, pending: rest, tail: added(t, done, rest) },
            added(t, d.shown, done),
        )
    }
}

impl View for IncrementalDecoder {
    type V = DecoderView;

    closed spec fn view(&self) -> DecoderView {
        DecoderView { shown: self.shown@, pending: self.pending@, tail: self.tail@ }
    }
}

fn text_added<T: Tokenizer>(t: &T, shown: &Vec<TokenId>, more: &Vec<TokenId>) -> (r: String)
    ensures
        r@ == added(*t, shown@, more@),
{
    let before = t.decode(shown.as_slice());
    let mut all: Vec<TokenId> = Vec::with_capacity(shown.len());
    for i in 0..shown.len()
        invariant
            all@ == shown@.take(i as int),
    {
        all.push(shown[i]);
        assert(all@ =~= shown@.take(i + 1));
    }
    for i in 0..more.len()
        invariant
            all@ == shown@ + more@.take(i as int),
    {
        all.push(more[i]);
        assert(all@ =~= shown@ + more@.take(i + 1));
    }
    assert(all@ =~= shown@ + more@);
    let after = t.decode(all.as_slice());
    assert(after@.skip(0) =~= after@);
    if has_at(after.as_str(), 0, before.as_str()) {
        let from: usize = before.as_str().unicode_len();
        let to: usize = after.as_str().unicode_len();
        let rest = after.as_str().substring_char(from, to);
        assert(rest@ =~= after@.skip(before@.len() as int));
        String::from_str(rest)
    } else {
        t.decode(more.as_slice())
    }
}

impl IncrementalDecoder {
    pub fn new() -> (r: Self)
        ensures
            r@ == DecoderView::fresh(),
    {
        let r = IncrementalDecoder { shown: Vec::new(), pending: Vec::new(), tail: String::new() };
        assert(r@ =~= DecoderView::fresh());
        r
    }

    /// Feed one token, returning whatever text is now complete.
    pub fn push<T: Tokenizer>(&mut self, tokenizer: &T, token: TokenId) -> (r: String)
        ensures
            (final(self)@, r@) == fed(*tokenizer, old(self)@, token),
    {
        let special: bool = tokenizer.is_special(token);
        proof {
            tokenizer.special_is_told(token, special);
        }
        if special {
            return String::new();
        }
        self.pending.push(token);
        let ghost all = self.pending@;
        let held = self.pending.as_slice();
        let unfinished: usize = tokenizer.unfinished_tokens(held);
        proof {
            tokenizer.unfinished_are_told(held, unfinished);
        }
        let complete: usize = self.pending.len() - unfinished;
        if complete == 0 {
            self.tail = text_added(tokenizer, &self.shown, &self.pending);
            return String::new();
        }
        // Emit what is complete and keep the unfinished tail.
        let rest = self.pending.split_off(complete);
        let out = text_added(tokenizer, &self.shown, &self.pending);
        proof {
            assert(self.pending@ =~= all.take(complete as int));
            assert(rest@ =~= all.skip(complete as int));
        }
        self.tail = text_added(tokenizer, &self.pending, &rest);
        std::mem::swap(&mut self.shown, &mut self.pending);
        self.pending = rest;
        out
    }

    /// Flush anything still held back at the end of a stream.
    pub fn finish(&mut self) -> (r: String)
        ensures
            r@ == old(self)@.tail,
            final(self)@ == DecoderView::fresh(),
    {
        let mut out = String::new();
        std::mem::swap(&mut self.tail, &mut out);
        self.shown = Vec::new();
        self.pending = Vec::new();
        assert(self@ =~= DecoderView::fresh());
        out
    }
}

/// A decoder after a run of tokens, and the text that they complete, piece by
/// piece.
pub open spec fn streamed<T: Tokenizer>(t: T, d: DecoderView, tokens: Seq<TokenId>) -> (
    DecoderView,
    Seq<char>,
)
    decreases tokens.len(),
{
    if tokens.len() == 0 {
        (d, Seq::empty())
    } else {
        let (next, text) = fed(t, d, tokens[0]);
        let (last, more) = streamed(t, next, tokens.drop_first());
        (last, text + more)
    }
}

proof fn lemma_token_bytes_of_bytes(bytes: Seq<u8>)
    ensures
        token_bytes(byte_tokens(bytes)) == bytes,
    decreases bytes.len(),
{
    if bytes.len() > 0 {
        assert(byte_tokens(bytes).drop_last() =~= byte_tokens(bytes.drop_last()));
        lemma_token_bytes_of_bytes(bytes.drop_last());
        assert(token_bytes(byte_tokens(bytes)) =~= bytes);
    } else {
        assert(token_bytes(byte_tokens(bytes)) =~= bytes);
    }
}

/// Every string round-trips exactly: decoding its encoding gives it back.
pub proof fn law_every_string_round_trips(
    tokenizer: ByteTokenizer,
    text: Seq<char>,
    tokens: Seq<TokenId>,
)
    requires
        tokenizer.encodes(text, tokens),
    ensures
        tokenizer.decoded(tokens) == text,
{
    lemma_token_bytes_of_bytes(encode_utf8(text));
    encode_utf8_valid_utf8(text);
    encode_utf8_decode_utf8(text);
}

/// Encodings of text never hold a special token.
pub proof fn law_text_holds_no_special_token(
    tokenizer: ByteTokenizer,
    text: Seq<char>,
    tokens: Seq<TokenId>,
    i: int,
)
    requires
        tokenizer.encodes(text, tokens),
        0 <= i < tokens.len(),
    ensures
        !tokenizer.special(tokens[i]),
        tokens[i] < tokenizer.vocab(),
{
}

/// Nothing that starts with part of a character, and is shorter than it, is
/// valid.
proof fn lemma_part_of_a_character(bytes: Seq<u8>, m: int)
    requires
        valid_first_scalar(bytes),
        0 < m < length_of_first_scalar(bytes),
    ensures
        !valid_utf8(bytes.take(m)),
{
    let part = bytes.take(m);
    assert(part[0] == bytes[0]);
}

/// Nothing that starts in the middle of a character is valid or becomes so.
proof fn lemma_middle_of_a_character(bytes: Seq<u8>)
    requires
        bytes.len() > 0,
        is_continuation_byte(bytes[0]),
    ensures
        !valid_utf8(bytes),
        !opens(bytes),
{
    assert forall|more: Seq<u8>| !(#[trigger] valid_utf8(bytes + more)) by {
        assert((bytes + more)[0] == bytes[0]);
    }
}

/// The bytes of one character are valid, and all but the first continue it.
proof fn lemma_one_character(c: char)
    ensures
        ({
            let e = encode_scalar(c as u32);
            &&& encode_utf8(seq![c]) == e
            &&& valid_utf8(e)
            &&& valid_first_scalar(e)
            &&& 0 < e.len() <= 4
            &&& length_of_first_scalar(e) == e.len()
            &&& forall|i: int| 0 < i < e.len() ==> is_continuation_byte(#[trigger] e[i])
        }),
{
    let one = seq![c];
    let e = encode_scalar(c as u32);
    assert(one.drop_first() =~= Seq::<char>::empty());
    assert(encode_utf8(Seq::<char>::empty()) =~= Seq::<u8>::empty());
    assert(encode_utf8(one) =~= e);
    encode_utf8_valid_utf8(one);
    encode_utf8_first_scalar(one);
}

proof fn lemma_bytes_after(bytes: Seq<u8>, k: int)
    requires
        0 <= k <= bytes.len(),
    ensures
        token_bytes(byte_tokens(bytes).skip(k)) == bytes.skip(k),
{
    assert(byte_tokens(bytes).skip(k) =~= byte_tokens(bytes.skip(k)));
    lemma_token_bytes_of_bytes(bytes.skip(k));
}

/// The first bytes of a character are held back, all of its bytes are not.
proof fn lemma_unfinished(c: char, m: int)
    requires
        0 < m <= encode_scalar(c as u32).len(),
    ensures
        ({
            let e = encode_scalar(c as u32);
            ByteTokenizer.unfinished(byte_tokens(e.take(m))) == if m < e.len() {
                m
            } else {
                0
            }
        }),
{
    let e = encode_scalar(c as u32);
    let part = e.take(m);
    lemma_one_character(c);
    assert forall|k: nat| 0 < k < m implies !(#[trigger] ends_open(byte_tokens(part), k)) by {
        lemma_bytes_after(part, m - k);
        let last = part.skip(m - k);
        assert(last[0] == e[m - k]);
        lemma_middle_of_a_character(last);
    }
    lemma_bytes_after(part, 0);
    assert(part.skip(0) =~= part);
    if m < e.len() {
        lemma_part_of_a_character(e, m);
        assert(part + e.skip(m) =~= e);
        assert(ends_open(byte_tokens(part), m as nat));
    } else {
        assert(part =~= e);
        assert(!ends_open(byte_tokens(part), m as nat));
    }
}

proof fn lemma_encode_concat(a: Seq<char>, b: Seq<char>)
    ensures
        encode_utf8(a + b) == encode_utf8(a) + encode_utf8(b),
    decreases a.len(),
{
    if a.len() == 0 {
        assert(a + b =~= b);
        assert(encode_utf8(a) + encode_utf8(b) =~= encode_utf8(b));
    } else {
        assert((a + b).drop_first() =~= a.drop_first() + b);
        lemma_encode_concat(a.drop_first(), b);
        assert(encode_utf8(a + b) =~= encode_utf8(a) + encode_utf8(b));
    }
}

/// A character adds itself to a text.
proof fn lemma_character_adds_itself(shown: Seq<char>, c: char)
    ensures
        added(
            ByteTokenizer,
            byte_tokens(encode_utf8(shown)),
            byte_tokens(encode_scalar(c as u32)),
        ) == seq![c],
{
    let e = encode_scalar(c as u32);
    let before = encode_utf8(shown);
    lemma_one_character(c);
    lemma_encode_concat(shown, seq![c]);
    assert(byte_tokens(before) + byte_tokens(e) =~= byte_tokens(before + e));
    lemma_token_bytes_of_bytes(before);
    lemma_token_bytes_of_bytes(before + e);
    encode_utf8_valid_utf8(shown);
    encode_utf8_decode_utf8(shown);
    encode_utf8_valid_utf8(shown + seq![c]);
    encode_utf8_decode_utf8(shown + seq![c]);
    assert(shown =~= (shown + seq![c]).take(shown.len() as int));
    assert((shown + seq![c]).skip(shown.len() as int) =~= seq![c]);
}

/// Nothing adds nothing to a text.
proof fn lemma_nothing_adds_nothing<T: Tokenizer>(t: T, shown: Seq<TokenId>)
    ensures
        added(t, shown, Seq::empty()) == Seq::<char>::empty(),
{
    assert(shown + Seq::<TokenId>::empty() =~= shown);
    let before = t.decoded(shown);
    assert(before.take(before.len() as int) =~= before);
    assert(before.skip(before.len() as int) =~= Seq::<char>::empty());
}

/// Some bytes of a character are held back after `shown`.
spec fn holding(d: DecoderView, shown: Seq<char>, c: char, m: int) -> bool {
    &&& d.shown == byte_tokens(encode_utf8(shown))
    &&& d.pending == byte_tokens(encode_scalar(c as u32).take(m))
}

proof fn lemma_byte_is_held_back(d: DecoderView, shown: Seq<char>, c: char, m: int)
    requires
        0 <= m,
        m + 1 < encode_scalar(c as u32).len(),
        holding(d, shown, c, m),
    ensures
        fed(ByteTokenizer, d, encode_scalar(c as u32)[m] as TokenId).1 == Seq::<char>::empty(),
        holding(fed(ByteTokenizer, d, encode_scalar(c as u32)[m] as TokenId).0, shown, c, m + 1),
{
    let e = encode_scalar(c as u32);
    assert(d.pending.push(e[m] as TokenId) =~= byte_tokens(e.take(m + 1)));
    lemma_unfinished(c, m + 1);
}

proof fn lemma_last_byte_completes(d: DecoderView, shown: Seq<char>, c: char)
    requires
        holding(d, shown, c, encode_scalar(c as u32).len() - 1),
    ensures
        ({
            let e = encode_scalar(c as u32);
            fed(ByteTokenizer, d, e[e.len() - 1] as TokenId) == (
                DecoderView {
                    shown: byte_tokens(encode_utf8(seq![c])),
                    pending: Seq::empty(),
                    tail: Seq::empty(),
                },
                seq![c],
            )
        }),
{
    let e = encode_scalar(c as u32);
    let n = e.len() as int;
    lemma_one_character(c);
    let all = d.pending.push(e[n - 1] as TokenId);
    assert(e.take(n) =~= e);
    assert(all =~= byte_tokens(e));
    lemma_unfinished(c, n);
    assert(all.take(n) =~= all);
    assert(all.skip(n) =~= Seq::<TokenId>::empty());
    lemma_character_adds_itself(shown, c);
    lemma_nothing_adds_nothing(ByteTokenizer, all);
}

proof fn lemma_character_streams(
    d: DecoderView,
    shown: Seq<char>,
    c: char,
    m: int,
    rest: Seq<TokenId>,
)
    requires
        0 <= m < encode_scalar(c as u32).len(),
        holding(d, shown, c, m),
    ensures
        ({
            let e = encode_scalar(c as u32);
            let next = DecoderView {
                shown: byte_tokens(encode_utf8(seq![c])),
                pending: Seq::empty(),
                tail: Seq::empty(),
            };
            streamed(ByteTokenizer, d, byte_tokens(e.skip(m)) + rest) == (
                streamed(ByteTokenizer, next, rest).0,
                seq![c] + streamed(ByteTokenizer, next, rest).1,
            )
        }),
    decreases encode_scalar(c as u32).len() - m,
{
    let e = encode_scalar(c as u32);
    let left = byte_tokens(e.skip(m)) + rest;
    assert(left[0] == e[m] as TokenId);
    assert(left.drop_first() =~= byte_tokens(e.skip(m + 1)) + rest);
    let next = fed(ByteTokenizer, d, left[0]).0;
    if m + 1 < e.len() {
        lemma_byte_is_held_back(d, shown, c, m);
        lemma_character_streams(next, shown, c, m + 1, rest);
        let more = streamed(ByteTokenizer, next, left.drop_first()).1;
        assert(Seq::<char>::empty() + more =~= more);
    } else {
        lemma_last_byte_completes(d, shown, c);
        assert(byte_tokens(e.skip(m + 1)) + rest =~= rest);
    }
}

proof fn lemma_text_streams(d: DecoderView, shown: Seq<char>, text: Seq<char>)
    requires
        d.shown == byte_tokens(encode_utf8(shown)),
        d.pending == Seq::<TokenId>::empty(),
        d.tail == Seq::<char>::empty(),
    ensures
        streamed(ByteTokenizer, d, byte_tokens(encode_utf8(text))).1 == text,
        streamed(ByteTokenizer, d, byte_tokens(encode_utf8(text))).0.pending == Seq::<
            TokenId,
        >::empty(),
        streamed(ByteTokenizer, d, byte_tokens(encode_utf8(text))).0.tail == Seq::<char>::empty(),
    decreases text.len(),
{
    let tokens = byte_tokens(encode_utf8(text));
    if text.len() == 0 {
        assert(encode_utf8(text) =~= Seq::<u8>::empty());
        assert(text =~= Seq::<char>::empty());
    } else {
        let c = text[0];
        let e = encode_scalar(c as u32);
        let rest = byte_tokens(encode_utf8(text.drop_first()));
        lemma_one_character(c);
        assert(e.skip(0) =~= e);
        assert(tokens =~= byte_tokens(e.skip(0)) + rest);
        assert(d.pending =~= byte_tokens(e.take(0)));
        lemma_character_streams(d, shown, c, 0, rest);
        let next = DecoderView {
            shown: byte_tokens(encode_utf8(seq![c])),
            pending: Seq::empty(),
            tail: Seq::empty(),
        };
        lemma_text_streams(next, seq![c], text.drop_first());
        assert(seq![c] + text.drop_first() =~= text);
    }
}

/// Streaming reassembles split characters: the pieces emitted for the tokens of a
/// text, one token at a time, add up to that text, and nothing stays behind.
pub proof fn law_streamed_pieces_add_up_to_the_text(
    tokenizer: ByteTokenizer,
    text: Seq<char>,
    tokens: Seq<TokenId>,
)
    requires
        tokenizer.encodes(text, tokens),
    ensures
        streamed(tokenizer, DecoderView::fresh(), tokens).1 == text,
        streamed(tokenizer, DecoderView::fresh(), tokens).0.pending == Seq::<TokenId>::empty(),
        streamed(tokenizer, DecoderView::fresh(), tokens).0.tail == Seq::<char>::empty(),
{
    let none = Seq::<char>::empty();
    assert(byte_tokens(encode_utf8(none)) =~= Seq::<TokenId>::empty());
    lemma_text_streams(DecoderView::fresh(), none, text);
}

/// The first bytes of a character of several bytes emit nothing.
pub proof fn law_an_incomplete_character_emits_nothing(
    tokenizer: ByteTokenizer,
    c: char,
    m: int,
)
    requires
        0 <= m < encode_scalar(c as u32).len(),
    ensures
        streamed(
            tokenizer,
            DecoderView::fresh(),
            byte_tokens(encode_scalar(c as u32).take(m)),
        ).1 == Seq::<char>::empty(),
{
    let none = Seq::<char>::empty();
    assert(byte_tokens(encode_utf8(none)) =~= Seq::<TokenId>::empty());
    let e = encode_scalar(c as u32);
    assert(byte_tokens(e.take(0)) =~= Seq::<TokenId>::empty());
    lemma_bytes_are_held_back(DecoderView::fresh(), c, 0, m);
    assert(e.take(m).skip(0) =~= e.take(m));
}

proof fn lemma_bytes_are_held_back(d: DecoderView, c: char, k: int, m: int)
    requires
        0 <= k <= m < encode_scalar(c as u32).len(),
        holding(d, Seq::empty(), c, k),
    ensures
        streamed(ByteTokenizer, d, byte_tokens(encode_scalar(c as u32).take(m).skip(k))).1
            == Seq::<char>::empty(),
    decreases m - k,
{
    let e = encode_scalar(c as u32);
    let left = byte_tokens(e.take(m).skip(k));
    if k < m {
        assert(left[0] == e[k] as TokenId);
        assert(left.drop_first() =~= byte_tokens(e.take(m).skip(k + 1)));
        lemma_byte_is_held_back(d, Seq::empty(), c, k);
        lemma_bytes_are_held_back(fed(ByteTokenizer, d, left[0]).0, c, k + 1, m);
        assert(Seq::<char>::empty() + Seq::<char>::empty() =~= Seq::<char>::empty());
    }
}

/// Only what may still become a character is held back: whatever the bytes, what
/// a decoder keeps after a token of text is nothing, or the first bytes of a
/// character without its last.
pub proof fn law_only_an_open_character_is_held_back(
    tokenizer: ByteTokenizer,
    d: DecoderView,
    token: TokenId,
)
    requires
        !tokenizer.special(token),
    ensures
        ({
            let held = fed(tokenizer, d, token).0.pending;
            held.len() == 0 || held.len() < 4 && opens(token_bytes(held))
        }),
{
    let all = d.pending.push(token);
    let n = tokenizer.unfinished(all);
    assert(all.skip(0) =~= all);
    assert(all.skip(all.len() as int) =~= Seq::<TokenId>::empty());
}

/// No token is lost: what is emitted and what is held back are the tokens that
/// were held back before and the new one, in order.
pub proof fn law_every_token_is_emitted_or_held_back<T: Tokenizer>(
    t: T,
    d: DecoderView,
    token: TokenId,
)
    requires
        !t.special(token),
        t.unfinished(d.pending.push(token)) <= d.pending.len() + 1,
    ensures
        ({
            let next = fed(t, d, token).0;
            ||| next.shown == d.shown && next.pending == d.pending.push(token)
            ||| next.shown + next.pending == d.pending.push(token)
        }),
{
    let all = d.pending.push(token);
    let complete = all.len() - t.unfinished(all);
    assert(all.take(complete) + all.skip(complete) =~= all);
}

/// The tokens of a text are its bytes: as many, and each with the value of its byte.
/// Two ids above the bytes are special, of which the first ends generation.
pub proof fn law_tokens_are_the_bytes_of_a_text(
    tokenizer: ByteTokenizer,
    text: Seq<char>,
    tokens: Seq<TokenId>,
    i: int,
    token: TokenId,
)
    requires
        tokenizer.encodes(text, tokens),
        0 <= i < tokens.len(),
    ensures
        tokens.len() == encode_utf8(text).len(),
        tokens[i] == encode_utf8(text)[i],
        tokenizer.end() == 256,
        tokenizer.vocab() == 256 + 2,
        tokenizer.special(token) <==> token > 255,
{
}

/// A special token has no text, and an ordinary one is one more byte of it.
pub proof fn law_special_tokens_have_no_text(
    tokenizer: ByteTokenizer,
    tokens: Seq<TokenId>,
    token: TokenId,
)
    ensures
        token > 255 ==> tokenizer.decoded(tokens.push(token)) == tokenizer.decoded(tokens),
        token <= 255 ==> token_bytes(tokens.push(token)) == token_bytes(tokens).push(token as u8),
        valid_utf8(token_bytes(tokens)) ==> encode_utf8(tokenizer.decoded(tokens)) == token_bytes(
            tokens,
        ),
{
    assert(tokens.push(token).drop_last() =~= tokens);
    if valid_utf8(token_bytes(tokens)) {
        vstd::utf8::decode_utf8_encode_utf8(token_bytes(tokens));
    }
}

/// What tokens add to a text is what has to be put after it to get the text of all
/// of them; where the text of all does not begin with it, their own text.
pub proof fn law_what_is_added_completes_the_text<T: Tokenizer>(
    t: T,
    shown: Seq<TokenId>,
    more: Seq<TokenId>,
)
    ensures
        t.decoded(shown).is_prefix_of(t.decoded(shown + more)) ==> t.decoded(shown) + added(
            t,
            shown,
            more,
        ) == t.decoded(shown + more),
        !t.decoded(shown).is_prefix_of(t.decoded(shown + more)) ==> added(t, shown, more)
            == t.decoded(more),
{
    let before = t.decoded(shown);
    let after = t.decoded(shown + more);
    if before.is_prefix_of(after) {
        assert(before + after.skip(before.len() as int) =~= after);
    }
}

/// A special token changes nothing and shows nothing. Any other is kept: where the
/// tokens after those that were shown may still become a character, nothing is
/// shown; otherwise what is complete is shown, and only the rest is held back.
pub proof fn law_a_token_is_shown_once_complete<T: Tokenizer>(
    t: T,
    d: DecoderView,
    token: TokenId,
)
    requires
        t.unfinished(d.pending.push(token)) <= d.pending.len() + 1,
    ensures
        ({
            let (next, text) = fed(t, d, token);
            let all = d.pending.push(token);
            let held = t.unfinished(all) as int;
            &&& t.special(token) ==> next == d && text.len() == 0
            &&& !t.special(token) && held == all.len() ==> {
                &&& text.len() == 0
                &&& next.shown == d.shown
                &&& next.pending == all
                &&& next.tail == added(t, d.shown, all)
            }
            &&& !t.special(token) && held < all.len() ==> {
                &&& next.shown + next.pending == all
                &&& next.pending.len() == held
                &&& text == added(t, d.shown, next.shown)
                &&& next.tail == added(t, next.shown, next.pending)
            }
        }),
{
    let all = d.pending.push(token);
    let complete = all.len() - t.unfinished(all);
    assert(all.take(complete) + all.skip(complete) =~= all);
}

} // verus!

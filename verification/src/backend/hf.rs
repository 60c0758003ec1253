//! Hugging Face tokenizer, loaded from a checkpoint's `tokenizer.json`.
//!
//! Required whenever a real model is being served: the byte tokenizer produces
//! ids the model has never seen, so a mismatched tokenizer yields fluent-looking
//! nonsense rather than an error. Loading the checkpoint's own file is the only
//! way to be sure the ids mean what the weights expect.
use tokenizers::Tokenizer as HfInner;
use vstd::prelude::*;

use super::tokenizer::{held_back, Tokenizer};
use super::tokenizer_file::{check_document, is_sound};
use crate::json::{hold, json_of_bytes, value_of_bytes};
use crate::TokenId;

verus! {

/// A tokenizer of the `tokenizers` crate.
#[verifier::external_type_specification]
#[verifier::external_body]
pub struct ExHfInner(HfInner);

/// Whether loading a `tokenizer.json` may have this outcome: a tokenizer, or the
/// wording of an error. Where two names share an id, which of them the id stands
/// for is drawn anew with every load, so a file may have several outcomes.
pub uninterp spec fn hf_may_load(
    json: Seq<u8>,
    outcome: std::result::Result<HfInner, Seq<char>>,
) -> bool;

/// Whether a tokenizer was built of sound settings: those with which encoding a
/// text and decoding a list of tokens do not panic, whatever the text and the
/// tokens, and in which no count makes an expression repeat a part of itself at
/// length.
pub uninterp spec fn hf_is_sound(t: HfInner) -> bool;

/// The vocabulary of a tokenizer: the id of every token it knows by name.
pub uninterp spec fn hf_vocabulary(t: HfInner) -> Map<Seq<char>, TokenId>;

/// The added tokens of a tokenizer: whether each of them is special.
pub uninterp spec fn hf_added_tokens(t: HfInner) -> Map<TokenId, bool>;

/// The number of tokens in a tokenizer's vocabulary.
pub uninterp spec fn hf_vocab_size(t: HfInner) -> usize;

/// What `tokenizers::Tokenizer::decode` makes of ids, leaving out special ones.
pub uninterp spec fn hf_decoded(t: HfInner, ids: Seq<TokenId>) -> Option<Seq<char>>;

/// Whether `tokenizers::Tokenizer::encode`, without special tokens added, may
/// make these ids of a text, or none where it may fail on it. A tokenizer with
/// dropout draws at random, so a text may have several outcomes.
pub uninterp spec fn hf_may_encode(
    t: HfInner,
    text: Seq<char>,
    ids: Option<Seq<TokenId>>,
) -> bool;

/// What loading came to, as values.
pub open spec fn outcome_of(loaded: std::result::Result<HfInner, String>) -> std::result::Result<
    HfInner,
    Seq<char>,
> {
    match loaded {
        Ok(t) => Ok(t),
        Err(e) => Err(e@),
    }
}

/// The `Deserialize` of `tokenizers::Tokenizer` on the document that
/// `serde_json::from_slice` reads, or the wording of the error: what
/// `tokenizers::Tokenizer::from_bytes` does, save that of two members of one name
/// only the last is looked at, as in the document that was checked. Claimed is
/// only that the outcome is one that these bytes may have, and that settings
/// that are sound make a tokenizer that is. How long the engine behind the
/// expressions works on a text is its own affair: it gives up a match after a
/// fixed number of steps back.
#[verifier::external_body]
fn load(json: &[u8]) -> (r: std::result::Result<HfInner, String>)
    requires
        json_of_bytes(json@) is Ok,
        is_sound(json_of_bytes(json@)->Ok_0),
    ensures
        hf_may_load(json@, outcome_of(r)),
        r is Ok ==> hf_is_sound(r->Ok_0),
{
    let document = serde_json::from_slice(json).map_err(|e| e.to_string())?;
    serde_json::from_value(document).map_err(|e| e.to_string())
}

/// `tokenizers::Tokenizer::token_to_id`: a lookup in the vocabulary.
#[verifier::external_body]
fn token_to_id(t: &HfInner, name: &str) -> (r: Option<TokenId>)
    ensures
        r == hf_vocabulary(*t).get(name@),
{
    t.token_to_id(name)
}

/// The id of every added token and whether it is special, each id once, out of
/// `AddedVocabulary::get_added_tokens_decoder`. The order is that of a hash map
/// and nothing is claimed of it.
#[verifier::external_body]
fn added_tokens(t: &HfInner) -> (r: Vec<(TokenId, bool)>)
    ensures
        forall|i: int|
            0 <= i < r@.len() ==> hf_added_tokens(*t).contains_key((#[trigger] r@[i]).0)
                && hf_added_tokens(*t)[r@[i].0] == r@[i].1,
        forall|id: TokenId| #[trigger]
            hf_added_tokens(*t).contains_key(id) ==> r@.contains((id, hf_added_tokens(*t)[id])),
{
    let added = t.get_added_vocabulary().get_added_tokens_decoder();
    added.iter().map(|(id, token)| (*id, token.special)).collect()
}

/// The ids as values, where there are any.
pub open spec fn ids_of(outcome: Option<Vec<TokenId>>) -> Option<Seq<TokenId>> {
    match outcome {
        Some(ids) => Some(ids@),
        None => None,
    }
}

/// `tokenizers::Tokenizer::encode`, without special tokens added, reduced to the
/// ids; nothing where it fails. Claimed is only that the outcome is one that the
/// call may have on this tokenizer and this text. Which of them it is stays
/// open: a tokenizer with dropout draws at random.
#[verifier::external_body]
fn encode_ids(t: &HfInner, text: &str) -> (r: Option<Vec<TokenId>>)
    requires
        hf_is_sound(*t),
    ensures
        hf_may_encode(*t, text@, ids_of(r)),
{
    t.encode(text, false).ok().map(|encoding| encoding.get_ids().to_vec())
}

/// `tokenizers::Tokenizer::decode`, leaving out special tokens; nothing where it
/// fails. Claimed is that the text depends on the tokenizer and the ids alone.
#[verifier::external_body]
fn decode_ids(t: &HfInner, ids: &[TokenId]) -> (r: Option<String>)
    requires
        hf_is_sound(*t),
    ensures
        match r {
            Some(s) => hf_decoded(*t, ids@) == Some(s@),
            None => hf_decoded(*t, ids@) is None,
        },
{
    t.decode(ids, true).ok()
}

/// `tokenizers::Tokenizer::get_vocab_size`, counting added tokens. Claimed is
/// that it depends on the tokenizer alone.
#[verifier::external_body]
fn count_tokens(t: &HfInner) -> (r: usize)
    ensures
        r == hf_vocab_size(*t),
{
    t.get_vocab_size(true)
}

/// The first of the conventional names of an end-of-sequence token that a
/// vocabulary knows.
pub open spec fn conventional_eos(vocabulary: Map<Seq<char>, TokenId>) -> Option<TokenId> {
    if vocabulary.contains_key("<|eot_id|>"@) {
        Some(vocabulary["<|eot_id|>"@])
    } else if vocabulary.contains_key("<|end_of_text|>"@) {
        Some(vocabulary["<|end_of_text|>"@])
    } else if vocabulary.contains_key("</s>"@) {
        Some(vocabulary["</s>"@])
    } else if vocabulary.contains_key("<|endoftext|>"@) {
        Some(vocabulary["<|endoftext|>"@])
    } else if vocabulary.contains_key("<|im_end|>"@) {
        Some(vocabulary["<|im_end|>"@])
    } else {
        None
    }
}

/// The ids of the added tokens that are special.
pub open spec fn special_ids(added: Seq<(TokenId, bool)>) -> Seq<TokenId>
    decreases added.len(),
{
    if added.len() == 0 {
        Seq::empty()
    } else if added.last().1 {
        special_ids(added.drop_last()).push(added.last().0)
    } else {
        special_ids(added.drop_last())
    }
}

proof fn lemma_special_ids(added: Seq<(TokenId, bool)>, id: TokenId)
    ensures
        special_ids(added).contains(id) <==> added.contains((id, true)),
    decreases added.len(),
{
    if added.len() > 0 {
        let rest = added.drop_last();
        lemma_special_ids(rest, id);
        let shorter = special_ids(rest);
        let all = special_ids(added);
        if all.contains(id) {
            let k = all.index_of(id);
            if added.last().1 && k == shorter.len() {
                assert(added[added.len() - 1] == (id, true));
            } else {
                assert(shorter[k] == id);
                let j = rest.index_of((id, true));
                assert(added[j] == (id, true));
            }
        }
        if added.contains((id, true)) {
            let j = added.index_of((id, true));
            if j < rest.len() {
                assert(rest[j] == (id, true));
                let k = shorter.index_of(id);
                assert(all[k] == id);
            } else {
                assert(all[shorter.len() as int] == id);
            }
        }
    }
}

/// The ids of the added tokens that are special.
pub fn collect_special(added: &Vec<(TokenId, bool)>) -> (r: Vec<TokenId>)
    ensures
        r@ == special_ids(added@),
{
    let mut r: Vec<TokenId> = Vec::new();
    for i in 0..added.len()
        invariant
            r@ == special_ids(added@.take(i as int)),
    {
        assert(added@.take(i + 1).drop_last() =~= added@.take(i as int));
        if added[i].1 {
            r.push(added[i].0);
        }
    }
    assert(added@.take(added@.len() as int) =~= added@);
    r
}

/// The tokens of a prompt, given what the tokenizer made of it. A prompt that
/// cannot be tokenized counts as empty.
pub fn tokens_or_none(outcome: Option<Vec<TokenId>>) -> (r: Vec<TokenId>)
    ensures
        match outcome {
            Some(ids) => r == ids,
            None => r@ == Seq::<TokenId>::empty(),
        },
{
    match outcome {
        Some(ids) => ids,
        None => Vec::new(),
    }
}

/// The ids are those of the special ones among a tokenizer's added tokens.
spec fn hides(special: Seq<TokenId>, t: HfInner) -> bool {
    forall|id: TokenId| #[trigger]
        special.contains(id) <==> hf_added_tokens(t).contains_key(id) && hf_added_tokens(t)[id]
}

/// A checkpoint's own tokenizer.
pub struct HfTokenizer {
    inner: HfInner,
    eos: TokenId,
    /// Ids that must never be shown to a client.
    special: Vec<TokenId>,
}

/// What is said of a file that cannot be loaded.
pub open spec fn cannot_load(file: Seq<char>, why: Seq<char>) -> Seq<char> {
    "cannot load "@ + file + ": "@ + why
}

/// What is said of settings that could stop the process.
pub open spec fn unsound_settings() -> Seq<char> {
    "its settings can fail on some text or some tokens"@
}

/// What is said of a tokenizer with no end-of-sequence token.
pub open spec fn endless(file: Seq<char>) -> Seq<char> {
    file
        + " declares no recognisable end-of-sequence token; generation would never stop on its own"@
}

fn cannot(file: &str, why: &str) -> (r: String)
    ensures
        r@ == cannot_load(file@, why@),
{
    let mut e = String::from_str("cannot load ");
    e.append(file);
    e.append(": ");
    e.append(why);
    e
}

impl HfTokenizer {
    /// The tokenizer is sound and hides the special ones among its added tokens.
    #[verifier::type_invariant]
    spec fn wf(&self) -> bool {
        &&& hf_is_sound(self.inner)
        &&& hides(self.special@, self.inner)
    }

    pub closed spec fn inner_spec(&self) -> HfInner {
        self.inner
    }

    /// The tokenizer that loading a `tokenizer.json` came to, or what is said of
    /// it.
    pub open spec fn is_loaded(
        r: std::result::Result<Self, String>,
        outcome: std::result::Result<HfInner, Seq<char>>,
        file: Seq<char>,
    ) -> bool {
        match outcome {
            Err(why) => r is Err && r->Err_0@ == cannot_load(file, why),
            Ok(inner) => match conventional_eos(hf_vocabulary(inner)) {
                None => r is Err && r->Err_0@ == endless(file),
                Some(eos) => r is Ok && r->Ok_0.inner_spec() == inner && r->Ok_0.end() == eos,
            },
        }
    }

    /// Load from the contents of a `tokenizer.json`, which is called `file` in
    /// what is said of it.
    pub fn from_bytes(json: &[u8], file: &str) -> (r: std::result::Result<Self, String>)
        ensures
            match json_of_bytes(json@) {
                Err(why) => r is Err && r->Err_0@ == cannot_load(file@, why),
                Ok(doc) => if is_sound(doc) {
                    exists|outcome: std::result::Result<HfInner, Seq<char>>| #[trigger]
                        hf_may_load(json@, outcome) && Self::is_loaded(r, outcome, file@)
                } else {
                    r is Err && r->Err_0@ == cannot_load(file@, unsound_settings())
                },
            },
    {
        match value_of_bytes(json) {
            Ok(value) => if !check_document(&hold(&value)) {
                return Err(cannot(file, "its settings can fail on some text or some tokens"));
            },
            Err(why) => return Err(cannot(file, why.as_str())),
        }
        let loaded = load(json);
        let ghost outcome = outcome_of(loaded);
        let r = Self::from_loaded(loaded, file);
        assert(hf_may_load(json@, outcome) && Self::is_loaded(r, outcome, file@));
        r
    }

    /// The tokenizer that loading `file` came to, if it has an end-of-sequence
    /// token.
    pub fn from_loaded(loaded: std::result::Result<HfInner, String>, file: &str) -> (r:
        std::result::Result<Self, String>)
        requires
            loaded is Ok ==> hf_is_sound(loaded->Ok_0),
        ensures
            Self::is_loaded(r, outcome_of(loaded), file@),
    {
        let inner = match loaded {
            Ok(t) => t,
            Err(why) => return Err(cannot(file, why.as_str())),
        };
        let eos: Option<TokenId> = match token_to_id(&inner, "<|eot_id|>") {
            Some(id) => Some(id),
            None => match token_to_id(&inner, "<|end_of_text|>") {
                Some(id) => Some(id),
                None => match token_to_id(&inner, "</s>") {
                    Some(id) => Some(id),
                    None => match token_to_id(&inner, "<|endoftext|>") {
                        Some(id) => Some(id),
                        None => token_to_id(&inner, "<|im_end|>"),
                    },
                },
            },
        };
        let eos: TokenId = match eos {
            Some(id) => id,
            None => {
                let mut e = String::from_str(file);
                e.append(
                    " declares no recognisable end-of-sequence token; generation would never stop on its own",
                );
                return Err(e);
            },
        };
        let added = added_tokens(&inner);
        let special = collect_special(&added);
        let ghost known = hf_added_tokens(inner);
        proof {
            assert forall|id: TokenId| #[trigger]
                special@.contains(id) <==> known.contains_key(id) && known[id] by {
                lemma_special_ids(added@, id);
                if added@.contains((id, true)) {
                    let k = added@.index_of((id, true));
                    assert(added@[k] == (id, true));
                }
                if known.contains_key(id) && known[id] {
                    assert(added@.contains((id, known[id])));
                }
            }
        }
        Ok(HfTokenizer { inner, eos, special })
    }

    /// Override the end-of-sequence id, for a checkpoint whose
    /// `generation_config.json` disagrees with its tokenizer.
    pub fn with_eos(self, eos: TokenId) -> (r: Self)
        ensures
            r.end() == eos,
            r.inner_spec() == self.inner_spec(),
    {
        proof {
            use_type_invariant(&self);
        }
        HfTokenizer { inner: self.inner, eos, special: self.special }
    }
}

impl Tokenizer for HfTokenizer {
    /// The tokens are an outcome of tokenizing the text. A text that cannot be
    /// tokenized counts as empty.
    open spec fn encodes(&self, text: Seq<char>, tokens: Seq<TokenId>) -> bool {
        ||| hf_may_encode(self.inner_spec(), text, Some(tokens))
        ||| hf_may_encode(self.inner_spec(), text, None) && tokens == Seq::<TokenId>::empty()
    }

    open spec fn decoded(&self, tokens: Seq<TokenId>) -> Seq<char> {
        match hf_decoded(self.inner_spec(), tokens) {
            Some(s) => s,
            None => Seq::empty(),
        }
    }

    open spec fn vocab(&self) -> nat {
        hf_vocab_size(self.inner_spec()) as nat
    }

    closed spec fn end(&self) -> TokenId {
        self.eos
    }

    /// The end-of-sequence token and the special ones among the added tokens.
    open spec fn special(&self, token: TokenId) -> bool {
        ||| token == self.end()
        ||| hf_added_tokens(self.inner_spec()).contains_key(token) && hf_added_tokens(
            self.inner_spec(),
        )[token]
    }

    /// A text that ends in a replacement character may be that of half a
    /// character.
    open spec fn unfinished(&self, tokens: Seq<TokenId>) -> nat {
        held_back(self.decoded(tokens), tokens.len())
    }

    fn encode(&self, text: &str) -> (r: Vec<TokenId>) {
        proof {
            use_type_invariant(self);
        }
        tokens_or_none(encode_ids(&self.inner, text))
    }

    fn decode(&self, tokens: &[TokenId]) -> (r: String) {
        proof {
            use_type_invariant(self);
        }
        match decode_ids(&self.inner, tokens) {
            Some(s) => s,
            None => String::new(),
        }
    }

    fn vocab_size(&self) -> (r: usize) {
        count_tokens(&self.inner)
    }

    fn eos(&self) -> (r: TokenId) {
        self.eos
    }

    fn is_special(&self, token: TokenId) -> (r: bool)
        ensures
            r == self.special(token),
    {
        proof {
            use_type_invariant(self);
        }
        if token == self.eos {
            return true;
        }
        for i in 0..self.special.len()
            invariant
                hides(self.special@, self.inner),
                forall|j: int| 0 <= j < i ==> self.special@[j] != token,
        {
            if self.special[i] == token {
                assert(self.special@.contains(token));
                return true;
            }
        }
        assert(!self.special@.contains(token));
        false
    }

    proof fn special_is_told(&self, token: TokenId, r: bool) {
    }

    proof fn unfinished_are_told(&self, tokens: &[TokenId], r: usize) {
    }
}

/// Generation ends at the first of the conventional names that the vocabulary has,
/// in the order of preference, and a vocabulary with none of them has no end.
pub proof fn law_the_end_is_the_first_conventional_name(
    vocabulary: Map<Seq<char>, TokenId>,
    names: Seq<Seq<char>>,
    i: int,
)
    requires
        names == seq![
            "<|eot_id|>"@,
            "<|end_of_text|>"@,
            "</s>"@,
            "<|endoftext|>"@,
            "<|im_end|>"@,
        ],
        0 <= i < 5,
    ensures
        vocabulary.contains_key(names[i]) && (forall|j: int|
            0 <= j < i ==> !vocabulary.contains_key(#[trigger] names[j])) ==> conventional_eos(
            vocabulary,
        ) == Some(vocabulary[names[i]]),
        (forall|j: int| 0 <= j < 5 ==> !vocabulary.contains_key(#[trigger] names[j]))
            <==> conventional_eos(vocabulary) is None,
{
    assert(names[0] == "<|eot_id|>"@);
    assert(names[1] == "<|end_of_text|>"@);
    assert(names[2] == "</s>"@);
    assert(names[3] == "<|endoftext|>"@);
    assert(names[4] == "<|im_end|>"@);
}

/// An added token is hidden exactly where it is marked as special.
pub proof fn law_marked_tokens_are_special(added: Seq<(TokenId, bool)>, id: TokenId)
    ensures
        special_ids(added).contains(id) <==> exists|i: int|
            0 <= i < added.len() && #[trigger] added[i] == (id, true),
{
    lemma_special_ids(added, id);
    if added.contains((id, true)) {
        let k = added.index_of((id, true));
        assert(added[k] == (id, true));
    }
}

/// A text ends in half a character only where it ends in a replacement character:
/// then all of its tokens are held back, and otherwise none.
pub proof fn law_only_half_a_character_is_held_back(text: Seq<char>, n: nat)
    ensures
        text.len() > 0 && text.last() == '\u{FFFD}' ==> held_back(text, n) == n,
        text.len() == 0 || text.last() != '\u{FFFD}' ==> held_back(text, n) == 0,
{
}

/// A file that cannot be loaded is reported with the reason; one that can be is
/// refused where its vocabulary has no end, and otherwise ends there.
pub proof fn law_a_tokenizer_ends_where_its_vocabulary_says(
    r: std::result::Result<HfTokenizer, String>,
    outcome: std::result::Result<HfInner, Seq<char>>,
    file: Seq<char>,
)
    requires
        HfTokenizer::is_loaded(r, outcome, file),
    ensures
        outcome is Err ==> r is Err && r->Err_0@ == "cannot load "@ + file + ": "@ + outcome->Err_0,
        outcome is Ok && conventional_eos(hf_vocabulary(outcome->Ok_0)) is None ==> r is Err,
        outcome is Ok && conventional_eos(hf_vocabulary(outcome->Ok_0)) is Some ==> {
            &&& r is Ok
            &&& r->Ok_0.end() == conventional_eos(hf_vocabulary(outcome->Ok_0))->0
            &&& r->Ok_0.inner_spec() == outcome->Ok_0
        },
{
}

/// A client is never shown the end of generation or a token that is marked as
/// special; tokens that cannot be decoded have no text, and a text that cannot be
/// tokenized has no tokens.
pub proof fn law_a_checkpoint_tokenizer_hides_its_marks(
    t: HfTokenizer,
    token: TokenId,
    tokens: Seq<TokenId>,
)
    ensures
        t.special(t.end()),
        hf_added_tokens(t.inner_spec()).contains_key(token) ==> (t.special(token) <==> token
            == t.end() || hf_added_tokens(t.inner_spec())[token]),
        !hf_added_tokens(t.inner_spec()).contains_key(token) ==> (t.special(token) <==> token
            == t.end()),
        hf_decoded(t.inner_spec(), tokens) is None ==> t.decoded(tokens).len() == 0,
        hf_decoded(t.inner_spec(), tokens) is Some ==> t.decoded(tokens) == hf_decoded(
            t.inner_spec(),
            tokens,
        )->0,
        t.vocab() == hf_vocab_size(t.inner_spec()),
{
}

} // verus!

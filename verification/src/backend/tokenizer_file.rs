//! What a `tokenizer.json` may ask for.
//!
//! Some settings are accepted by the tokenizer library and then stop the
//! process: while the file is loaded, or with the first text or token that meets
//! them. A file that holds such a setting is refused before anything is built
//! from it.
use vstd::prelude::*;

use super::charsmap::{charsmap_is_sound, check_charsmap};
use super::expression::{always_takes, check_expression, check_takes, is_tame};
use crate::json::{
    flag_of, list_of, member, members_of, text_of, uint_of, values, Json, JsonField, JsonObject,
    Members,
};
use crate::text::{chars_of, has_at, is_same};

verus! {

/// How deep a document is nested at most: the depth to which it is read.
pub const MAX_DEPTH: u32 = 128;

/// The largest token id.
pub const MAX_ID: u64 = 0xFFFF_FFFF;

/// The longest that a list is padded to, so that memory has room for it.
pub const MAX_PADDED: u64 = 0x10_0000;

/// The longest piece of a vocabulary that is kept as a tree with a level for
/// every byte, so that the stack has room for taking it down.
pub const MAX_PIECE: usize = 256;

/// The settings of a part of a tokenizer; nothing where there is no such part.
pub open spec fn part(doc: Members, name: Seq<char>) -> Json {
    match member(doc, name) {
        Some(j) => j,
        None => Json::Null,
    }
}

/// A window that is cut from a long text moves on with every cut, as
/// `Encoding::truncate` insists.
pub open spec fn truncation_is_sound(j: Json) -> bool {
    match j {
        Json::Null => true,
        Json::Object(m) => match (uint_of(m, "max_length"@), uint_of(m, "stride"@)) {
            (Some(longest), Some(stride)) => longest == 0 || stride < longest,
            _ => false,
        },
        _ => false,
    }
}

/// A length, where there is one, that a list may be padded to.
pub open spec fn is_modest(length: Option<u64>) -> bool {
    match length {
        Some(n) => n <= MAX_PADDED,
        None => true,
    }
}

/// What a text is padded to is a length that memory has room for.
pub open spec fn padding_is_sound(j: Json) -> bool {
    match j {
        Json::Null => true,
        Json::Object(m) => {
            &&& is_modest(uint_of(members_of(part(m, "strategy"@)), "Fixed"@))
            &&& is_modest(uint_of(m, "pad_to_multiple_of"@))
        },
        _ => false,
    }
}

/// The expression of a pattern, if it has one, can be run on every text.
pub open spec fn pattern_is_sound(pattern: Json) -> bool {
    match text_of(members_of(pattern), "Regex"@) {
        Some(expression) => is_tame(expression),
        None => true,
    }
}

/// A replacement that puts text only in the place of text. What is put where
/// nothing was has no place of its own, and `NormalizedString::transform` looks
/// for one.
pub open spec fn replacement_is_sound(m: Members) -> bool {
    let pattern = members_of(part(m, "pattern"@));
    &&& pattern_is_sound(part(m, "pattern"@))
    &&& match text_of(pattern, "Regex"@) {
        Some(expression) => text_of(m, "content"@) == Some(Seq::<char>::empty()) || always_takes(
            expression,
        ),
        None => true,
    }
    &&& text_of(pattern, "String"@) != Some(Seq::<char>::empty())
}

/// The normalizers there are.
pub open spec fn is_normalizer(kind: Seq<char>) -> bool {
    ||| kind == "Sequence"@
    ||| kind == "Replace"@
    ||| kind == "Bert"@
    ||| kind == "BertNormalizer"@
    ||| kind == "Strip"@
    ||| kind == "StripAccents"@
    ||| kind == "Nmt"@
    ||| kind == "Prepend"@
    ||| kind == "Precompiled"@
    ||| is_renaming(kind)
}

/// A table of replacements stands where one is asked for, and nowhere else, and a
/// lookup does not lead out of it.
pub open spec fn charsmap_fits(m: Members) -> bool {
    if text_of(m, "type"@) == Some("Precompiled"@) {
        match text_of(m, "precompiled_charsmap"@) {
            Some(table) => charsmap_is_sound(table),
            None => false,
        }
    } else {
        member(m, "precompiled_charsmap"@) is None
    }
}

/// The normalizers that only put other characters in the place of characters.
pub open spec fn is_renaming(kind: Seq<char>) -> bool {
    ||| kind == "NFC"@
    ||| kind == "NFD"@
    ||| kind == "NFKC"@
    ||| kind == "NFKD"@
    ||| kind == "Lowercase"@
    ||| kind == "ByteLevel"@
}

/// A normalizer after which every character still belongs to a part of the text
/// it came from.
pub open spec fn normalizer_is_sound(j: Json, depth: nat) -> bool
    decreases depth, 0nat,
{
    match j {
        Json::Object(m) => {
            &&& depth > 0
            &&& text_of(m, "type"@) is Some
            &&& is_normalizer(text_of(m, "type"@)->0)
            &&& charsmap_fits(m)
            &&& text_of(m, "prepend"@) != Some(Seq::<char>::empty())
            &&& replacement_is_sound(m)
            &&& match list_of(m, "normalizers"@) {
                Some(l) => normalizers_are_sound(l, (depth - 1) as nat),
                None => true,
            }
        },
        _ => false,
    }
}

/// Normalizers that are all such.
pub open spec fn normalizers_are_sound(l: Seq<Json>, depth: nat) -> bool
    decreases depth, 1nat,
{
    forall|i: int| 0 <= i < l.len() ==> normalizer_is_sound(#[trigger] l[i], depth)
}

/// A normalizer that makes nothing empty that was not.
pub open spec fn keeps_text(j: Json, depth: nat) -> bool
    decreases depth, 0nat,
{
    match j {
        Json::Null => true,
        Json::Object(m) => match text_of(m, "type"@) {
            Some(kind) => {
                if kind == "Replace"@ {
                    text_of(m, "content"@) is Some && text_of(m, "content"@)->0.len() > 0
                } else if kind == "Sequence"@ {
                    match list_of(m, "normalizers"@) {
                        Some(l) => depth > 0 && all_keep_text(l, (depth - 1) as nat),
                        None => false,
                    }
                } else {
                    is_renaming(kind) || kind == "Prepend"@
                }
            },
            None => false,
        },
        _ => false,
    }
}

/// Normalizers that all make nothing empty that was not.
pub open spec fn all_keep_text(l: Seq<Json>, depth: nat) -> bool
    decreases depth, 1nat,
{
    forall|i: int| 0 <= i < l.len() ==> keeps_text(#[trigger] l[i], depth)
}

/// The pre-tokenizers there are.
pub open spec fn is_pre_tokenizer(kind: Seq<char>) -> bool {
    ||| kind == "Sequence"@
    ||| kind == "Split"@
    ||| kind == "ByteLevel"@
    ||| kind == "Metaspace"@
    ||| kind == "Whitespace"@
    ||| kind == "WhitespaceSplit"@
    ||| kind == "BertPreTokenizer"@
    ||| kind == "CharDelimiterSplit"@
    ||| kind == "Punctuation"@
    ||| kind == "Digits"@
    ||| kind == "UnicodeScripts"@
    ||| kind == "FixedLength"@
}

/// A pre-tokenizer that cuts a text into pieces that follow one another. Pieces of
/// a fixed length have one: there are no `chunks` of nothing.
pub open spec fn pre_tokenizer_is_sound(j: Json, depth: nat) -> bool
    decreases depth, 0nat,
{
    match j {
        Json::Object(m) => {
            &&& depth > 0
            &&& text_of(m, "type"@) is Some
            &&& is_pre_tokenizer(text_of(m, "type"@)->0)
            &&& uint_of(m, "length"@) != Some(0u64)
            &&& pattern_is_sound(part(m, "pattern"@))
            &&& match list_of(m, "pretokenizers"@) {
                Some(l) => pre_tokenizers_are_sound(l, (depth - 1) as nat),
                None => true,
            }
        },
        _ => false,
    }
}

/// Pre-tokenizers that are all such.
pub open spec fn pre_tokenizers_are_sound(l: Seq<Json>, depth: nat) -> bool
    decreases depth, 1nat,
{
    forall|i: int| 0 <= i < l.len() ==> pre_tokenizer_is_sound(#[trigger] l[i], depth)
}

/// The decoders that take a list of no tokens as well. The one for words with an
/// end mark does not: it looks for the last token.
pub open spec fn is_decoder(kind: Seq<char>) -> bool {
    ||| kind == "Sequence"@
    ||| kind == "ByteLevel"@
    ||| kind == "ByteFallback"@
    ||| kind == "Metaspace"@
    ||| kind == "WordPiece"@
    ||| kind == "Replace"@
    ||| kind == "Fuse"@
    ||| kind == "Strip"@
    ||| kind == "CTC"@
}

/// A decoder that cuts nothing from the end of a token, which may be shorter
/// than the cut.
pub open spec fn decoder_is_sound(j: Json, depth: nat) -> bool
    decreases depth, 0nat,
{
    match j {
        Json::Object(m) => {
            &&& depth > 0
            &&& text_of(m, "type"@) is Some
            &&& is_decoder(text_of(m, "type"@)->0)
            &&& uint_of(m, "stop"@) is Some ==> uint_of(m, "stop"@) == Some(0u64)
            &&& pattern_is_sound(part(m, "pattern"@))
            &&& match list_of(m, "decoders"@) {
                Some(l) => decoders_are_sound(l, (depth - 1) as nat),
                None => true,
            }
        },
        _ => false,
    }
}

/// Decoders that are all such.
pub open spec fn decoders_are_sound(l: Seq<Json>, depth: nat) -> bool
    decreases depth, 1nat,
{
    forall|i: int| 0 <= i < l.len() ==> decoder_is_sound(#[trigger] l[i], depth)
}

/// A piece of a template that stands for a text, not for a special token.
pub open spec fn takes_text(piece: Json) -> bool {
    member(members_of(piece), "SpecialToken"@) is None
}

/// A piece of a template that is a special token or the one text there is.
pub open spec fn piece_is_sound(piece: Json) -> bool {
    takes_text(piece) ==> text_of(members_of(part(members_of(piece), "Sequence"@)), "id"@)
        == Some("A"@)
}

/// How many pieces of a template stand for a text.
pub open spec fn texts_taken(pieces: Seq<Json>) -> nat
    decreases pieces.len(),
{
    if pieces.len() == 0 {
        0
    } else {
        texts_taken(pieces.drop_last()) + if takes_text(pieces.last()) {
            1nat
        } else {
            0
        }
    }
}

/// A template that holds the one text there is, once: `TemplateProcessing` has no
/// second one to put in, and hands on as many as it holds.
pub open spec fn template_is_sound(pieces: Seq<Json>) -> bool {
    &&& forall|i: int| 0 <= i < pieces.len() ==> piece_is_sound(#[trigger] pieces[i])
    &&& texts_taken(pieces) == 1
}

/// A post-processor that makes one encoding of one encoding.
pub open spec fn processor_is_sound(j: Json, depth: nat) -> bool
    decreases depth, 0nat,
{
    match j {
        Json::Object(m) => {
            &&& depth > 0
            &&& match list_of(m, "single"@) {
                Some(pieces) => template_is_sound(pieces),
                None => true,
            }
            &&& match list_of(m, "processors"@) {
                Some(l) => processors_are_sound(l, (depth - 1) as nat),
                None => true,
            }
        },
        _ => false,
    }
}

/// Post-processors that are all such.
pub open spec fn processors_are_sound(l: Seq<Json>, depth: nat) -> bool
    decreases depth, 1nat,
{
    forall|i: int| 0 <= i < l.len() ==> processor_is_sound(#[trigger] l[i], depth)
}

/// Whether some added token has a property.
pub open spec fn some_token(tokens: Seq<Json>, property: Seq<char>) -> bool {
    exists|i: int|
        0 <= i < tokens.len() && flag_of(members_of(#[trigger] tokens[i]), property) == Some(true)
}

/// A letter or a digit of ASCII, which no normalizer takes away unless it
/// replaces it.
pub open spec fn is_plain(c: char) -> bool {
    0x30 <= c as u32 <= 0x39 || 0x41 <= c as u32 <= 0x5A || 0x61 <= c as u32 <= 0x7A
}

/// Whether a text has a letter or a digit.
pub open spec fn has_plain(text: Seq<char>) -> bool {
    exists|i: int| 0 <= i < text.len() && is_plain(#[trigger] text[i])
}

/// A normalizer that replaces no text by another of the file's choosing.
pub open spec fn replaces_nothing(j: Json, depth: nat) -> bool
    decreases depth, 0nat,
{
    match j {
        Json::Null => true,
        Json::Object(m) => {
            &&& depth > 0
            &&& part(m, "pattern"@) is Null
            &&& part(m, "precompiled_charsmap"@) is Null
            &&& match list_of(m, "normalizers"@) {
                Some(l) => all_replace_nothing(l, (depth - 1) as nat),
                None => true,
            }
        },
        _ => false,
    }
}

/// Normalizers that all replace no text by another of the file's choosing.
pub open spec fn all_replace_nothing(l: Seq<Json>, depth: nat) -> bool
    decreases depth, 1nat,
{
    forall|i: int| 0 <= i < l.len() ==> replaces_nothing(#[trigger] l[i], depth)
}

/// An added token that is more than blanks in every text it is looked for in.
pub open spec fn stays_visible(token: Members, normalizer: Json) -> bool {
    &&& text_of(token, "content"@) is Some
    &&& has_plain(text_of(token, "content"@)->0)
    &&& flag_of(token, "normalized"@) == Some(true) ==> replaces_nothing(
        normalizer,
        MAX_DEPTH as nat,
    )
}

/// An added token that does not come to nothing when it is normalized.
pub open spec fn survives(token: Members, normalizer: Json) -> bool {
    ||| flag_of(token, "normalized"@) != Some(true)
    ||| keeps_text(normalizer, MAX_DEPTH as nat)
    ||| stays_visible(token, normalizer)
}

/// Added tokens that can be told apart in every text: none comes to nothing when
/// it is normalized, and where a token takes the blanks that follow it, none that
/// takes those before it is made of blanks.
pub open spec fn added_tokens_are_sound(tokens: Seq<Json>, normalizer: Json) -> bool {
    &&& forall|i: int|
        0 <= i < tokens.len() ==> (#[trigger] tokens[i]) is Object && survives(
            members_of(tokens[i]),
            normalizer,
        )
    &&& some_token(tokens, "rstrip"@) ==> forall|i: int|
        0 <= i < tokens.len() && flag_of(members_of(#[trigger] tokens[i]), "lstrip"@) == Some(true)
            ==> stays_visible(members_of(tokens[i]), normalizer)
}

/// What follows the first blank of a text.
pub open spec fn after_blank(s: Seq<char>) -> Seq<char>
    decreases s.len(),
{
    if s.len() == 0 {
        s
    } else if s[0] == ' ' {
        s.drop_first()
    } else {
        after_blank(s.drop_first())
    }
}

/// A merge whose second part starts as a continued word does, for `BpeBuilder` to
/// cut that off.
pub open spec fn merge_is_sound(merge: Json, prefix: Seq<char>) -> bool {
    match merge {
        Json::Text(s) => prefix.is_prefix_of(after_blank(s)),
        Json::List(parts) => {
            &&& parts.len() == 2
            &&& match parts[1] {
                Json::Text(second) => prefix.is_prefix_of(second),
                _ => false,
            }
        },
        _ => false,
    }
}

/// Merges whose second parts all start as a continued word does.
pub open spec fn all_merges_are_sound(merges: Seq<Json>, prefix: Seq<char>) -> bool {
    forall|i: int| 0 <= i < merges.len() ==> merge_is_sound(#[trigger] merges[i], prefix)
}

/// The merges of a model start as continued words do where the model marks
/// those.
pub open spec fn merges_are_sound(model: Members) -> bool {
    match (text_of(model, "continuing_subword_prefix"@), list_of(model, "merges"@)) {
        (Some(prefix), Some(merges)) => prefix.len() == 0 || all_merges_are_sound(merges, prefix),
        _ => true,
    }
}

/// A piece with its score, of a length that the stack has room for.
pub open spec fn piece_is_short(entry: Json) -> bool {
    match entry {
        Json::List(parts) => parts.len() > 0 ==> match parts[0] {
            Json::Text(s) => s.len() <= MAX_PIECE,
            _ => true,
        },
        _ => true,
    }
}

/// A vocabulary that leaves ids for so many more tokens, which `AddedVocabulary`
/// counts on from the largest there is.
pub open spec fn vocabulary_is_sound(vocabulary: Json, more: nat) -> bool {
    match vocabulary {
        Json::Object(m) => {
            &&& m.len() + more <= MAX_ID
            &&& forall|i: int|
                0 <= i < m.len() ==> match (#[trigger] m[i]).1 {
                    Json::Number(Some(id)) => id + more <= MAX_ID,
                    _ => true,
                }
        },
        Json::List(l) => {
            &&& l.len() + more <= MAX_ID
            &&& forall|i: int| 0 <= i < l.len() ==> piece_is_short(#[trigger] l[i])
        },
        _ => true,
    }
}

/// The entries of a list, where a value is one.
pub open spec fn entries_of(j: Json) -> Seq<Json> {
    match j {
        Json::List(l) => l,
        _ => Seq::empty(),
    }
}

/// The tokenizer that the document describes is built, and takes every text and
/// every list of tokens, without stopping the process.
pub open spec fn is_sound(doc: Json) -> bool {
    let m = members_of(doc);
    let normalizer = part(m, "normalizer"@);
    let added = part(m, "added_tokens"@);
    let model = part(m, "model"@);
    &&& doc is Object
    &&& truncation_is_sound(part(m, "truncation"@))
    &&& padding_is_sound(part(m, "padding"@))
    &&& normalizer is Null || normalizer_is_sound(normalizer, MAX_DEPTH as nat)
    &&& part(m, "pre_tokenizer"@) is Null || pre_tokenizer_is_sound(
        part(m, "pre_tokenizer"@),
        MAX_DEPTH as nat,
    )
    &&& part(m, "post_processor"@) is Null || processor_is_sound(
        part(m, "post_processor"@),
        MAX_DEPTH as nat,
    )
    &&& part(m, "decoder"@) is Null || decoder_is_sound(part(m, "decoder"@), MAX_DEPTH as nat)
    &&& added is Null || added is List
    &&& added_tokens_are_sound(entries_of(added), normalizer)
    &&& model is Object
    &&& merges_are_sound(members_of(model))
    &&& vocabulary_is_sound(part(members_of(model), "vocab"@), entries_of(added).len())
}

/// What a part that may be missing holds.
pub open spec fn held(f: Option<&JsonField>) -> Json {
    match f {
        Some(f) => f@,
        None => Json::Null,
    }
}

fn is_absent(f: Option<&JsonField>) -> (r: bool)
    ensures
        r == (held(f) is Null),
{
    match f {
        None => true,
        Some(JsonField::Null) => true,
        Some(_) => false,
    }
}

fn object_of(f: Option<&JsonField>) -> (r: Option<&JsonObject>)
    ensures
        match r {
            Some(o) => held(f) == Json::Object(o@),
            None => !(held(f) is Object),
        },
{
    match f {
        Some(f) => f.object(),
        None => None,
    }
}

fn entries(f: Option<&JsonField>) -> (r: Option<&Vec<JsonField>>)
    ensures
        match r {
            Some(l) => held(f) == Json::List(values(l@)),
            None => !(held(f) is List),
        },
{
    match f {
        Some(f) => f.entries(),
        None => None,
    }
}

fn text_within<'a>(f: Option<&'a JsonField>, key: &str) -> (r: Option<&'a str>)
    ensures
        match r {
            Some(s) => text_of(members_of(held(f)), key@) == Some(s@),
            None => text_of(members_of(held(f)), key@) is None,
        },
{
    match object_of(f) {
        Some(o) => o.text(key),
        None => None,
    }
}

fn uint_within(f: Option<&JsonField>, key: &str) -> (r: Option<u64>)
    ensures
        r == uint_of(members_of(held(f)), key@),
{
    match object_of(f) {
        Some(o) => o.uint(key),
        None => None,
    }
}

fn check_truncation(f: Option<&JsonField>) -> (r: bool)
    ensures
        r == truncation_is_sound(held(f)),
{
    if is_absent(f) {
        return true;
    }
    match object_of(f) {
        Some(o) => match (o.uint("max_length"), o.uint("stride")) {
            (Some(longest), Some(stride)) => longest == 0 || stride < longest,
            _ => false,
        },
        None => false,
    }
}

fn check_modest(length: Option<u64>) -> (r: bool)
    ensures
        r == is_modest(length),
{
    match length {
        Some(n) => n <= MAX_PADDED,
        None => true,
    }
}

fn check_padding(f: Option<&JsonField>) -> (r: bool)
    ensures
        r == padding_is_sound(held(f)),
{
    if is_absent(f) {
        return true;
    }
    match object_of(f) {
        Some(o) => check_modest(uint_within(o.get("strategy"), "Fixed")) && check_modest(
            o.uint("pad_to_multiple_of"),
        ),
        None => false,
    }
}

fn check_pattern(f: Option<&JsonField>) -> (r: bool)
    ensures
        r == pattern_is_sound(held(f)),
{
    match text_within(f, "Regex") {
        Some(expression) => check_expression(expression),
        None => true,
    }
}

fn check_empty(text: Option<&str>) -> (r: bool)
    ensures
        r == match text {
            Some(s) => s@ == Seq::<char>::empty(),
            None => false,
        },
{
    match text {
        Some(s) => {
            let r: bool = s.unicode_len() == 0;
            proof {
                if r {
                    assert(s@ =~= Seq::<char>::empty());
                }
            }
            r
        },
        None => false,
    }
}

fn check_replacement(m: &JsonObject) -> (r: bool)
    ensures
        r == replacement_is_sound(m@),
{
    let pattern = m.get("pattern");
    let puts_soundly: bool = match text_within(pattern, "Regex") {
        Some(expression) => check_empty(m.text("content")) || check_takes(expression),
        None => true,
    };
    check_pattern(pattern) && puts_soundly && !check_empty(text_within(pattern, "String"))
}

fn check_renaming(kind: &str) -> (r: bool)
    ensures
        r == is_renaming(kind@),
{
    is_same(kind, "NFC") || is_same(kind, "NFD") || is_same(kind, "NFKC") || is_same(kind, "NFKD")
        || is_same(kind, "Lowercase") || is_same(kind, "ByteLevel")
}

fn check_normalizer_kind(kind: &str) -> (r: bool)
    ensures
        r == is_normalizer(kind@),
{
    is_same(kind, "Sequence") || is_same(kind, "Replace") || is_same(kind, "Bert") || is_same(
        kind,
        "BertNormalizer",
    ) || is_same(kind, "Strip") || is_same(kind, "StripAccents") || is_same(kind, "Nmt") || is_same(
        kind,
        "Prepend",
    ) || is_same(kind, "Precompiled") || check_renaming(kind)
}

fn check_charsmap_fits(m: &JsonObject) -> (r: bool)
    ensures
        r == charsmap_fits(m@),
{
    let asked: bool = match m.text("type") {
        Some(kind) => is_same(kind, "Precompiled"),
        None => false,
    };
    if asked {
        match m.text("precompiled_charsmap") {
            Some(table) => check_charsmap(table),
            None => false,
        }
    } else {
        m.get("precompiled_charsmap").is_none()
    }
}

fn check_normalizer(f: &JsonField, depth: u32) -> (r: bool)
    ensures
        r == normalizer_is_sound(f@, depth as nat),
    decreases depth,
{
    let m = match f.object() {
        Some(m) => m,
        None => return false,
    };
    let known: bool = match m.text("type") {
        Some(kind) => check_normalizer_kind(kind),
        None => false,
    };
    if depth == 0 || !known || !check_charsmap_fits(m) || check_empty(m.text("prepend"))
        || !check_replacement(m) {
        return false;
    }
    if let Some(l) = m.list("normalizers") {
        for i in 0..l.len()
            invariant
                depth > 0,
                normalizer_is_sound(f@, depth as nat) == normalizers_are_sound(
                    values(l@),
                    (depth - 1) as nat,
                ),
                forall|j: int|
                    0 <= j < i ==> normalizer_is_sound(#[trigger] values(l@)[j], (depth - 1) as nat),
        {
            if !check_normalizer(&l[i], depth - 1) {
                assert(!normalizer_is_sound(values(l@)[i as int], (depth - 1) as nat));
                return false;
            }
        }
    }
    true
}

fn check_keeps_text(f: Option<&JsonField>, depth: u32) -> (r: bool)
    ensures
        r == keeps_text(held(f), depth as nat),
    decreases depth,
{
    if is_absent(f) {
        return true;
    }
    let m = match object_of(f) {
        Some(m) => m,
        None => return false,
    };
    let kind = match m.text("type") {
        Some(kind) => kind,
        None => return false,
    };
    if is_same(kind, "Replace") {
        return match m.text("content") {
            Some(s) => s.unicode_len() > 0,
            None => false,
        };
    }
    if !is_same(kind, "Sequence") {
        return check_renaming(kind) || is_same(kind, "Prepend");
    }
    let l = match m.list("normalizers") {
        Some(l) => l,
        None => return false,
    };
    if depth == 0 {
        return false;
    }
    for i in 0..l.len()
        invariant
            depth > 0,
            keeps_text(held(f), depth as nat) == all_keep_text(
                values(l@),
                (depth - 1) as nat,
            ),
            forall|j: int|
                0 <= j < i ==> keeps_text(#[trigger] values(l@)[j], (depth - 1) as nat),
    {
        if !check_keeps_text(Some(&l[i]), depth - 1) {
            assert(!keeps_text(values(l@)[i as int], (depth - 1) as nat));
            return false;
        }
    }
    true
}

fn check_pre_tokenizer_kind(kind: &str) -> (r: bool)
    ensures
        r == is_pre_tokenizer(kind@),
{
    is_same(kind, "Sequence") || is_same(kind, "Split") || is_same(kind, "ByteLevel") || is_same(
        kind,
        "Metaspace",
    ) || is_same(kind, "Whitespace") || is_same(kind, "WhitespaceSplit") || is_same(
        kind,
        "BertPreTokenizer",
    ) || is_same(kind, "CharDelimiterSplit") || is_same(kind, "Punctuation") || is_same(
        kind,
        "Digits",
    ) || is_same(kind, "UnicodeScripts") || is_same(kind, "FixedLength")
}

fn check_pre_tokenizer(f: &JsonField, depth: u32) -> (r: bool)
    ensures
        r == pre_tokenizer_is_sound(f@, depth as nat),
    decreases depth,
{
    let m = match f.object() {
        Some(m) => m,
        None => return false,
    };
    let known: bool = match m.text("type") {
        Some(kind) => check_pre_tokenizer_kind(kind),
        None => false,
    };
    let cuts_nothing: bool = match m.uint("length") {
        Some(n) => n == 0,
        None => false,
    };
    if depth == 0 || !known || cuts_nothing || !check_pattern(m.get("pattern")) {
        return false;
    }
    if let Some(l) = m.list("pretokenizers") {
        for i in 0..l.len()
            invariant
                depth > 0,
                pre_tokenizer_is_sound(f@, depth as nat) == pre_tokenizers_are_sound(
                    values(l@),
                    (depth - 1) as nat,
                ),
                forall|j: int|
                    0 <= j < i ==> pre_tokenizer_is_sound(#[trigger] values(l@)[j], (depth - 1) as nat),
        {
            if !check_pre_tokenizer(&l[i], depth - 1) {
                assert(!pre_tokenizer_is_sound(values(l@)[i as int], (depth - 1) as nat));
                return false;
            }
        }
    }
    true
}

fn check_decoder_kind(kind: &str) -> (r: bool)
    ensures
        r == is_decoder(kind@),
{
    is_same(kind, "Sequence") || is_same(kind, "ByteLevel") || is_same(kind, "ByteFallback")
        || is_same(kind, "Metaspace") || is_same(kind, "WordPiece") || is_same(kind, "Replace")
        || is_same(kind, "Fuse") || is_same(kind, "Strip") || is_same(kind, "CTC")
}

fn check_decoder(f: &JsonField, depth: u32) -> (r: bool)
    ensures
        r == decoder_is_sound(f@, depth as nat),
    decreases depth,
{
    let m = match f.object() {
        Some(m) => m,
        None => return false,
    };
    let known: bool = match m.text("type") {
        Some(kind) => check_decoder_kind(kind),
        None => false,
    };
    let cuts_the_end: bool = match m.uint("stop") {
        Some(n) => n > 0,
        None => false,
    };
    if depth == 0 || !known || cuts_the_end || !check_pattern(m.get("pattern")) {
        return false;
    }
    if let Some(l) = m.list("decoders") {
        for i in 0..l.len()
            invariant
                depth > 0,
                decoder_is_sound(f@, depth as nat) == decoders_are_sound(
                    values(l@),
                    (depth - 1) as nat,
                ),
                forall|j: int|
                    0 <= j < i ==> decoder_is_sound(#[trigger] values(l@)[j], (depth - 1) as nat),
        {
            if !check_decoder(&l[i], depth - 1) {
                assert(!decoder_is_sound(values(l@)[i as int], (depth - 1) as nat));
                return false;
            }
        }
    }
    true
}

fn check_takes_text(piece: &JsonField) -> (r: bool)
    ensures
        r == takes_text(piece@),
{
    match piece.object() {
        Some(m) => m.get("SpecialToken").is_none(),
        None => true,
    }
}

fn check_piece(piece: &JsonField) -> (r: bool)
    ensures
        r == piece_is_sound(piece@),
{
    if !check_takes_text(piece) {
        return true;
    }
    match piece.object() {
        Some(m) => match text_within(m.get("Sequence"), "id") {
            Some(id) => is_same(id, "A"),
            None => false,
        },
        None => false,
    }
}

fn check_template(pieces: &Vec<JsonField>) -> (r: bool)
    ensures
        r == template_is_sound(values(pieces@)),
{
    let ghost all = values(pieces@);
    let mut taken: usize = 0;
    for i in 0..pieces.len()
        invariant
            all == values(pieces@),
            taken <= i,
            taken == texts_taken(all.take(i as int)),
            forall|j: int| 0 <= j < i ==> piece_is_sound(#[trigger] all[j]),
    {
        assert(all.take(i + 1).drop_last() =~= all.take(i as int));
        assert(all.take(i + 1).last() == pieces@[i as int]@);
        if !check_piece(&pieces[i]) {
            assert(!piece_is_sound(all[i as int]));
            return false;
        }
        if check_takes_text(&pieces[i]) {
            taken = taken + 1;
        }
    }
    assert(all.take(pieces@.len() as int) =~= all);
    taken == 1
}

fn check_processor(f: &JsonField, depth: u32) -> (r: bool)
    ensures
        r == processor_is_sound(f@, depth as nat),
    decreases depth,
{
    let m = match f.object() {
        Some(m) => m,
        None => return false,
    };
    let fits: bool = match m.list("single") {
        Some(pieces) => check_template(pieces),
        None => true,
    };
    if depth == 0 || !fits {
        return false;
    }
    if let Some(l) = m.list("processors") {
        for i in 0..l.len()
            invariant
                depth > 0,
                processor_is_sound(f@, depth as nat) == processors_are_sound(
                    values(l@),
                    (depth - 1) as nat,
                ),
                forall|j: int|
                    0 <= j < i ==> processor_is_sound(#[trigger] values(l@)[j], (depth - 1) as nat),
        {
            if !check_processor(&l[i], depth - 1) {
                assert(!processor_is_sound(values(l@)[i as int], (depth - 1) as nat));
                return false;
            }
        }
    }
    true
}

fn check_some_token(tokens: &Vec<JsonField>, property: &str) -> (r: bool)
    ensures
        r == some_token(values(tokens@), property@),
{
    for i in 0..tokens.len()
        invariant
            forall|j: int|
                0 <= j < i ==> flag_of(members_of(#[trigger] values(tokens@)[j]), property@)
                    != Some(true),
    {
        let marked: bool = match tokens[i].object() {
            Some(m) => match m.flag(property) {
                Some(b) => b,
                None => false,
            },
            None => false,
        };
        assert(values(tokens@)[i as int] == tokens@[i as int]@);
        if marked {
            return true;
        }
    }
    false
}

fn check_plain(text: &str) -> (r: bool)
    ensures
        r == has_plain(text@),
{
    let chars: Vec<char> = chars_of(text);
    for i in 0..chars.len()
        invariant
            chars@ == text@,
            forall|j: int| 0 <= j < i ==> !is_plain(#[trigger] text@[j]),
    {
        let code: u32 = chars[i] as u32;
        if 0x30 <= code && code <= 0x39 || 0x41 <= code && code <= 0x5A || 0x61 <= code && code
            <= 0x7A {
            assert(is_plain(text@[i as int]));
            return true;
        }
    }
    false
}

fn check_replaces_nothing(f: Option<&JsonField>, depth: u32) -> (r: bool)
    ensures
        r == replaces_nothing(held(f), depth as nat),
    decreases depth,
{
    if is_absent(f) {
        return true;
    }
    let m = match object_of(f) {
        Some(m) => m,
        None => return false,
    };
    if depth == 0 || !is_absent(m.get("pattern")) || !is_absent(m.get("precompiled_charsmap")) {
        return false;
    }
    if let Some(l) = m.list("normalizers") {
        for i in 0..l.len()
            invariant
                depth > 0,
                replaces_nothing(held(f), depth as nat) == all_replace_nothing(
                    values(l@),
                    (depth - 1) as nat,
                ),
                forall|j: int|
                    0 <= j < i ==> replaces_nothing(#[trigger] values(l@)[j], (depth - 1) as nat),
        {
            if !check_replaces_nothing(Some(&l[i]), depth - 1) {
                assert(!replaces_nothing(values(l@)[i as int], (depth - 1) as nat));
                return false;
            }
        }
    }
    true
}

fn check_flag(token: &JsonObject, property: &str) -> (r: bool)
    ensures
        r == (flag_of(token@, property@) == Some(true)),
{
    match token.flag(property) {
        Some(b) => b,
        None => false,
    }
}

fn check_visible(token: &JsonObject, normalizer: Option<&JsonField>) -> (r: bool)
    ensures
        r == stays_visible(token@, held(normalizer)),
{
    match token.text("content") {
        Some(content) => check_plain(content) && (!check_flag(token, "normalized")
            || check_replaces_nothing(normalizer, MAX_DEPTH)),
        None => false,
    }
}

fn check_survives(token: &JsonObject, normalizer: Option<&JsonField>) -> (r: bool)
    ensures
        r == survives(token@, held(normalizer)),
{
    !check_flag(token, "normalized") || check_keeps_text(normalizer, MAX_DEPTH) || check_visible(
        token,
        normalizer,
    )
}

fn check_added_tokens(tokens: &Vec<JsonField>, normalizer: Option<&JsonField>) -> (r: bool)
    ensures
        r == added_tokens_are_sound(values(tokens@), held(normalizer)),
{
    let taken: bool = check_some_token(tokens, "rstrip");
    for i in 0..tokens.len()
        invariant
            taken == some_token(values(tokens@), "rstrip"@),
            forall|j: int|
                0 <= j < i ==> (#[trigger] values(tokens@)[j]) is Object && survives(
                    members_of(values(tokens@)[j]),
                    held(normalizer),
                ),
            forall|j: int|
                0 <= j < i && taken && flag_of(
                    members_of(#[trigger] values(tokens@)[j]),
                    "lstrip"@,
                ) == Some(true) ==> stays_visible(
                    members_of(values(tokens@)[j]),
                    held(normalizer),
                ),
    {
        let ghost token = values(tokens@)[i as int];
        assert(token == tokens@[i as int]@);
        let m = match tokens[i].object() {
            Some(m) => m,
            None => return false,
        };
        assert(members_of(token) == m@);
        if !check_survives(m, normalizer) {
            return false;
        }
        if taken && check_flag(m, "lstrip") && !check_visible(m, normalizer) {
            return false;
        }
    }
    true
}

fn second_part(text: &str) -> (r: usize)
    ensures
        r <= text@.len(),
        text@.skip(r as int) == after_blank(text@),
{
    let chars: Vec<char> = chars_of(text);
    assert(text@.skip(0) =~= text@);
    for i in 0..chars.len()
        invariant
            chars@ == text@,
            after_blank(text@.skip(i as int)) == after_blank(text@),
    {
        assert(text@.skip(i as int).drop_first() =~= text@.skip(i + 1));
        if chars[i] == ' ' {
            return i + 1;
        }
    }
    chars.len()
}

fn check_merge(merge: &JsonField, prefix: &str) -> (r: bool)
    ensures
        r == merge_is_sound(merge@, prefix@),
{
    match merge {
        JsonField::Text(s) => has_at(s.as_str(), second_part(s.as_str()), prefix),
        JsonField::List(parts) => {
            assert(merge@->List_0 =~= values(parts@));
            if parts.len() != 2 {
                return false;
            }
            match &parts[1] {
                JsonField::Text(second) => {
                    assert(second@.skip(0) =~= second@);
                    has_at(second.as_str(), 0, prefix)
                },
                _ => false,
            }
        },
        _ => false,
    }
}

fn check_merges(model: &JsonObject) -> (r: bool)
    ensures
        r == merges_are_sound(model@),
{
    let prefix = match model.text("continuing_subword_prefix") {
        Some(prefix) => prefix,
        None => return true,
    };
    let merges = match model.list("merges") {
        Some(merges) => merges,
        None => return true,
    };
    if prefix.unicode_len() == 0 {
        return true;
    }
    for i in 0..merges.len()
        invariant
            merges_are_sound(model@) == all_merges_are_sound(values(merges@), prefix@),
            forall|j: int|
                0 <= j < i ==> merge_is_sound(#[trigger] values(merges@)[j], prefix@),
    {
        if !check_merge(&merges[i], prefix) {
            assert(!merge_is_sound(values(merges@)[i as int], prefix@));
            return false;
        }
    }
    true
}

fn check_short(entry: &JsonField) -> (r: bool)
    ensures
        r == piece_is_short(entry@),
{
    match entry.entries() {
        Some(parts) => {
            if parts.len() == 0 {
                return true;
            }
            match &parts[0] {
                JsonField::Text(s) => s.as_str().unicode_len() <= MAX_PIECE,
                _ => true,
            }
        },
        None => true,
    }
}

fn check_pieces(l: &Vec<JsonField>) -> (r: bool)
    ensures
        r == forall|i: int| 0 <= i < l@.len() ==> piece_is_short(#[trigger] values(l@)[i]),
{
    for i in 0..l.len()
        invariant
            forall|j: int| 0 <= j < i ==> piece_is_short(#[trigger] values(l@)[j]),
    {
        if !check_short(&l[i]) {
            assert(!piece_is_short(values(l@)[i as int]));
            return false;
        }
    }
    true
}

#[verifier::loop_isolation(false)]
fn check_vocabulary(f: Option<&JsonField>, more: usize) -> (r: bool)
    ensures
        r == vocabulary_is_sound(held(f), more as nat),
{
    if more as u64 > MAX_ID {
        return object_of(f).is_none() && entries(f).is_none();
    }
    let last: u64 = MAX_ID - more as u64;
    if let Some(l) = entries(f) {
        return l.len() as u64 <= last && check_pieces(l);
    }
    let m = match object_of(f) {
        Some(m) => m,
        None => return true,
    };
    if m.members.len() as u64 > last {
        return false;
    }
    for i in 0..m.members.len()
        invariant
            last + more == MAX_ID,
            forall|j: int|
                0 <= j < i ==> match (#[trigger] m@[j]).1 {
                    Json::Number(Some(id)) => id + more <= MAX_ID,
                    _ => true,
                },
    {
        assert(m@[i as int].1 == m.members@[i as int].1@);
        if let JsonField::Number(Some(id)) = &m.members[i].1 {
            if *id > last {
                return false;
            }
        }
    }
    true
}

/// Whether the tokenizer that the document describes is built, and takes every
/// text and every list of tokens, without stopping the process.
pub fn check_document(doc: &JsonField) -> (r: bool)
    ensures
        r == is_sound(doc@),
{
    let m = match doc.object() {
        Some(m) => m,
        None => return false,
    };
    let normalizer = m.get("normalizer");
    let pre_tokenizer = m.get("pre_tokenizer");
    let processor = m.get("post_processor");
    let decoder = m.get("decoder");
    let added = m.get("added_tokens");
    if !check_truncation(m.get("truncation")) || !check_padding(m.get("padding")) {
        return false;
    }
    let parts: bool = match normalizer {
        Some(f) => is_absent(normalizer) || check_normalizer(f, MAX_DEPTH),
        None => true,
    } && match pre_tokenizer {
        Some(f) => is_absent(pre_tokenizer) || check_pre_tokenizer(f, MAX_DEPTH),
        None => true,
    } && match processor {
        Some(f) => is_absent(processor) || check_processor(f, MAX_DEPTH),
        None => true,
    } && match decoder {
        Some(f) => is_absent(decoder) || check_decoder(f, MAX_DEPTH),
        None => true,
    };
    if !parts {
        return false;
    }
    let model = m.get("model");
    let geometry = match object_of(model) {
        Some(g) => g,
        None => return false,
    };
    let more: usize = match entries(added) {
        Some(tokens) => {
            if !check_added_tokens(tokens, normalizer) {
                return false;
            }
            tokens.len()
        },
        None => {
            if !is_absent(added) {
                return false;
            }
            0
        },
    };
    check_merges(geometry) && check_vocabulary(geometry.get("vocab"), more)
}

/// A plain tokenizer is accepted: a document that has a model, whose vocabulary
/// leaves ids free, and nothing that is done to a text before or after it.
pub proof fn law_a_plain_tokenizer_is_accepted(doc: Members, model: Members, vocabulary: Members)
    requires
        member(doc, "model"@) == Some(Json::Object(model)),
        member(model, "vocab"@) == Some(Json::Object(vocabulary)),
        member(model, "merges"@) is None,
        vocabulary.len() <= MAX_ID,
        forall|i: int|
            0 <= i < vocabulary.len() ==> match (#[trigger] vocabulary[i]).1 {
                Json::Number(Some(id)) => id <= MAX_ID,
                _ => true,
            },
        member(doc, "truncation"@) is None,
        member(doc, "padding"@) is None,
        member(doc, "normalizer"@) is None,
        member(doc, "pre_tokenizer"@) is None,
        member(doc, "post_processor"@) is None,
        member(doc, "decoder"@) is None,
        member(doc, "added_tokens"@) is None,
    ensures
        is_sound(Json::Object(doc)),
{
    assert(part(members_of(Json::Object(doc)), "model"@) == Json::Object(model));
    assert(!some_token(Seq::empty(), "rstrip"@));
}

/// A document is refused that is no object or has no model; whose window does not
/// move on; that pads beyond reason; or that has a part of a kind that is not known.
pub proof fn law_what_could_fail_is_refused(doc: Members, m: Members)
    ensures
        member(doc, "model"@) is None ==> !is_sound(Json::Object(doc)),
        member(doc, "truncation"@) == Some(Json::Object(m)) && uint_of(m, "max_length"@) is Some
            && uint_of(m, "stride"@) is Some && 0 < uint_of(m, "max_length"@)->0 && uint_of(
            m,
            "stride"@,
        )->0 >= uint_of(m, "max_length"@)->0 ==> !is_sound(Json::Object(doc)),
        member(doc, "padding"@) == Some(Json::Object(m)) && uint_of(
            m,
            "pad_to_multiple_of"@,
        ) is Some && uint_of(m, "pad_to_multiple_of"@)->0 > MAX_PADDED ==> !is_sound(
            Json::Object(doc),
        ),
        member(doc, "normalizer"@) == Some(Json::Object(m)) && text_of(m, "type"@) is None
            ==> !is_sound(Json::Object(doc)),
        member(doc, "pre_tokenizer"@) == Some(Json::Object(m)) && uint_of(m, "length"@) == Some(
            0u64,
        ) ==> !is_sound(Json::Object(doc)),
        member(doc, "decoder"@) == Some(Json::Object(m)) && uint_of(m, "stop"@) is Some && uint_of(
            m,
            "stop"@,
        )->0 > 0 ==> !is_sound(Json::Object(doc)),
        member(doc, "decoder"@) == Some(Json::Object(m)) && text_of(m, "type"@) == Some(
            "BPEDecoder"@,
        ) ==> !is_sound(Json::Object(doc)),
{
    reveal_strlit("BPEDecoder");
    reveal_strlit("Sequence");
    reveal_strlit("ByteLevel");
    reveal_strlit("ByteFallback");
    reveal_strlit("Metaspace");
    reveal_strlit("WordPiece");
    reveal_strlit("Replace");
    reveal_strlit("Fuse");
    reveal_strlit("Strip");
    reveal_strlit("CTC");
    assert(members_of(Json::Object(doc)) == doc);
    assert("BPEDecoder"@.len() == 10);
    assert(!is_decoder("BPEDecoder"@));
}

/// What follows the first blank of a text, which has one, is the rest of it.
pub proof fn law_a_merge_is_split_at_its_blank(first: Seq<char>, second: Seq<char>)
    requires
        forall|i: int| 0 <= i < first.len() ==> #[trigger] first[i] != ' ',
    ensures
        after_blank(first + seq![' '] + second) == second,
    decreases first.len(),
{
    let all = first + seq![' '] + second;
    if first.len() == 0 {
        assert(all.drop_first() =~= second);
    } else {
        assert(all[0] == first[0]);
        assert(all.drop_first() =~= first.drop_first() + seq![' '] + second);
        assert forall|i: int| 0 <= i < first.drop_first().len() implies #[trigger] first.drop_first()[i]
            != ' ' by {
            assert(first.drop_first()[i] == first[i + 1]);
        }
        law_a_merge_is_split_at_its_blank(first.drop_first(), second);
    }
}

} // verus!

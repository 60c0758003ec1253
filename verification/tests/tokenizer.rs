//! Text to tokens and back, at once and piece by piece.

use stride::backend::charsmap::check_charsmap;
use stride::backend::expression::{check_expression, check_takes};
use stride::backend::{ByteTokenizer, HfTokenizer, IncrementalDecoder, Tokenizer};
use stride::TokenId;

#[test]
fn ascii_round_trips_exactly() {
    let t = ByteTokenizer;
    let text = "the quick brown fox";
    assert_eq!(t.decode(&t.encode(text)), text);
}

#[test]
fn multibyte_text_round_trips_exactly() {
    let t = ByteTokenizer;
    for text in ["café", "日本語", "🙂 emoji", "ሰላም"] {
        assert_eq!(t.decode(&t.encode(text)), text, "failed on {text}");
    }
}

#[test]
fn streaming_reassembles_split_characters() {
    let t = ByteTokenizer;
    let text = "café ሰላም 🙂";
    let mut d = IncrementalDecoder::new();
    let mut out = String::new();
    for token in t.encode(text) {
        out.push_str(&d.push(&t, token));
    }
    out.push_str(&d.finish());
    assert_eq!(out, text, "streamed output must match the whole string");
}

#[test]
fn streaming_emits_nothing_for_an_incomplete_character() {
    let t = ByteTokenizer;
    let bytes = t.encode("é"); // two bytes
    let mut d = IncrementalDecoder::new();
    assert_eq!(d.push(&t, bytes[0]), "", "half a character is not text yet");
    assert_eq!(d.push(&t, bytes[1]), "é");
}

#[test]
fn special_tokens_are_never_emitted_as_text() {
    let t = ByteTokenizer;
    let mut d = IncrementalDecoder::new();
    assert_eq!(d.push(&t, ByteTokenizer::EOS), "");
    assert!(t.is_special(ByteTokenizer::EOS));
    assert!(!t.is_special(b'a' as TokenId));
}

#[test]
fn the_byte_vocabulary_has_its_two_special_tokens() {
    let t = ByteTokenizer;
    assert_eq!(t.vocab_size(), 258);
    assert_eq!(t.eos(), 256);
    assert_eq!(ByteTokenizer::BOS, 257);
    assert_eq!(ByteTokenizer::VOCAB, 258);
    assert!(t.is_special(257));
    assert_eq!(t.encode("Az"), vec![65, 122]);
    // Special tokens are left out of decoded text.
    assert_eq!(t.decode(&[65, 256, 122, 257]), "Az");
}

#[test]
fn bytes_that_are_no_text_are_replaced() {
    let t = ByteTokenizer;
    assert_eq!(t.decode(&[0xff, 0x41]), "\u{fffd}A");
    // What a stream ends on without completing a character is flushed.
    let mut d = IncrementalDecoder::new();
    assert_eq!(d.push(&t, 0xe2), "");
    assert_eq!(d.push(&t, 0x82), "");
    assert_eq!(d.finish(), "\u{fffd}");
    assert_eq!(d.finish(), "", "a flush leaves nothing behind");
}

#[test]
fn a_byte_that_starts_no_character_is_given_up_at_once() {
    let t = ByteTokenizer;
    let mut d = IncrementalDecoder::new();
    assert_eq!(d.push(&t, 0xff), "\u{fffd}");
    assert_eq!(d.push(&t, 0x61), "a");
    assert_eq!(d.finish(), "");
}

#[test]
fn a_character_after_a_malformed_byte_stays_whole() {
    let t = ByteTokenizer;
    let mut d = IncrementalDecoder::new();
    let pieces: Vec<String> =
        [0xff, 0x61, 0x62, 0xc3, 0xa9].iter().map(|&b| d.push(&t, b)).collect();
    assert_eq!(pieces, vec!["\u{fffd}", "a", "b", "", "é"]);
    assert_eq!(d.finish(), "");
}

#[test]
fn only_an_open_character_is_held_back() {
    let t = ByteTokenizer;
    let mut d = IncrementalDecoder::new();
    assert_eq!(d.push(&t, 0xe2), "", "three bytes are announced");
    // The next byte starts another character: the first can never be completed.
    assert_eq!(d.push(&t, 0xc3), "\u{fffd}");
    assert_eq!(d.push(&t, 0xa9), "é");
    // Of a character of four bytes, three are held back.
    let smile = t.encode("🙂");
    assert_eq!(d.push(&t, smile[0]), "");
    assert_eq!(d.push(&t, smile[1]), "");
    assert_eq!(d.push(&t, smile[2]), "");
    assert_eq!(d.push(&t, smile[3]), "🙂");
    // A replacement character that was meant is a character like any other.
    let meant = t.encode("\u{fffd}");
    assert_eq!(d.push(&t, meant[0]), "");
    assert_eq!(d.push(&t, meant[1]), "");
    assert_eq!(d.push(&t, meant[2]), "\u{fffd}");
    assert_eq!(t.unfinished_tokens(&[0x61, 0xe2, 0x82]), 2);
    assert_eq!(t.unfinished_tokens(&[0x61, 0x82]), 0);
    assert_eq!(t.unfinished_tokens(&[]), 0);
}

const CHECKPOINT: &str = r#"{
    "version": "1.0",
    "truncation": null,
    "padding": null,
    "added_tokens": [
        {"id": 4, "content": "</s>", "single_word": false, "lstrip": false,
         "rstrip": false, "normalized": false, "special": true},
        {"id": 5, "content": "note", "single_word": false, "lstrip": false,
         "rstrip": false, "normalized": false, "special": false}
    ],
    "normalizer": null,
    "pre_tokenizer": {"type": "Whitespace"},
    "post_processor": null,
    "decoder": null,
    "model": {
        "type": "WordLevel",
        "vocab": {"[UNK]": 0, "hello": 1, "world": 2, "stride": 3},
        "unk_token": "[UNK]"
    }
}"#;

#[test]
fn a_checkpoint_tokenizer_reads_its_vocabulary() {
    let t = HfTokenizer::from_bytes(CHECKPOINT.as_bytes(), "tokenizer.json").unwrap();
    assert_eq!(t.vocab_size(), 6);
    assert_eq!(t.eos(), 4, "the conventional end marker is found by its name");
    assert_eq!(t.encode("hello stride world"), vec![1, 3, 2]);
    assert_eq!(t.encode("unheard"), vec![0]);
    assert_eq!(t.decode(&[1, 2]), "hello world");
    assert_eq!(t.decode(&[1, 4]), "hello", "special tokens are no text");
    assert!(t.is_special(4));
    assert!(!t.is_special(5), "an added token need not be special");
    assert!(!t.is_special(1));
    let t = t.with_eos(2);
    assert_eq!(t.eos(), 2);
    assert!(t.is_special(2));
    assert!(t.is_special(4), "what was special stays so");
}

#[test]
fn what_is_no_tokenizer_is_an_error() {
    let err = HfTokenizer::from_bytes(b"{", "tokenizer.json").err().unwrap();
    assert!(err.starts_with("cannot load tokenizer.json: "), "{err}");
}

#[test]
fn a_checkpoint_without_an_end_marker_is_refused() {
    let text = CHECKPOINT.replace("</s>", "mark");
    assert_eq!(
        HfTokenizer::from_bytes(text.as_bytes(), "tokenizer.json").err(),
        Some(
            "tokenizer.json declares no recognisable end-of-sequence token; \
             generation would never stop on its own"
                .to_string()
        )
    );
}

#[test]
fn the_first_conventional_end_marker_wins() {
    let text = CHECKPOINT.replace("\"note\"", "\"<|eot_id|>\"");
    let t = HfTokenizer::from_bytes(text.as_bytes(), "tokenizer.json").unwrap();
    assert_eq!(t.eos(), 5);
    assert!(t.is_special(5), "the end marker is never text");
}

fn vocabulary(words: &str, decoder: &str) -> HfTokenizer {
    let text = CHECKPOINT
        .replace("\"hello\": 1, \"world\": 2, \"stride\": 3", words)
        .replace("\"decoder\": null", &format!("\"decoder\": {decoder}"));
    HfTokenizer::from_bytes(text.as_bytes(), "tokenizer.json").unwrap()
}

#[test]
fn a_checkpoint_streams_its_own_text() {
    // Byte-level tokens: a character may span two of them.
    let t = vocabulary(
        "\"\u{c3}\": 1, \"\u{a9}\": 2, \"\u{120}stride\": 3",
        r#"{"type": "ByteLevel", "add_prefix_space": false, "trim_offsets": true}"#,
    );
    let mut d = IncrementalDecoder::new();
    assert_eq!(d.push(&t, 3), " stride");
    assert_eq!(d.push(&t, 1), "", "half a character is not text yet");
    assert_eq!(d.push(&t, 4), "", "a special token is no text");
    assert_eq!(d.push(&t, 2), "é");
    assert_eq!(d.push(&t, 1), "");
    assert_eq!(d.finish(), "\u{fffd}");
    assert_eq!(t.unfinished_tokens(&[3, 1]), 2);
    assert_eq!(t.unfinished_tokens(&[1, 2]), 0);
}

#[test]
fn words_keep_the_blanks_between_them() {
    let t = vocabulary(
        "\"\u{2581}the\": 1, \"\u{2581}cat\": 2, \"s\": 3",
        r#"{"type": "Metaspace", "replacement": "\u{2581}", "prepend_scheme": "always"}"#
            .replace("\\u{2581}", "\u{2581}")
            .as_str(),
    );
    assert_eq!(t.decode(&[1, 2, 3]), "the cats");
    let mut d = IncrementalDecoder::new();
    let pieces: Vec<String> = [1, 2, 3].iter().map(|&id| d.push(&t, id)).collect();
    assert_eq!(pieces, vec!["the", " cat", "s"]);
}

#[test]
fn bytes_of_last_resort_are_put_together() {
    let t = vocabulary(
        r#""<0xE2>": 1, "<0x82>": 2, "<0xAC>": 3"#,
        r#"{"type": "Sequence", "decoders": [
            {"type": "Replace", "pattern": {"String": "_"}, "content": " "},
            {"type": "ByteFallback"}, {"type": "Fuse"},
            {"type": "Strip", "content": " ", "start": 1, "stop": 0}]}"#,
    );
    let mut d = IncrementalDecoder::new();
    let pieces: Vec<String> = [1, 2, 3, 1, 2, 3].iter().map(|&id| d.push(&t, id)).collect();
    assert_eq!(pieces, vec!["", "", "€", "", "", "€"]);
}

fn outcome(from: &str, to: &str) -> Result<HfTokenizer, String> {
    let text = CHECKPOINT.replace(from, to);
    assert_ne!(text, CHECKPOINT, "nothing was replaced");
    HfTokenizer::from_bytes(text.as_bytes(), "tokenizer.json")
}

fn assert_refused(from: &str, to: &str) {
    assert_eq!(
        outcome(from, to).err().as_deref(),
        Some("cannot load tokenizer.json: its settings can fail on some text or some tokens"),
        "{to}"
    );
}

fn assert_accepted(from: &str, to: &str) {
    let t = match outcome(from, to) {
        Ok(t) => t,
        Err(why) => panic!("{to}: {why}"),
    };
    assert_eq!(t.eos(), 4);
    let long = "hello world stride hello world stride";
    assert!(t.encode(long).len() < 1000);
    assert_eq!(t.decode(&[]), "");
    assert!(!t.decode(&[1, 2, 3, 99]).is_empty());
}

#[test]
fn a_window_that_cannot_move_on_is_refused() {
    let from = "\"truncation\": null";
    let settings = |longest: u64, stride: u64| {
        format!(
            "\"truncation\": {{\"direction\": \"Right\", \"max_length\": {longest}, \
             \"strategy\": \"LongestFirst\", \"stride\": {stride}}}"
        )
    };
    assert_refused(from, &settings(2, 2));
    assert_refused(from, &settings(2, 7));
    assert_refused(from, "\"truncation\": []");
    assert_accepted(from, &settings(2, 1));
    assert_accepted(from, &settings(0, 7));
    let t = outcome(from, &settings(2, 1)).unwrap();
    assert_eq!(t.encode("hello stride world"), vec![1, 3]);
}

#[test]
fn a_length_that_no_list_has_is_refused() {
    let from = "\"padding\": null";
    let settings = |strategy: &str, multiple: &str| {
        format!(
            "\"padding\": {{\"strategy\": {strategy}, \"direction\": \"Right\", \
             \"pad_to_multiple_of\": {multiple}, \"pad_id\": 0, \"pad_type_id\": 0, \
             \"pad_token\": \"[PAD]\"}}"
        )
    };
    assert_refused(from, &settings("{\"Fixed\": 18446744073709551615}", "null"));
    assert_refused(from, &settings("\"BatchLongest\"", "9223372036854775808"));
    assert_refused(from, &settings("{\"Fixed\": 1048577}", "null"));
    assert_accepted(from, &settings("\"BatchLongest\"", "8"));
    let t = outcome(from, &settings("{\"Fixed\": 4}", "null")).unwrap();
    assert_eq!(t.encode("hello"), vec![1, 0, 0, 0]);
}

#[test]
fn a_decoder_that_cuts_past_a_token_is_refused() {
    let from = "\"decoder\": null";
    let strip = r#"{"type": "Strip", "content": " ", "start": 0, "stop": 1}"#;
    assert_refused(from, &format!("\"decoder\": {strip}"));
    assert_refused(
        from,
        &format!("\"decoder\": {{\"type\": \"Sequence\", \"decoders\": [{strip}]}}"),
    );
    assert_refused(from, r#""decoder": {"type": "BPEDecoder", "suffix": "</w>"}"#);
    assert_refused(from, r#""decoder": {"content": " ", "start": 0, "stop": 1}"#);
    assert_accepted(
        from,
        r#""decoder": {"type": "Strip", "content": " ", "start": 3, "stop": 0}"#,
    );
    assert_accepted(from, r###""decoder": {"type": "WordPiece", "prefix": "##", "cleanup": true}"###);
}

#[test]
fn an_expression_that_cannot_be_run_on_every_text_is_refused() {
    let from = r#""pre_tokenizer": {"type": "Whitespace"}"#;
    let split = |expression: &str| {
        format!(
            "\"pre_tokenizer\": {{\"type\": \"Sequence\", \"pretokenizers\": [{{\"type\": \
             \"Split\", \"pattern\": {{\"Regex\": \"{expression}\"}}, \"behavior\": \
             \"Removed\", \"invert\": false}}]}}"
        )
    };
    assert_refused(from, &split(r"(?<=\\Kl)o"));
    assert_refused(from, &split(r"(?:(a|b\\1)x)+"));
    assert_refused(from, &split(r"(?:aa){9223372036854775808}"));
    assert_refused(from, &split(r"(?:(?=a)(?=a)){9999999999999}"));
    assert_accepted(from, &split(r"\\s+"));
    let t = outcome(from, &split(r"\\s+(?!\\S)|\\s{1,3}")).unwrap();
    assert_eq!(t.encode("hello  stride"), vec![1, 3]);
    let replace = r#"{"type": "Replace", "pattern": {"Regex": "(a)\\1"}, "content": ""}"#;
    assert_refused("\"normalizer\": null", &format!("\"normalizer\": {replace}"));
    assert_refused("\"decoder\": null", &format!("\"decoder\": {replace}"));
}

#[test]
fn the_expressions_of_checkpoints_are_accepted() {
    for e in [
        "",
        r"'s|'t|'re|'ve|'m|'ll|'d| ?\p{L}+| ?\p{N}+| ?[^\s\p{L}\p{N}]+|\s+(?!\S)|\s+",
        r"(?i:'s|'t|'re|'ve|'m|'ll|'d)|[^\r\n\p{L}\p{N}]?\p{L}+|\p{N}{1,3}| ?[^\s\p{L}\p{N}]+[\r\n]*|\s*[\r\n]+|\s+(?!\S)|\s+",
        r"[^\r\n\p{L}\p{N}]?[\p{Lu}\p{Lt}\p{Lm}\p{Lo}\p{M}]*[\p{Ll}\p{Lm}\p{Lo}\p{M}]+(?i:'s|'t|'re)?|/[\r\n/]*",
        "[!\"#$%&'()*+,\\-./:;<=>?@\\[\\\\\\]^_`{|}~][A-Za-z]+|[^\\r\\n\\p{L}\\p{P}\\p{S}]?[\\p{L}\\p{M}]+",
        r"'(?i:[sdmt]|ll|ve|re)|[^\r\n\p{L}\p{N}]?+\p{L}++|\p{N}{1,3}+|\s++$|\s*[\r\n]",
        r"(?<=\d)(?=(?:\d{3})+(?!\d))|(?<word>\w+)|(?P<mark>\W)|(?>a+)b|(?s-i:.)|\x{1F600}|\u4e00|\pL",
        r"[一-龥]{2,}|a{,4}|b{3}|{x}",
    ] {
        assert!(check_expression(e), "{e}");
        let quoted = e.replace('\\', "\\\\").replace('"', "\\\"");
        let split = format!(
            "{{\"type\": \"Split\", \"pattern\": {{\"Regex\": \"{quoted}\"}}, \
             \"behavior\": \"Isolated\", \"invert\": false}}"
        );
        let t = outcome(r#"{"type": "Whitespace"}"#, &split).unwrap();
        for text in ["", "hello world", "a{x}bbb", "it's 12345 日本語 \r\n  \t", "🙂é\u{301} aab"] {
            assert!(t.encode(text).len() <= 2 * text.len());
        }
    }
}

#[test]
fn expressions_refer_back_to_nothing_and_repeat_little() {
    for e in [
        r"(a)\1",
        r"(?<n>a)\k<n>",
        r"(?P<n>a)(?P=n)",
        r"(a)?(?(1)b|c)",
        r"a\Kb",
        r"(?x)( ?(1)b)",
        r"((?#c)?(1)b)",
        r"a{1000}",
        r"(?:a{40}){40}",
        r"(?:a{1,2}){501}",
        r"a{1,9999999}",
        r"a{5",
        r"\p\{99}",
        r"\p{",
        "\\",
        r"(?",
        r"(?ix:a)",
    ] {
        assert!(!check_expression(e), "{e}");
    }
    assert!(check_expression(r"a{999}"));
    assert!(check_expression(r"(?:a{20}){50}"));
    assert!(check_expression(r"a{0}b{0,0}"));
    assert!(check_expression(r"\\1\(?(1)\{9999}"), "what is escaped stands for itself");
    assert!(check_expression(&"a".repeat(0x4000)));
    assert!(!check_expression(&"a".repeat(0x4001)));
}

#[test]
fn an_expression_may_be_sure_to_take_something() {
    for e in [" {2,}", r"\s+", "a", "x{3}y*", ".+?", "a{01,2}"] {
        assert!(check_takes(e), "{e}");
    }
    for e in ["", "a*", "a?b", "a{0,3}", "a{,3}", "a{00}", "a|b", "(a)", "^a", r"\b", r"(a)\1"] {
        assert!(!check_takes(e), "{e}");
    }
}

/// A table of replacements with one entry, `H` for the text at `leaf`.
fn table(leaf: u32, texts: &[u8]) -> Vec<u8> {
    let mut units = vec![0u32; 512];
    units[0] = 256 << 10;
    units[256 ^ 0x48] = 0x48 | 1 << 8 | 0x48 << 10;
    units[256] = 1 << 31 | leaf;
    let mut bytes: Vec<u8> = 2048u32.to_le_bytes().to_vec();
    for u in units {
        bytes.extend_from_slice(&u.to_le_bytes());
    }
    bytes.extend_from_slice(texts);
    bytes
}

fn base64(bytes: &[u8]) -> String {
    let letters: Vec<char> =
        ('A'..='Z').chain('a'..='z').chain('0'..='9').chain(['+', '/']).collect();
    let mut out = String::new();
    for three in bytes.chunks(3) {
        let n: u32 = (0..3).fold(0, |n, i| n * 256 + *three.get(i).unwrap_or(&0) as u32);
        for i in 0..4 {
            if i <= three.len() {
                out.push(letters[(n >> (18 - 6 * i) & 63) as usize]);
            } else {
                out.push('=');
            }
        }
    }
    out
}

#[test]
fn a_compiled_table_is_read_before_it_is_used() {
    let from = "\"normalizer\": null";
    let normalizer = |bytes: &[u8]| {
        format!(
            "\"normalizer\": {{\"type\": \"Precompiled\", \"precompiled_charsmap\": \"{}\"}}",
            base64(bytes)
        )
    };
    let good = table(0, b"h\0");
    assert!(check_charsmap(&base64(&good)));
    assert_accepted(from, &normalizer(&good));
    let t = outcome(from, &normalizer(&good)).unwrap();
    assert_eq!(t.encode("Hello world"), vec![1, 2], "one letter stands for the other");
    assert_eq!(t.encode("Ünï\u{301} H"), vec![0, 0], "what has no entry is left alone");
    assert!(check_charsmap(&base64(&table(2, b"h\0"))), "the end of the texts is a text");

    for bad in [
        table(3, b"h\0"),
        table(1, "é\0".as_bytes()),
        table(0, b"\xff\0"),
        good[..2051].to_vec(),
        good[..3].to_vec(),
        vec![0; 4],
        Vec::new(),
    ] {
        assert_refused(from, &normalizer(&bad));
    }
    let mut outside = good.clone();
    outside[6] = 0x08;
    assert_refused(from, &normalizer(&outside));

    assert!(!check_charsmap("A"), "no whole group");
    assert!(!check_charsmap("AAB="), "bits are left over");
    assert!(!check_charsmap("A*AA"));
    assert_refused(from, r#""normalizer": {"type": "Precompiled"}"#);
    let misplaced = normalizer(&good).replace("Precompiled", "Lowercase");
    assert_refused(from, &misplaced);
}

#[test]
fn pieces_of_no_length_are_refused() {
    let from = r#"{"type": "Whitespace"}"#;
    assert_refused(from, r#"{"type": "FixedLength", "length": 0}"#);
    assert_accepted(from, r#"{"type": "FixedLength", "length": 3}"#);
    assert_refused(from, r#"{"type": "Homemade"}"#);
}

#[test]
fn a_normalizer_that_loses_track_of_its_text_is_refused() {
    let from = "\"normalizer\": null";
    assert_refused(from, r#""normalizer": {"type": "Prepend", "prepend": ""}"#);
    assert_refused(
        from,
        r#""normalizer": {"type": "Replace", "pattern": {"String": ""}, "content": "x"}"#,
    );
    assert_refused(
        from,
        r#""normalizer": {"type": "Sequence", "normalizers": [
            {"type": "Replace", "pattern": {"Regex": "x*"}, "content": "y"}, {"type": "NFC"}]}"#,
    );
    assert_refused(
        from,
        r#""normalizer": {"type": "Precompiled", "precompiled_charsmap": "AAAA"}"#,
    );
    assert_accepted(
        from,
        r#""normalizer": {"type": "Sequence", "normalizers": [
            {"type": "NFKC"}, {"type": "Lowercase"}, {"type": "StripAccents"},
            {"type": "Replace", "pattern": {"String": "-"}, "content": " "}]}"#,
    );
    let t = outcome(from, r#""normalizer": {"type": "Lowercase"}"#).unwrap();
    assert_eq!(t.encode("HELLO"), vec![1]);
    let t = outcome(
        from,
        r#""normalizer": {"type": "Sequence", "normalizers": [
            {"type": "Replace", "pattern": {"Regex": "_{2,}"}, "content": " "}, {"type": "NFC"}]}"#,
    )
    .unwrap();
    assert_eq!(t.encode("__hello___world"), vec![1, 2]);
}

#[test]
fn a_template_for_two_texts_is_refused() {
    let from = "\"post_processor\": null";
    let template = |single: &str| {
        format!(
            "\"post_processor\": {{\"type\": \"Sequence\", \"processors\": [{{\"type\": \
             \"TemplateProcessing\", \"single\": [{single}], \"pair\": [], \
             \"special_tokens\": {{}}}}]}}"
        )
    };
    let text = |name: &str| format!("{{\"Sequence\": {{\"id\": \"{name}\", \"type_id\": 0}}}}");
    let start = r#"{"SpecialToken": {"id": "<s>", "type_id": 0}}"#;
    assert_refused(from, &template(&text("B")));
    assert_refused(from, &template(start));
    assert_refused(from, &template(&format!("{}, {}", text("A"), text("A"))));
    assert_accepted(from, &template(&format!("{start}, {}", text("A"))));
}

#[test]
fn added_tokens_that_cannot_be_told_apart_are_refused() {
    let plain = r#""content": "note", "single_word": false, "lstrip": false,
         "rstrip": false, "normalized": false"#;
    let token = |content: &str, normalized: bool| {
        format!(
            "\"content\": \"{content}\", \"single_word\": false, \"lstrip\": true, \
             \"rstrip\": true, \"normalized\": {normalized}"
        )
    };
    assert_refused(plain, &token(" ", false));
    assert_accepted(plain, &token("note", false));
    let t = outcome(plain, &token("note", false)).unwrap();
    assert_eq!(t.encode("hello  note  note  world"), vec![1, 5, 5, 2]);

    let with = |content: &str, normalizer: &str| {
        let text = CHECKPOINT.replace(plain, &token(content, true)).replace(
            "\"normalizer\": null",
            &format!("\"normalizer\": {normalizer}"),
        );
        HfTokenizer::from_bytes(text.as_bytes(), "tokenizer.json").is_ok()
    };
    let accents = r#"{"type": "Sequence", "normalizers": [{"type": "NFD"},
        {"type": "StripAccents"}]}"#;
    assert!(with("note", "null"));
    assert!(with("note", r#"{"type": "Lowercase"}"#));
    assert!(with("note", accents), "letters are kept");
    assert!(!with("\u{301}", accents), "a token may come to nothing");
    assert!(!with(
        "note",
        r#"{"type": "Sequence", "normalizers": [{"type": "Replace",
            "pattern": {"String": "note"}, "content": " "}]}"#
    ));
}

#[test]
fn ids_leave_room_for_added_tokens() {
    assert_refused("\"stride\": 3", "\"stride\": 4294967295");
    assert_refused("\"stride\": 3", "\"stride\": 4294967294");
    let t = outcome("\"stride\": 3", "\"stride\": 4294967293").unwrap();
    assert_eq!(t.encode("stride"), vec![4294967293]);
}

#[test]
fn merges_carry_the_prefix_of_continued_words() {
    let model = |merges: &str| {
        format!(
            "\"model\": {{\"type\": \"BPE\", \"dropout\": null, \"unk_token\": \"[UNK]\", \
             \"continuing_subword_prefix\": \"##\", \"end_of_word_suffix\": null, \
             \"fuse_unk\": false, \"vocab\": {{\"[UNK]\": 0, \"a\": 1, \"b\": 2, \
             \"##b\": 3, \"ab\": 5}}, \"merges\": [{merges}]}}}}"
        )
    };
    let at = CHECKPOINT.find("\"model\"").unwrap();
    let load = |merges: &str| {
        let text = format!("{}{}", &CHECKPOINT[..at], model(merges));
        HfTokenizer::from_bytes(text.as_bytes(), "tokenizer.json")
    };
    let unsound =
        Some("cannot load tokenizer.json: its settings can fail on some text or some tokens");
    assert_eq!(load("\"a b\"").err().as_deref(), unsound);
    assert_eq!(load("[\"a\", \"b\"]").err().as_deref(), unsound);
    assert_eq!(load("\"a ##b\"").unwrap().encode("ab"), vec![5]);
    assert_eq!(load("[\"a\", \"##b\"]").unwrap().encode("ab"), vec![5]);
}

#[test]
fn a_document_is_read_with_all_it_holds() {
    let doc = stride::json::parse_text(
        r#"{"n": 7, "minus": -1, "on": true, "name": "x", "none": null,
            "list": [1, [2], {"deep": 3}], "inner": {"list": [null]}}"#,
    )
    .unwrap();
    assert_eq!(doc.uint("n"), Some(7));
    assert_eq!(doc.uint("minus"), None);
    assert_eq!(doc.flag("on"), Some(true));
    assert_eq!(doc.text("name"), Some("x"));
    assert!(doc.get("none").is_some());
    assert!(doc.get("nothing").is_none());
    let list = doc.list("list").unwrap();
    assert_eq!(list.len(), 3);
    assert_eq!(list[1].entries().unwrap().len(), 1);
    assert_eq!(list[2].object().unwrap().uint("deep"), Some(3));
    let inner = doc.get("inner").unwrap().object().unwrap();
    assert_eq!(inner.list("list").unwrap().len(), 1);
    assert!(stride::json::parse_bytes(b"[1]").unwrap().members.is_empty());
    assert!(stride::json::parse_bytes(b"{").is_err());
}

#[test]
fn pieces_are_no_longer_than_the_stack_is_deep() {
    let at = CHECKPOINT.find("\"model\"").unwrap();
    let load = |piece: &str| {
        let text = format!(
            "{}\"model\": {{\"type\": \"Unigram\", \"unk_id\": 0, \"vocab\": \
             [[\"<unk>\", 0.0], [\"hello\", -1.5], [\"{piece}\", -2.5]]}}}}",
            &CHECKPOINT[..at]
        );
        HfTokenizer::from_bytes(text.as_bytes(), "tokenizer.json")
    };
    let t = load(&"x".repeat(256)).unwrap();
    assert_eq!(t.encode("hello"), vec![1]);
    assert_eq!(t.encode(&"x".repeat(256)), vec![2]);
    assert_eq!(t.eos(), 3, "the first id after those of the model");
    assert!(load(&"x".repeat(257)).is_err());
}

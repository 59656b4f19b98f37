//! Parser unit tests: chunk-boundary safety, UTF-8/C1 disambiguation,
//! abort-and-reprocess on spliced controls, and size caps.

use seqsafe::parser::{tokenize, MalformedReason, Parser, StrKind, Token, CSI_MAX, STR_MAX};

fn one(input: &[u8]) -> Token {
    let toks = tokenize(input);
    assert_eq!(toks.len(), 1, "expected one token, got {toks:?}");
    toks.into_iter().next().unwrap()
}

#[test]
fn sgr_sequence_parses_with_params_and_raw() {
    match one(b"\x1b[1;32m") {
        Token::Csi {
            params,
            final_byte,
            raw,
            ..
        } => {
            assert_eq!(params, b"1;32");
            assert_eq!(final_byte, b'm');
            assert_eq!(raw, b"\x1b[1;32m");
        }
        t => panic!("unexpected {t:?}"),
    }
}

#[test]
fn osc_terminated_by_bel() {
    match one(b"\x1b]0;evil title\x07") {
        Token::Str {
            kind,
            payload,
            len,
            overlong,
            ..
        } => {
            assert_eq!(kind, StrKind::Osc);
            assert_eq!(payload, b"0;evil title");
            assert_eq!(len, b"\x1b]0;evil title\x07".len());
            assert!(!overlong);
        }
        t => panic!("unexpected {t:?}"),
    }
}

#[test]
fn osc_terminated_by_st() {
    match one(b"\x1b]52;c;aGk=\x1b\\") {
        Token::Str {
            kind, payload, raw, ..
        } => {
            assert_eq!(kind, StrKind::Osc);
            assert_eq!(payload, b"52;c;aGk=");
            assert_eq!(raw, b"\x1b]52;c;aGk=\x1b\\");
        }
        t => panic!("unexpected {t:?}"),
    }
}

#[test]
fn dcs_apc_pm_sos_kinds_are_distinguished() {
    for (input, kind) in [
        (&b"\x1bPq#0\x1b\\"[..], StrKind::Dcs),
        (b"\x1b_Ga=T\x1b\\", StrKind::Apc),
        (b"\x1b^hi\x1b\\", StrKind::Pm),
        (b"\x1bXhi\x1b\\", StrKind::Sos),
    ] {
        match one(input) {
            Token::Str { kind: k, .. } => assert_eq!(k, kind),
            t => panic!("unexpected {t:?} for {input:?}"),
        }
    }
}

#[test]
fn plain_esc_sequence_with_charset_intermediate() {
    match one(b"\x1b(0") {
        Token::Esc {
            intermediates,
            final_byte,
            ..
        } => {
            assert_eq!(intermediates, b"(");
            assert_eq!(final_byte, b'0');
        }
        t => panic!("unexpected {t:?}"),
    }
}

#[test]
fn text_runs_and_control_bytes_tokenize_cleanly() {
    assert_eq!(one(b"hello world"), Token::Text(b"hello world".to_vec()));
    let toks = tokenize(b"a\x07b");
    assert_eq!(
        toks,
        vec![
            Token::Text(b"a".to_vec()),
            Token::Control(0x07),
            Token::Text(b"b".to_vec()),
        ]
    );
}

#[test]
fn raw_c1_introducers_open_sequences() {
    // 0x9B after ASCII is a real C1 CSI, the classic naive-filter bypass;
    // 0x9D..0x9C is the 8-bit OSC form.
    match one(b"\x9b31m") {
        Token::Csi {
            params, final_byte, ..
        } => {
            assert_eq!(params, b"31");
            assert_eq!(final_byte, b'm');
        }
        t => panic!("unexpected {t:?}"),
    }
    match one(b"\x9d52;c;x\x9c") {
        Token::Str { kind, payload, .. } => {
            assert_eq!(kind, StrKind::Osc);
            assert_eq!(payload, b"52;c;x");
        }
        t => panic!("unexpected {t:?}"),
    }
}

#[test]
fn utf8_continuation_bytes_are_never_c1_controls() {
    // "曖" is E6 9B 96: the 0x9B here must NOT open a CSI sequence...
    let toks = tokenize("曖昧".as_bytes());
    assert_eq!(toks, vec![Token::Text("曖昧".as_bytes().to_vec())]);
    // ...but the same byte after a *complete* UTF-8 char is a real C1.
    let mut input = "é".as_bytes().to_vec();
    input.extend_from_slice(b"\x9b1m");
    let toks = tokenize(&input);
    assert!(
        matches!(toks.last(), Some(Token::Csi { .. })),
        "got {toks:?}"
    );
}

#[test]
fn sequence_split_across_feeds_is_reassembled() {
    let mut p = Parser::new();
    let mut out = Vec::new();
    p.feed(b"\x1b]0;ti", &mut out);
    assert!(out.is_empty(), "no token before the terminator");
    p.feed(b"tle\x07after", &mut out);
    p.finish(&mut out);
    assert_eq!(out.len(), 2);
    assert!(matches!(&out[0], Token::Str { payload, .. } if payload == b"0;title"));
    assert_eq!(out[1], Token::Text(b"after".to_vec()));
}

#[test]
fn every_chunking_of_a_mixed_stream_yields_identical_tokens() {
    let input = b"pre\x1b[1mred\x1b]0;t\x07\x9b0mpost\n";
    let reference = tokenize(input);
    for cut in 1..input.len() {
        let mut p = Parser::new();
        let mut out = Vec::new();
        p.feed(&input[..cut], &mut out);
        p.feed(&input[cut..], &mut out);
        p.finish(&mut out);
        assert_eq!(out, reference, "cut at {cut}");
    }
}

#[test]
fn truncated_sequences_at_eof_are_malformed_with_true_length() {
    for (input, len) in [(&b"\x1b[31"[..], 4), (b"\x1b]52;c;abc", 10)] {
        match one(input) {
            Token::Malformed { reason, len: l, .. } => {
                assert_eq!(reason, MalformedReason::Truncated, "{input:?}");
                assert_eq!(l, len, "{input:?}");
            }
            t => panic!("unexpected {t:?}"),
        }
    }
}

#[test]
fn newline_spliced_into_osc_aborts_and_survives_as_control() {
    // An OSC that "eats" the rest of the line must not swallow real
    // newlines: the splice aborts the sequence and the \n is reprocessed.
    let toks = tokenize(b"\x1b]0;x\nrest");
    assert!(matches!(
        toks[0],
        Token::Malformed {
            reason: MalformedReason::AbortedByControl,
            ..
        }
    ));
    assert_eq!(toks[1], Token::Control(b'\n'));
    assert_eq!(toks[2], Token::Text(b"rest".to_vec()));
}

#[test]
fn esc_inside_osc_starts_a_new_sequence() {
    let toks = tokenize(b"\x1b]0;x\x1b[1mtext");
    assert!(matches!(
        toks[0],
        Token::Malformed {
            reason: MalformedReason::AbortedByControl,
            ..
        }
    ));
    assert!(matches!(
        &toks[1],
        Token::Csi {
            final_byte: b'm',
            ..
        }
    ));
    assert_eq!(toks[2], Token::Text(b"text".to_vec()));
}

#[test]
fn size_caps_bound_csi_and_string_sequences() {
    let mut input = b"\x1b[".to_vec();
    input.extend(std::iter::repeat(b'1').take(CSI_MAX + 10));
    input.push(b'm');
    let toks = tokenize(&input);
    assert!(matches!(
        toks[0],
        Token::Malformed {
            reason: MalformedReason::Oversized,
            ..
        }
    ));
    let mut input = b"\x1b]52;c;".to_vec();
    input.extend(std::iter::repeat(b'A').take(STR_MAX + 100));
    input.extend_from_slice(b"\x1b\\");
    let total = input.len();
    match one(&input) {
        Token::Str {
            overlong,
            payload,
            len,
            ..
        } => {
            assert!(overlong);
            assert_eq!(payload.len(), STR_MAX);
            assert_eq!(len, total);
        }
        t => panic!("unexpected {t:?}"),
    }
}

#[test]
fn param_byte_after_intermediate_is_bad() {
    let toks = tokenize(b"\x1b[!1p");
    assert!(matches!(
        toks[0],
        Token::Malformed {
            reason: MalformedReason::BadByte,
            ..
        }
    ));
}

#[test]
fn esc_esc_yields_malformed_then_a_sequence() {
    let toks = tokenize(b"\x1b\x1b[1m");
    assert!(matches!(toks[0], Token::Malformed { .. }));
    assert!(matches!(
        &toks[1],
        Token::Csi {
            final_byte: b'm',
            ..
        }
    ));
}

#[test]
fn byte_len_accounts_for_every_input_byte() {
    let input = b"a\x1b[1mb\x1b]0;t\x07\x08\x9bXc\xffd";
    let toks = tokenize(input);
    let total: usize = toks.iter().map(|t| t.byte_len()).sum();
    assert_eq!(total, input.len());
}

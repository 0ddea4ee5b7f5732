use multixor::keys::{
    parse_byte_token, process_key_string, resolve_token, separator, split_tokens, Reason,
};
use multixor::transform::{process_file_data, reversed, transform, Direction};

fn chars(s: &str) -> Vec<char> {
    s.chars().collect()
}

#[test]
fn scenario_two_keys_encrypt_and_decrypt() {
    let sanitized = process_key_string("7 3");
    assert_eq!(sanitized.keys, vec![7u8, 3]);
    assert!(sanitized.report.is_empty());

    let encrypted = transform(vec![0x41, 0x42], sanitized.keys.clone(), Direction::Encrypt);
    assert_eq!(encrypted, vec![0x45u8, 0x46]);

    assert_eq!(reversed(&sanitized.keys), vec![3u8, 7]);
    let decrypted = transform(vec![0x45, 0x46], sanitized.keys, Direction::Decrypt);
    assert_eq!(decrypted, vec![0x41u8, 0x42]);
}

#[test]
fn scenario_empty_spec_is_identity() {
    let sanitized = process_key_string("");
    assert!(sanitized.keys.is_empty());
    assert!(sanitized.report.is_empty());

    let data = vec![0u8, 1, 0x7f, 0x80, 0xff];
    assert_eq!(transform(data.clone(), sanitized.keys.clone(), Direction::Encrypt), data);
    assert_eq!(transform(data.clone(), sanitized.keys, Direction::Decrypt), data);
}

#[test]
fn blank_spec_gives_no_keys() {
    let sanitized = process_key_string(" \t\n ");
    assert!(sanitized.keys.is_empty());
    assert!(sanitized.report.is_empty());
}

#[test]
fn invalid_tokens_are_replaced_and_reported() {
    let sanitized = process_key_string("a 5 999");
    assert_eq!(sanitized.keys.len(), 3);
    assert_ne!(sanitized.keys[0], 0);
    assert_eq!(sanitized.keys[1], 5);
    assert_ne!(sanitized.keys[2], 0);

    assert_eq!(sanitized.report.len(), 2);
    assert_eq!(sanitized.report[0].token, "a");
    assert_eq!(sanitized.report[0].reason, Reason::InvalidFormat);
    assert_eq!(sanitized.report[0].key, sanitized.keys[0]);
    assert_eq!(sanitized.report[1].token, "999");
    assert_eq!(sanitized.report[1].reason, Reason::InvalidFormat);
    assert_eq!(sanitized.report[1].key, sanitized.keys[2]);
}

#[test]
fn zero_token_is_replaced_and_reported() {
    let sanitized = process_key_string("4 0 9");
    assert_eq!(sanitized.keys.len(), 3);
    assert_eq!(sanitized.keys[0], 4);
    assert_ne!(sanitized.keys[1], 0);
    assert_eq!(sanitized.keys[2], 9);

    assert_eq!(sanitized.report.len(), 1);
    assert_eq!(sanitized.report[0].token, "0");
    assert_eq!(sanitized.report[0].reason, Reason::ZeroValue);
    assert_eq!(sanitized.report[0].key, sanitized.keys[1]);
}

#[test]
fn many_zero_tokens_never_yield_zero() {
    let spec = vec!["0"; 500].join(" ");
    let sanitized = process_key_string(&spec);
    assert_eq!(sanitized.keys.len(), 500);
    assert!(sanitized.keys.iter().all(|&k| k != 0));
    assert_eq!(sanitized.report.len(), 500);
    assert!(sanitized.report.iter().all(|e| e.reason == Reason::ZeroValue && e.token == "0"));
}

#[test]
fn report_follows_token_order() {
    let sanitized = process_key_string("x 00 12 +0 -1");
    assert_eq!(sanitized.keys.len(), 5);
    assert_eq!(sanitized.keys[2], 12);
    let tokens: Vec<&str> = sanitized.report.iter().map(|e| e.token.as_str()).collect();
    assert_eq!(tokens, vec!["x", "00", "+0", "-1"]);
    let reasons: Vec<Reason> = sanitized.report.iter().map(|e| e.reason).collect();
    assert_eq!(
        reasons,
        vec![Reason::InvalidFormat, Reason::ZeroValue, Reason::ZeroValue, Reason::InvalidFormat]
    );
}

#[test]
fn unicode_token_is_reported_as_typed() {
    let sanitized = process_key_string("clé");
    assert_eq!(sanitized.report.len(), 1);
    assert_eq!(sanitized.report[0].token, "clé");
}

#[test]
fn whitespace_runs_separate_tokens() {
    let sanitized = process_key_string("  1\t\t2\n3\u{3000}4 ");
    assert_eq!(sanitized.keys, vec![1u8, 2, 3, 4]);
    let toks = split_tokens(&chars("\u{a0}ab  c\r\n"));
    assert_eq!(toks, vec![chars("ab"), chars("c")]);
    assert!(split_tokens(&chars("")).is_empty());
}

#[test]
fn separators_are_unicode_white_space() {
    for c in [' ', '\t', '\n', '\u{b}', '\u{c}', '\r', '\u{85}', '\u{a0}', '\u{2003}', '\u{3000}'] {
        assert!(separator(c));
        assert_eq!(separator(c), c.is_whitespace());
    }
    for c in ['0', 'a', '+', '-', '\u{200b}', '_'] {
        assert!(!separator(c));
        assert_eq!(separator(c), c.is_whitespace());
    }
}

#[test]
fn byte_tokens_parse_like_decimal_u8() {
    let cases = [
        "0", "5", "+5", "007", "255", "256", "0256", "999", "-0", "-5", "+", "", "a", "1a", "١",
        "+-1", "00000000000000000000000012",
    ];
    for case in cases {
        assert_eq!(parse_byte_token(&chars(case)), case.parse::<u8>().ok(), "{case}");
    }
    assert_eq!(parse_byte_token(&chars("+5")), Some(5));
    assert_eq!(parse_byte_token(&chars("255")), Some(255));
    assert_eq!(parse_byte_token(&chars("256")), None);
    assert_eq!(parse_byte_token(&chars("-0")), None);
}

#[test]
fn resolve_token_uses_the_draw_only_when_needed() {
    let (key, entry) = resolve_token(&chars("12"), 9);
    assert_eq!(key, 12);
    assert!(entry.is_none());

    let (key, entry) = resolve_token(&chars("0"), 9);
    assert_eq!(key, 9);
    let entry = entry.unwrap();
    assert_eq!(entry.token, "0");
    assert_eq!(entry.key, 9);
    assert_eq!(entry.reason, Reason::ZeroValue);

    let (key, entry) = resolve_token(&chars("x1"), 200);
    assert_eq!(key, 200);
    let entry = entry.unwrap();
    assert_eq!(entry.token, "x1");
    assert_eq!(entry.reason, Reason::InvalidFormat);
}

#[test]
fn round_trip_restores_data() {
    let data: Vec<u8> = (0..=255u8).collect();
    let keys = vec![1u8, 2, 250, 17, 17];
    let encrypted = transform(data.clone(), keys.clone(), Direction::Encrypt);
    assert_ne!(encrypted, data);
    assert_eq!(transform(encrypted, keys.clone(), Direction::Decrypt), data);
    let decrypted = transform(data.clone(), keys.clone(), Direction::Decrypt);
    assert_eq!(transform(decrypted, keys, Direction::Encrypt), data);
}

#[test]
fn empty_keys_are_identity() {
    let data = vec![9u8, 8, 7];
    assert_eq!(transform(data.clone(), vec![], Direction::Encrypt), data);
    assert_eq!(transform(data.clone(), vec![], Direction::Decrypt), data);
}

#[test]
fn length_is_preserved() {
    for n in [0usize, 1, 2, 1000] {
        let data = vec![0xaau8; n];
        assert_eq!(transform(data.clone(), vec![3, 5], Direction::Encrypt).len(), n);
        assert_eq!(transform(data, vec![3, 5], Direction::Decrypt).len(), n);
    }
}

#[test]
fn fold_applies_every_key() {
    assert_eq!(process_file_data(vec![0x00, 0xff], vec![0x0f, 0xf0, 0x01]), vec![0xfeu8, 0x01]);
    assert_eq!(process_file_data(vec![], vec![1, 2]), Vec::<u8>::new());
    assert_eq!(reversed(&vec![1u8, 2, 3]), vec![3u8, 2, 1]);
    assert!(reversed(&vec![]).is_empty());
}

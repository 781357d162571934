//! The percent codec and the line framing.

use fsmonitor::codec::{build_line, decode, encode, parse_input};
use fsmonitor::path::MPath;

fn enc_str(s: &str) -> String {
    String::from_utf8(encode(&s.as_bytes().to_vec())).unwrap()
}

fn dec_str(s: &str) -> Vec<u8> {
    decode(&s.as_bytes().to_vec())
}

#[test]
fn encode_leaves_unreserved_bytes() {
    assert_eq!(enc_str("Abc-12.z_~"), "Abc-12.z_~");
}

#[test]
fn encode_escapes_space_and_percent() {
    assert_eq!(enc_str(" %"), "%20%25");
    assert_eq!(enc_str("a b"), "a%20b");
    assert_eq!(enc_str("/tmp/x"), "/tmp/x");
}

#[test]
fn decode_accepts_both_hex_cases() {
    assert_eq!(dec_str("%2f%2F"), b"//".to_vec());
    assert_eq!(dec_str("%41%61"), b"Aa".to_vec());
}

#[test]
fn decode_passes_bad_escapes_through() {
    assert_eq!(dec_str("%"), b"%".to_vec());
    assert_eq!(dec_str("%zz"), b"%zz".to_vec());
    assert_eq!(dec_str("%2"), b"%2".to_vec());
}

#[test]
fn decode_undoes_encode() {
    let cases: Vec<Vec<u8>> = vec![
        Vec::new(),
        b"plain".to_vec(),
        b"has space and %".to_vec(),
        vec![0x00, 0x1f, 0x20, 0x25, 0x7f, 0x80, 0xff],
    ];
    for b in cases {
        assert_eq!(decode(&encode(&b)), b);
    }
}

#[test]
fn encode_is_stable_over_a_round_trip() {
    let b = vec![0x00u8, 0x20, 0x25, 0x41, 0xff];
    let once = encode(&b);
    assert_eq!(encode(&decode(&once)), once);
}

#[test]
fn parse_splits_verb_and_decodes_arguments() {
    let (cmd, args) = parse_input(&b"START 1 /tmp/has%20space\n".to_vec());
    assert_eq!(cmd, b"START".to_vec());
    assert_eq!(args, vec![b"1".to_vec(), b"/tmp/has space".to_vec()]);
}

#[test]
fn parse_of_blank_line_gives_empty_verb() {
    let (cmd, args) = parse_input(&b" \t\n".to_vec());
    assert_eq!(cmd, Vec::<u8>::new());
    assert_eq!(args.len(), 0);
}

#[test]
fn built_lines_reparse_to_their_parts() {
    let cmd = b"RECURSIVE".to_vec();
    let args = vec![b"dir with space/file".to_vec()];
    let line = build_line(&cmd, &args);
    assert_eq!(
        String::from_utf8(line.clone()).unwrap(),
        "RECURSIVE dir%20with%20space/file",
    );
    let (cmd2, args2) = parse_input(&line);
    assert_eq!(cmd2, cmd);
    assert_eq!(args2, args);
    assert_eq!(build_line(&cmd2, &args2), line);
}

#[test]
fn paths_compare_by_whole_segments() {
    let a = MPath::parse(&b"/tmp/sample2/file".to_vec());
    let b = MPath::parse(&b"/tmp/sample".to_vec());
    let c = MPath::parse(&b"/tmp/sample/x".to_vec());
    assert!(!a.starts_with(&b));
    assert!(c.starts_with(&b));
    let rel = c.strip_prefix(&b).unwrap();
    assert_eq!(String::from_utf8(rel.render()).unwrap(), "x");
    assert!(a.strip_prefix(&b).is_none());
}

#[test]
fn parse_normalizes_repeated_separators() {
    let p = MPath::parse(&b"//tmp///x/".to_vec());
    assert_eq!(String::from_utf8(p.render()).unwrap(), "/tmp/x");
}

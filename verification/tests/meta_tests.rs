use axim::hash::hash;
use axim::meta::{Meta, MetaParseError};

fn dump(m: &Meta) -> Vec<u8> {
    let mut out = Vec::new();
    m.dump(&mut out);
    out
}

#[test]
fn normalize_fills_output_id() {
    // S3: the derived id is the digest of the canonical projection
    let m = Meta::parse(b"n foo\nv 1.0\n").unwrap();
    let mut expected = b"n foo\nv 1.0\no ".to_vec();
    expected.extend_from_slice(&hash(b"n foo\nv 1.0\n"));
    expected.push(b'\n');
    assert_eq!(dump(&m), expected);
}

#[test]
fn normalize_pinned_digest() {
    let m = Meta::parse(b"n foo\nv 1.0\n").unwrap();
    assert_eq!(
        dump(&m),
        b"n foo\nv 1.0\no Gc/TD2+qGs0X1BRs705aI6CS8x5AtEG87WEeiqMjPfKq\n".to_vec()
    );
}

#[test]
fn inputs_resorted_by_alias() {
    // S4: inputs come out ascending by alias, and the id is order-blind
    let m1 = Meta::parse(b"n foo\nv 1\ni b B\ni a A\n").unwrap();
    let m2 = Meta::parse(b"n foo\nv 1\ni a A\ni b B\n").unwrap();
    let d1 = dump(&m1);
    assert_eq!(d1, dump(&m2));
    let text = String::from_utf8(d1).unwrap();
    let a_pos = text.find("i a A\n").unwrap();
    let b_pos = text.find("i b B\n").unwrap();
    assert!(a_pos < b_pos);
}

#[test]
fn output_id_ignores_runtime_deps_and_digest() {
    let m1 = Meta::parse(b"n foo\nv 1\nr dep-one\n").unwrap();
    let m2 = Meta::parse(b"n foo\nv 1\nd Gc/TD2+qGs0X1BRs705aI6CS8x5AtEG87WEeiqMjPfKq\n").unwrap();
    let m3 = Meta::parse(b"n foo\nv 1\n").unwrap();
    assert_eq!(m1.output_id, m2.output_id);
    assert_eq!(m2.output_id, m3.output_id);
}

#[test]
fn round_trip_is_identity() {
    let text = b"# a comment\nn foo\nv 2.1\ni b second id\ni a first\nb make all\nr libc\nr libm\n";
    let m = Meta::parse(text).unwrap();
    let emitted = dump(&m);
    let m2 = Meta::parse(&emitted).unwrap();
    assert_eq!(dump(&m2), emitted);
    assert_eq!(m2.name, m.name);
    assert_eq!(m2.version, m.version);
    assert_eq!(m2.output_id, m.output_id);
    assert_eq!(m2.runtime_deps, m.runtime_deps);
}

#[test]
fn preset_output_id_is_kept() {
    let m = Meta::parse(b"n foo\nv 1\no my-preset-id\n").unwrap();
    assert_eq!(m.output_id, Some(b"my-preset-id".to_vec()));
}

#[test]
fn fixed_digest_takes_id_from_digest() {
    let m = Meta::parse(b"n foo\nv 1\nx fixed-digest\nd DD/D\n").unwrap();
    assert_eq!(m.output_id, Some(b"DD/D".to_vec()));
    assert_eq!(m.output_digest, Some(b"DD/D".to_vec()));
}

#[test]
fn fixed_digest_without_digest_fails() {
    // P7: `x fixed-digest` with no `d` is invalid data
    let e = Meta::parse(b"n foo\nv 1\nx fixed-digest\n").unwrap_err();
    assert!(matches!(e, MetaParseError::InvalidData { .. }));
}

#[test]
fn fixed_digest_with_preset_id_fails() {
    // P7: `x fixed-digest` with both `d` and a pre-set `o` is invalid data
    let e = Meta::parse(b"n foo\nv 1\nx fixed-digest\no preset\nd DD/D\n").unwrap_err();
    assert!(matches!(e, MetaParseError::InvalidData { .. }));
}

#[test]
fn missing_name_fails() {
    assert_eq!(
        Meta::parse(b"v 1\n").unwrap_err(),
        MetaParseError::MissingName
    );
}

#[test]
fn missing_version_fails() {
    assert_eq!(
        Meta::parse(b"n foo\n").unwrap_err(),
        MetaParseError::MissingVersion
    );
}

#[test]
fn unknown_tag_fails() {
    assert_eq!(
        Meta::parse(b"n foo\nq what\n").unwrap_err(),
        MetaParseError::InvalidType { line: 1 }
    );
}

#[test]
fn long_tag_fails() {
    assert_eq!(
        Meta::parse(b"nn foo\n").unwrap_err(),
        MetaParseError::InvalidType { line: 0 }
    );
}

#[test]
fn line_without_field_fails() {
    assert_eq!(
        Meta::parse(b"n\n").unwrap_err(),
        MetaParseError::MissingField { line: 0 }
    );
}

#[test]
fn input_without_id_fails() {
    assert_eq!(
        Meta::parse(b"n foo\nv 1\ni alias-only\n").unwrap_err(),
        MetaParseError::MissingField { line: 2 }
    );
}

#[test]
fn duplicate_name_fails() {
    assert_eq!(
        Meta::parse(b"n foo\nn bar\n").unwrap_err(),
        MetaParseError::DuplicateType { line: 1 }
    );
}

#[test]
fn duplicate_alias_fails() {
    assert_eq!(
        Meta::parse(b"n foo\nv 1\ni a X\ni a Y\n").unwrap_err(),
        MetaParseError::DuplicateAlias { line: 3 }
    );
}

#[test]
fn unknown_option_fails() {
    assert_eq!(
        Meta::parse(b"n foo\nv 1\nx frobnicate\n").unwrap_err(),
        MetaParseError::InvalidOption { line: 2 }
    );
}

#[test]
fn dash_input_id_fails() {
    assert_eq!(
        Meta::parse(b"n foo\nv 1\ni a -\n").unwrap_err(),
        MetaParseError::InvalidId { line: 2 }
    );
}

#[test]
fn comments_counted_in_line_numbers() {
    assert_eq!(
        Meta::parse(b"# leading comment\nqq bad\n").unwrap_err(),
        MetaParseError::InvalidType { line: 1 }
    );
}

#[test]
fn option_lookup() {
    let m = Meta::parse(b"n foo\nv 1\nx fixed-digest\nd DD/D\n").unwrap();
    assert!(m._option(b"fixed-digest"));
    assert!(!m._option(b"other"));
}

#[test]
fn set_output_id_hashes_projection() {
    let mut m = Meta {
        name: b"foo".to_vec(),
        version: b"3".to_vec(),
        opts: Vec::new(),
        build_cmd: Some(b"make".to_vec()),
        inputs: Vec::new(),
        output_id: None,
        output_digest: None,
        runtime_deps: vec![b"ignored".to_vec()],
    };
    m.set_output_id();
    assert_eq!(m.output_id, Some(hash(b"n foo\nv 3\nb make\n")));
}

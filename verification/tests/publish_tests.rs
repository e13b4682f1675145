use axim::cli::{parse_command, Command};
use axim::hash::hash;
use axim::nar::dump_file_nar;
use axim::publish::{install_mode, plan_add_file};

const HELLO_DIGEST: &str = "wi/8HPWWfL9Djtven0hAgZE8saYSBCYM9QnAY3lDNCpq";

#[test]
fn plan_digest_is_single_file_nar_digest() {
    // S5: `d` equals the digest of the single-file archive of the source
    let plan = plan_add_file(b"foo", b"1", b"hello", b"hi\n", 0o644);
    let mut nar = Vec::new();
    dump_file_nar(&mut nar, b"hello", false, b"hi\n");
    assert_eq!(plan.output_digest, hash(&nar));
    assert_eq!(plan.output_digest, HELLO_DIGEST.as_bytes().to_vec());
}

#[test]
fn plan_paths_and_mode() {
    let plan = plan_add_file(b"foo", b"1", b"hello", b"hi\n", 0o644);
    assert_eq!(plan.dest_mode, 0o444);
    let d = String::from_utf8(plan.output_digest.clone()).unwrap();
    let md = String::from_utf8(plan.meta_digest.clone()).unwrap();
    assert_eq!(plan.artifact_dir, format!("/axim/{}", d).into_bytes());
    assert_eq!(plan.dest_path, format!("/axim/{}/hello", d).into_bytes());
    assert_eq!(plan.meta_path, format!("/axim/{}.meta", md).into_bytes());
    assert_eq!(plan.link_path, format!("/axim/{}.meta", d).into_bytes());
}

#[test]
fn plan_meta_record() {
    let plan = plan_add_file(b"foo", b"1", b"hello", b"hi\n", 0o644);
    let expected_text = format!(
        "n foo\nv 1\nx fixed-digest\no {d}\nd {d}\n",
        d = HELLO_DIGEST
    );
    assert_eq!(plan.meta_text, expected_text.into_bytes());
    assert_eq!(plan.meta_digest, hash(&plan.meta_text));
    assert_eq!(
        plan.meta_digest,
        b"IG/KMizw4o6Lj2z5h@5vABHya10VPIcC7++V7rlyHvPS".to_vec()
    );
    assert_eq!(plan.meta.output_id, plan.meta.output_digest);
    assert_eq!(plan.meta.output_digest, Some(HELLO_DIGEST.as_bytes().to_vec()));
}

#[test]
fn plan_is_idempotent() {
    // S6: replaying the same inputs converges to the same on-disk state
    let p1 = plan_add_file(b"foo", b"1", b"hello", b"hi\n", 0o644);
    let p2 = plan_add_file(b"foo", b"1", b"hello", b"hi\n", 0o644);
    assert_eq!(p1.output_digest, p2.output_digest);
    assert_eq!(p1.meta_digest, p2.meta_digest);
    assert_eq!(p1.meta_text, p2.meta_text);
    assert_eq!(p1.dest_mode, p2.dest_mode);
    assert_eq!(p1.artifact_dir, p2.artifact_dir);
    assert_eq!(p1.dest_path, p2.dest_path);
    assert_eq!(p1.meta_path, p2.meta_path);
    assert_eq!(p1.link_path, p2.link_path);
}

#[test]
fn executable_source_installs_read_execute() {
    let plan = plan_add_file(b"foo", b"1", b"tool", b"#!/bin/sh\n", 0o744);
    assert_eq!(plan.dest_mode, 0o555);
    // the executable bit also changes the archive, hence the digest
    let other = plan_add_file(b"foo", b"1", b"tool", b"#!/bin/sh\n", 0o644);
    assert_ne!(plan.output_digest, other.output_digest);
}

#[test]
fn permission_mapping() {
    assert_eq!(install_mode(0o644), 0o444);
    assert_eq!(install_mode(0o755), 0o555);
    assert_eq!(install_mode(0o100), 0o555);
    assert_eq!(install_mode(0o044), 0o444);
    assert_eq!(install_mode(0o777), 0o555);
    assert_eq!(install_mode(0), 0o444);
}

#[test]
fn command_names() {
    assert_eq!(parse_command(b"dump-nar"), Command::DumpNar);
    assert_eq!(parse_command(b"hash"), Command::Hash);
    assert_eq!(parse_command(b"normalize-meta"), Command::NormalizeMeta);
    assert_eq!(parse_command(b"add-file"), Command::AddFile);
    assert_eq!(parse_command(b"fix-meta"), Command::Unknown);
    assert_eq!(parse_command(b""), Command::Unknown);
}

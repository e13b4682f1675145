use axim::nar::{dump_file_nar, dump_nar, pad_from_len, serialise_str, NarEntry, NarNode};

fn framed(x: &[u8]) -> Vec<u8> {
    let mut v = (x.len() as u64).to_le_bytes().to_vec();
    v.extend_from_slice(x);
    let pad = (8 - x.len() % 8) % 8;
    for _ in 0..pad {
        v.push(0);
    }
    v
}

fn cat(parts: &[&[u8]]) -> Vec<u8> {
    let mut out = Vec::new();
    for p in parts {
        out.extend_from_slice(&framed(p));
    }
    out
}

fn file_node(contents: &[u8], executable: bool) -> NarNode {
    NarNode::Regular {
        executable,
        contents: contents.to_vec(),
    }
}

fn entry(name: &[u8], node: NarNode) -> NarEntry {
    NarEntry {
        name: name.to_vec(),
        node,
    }
}

#[test]
fn serialise_str_frames_and_pads() {
    let mut out = Vec::new();
    serialise_str(&mut out, b"type");
    assert_eq!(out, framed(b"type"));
    assert_eq!(
        out,
        vec![4, 0, 0, 0, 0, 0, 0, 0, b't', b'y', b'p', b'e', 0, 0, 0, 0]
    );
}

#[test]
fn pad_from_len_zeroes_to_eight() {
    for len in 0u64..=17 {
        let mut out = Vec::new();
        pad_from_len(&mut out, len);
        assert_eq!(out.len() as u64, (8 - len % 8) % 8);
        assert!(out.iter().all(|&b| b == 0));
    }
}

#[test]
fn single_file_directory_stream() {
    let mut out = Vec::new();
    dump_file_nar(&mut out, b"hello", false, b"hi\n");
    let expected = cat(&[
        b"nix-archive-1",
        b"(",
        b"type",
        b"directory",
        b"entry",
        b"(",
        b"name",
        b"hello",
        b"node",
        b"(",
        b"type",
        b"regular",
        b"contents",
        b"hi\n",
        b")",
        b")",
        b")",
    ]);
    assert_eq!(out, expected);
}

#[test]
fn single_file_stream_prefix() {
    let node = NarNode::Directory {
        entries: vec![entry(b"hello", file_node(b"hi\n", false))],
    };
    let mut out = Vec::new();
    dump_nar(&mut out, node);
    let prefix = cat(&[
        b"nix-archive-1",
        b"(",
        b"type",
        b"directory",
        b"entry",
        b"(",
        b"name",
        b"hello",
    ]);
    assert!(out.starts_with(&prefix));
}

#[test]
fn dump_nar_matches_dump_file_nar() {
    let node = NarNode::Directory {
        entries: vec![entry(b"hello", file_node(b"hi\n", false))],
    };
    let mut a = Vec::new();
    dump_nar(&mut a, node);
    let mut b = Vec::new();
    dump_file_nar(&mut b, b"hello", false, b"hi\n");
    assert_eq!(a, b);
}

#[test]
fn executable_bit_is_recorded() {
    let mut plain = Vec::new();
    dump_file_nar(&mut plain, b"run", false, b"#!/bin/sh\n");
    let mut exec = Vec::new();
    dump_file_nar(&mut exec, b"run", true, b"#!/bin/sh\n");
    assert_ne!(plain, exec);
    let marker = cat(&[b"executable", b""]);
    assert!(exec
        .windows(marker.len())
        .any(|w| w == marker.as_slice()));
    assert!(!plain
        .windows(marker.len())
        .any(|w| w == marker.as_slice()));
}

#[test]
fn symlink_target_recorded_verbatim() {
    let node = NarNode::Link {
        target: b"../somewhere else".to_vec(),
    };
    let mut out = Vec::new();
    dump_nar(&mut out, node);
    let expected = cat(&[
        b"nix-archive-1",
        b"(",
        b"type",
        b"symlink",
        b"target",
        b"../somewhere else",
        b")",
    ]);
    assert_eq!(out, expected);
}

#[test]
fn entry_order_does_not_matter() {
    let forward = NarNode::Directory {
        entries: vec![
            entry(b"alpha", file_node(b"a", false)),
            entry(b"beta", file_node(b"b", false)),
            entry(b"gamma", NarNode::Link { target: b"alpha".to_vec() }),
        ],
    };
    let shuffled = NarNode::Directory {
        entries: vec![
            entry(b"gamma", NarNode::Link { target: b"alpha".to_vec() }),
            entry(b"beta", file_node(b"b", false)),
            entry(b"alpha", file_node(b"a", false)),
        ],
    };
    let mut a = Vec::new();
    dump_nar(&mut a, forward);
    let mut b = Vec::new();
    dump_nar(&mut b, shuffled);
    assert_eq!(a, b);
}

#[test]
fn nested_directories_sorted_by_raw_bytes() {
    let inner = |label: &[u8]| NarNode::Directory {
        entries: vec![entry(b"z", file_node(label, false))],
    };
    let tree = NarNode::Directory {
        entries: vec![
            entry(b"b-dir", inner(b"2")),
            entry(b"Z-file", file_node(b"1", false)),
        ],
    };
    let mut out = Vec::new();
    dump_nar(&mut out, tree);
    // 'Z' (0x5a) sorts before 'b' (0x62) by raw byte value
    let z_pos = out
        .windows(framed(b"Z-file").len())
        .position(|w| w == framed(b"Z-file").as_slice())
        .unwrap();
    let b_pos = out
        .windows(framed(b"b-dir").len())
        .position(|w| w == framed(b"b-dir").as_slice())
        .unwrap();
    assert!(z_pos < b_pos);
}

#[test]
fn every_stream_is_eight_byte_aligned() {
    let trees = vec![
        NarNode::Regular {
            executable: false,
            contents: b"odd len".to_vec(),
        },
        NarNode::Link {
            target: b"abc".to_vec(),
        },
        NarNode::Directory {
            entries: vec![
                entry(b"x", file_node(b"12345", true)),
                entry(b"y", NarNode::Directory { entries: vec![] }),
            ],
        },
    ];
    for tree in trees {
        let mut out = Vec::new();
        dump_nar(&mut out, tree);
        assert_eq!(out.len() % 8, 0);
    }
}

use axim::hash::{hash, Hasher};

fn digest_string(data: &[u8]) -> String {
    String::from_utf8(hash(data)).unwrap()
}

#[test]
fn empty_input_digest() {
    assert_eq!(
        digest_string(b""),
        "f+/+6@ByUrsPHmKTMe67MOlM0+qtaEqdwWjWAIu3uGqe"
    );
}

#[test]
fn short_input_digest() {
    assert_eq!(
        digest_string(b"abc"),
        "Ef/XTfq+Y9R84N1SjQzEGlOLV26u@dL9RHh+YHH535J8"
    );
}

#[test]
fn digest_shape() {
    let inputs: Vec<Vec<u8>> = vec![b"".to_vec(), b"abc".to_vec(), vec![0u8; 300]];
    for input in inputs {
        let d = hash(&input);
        assert_eq!(d.len(), 44);
        assert_eq!(d[2], b'/');
        for (i, &c) in d.iter().enumerate() {
            if i != 2 {
                assert!(c.is_ascii_alphanumeric() || c == b'@' || c == b'+');
            }
        }
    }
}

#[test]
fn chunk_boundaries_do_not_matter() {
    let mut h1 = Hasher::new();
    h1.update(b"hello ");
    h1.update(b"world");
    let mut h2 = Hasher::new();
    h2.update(b"hello world");
    let mut h3 = Hasher::new();
    h3.update(b"h");
    h3.update(b"ello worl");
    h3.update(b"d");
    let d1 = h1.finalize();
    let d2 = h2.finalize();
    let d3 = h3.finalize();
    assert_eq!(d1, d2);
    assert_eq!(d2, d3);
    assert_eq!(d1, hash(b"hello world"));
}

#[test]
fn equal_streams_equal_digests() {
    assert_eq!(hash(b"same bytes"), hash(b"same bytes"));
    assert_ne!(hash(b"some bytes"), hash(b"other bytes"));
    assert_ne!(hash(b""), hash(b"\0"));
}

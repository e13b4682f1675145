use vstd::prelude::*;

use crate::bytes::{bytes_lt, lex_le, lex_lt, push_bytes};
use vstd::bytes::{spec_u64_to_le_bytes, u64_to_le_bytes};
use vstd::multiset::Multiset;

verus! {

broadcast use vstd::seq::axiom_seq_index_decreases, vstd::seq::axiom_seq_subrange_decreases;

// ---------------------------------------------------------------------------
// The tree model: what the serializer reads of a filesystem subtree.
// ---------------------------------------------------------------------------

/// One node of a filesystem subtree: a regular file with its owner-execute
/// bit, a symbolic link with its raw target bytes, or a directory.
pub enum NarNode {
    Regular { executable: bool, contents: Vec<u8> },
    Link { target: Vec<u8> },
    Directory { entries: Vec<NarEntry> },
}

/// A named directory entry.
pub struct NarEntry {
    pub name: Vec<u8>,
    pub node: NarNode,
}

#[verifier::ext_equal]
pub enum NarNodeV {
    Regular { executable: bool, contents: Seq<u8> },
    Link { target: Seq<u8> },
    Directory { entries: Seq<NarEntryV> },
}

#[verifier::ext_equal]
pub struct NarEntryV {
    pub name: Seq<u8>,
    pub node: NarNodeV,
}

pub open spec fn node_view(n: NarNode) -> NarNodeV
    decreases n,
{
    match n {
        NarNode::Regular { executable, contents } => NarNodeV::Regular {
            executable,
            contents: contents@,
        },
        NarNode::Link { target } => NarNodeV::Link { target: target@ },
        NarNode::Directory { entries } => NarNodeV::Directory { entries: entries_view(entries@) },
    }
}

pub open spec fn entries_view(es: Seq<NarEntry>) -> Seq<NarEntryV>
    decreases es,
{
    if es.len() == 0 {
        Seq::empty()
    } else {
        entries_view(es.drop_last()).push(entry_view(es.last()))
    }
}

pub open spec fn entry_view(e: NarEntry) -> NarEntryV
    decreases e,
{
    NarEntryV { name: e.name@, node: node_view(e.node) }
}

pub proof fn lemma_entries_view(es: Seq<NarEntry>)
    ensures
        entries_view(es).len() == es.len(),
        forall|i: int| 0 <= i < es.len() ==> #[trigger] entries_view(es)[i] == entry_view(es[i]),
    decreases es.len(),
{
    if es.len() > 0 {
        lemma_entries_view(es.drop_last());
    }
}

// ---------------------------------------------------------------------------
// The wire format.
// ---------------------------------------------------------------------------

/// Number of zero bytes that bring a string of `len` bytes to the next
/// multiple-of-8 boundary.
pub open spec fn pad_len(len: nat) -> nat {
    ((8 - len % 8) % 8) as nat
}

pub open spec fn zeros(n: nat) -> Seq<u8> {
    Seq::new(n, |i: int| 0u8)
}

/// A length-prefixed, zero-padded string: the 64-bit little-endian length,
/// the bytes, then padding to the next multiple of 8.
pub open spec fn str_bytes(x: Seq<u8>) -> Seq<u8> {
    spec_u64_to_le_bytes(x.len() as u64) + x + zeros(pad_len(x.len()))
}

pub open spec fn tok_magic() -> Seq<u8> {
    seq![110u8, 105u8, 120u8, 45u8, 97u8, 114u8, 99u8, 104u8, 105u8, 118u8, 101u8, 45u8, 49u8]
}

pub open spec fn tok_open() -> Seq<u8> {
    seq![40u8]
}

pub open spec fn tok_close() -> Seq<u8> {
    seq![41u8]
}

pub open spec fn tok_type() -> Seq<u8> {
    seq![116u8, 121u8, 112u8, 101u8]
}

pub open spec fn tok_regular() -> Seq<u8> {
    seq![114u8, 101u8, 103u8, 117u8, 108u8, 97u8, 114u8]
}

pub open spec fn tok_executable() -> Seq<u8> {
    seq![101u8, 120u8, 101u8, 99u8, 117u8, 116u8, 97u8, 98u8, 108u8, 101u8]
}

pub open spec fn tok_contents() -> Seq<u8> {
    seq![99u8, 111u8, 110u8, 116u8, 101u8, 110u8, 116u8, 115u8]
}

pub open spec fn tok_symlink() -> Seq<u8> {
    seq![115u8, 121u8, 109u8, 108u8, 105u8, 110u8, 107u8]
}

pub open spec fn tok_target() -> Seq<u8> {
    seq![116u8, 97u8, 114u8, 103u8, 101u8, 116u8]
}

pub open spec fn tok_directory() -> Seq<u8> {
    seq![100u8, 105u8, 114u8, 101u8, 99u8, 116u8, 111u8, 114u8, 121u8]
}

pub open spec fn tok_entry() -> Seq<u8> {
    seq![101u8, 110u8, 116u8, 114u8, 121u8]
}

pub open spec fn tok_name() -> Seq<u8> {
    seq![110u8, 97u8, 109u8, 101u8]
}

pub open spec fn tok_node() -> Seq<u8> {
    seq![110u8, 111u8, 100u8, 101u8]
}

/// The serialization of one node, directory entries taken in the order given.
pub open spec fn node_bytes(n: NarNodeV) -> Seq<u8>
    decreases n,
{
    match n {
        NarNodeV::Regular { executable, contents } => str_bytes(tok_type()) + str_bytes(
            tok_regular(),
        ) + (if executable {
            str_bytes(tok_executable()) + str_bytes(Seq::empty())
        } else {
            Seq::empty()
        }) + str_bytes(tok_contents()) + str_bytes(contents),
        NarNodeV::Link { target } => str_bytes(tok_type()) + str_bytes(tok_symlink()) + str_bytes(
            tok_target(),
        ) + str_bytes(target),
        NarNodeV::Directory { entries } => str_bytes(tok_type()) + str_bytes(tok_directory())
            + entries_bytes(entries),
    }
}

pub open spec fn entries_bytes(es: Seq<NarEntryV>) -> Seq<u8>
    decreases es,
{
    if es.len() == 0 {
        Seq::empty()
    } else {
        entries_bytes(es.drop_last()) + entry_bytes(es.last())
    }
}

pub open spec fn entry_bytes(e: NarEntryV) -> Seq<u8>
    decreases e,
{
    str_bytes(tok_entry()) + str_bytes(tok_open()) + str_bytes(tok_name()) + str_bytes(e.name)
        + str_bytes(tok_node()) + str_bytes(tok_open()) + node_bytes(e.node) + str_bytes(
        tok_close(),
    ) + str_bytes(tok_close())
}

/// The whole archive: magic, an opening frame, the root node, a closing frame.
pub open spec fn nar_bytes(n: NarNodeV) -> Seq<u8> {
    str_bytes(tok_magic()) + str_bytes(tok_open()) + node_bytes(n) + str_bytes(tok_close())
}

// ---------------------------------------------------------------------------
// Executable serialization.
// ---------------------------------------------------------------------------

/// Appends the zero padding for a string of `len` bytes.
pub fn pad_from_len(writer: &mut Vec<u8>, len: u64)
    ensures
        final(writer)@ == old(writer)@ + zeros(pad_len(len as nat)),
{
    let padding: u64 = (8 - len % 8) % 8;
    let mut k: u64 = 0;
    while k < padding
        invariant
            k <= padding,
            padding == pad_len(len as nat),
            writer@ == old(writer)@ + zeros(k as nat),
        decreases padding - k,
    {
        writer.push(0);
        proof {
            assert(old(writer)@ + zeros(k as nat) + seq![0u8] =~= old(writer)@ + zeros(
                (k + 1) as nat,
            ));
        }
        k = k + 1;
    }
}

/// Appends the length-prefixed, padded form of `x`.
pub fn serialise_str(writer: &mut Vec<u8>, x: &[u8])
    ensures
        final(writer)@ == old(writer)@ + str_bytes(x@),
{
    let len: u64 = x.len() as u64;
    let prefix = u64_to_le_bytes(len);
    push_bytes(writer, prefix.as_slice());
    push_bytes(writer, x);
    pad_from_len(writer, len);
    proof {
        assert(writer@ =~= old(writer)@ + str_bytes(x@));
    }
}

/// Appends the serialization of one node, entries in the order they stand.
pub fn serialise_node(writer: &mut Vec<u8>, n: &NarNode)
    ensures
        final(writer)@ == old(writer)@ + node_bytes(node_view(*n)),
    decreases *n,
{
    match n {
        NarNode::Regular { executable, contents } => {
            let t = [116u8, 121u8, 112u8, 101u8];
            proof {
                assert(t@ =~= tok_type());
            }
            serialise_str(writer, t.as_slice());
            let t = [114u8, 101u8, 103u8, 117u8, 108u8, 97u8, 114u8];
            proof {
                assert(t@ =~= tok_regular());
            }
            serialise_str(writer, t.as_slice());
            if *executable {
                let t = [101u8, 120u8, 101u8, 99u8, 117u8, 116u8, 97u8, 98u8, 108u8, 101u8];
                proof {
                    assert(t@ =~= tok_executable());
                }
                serialise_str(writer, t.as_slice());
                let t: [u8; 0] = [];
                proof {
                    assert(t@ =~= Seq::<u8>::empty());
                }
                serialise_str(writer, t.as_slice());
            }
            let t = [99u8, 111u8, 110u8, 116u8, 101u8, 110u8, 116u8, 115u8];
            proof {
                assert(t@ =~= tok_contents());
            }
            serialise_str(writer, t.as_slice());
            serialise_str(writer, contents.as_slice());
            proof {
                assert(writer@ =~= old(writer)@ + node_bytes(node_view(*n)));
            }
        },
        NarNode::Link { target } => {
            let t = [116u8, 121u8, 112u8, 101u8];
            proof {
                assert(t@ =~= tok_type());
            }
            serialise_str(writer, t.as_slice());
            let t = [115u8, 121u8, 109u8, 108u8, 105u8, 110u8, 107u8];
            proof {
                assert(t@ =~= tok_symlink());
            }
            serialise_str(writer, t.as_slice());
            let t = [116u8, 97u8, 114u8, 103u8, 101u8, 116u8];
            proof {
                assert(t@ =~= tok_target());
            }
            serialise_str(writer, t.as_slice());
            serialise_str(writer, target.as_slice());
            proof {
                assert(writer@ =~= old(writer)@ + node_bytes(node_view(*n)));
            }
        },
        NarNode::Directory { entries } => {
            let t = [116u8, 121u8, 112u8, 101u8];
            proof {
                assert(t@ =~= tok_type());
            }
            serialise_str(writer, t.as_slice());
            let t = [100u8, 105u8, 114u8, 101u8, 99u8, 116u8, 111u8, 114u8, 121u8];
            proof {
                assert(t@ =~= tok_directory());
            }
            serialise_str(writer, t.as_slice());
            let ghost head = old(writer)@ + str_bytes(tok_type()) + str_bytes(tok_directory());
            let ghost evs = entries_view(entries@);
            proof {
                lemma_entries_view(entries@);
            }
            let mut i: usize = 0;
            while i < entries.len()
                invariant
                    i <= entries@.len(),
                    *n matches NarNode::Directory { entries: e2 } && e2 == *entries,
                    evs == entries_view(entries@),
                    evs.len() == entries@.len(),
                    writer@ == head + entries_bytes(evs.take(i as int)),
                decreases entries@.len() - i,
            {
                let e = &entries[i];
                proof {
                    lemma_entries_view(entries@);
                    assert(entries@[i as int] == *e);
                    assert(decreases_to!(entries@ => entries@[i as int]));
                    assert(decreases_to!(*n => *e));
                }
                serialise_entry(writer, e);
                proof {
                    assert(entry_view(*e) == evs[i as int]);
                    assert(evs.take(i + 1).drop_last() =~= evs.take(i as int));
                    assert(evs.take(i + 1).last() == evs[i as int]);
                    assert(entries_bytes(evs.take(i + 1)) == entries_bytes(evs.take(i as int))
                        + entry_bytes(evs[i as int]));
                    assert(writer@ =~= head + entries_bytes(evs.take(i + 1)));
                }
                i = i + 1;
            }
            proof {
                assert(evs.take(evs.len() as int) =~= evs);
                assert(writer@ =~= old(writer)@ + node_bytes(node_view(*n)));
            }
        },
    }
}

/// Appends the framed serialization of one directory entry.
fn serialise_entry(writer: &mut Vec<u8>, e: &NarEntry)
    ensures
        final(writer)@ == old(writer)@ + entry_bytes(entry_view(*e)),
    decreases *e,
{
    let t = [101u8, 110u8, 116u8, 114u8, 121u8];
    proof {
        assert(t@ =~= tok_entry());
    }
    serialise_str(writer, t.as_slice());
    let t = [40u8];
    proof {
        assert(t@ =~= tok_open());
    }
    serialise_str(writer, t.as_slice());
    let t = [110u8, 97u8, 109u8, 101u8];
    proof {
        assert(t@ =~= tok_name());
    }
    serialise_str(writer, t.as_slice());
    serialise_str(writer, e.name.as_slice());
    let t = [110u8, 111u8, 100u8, 101u8];
    proof {
        assert(t@ =~= tok_node());
    }
    serialise_str(writer, t.as_slice());
    let t = [40u8];
    proof {
        assert(t@ =~= tok_open());
    }
    serialise_str(writer, t.as_slice());
    serialise_node(writer, &e.node);
    let t = [41u8];
    proof {
        assert(t@ =~= tok_close());
    }
    serialise_str(writer, t.as_slice());
    let t = [41u8];
    proof {
        assert(t@ =~= tok_close());
    }
    serialise_str(writer, t.as_slice());
    proof {
        assert(writer@ =~= old(writer)@ + entry_bytes(entry_view(*e)));
    }
}


// ---------------------------------------------------------------------------
// Canonical entry order.
// ---------------------------------------------------------------------------

pub open spec fn entry_le(a: NarEntryV, b: NarEntryV) -> bool {
    lex_le(a.name, b.name)
}

/// Stable insertion of `e` into `s` from the right: `e` lands after every
/// element whose name is less than or equal to its own.
pub open spec fn insert_sorted_spec(s: Seq<NarEntryV>, e: NarEntryV) -> Seq<NarEntryV>
    decreases s.len(),
{
    if s.len() == 0 {
        seq![e]
    } else if lex_le(s.last().name, e.name) {
        s.push(e)
    } else {
        insert_sorted_spec(s.drop_last(), e).push(s.last())
    }
}

/// The canonical form of a node: every directory's entries sorted by name,
/// recursively.
pub open spec fn canon_node(n: NarNodeV) -> NarNodeV
    decreases n,
{
    match n {
        NarNodeV::Regular { executable, contents } => NarNodeV::Regular { executable, contents },
        NarNodeV::Link { target } => NarNodeV::Link { target },
        NarNodeV::Directory { entries } => NarNodeV::Directory {
            entries: canon_entries(entries),
        },
    }
}

pub open spec fn canon_entries(es: Seq<NarEntryV>) -> Seq<NarEntryV>
    decreases es,
{
    if es.len() == 0 {
        Seq::empty()
    } else {
        insert_sorted_spec(canon_entries(es.drop_last()), canon_entry(es.last()))
    }
}

pub open spec fn canon_entry(e: NarEntryV) -> NarEntryV
    decreases e,
{
    NarEntryV { name: e.name, node: canon_node(e.node) }
}

/// Wherever `e` ends up, the insertion only splices it into `s`.
proof fn lemma_insert_sorted_split(s: Seq<NarEntryV>, e: NarEntryV, j: int)
    requires
        0 <= j <= s.len(),
        forall|m: int| j <= m < s.len() ==> lex_lt(e.name, #[trigger] s[m].name),
        j > 0 ==> lex_le(s[j - 1].name, e.name),
    ensures
        insert_sorted_spec(s, e) == s.take(j) + seq![e] + s.skip(j),
    decreases s.len(),
{
    if s.len() == 0 {
        assert(insert_sorted_spec(s, e) =~= s.take(j) + seq![e] + s.skip(j));
    } else if j == s.len() {
        assert(lex_le(s.last().name, e.name));
        assert(s.push(e) =~= s.take(j) + seq![e] + s.skip(j));
    } else {
        assert(lex_lt(e.name, s.last().name));
        let dl = s.drop_last();
        assert(forall|m: int| j <= m < dl.len() ==> lex_lt(e.name, #[trigger] dl[m].name));
        assert(j > 0 ==> lex_le(dl[j - 1].name, e.name));
        lemma_insert_sorted_split(dl, e, j);
        assert((dl.take(j) + seq![e] + dl.skip(j)).push(s.last()) =~= s.take(j) + seq![e] + s.skip(
            j,
        ));
    }
}

/// Finds where `e` belongs among the entries of `v`, scanning from the right.
fn find_insert_pos(v: &Vec<NarEntry>, name: &[u8]) -> (j: usize)
    ensures
        j <= v@.len(),
        forall|m: int| j <= m < v@.len() ==> lex_lt(name@, #[trigger] v@[m].name@),
        j > 0 ==> lex_le(v@[j - 1].name@, name@),
{
    let mut j: usize = v.len();
    while j > 0
        invariant_except_break
            j <= v@.len(),
            forall|m: int| j <= m < v@.len() ==> lex_lt(name@, #[trigger] v@[m].name@),
        ensures
            j <= v@.len(),
            forall|m: int| j <= m < v@.len() ==> lex_lt(name@, #[trigger] v@[m].name@),
            j > 0 ==> lex_le(v@[j - 1].name@, name@),
        decreases j,
    {
        if !bytes_lt(name, v[j - 1].name.as_slice()) {
            break ;
        }
        j = j - 1;
    }
    j
}

/// Inserts `e` into `v` at its canonical position.
fn insert_sorted(v: &mut Vec<NarEntry>, e: NarEntry)
    ensures
        entries_view(final(v)@) == insert_sorted_spec(entries_view(old(v)@), entry_view(e)),
{
    let j = find_insert_pos(v, e.name.as_slice());
    let ghost s = entries_view(old(v)@);
    let ghost ev = entry_view(e);
    proof {
        lemma_entries_view(old(v)@);
        assert(forall|m: int| j <= m < s.len() ==> lex_lt(ev.name, #[trigger] s[m].name));
        assert(j > 0 ==> lex_le(s[j - 1].name, ev.name));
        lemma_insert_sorted_split(s, ev, j as int);
    }
    v.insert(j, e);
    proof {
        lemma_entries_view(v@);
        assert(v@ =~= old(v)@.take(j as int) + seq![e] + old(v)@.skip(j as int));
        assert(entries_view(v@) =~= s.take(j as int) + seq![ev] + s.skip(j as int));
    }
}

/// Rebuilds the tree with every directory's entries in canonical order.
#[verifier::loop_isolation(false)]
pub fn normalize(node: NarNode) -> (r: NarNode)
    ensures
        node_view(r) == canon_node(node_view(node)),
    decreases node,
{
    let ghost orig = node;
    match node {
        NarNode::Regular { executable, contents } => NarNode::Regular { executable, contents },
        NarNode::Link { target } => NarNode::Link { target },
        NarNode::Directory { mut entries } => {
            let ghost evs0 = entries@;
            let mut out: Vec<NarEntry> = Vec::new();
            let ghost mut k: int = 0;
            while entries.len() > 0
                invariant
                    0 <= k,
                    k + entries@.len() == evs0.len(),
                    entries@ =~= evs0.skip(k),
                    entries_view(out@) == canon_entries(entries_view(evs0.take(k))),
                    orig matches NarNode::Directory { entries: v0 } && v0@ == evs0,
                decreases entries@.len(),
            {
                let e = entries.remove(0);
                proof {
                    assert(e == evs0[k]);
                    let v0 = orig->Directory_entries;
                    assert(decreases_to!(orig => v0));
                    assert(decreases_to!(v0 => v0@));
                    assert(decreases_to!(evs0 => evs0[k]));
                    assert(decreases_to!(orig => e.node));
                    assert(entries@ =~= evs0.skip(k + 1));
                }
                let node2 = normalize(e.node);
                let e2 = NarEntry { name: e.name, node: node2 };
                proof {
                    assert(entry_view(e2) == canon_entry(entry_view(e)));
                }
                insert_sorted(&mut out, e2);
                proof {
                    lemma_entries_view(evs0.take(k));
                    lemma_entries_view(evs0.take(k + 1));
                    assert(entries_view(evs0.take(k + 1)).drop_last() =~= entries_view(
                        evs0.take(k),
                    ));
                    assert(entries_view(evs0.take(k + 1)).last() == entry_view(evs0[k]));
                    assert(canon_entries(entries_view(evs0.take(k + 1))) == insert_sorted_spec(
                        canon_entries(entries_view(evs0.take(k))),
                        canon_entry(entry_view(evs0[k])),
                    ));
                    k = k + 1;
                }
            }
            proof {
                assert(evs0.take(evs0.len() as int) =~= evs0);
            }
            NarNode::Directory { entries: out }
        },
    }
}

// ---------------------------------------------------------------------------
// The archive.
// ---------------------------------------------------------------------------

/// Serializes a whole subtree: the output is the canonical archive of the
/// tree, independent of the order in which directory entries were listed.
pub fn dump_nar(writer: &mut Vec<u8>, top: NarNode)
    ensures
        final(writer)@ == old(writer)@ + nar_bytes(canon_node(node_view(top))),
{
    let t = normalize(top);
    let m = [
        110u8,
        105u8,
        120u8,
        45u8,
        97u8,
        114u8,
        99u8,
        104u8,
        105u8,
        118u8,
        101u8,
        45u8,
        49u8,
    ];
    proof {
        assert(m@ =~= tok_magic());
    }
    serialise_str(writer, m.as_slice());
    let po = [40u8];
    proof {
        assert(po@ =~= tok_open());
    }
    serialise_str(writer, po.as_slice());
    serialise_node(writer, &t);
    let pc = [41u8];
    proof {
        assert(pc@ =~= tok_close());
    }
    serialise_str(writer, pc.as_slice());
    proof {
        assert(writer@ =~= old(writer)@ + nar_bytes(canon_node(node_view(top))));
    }
}

/// The synthetic one-entry directory that wraps a single file.
pub open spec fn single_file_nar(name: Seq<u8>, executable: bool, contents: Seq<u8>) -> NarNodeV {
    NarNodeV::Directory {
        entries: seq![
            NarEntryV { name, node: NarNodeV::Regular { executable, contents } },
        ],
    }
}

/// Serializes a single file as a one-entry directory, so that single-file
/// artifacts share the archive algebra with directory artifacts.
pub fn dump_file_nar(writer: &mut Vec<u8>, name: &[u8], executable: bool, contents: &[u8])
    ensures
        final(writer)@ == old(writer)@ + nar_bytes(single_file_nar(name@, executable, contents@)),
{
    let file_node = NarNode::Regular {
        executable,
        contents: vstd::slice::slice_to_vec(contents),
    };
    let entry = NarEntry { name: vstd::slice::slice_to_vec(name), node: file_node };
    let mut entries: Vec<NarEntry> = Vec::new();
    entries.push(entry);
    let top = NarNode::Directory { entries };
    proof {
        let e = NarEntryV {
            name: name@,
            node: NarNodeV::Regular { executable, contents: contents@ },
        };
        let es = top->Directory_entries@;
        assert(es =~= seq![entry]);
        assert(es.drop_last() =~= Seq::<NarEntry>::empty());
        assert(es.last() == entry);
        assert(entry_view(entry) =~= e);
        assert(entries_view(es) =~= seq![e]);
        assert(node_view(top) =~= single_file_nar(name@, executable, contents@));
        assert(canon_entries(seq![e]) == insert_sorted_spec(
            canon_entries(seq![e].drop_last()),
            canon_entry(e),
        ));
        assert(seq![e].drop_last() =~= Seq::<NarEntryV>::empty());
        assert(insert_sorted_spec(Seq::<NarEntryV>::empty(), e) =~= seq![e]);
        assert(canon_node(node_view(top)) == node_view(top));
    }
    dump_nar(writer, top);
}


// ---------------------------------------------------------------------------
// Alignment: every emission leaves the stream on a multiple-of-8 offset.
// ---------------------------------------------------------------------------

/// Every length-prefixed string occupies a multiple of 8 bytes.
pub proof fn lemma_str_bytes_aligned(x: Seq<u8>)
    ensures
        str_bytes(x).len() == 8 + x.len() + pad_len(x.len()),
        str_bytes(x).len() % 8 == 0,
{
    vstd::bytes::lemma_auto_spec_u64_to_from_le_bytes();
}

/// Every node serialization occupies a multiple of 8 bytes.
pub proof fn lemma_node_bytes_aligned(n: NarNodeV)
    ensures
        node_bytes(n).len() % 8 == 0,
    decreases n,
{
    match n {
        NarNodeV::Regular { executable, contents } => {
            lemma_str_bytes_aligned(tok_type());
            lemma_str_bytes_aligned(tok_regular());
            lemma_str_bytes_aligned(tok_executable());
            lemma_str_bytes_aligned(Seq::empty());
            lemma_str_bytes_aligned(tok_contents());
            lemma_str_bytes_aligned(contents);
        },
        NarNodeV::Link { target } => {
            lemma_str_bytes_aligned(tok_type());
            lemma_str_bytes_aligned(tok_symlink());
            lemma_str_bytes_aligned(tok_target());
            lemma_str_bytes_aligned(target);
        },
        NarNodeV::Directory { entries } => {
            lemma_str_bytes_aligned(tok_type());
            lemma_str_bytes_aligned(tok_directory());
            lemma_entries_bytes_aligned(entries);
        },
    }
}

pub proof fn lemma_entries_bytes_aligned(es: Seq<NarEntryV>)
    ensures
        entries_bytes(es).len() % 8 == 0,
    decreases es,
{
    if es.len() > 0 {
        lemma_entries_bytes_aligned(es.drop_last());
        lemma_entry_bytes_aligned(es.last());
    }
}

pub proof fn lemma_entry_bytes_aligned(e: NarEntryV)
    ensures
        entry_bytes(e).len() % 8 == 0,
    decreases e,
{
    lemma_str_bytes_aligned(tok_entry());
    lemma_str_bytes_aligned(tok_open());
    lemma_str_bytes_aligned(tok_name());
    lemma_str_bytes_aligned(e.name);
    lemma_str_bytes_aligned(tok_node());
    lemma_str_bytes_aligned(tok_close());
    lemma_node_bytes_aligned(e.node);
}

/// The whole archive occupies a multiple of 8 bytes.
pub proof fn lemma_nar_bytes_aligned(n: NarNodeV)
    ensures
        nar_bytes(n).len() % 8 == 0,
{
    lemma_str_bytes_aligned(tok_magic());
    lemma_str_bytes_aligned(tok_open());
    lemma_str_bytes_aligned(tok_close());
    lemma_node_bytes_aligned(n);
}

// ---------------------------------------------------------------------------
// Canonicality: the archive does not depend on entry listing order.
// ---------------------------------------------------------------------------

pub open spec fn distinct_names(es: Seq<NarEntryV>) -> bool {
    forall|i: int, j: int| 0 <= i < j < es.len() ==> es[i].name != es[j].name
}

pub open spec fn canon_each(es: Seq<NarEntryV>) -> Seq<NarEntryV> {
    es.map_values(|e: NarEntryV| canon_entry(e))
}

/// The insertion only splices `e` somewhere into `s`.
proof fn lemma_insert_sorted_shape(s: Seq<NarEntryV>, e: NarEntryV)
    ensures
        exists|j: int|
            0 <= j <= s.len() && insert_sorted_spec(s, e) == s.take(j) + seq![e] + s.skip(j),
    decreases s.len(),
{
    if s.len() == 0 {
        assert(insert_sorted_spec(s, e) =~= s.take(0) + seq![e] + s.skip(0));
    } else if lex_le(s.last().name, e.name) {
        let j = s.len() as int;
        assert(s.push(e) =~= s.take(j) + seq![e] + s.skip(j));
        assert(insert_sorted_spec(s, e) == s.take(j) + seq![e] + s.skip(j));
    } else {
        let dl = s.drop_last();
        lemma_insert_sorted_shape(dl, e);
        let j = choose|j: int|
            0 <= j <= dl.len() && insert_sorted_spec(dl, e) == dl.take(j) + seq![e] + dl.skip(j);
        assert((dl.take(j) + seq![e] + dl.skip(j)).push(s.last()) =~= s.take(j) + seq![e] + s.skip(
            j,
        ));
        assert(insert_sorted_spec(s, e) == s.take(j) + seq![e] + s.skip(j));
    }
}

proof fn lemma_insert_sorted_multiset(s: Seq<NarEntryV>, e: NarEntryV)
    ensures
        insert_sorted_spec(s, e).to_multiset() == s.to_multiset().insert(e),
{
    broadcast use vstd::seq_lib::group_to_multiset_ensures;
    broadcast use vstd::multiset::group_multiset_axioms;

    lemma_insert_sorted_shape(s, e);
    let j = choose|j: int|
        0 <= j <= s.len() && insert_sorted_spec(s, e) == s.take(j) + seq![e] + s.skip(j);
    let t = s.take(j);
    let k = s.skip(j);
    vstd::seq_lib::lemma_multiset_commutative(t + seq![e], k);
    vstd::seq_lib::lemma_multiset_commutative(t, seq![e]);
    vstd::seq_lib::lemma_multiset_commutative(t, k);
    assert(t + k =~= s);
    assert(seq![e] =~= Seq::<NarEntryV>::empty().push(e));
    assert(seq![e].to_multiset() == Multiset::<NarEntryV>::empty().insert(e));
    assert(insert_sorted_spec(s, e).to_multiset() =~= s.to_multiset().insert(e));
}

proof fn lemma_insert_sorted_sorted(s: Seq<NarEntryV>, e: NarEntryV)
    requires
        vstd::relations::sorted_by(s, |x: NarEntryV, y: NarEntryV| entry_le(x, y)),
    ensures
        vstd::relations::sorted_by(
            insert_sorted_spec(s, e),
            |x: NarEntryV, y: NarEntryV| entry_le(x, y),
        ),
    decreases s.len(),
{
    let leq = |x: NarEntryV, y: NarEntryV| entry_le(x, y);
    if s.len() == 0 {
    } else if lex_le(s.last().name, e.name) {
        let r = s.push(e);
        assert forall|i: int, j: int| 0 <= i < j < r.len() implies leq(r[i], r[j]) by {
            if j == r.len() - 1 {
                if i < s.len() - 1 {
                    assert(leq(s[i], s[s.len() - 1]));
                    crate::bytes::lemma_lex_le_trans(s[i].name, s.last().name, e.name);
                }
            }
        }
    } else {
        let dl = s.drop_last();
        assert forall|i: int, j: int| 0 <= i < j < dl.len() implies leq(dl[i], dl[j]) by {
            assert(leq(s[i], s[j]));
        }
        lemma_insert_sorted_sorted(dl, e);
        let t = insert_sorted_spec(dl, e);
        let r = t.push(s.last());
        lemma_insert_sorted_shape(dl, e);
        let j = choose|j: int|
            0 <= j <= dl.len() && insert_sorted_spec(dl, e) == dl.take(j) + seq![e] + dl.skip(j);
        assert forall|m: int| 0 <= m < t.len() implies leq(t[m], s.last()) by {
            if m < j {
                assert(t[m] == s[m]);
                assert(leq(s[m], s[s.len() - 1]));
            } else if m == j {
                assert(t[m] == e);
                crate::bytes::lemma_lex_lt_le(e.name, s.last().name);
            } else {
                assert(t[m] == s[m - 1]);
                assert(leq(s[m - 1], s[s.len() - 1]));
            }
        }
        assert forall|i: int, j2: int| 0 <= i < j2 < r.len() implies leq(r[i], r[j2]) by {
            if j2 < r.len() - 1 {
                assert(leq(t[i], t[j2]));
            }
        }
    }
}

/// Every canonical entry's name was the name of some original entry.
proof fn lemma_canon_elements(es: Seq<NarEntryV>)
    ensures
        forall|v: NarEntryV|
            canon_entries(es).contains(v) ==> exists|i: int|
                0 <= i < es.len() && v.name == #[trigger] es[i].name,
    decreases es.len(),
{
    if es.len() > 0 {
        let dl = es.drop_last();
        lemma_canon_elements(dl);
        let c = canon_entry(es.last());
        lemma_insert_sorted_shape(canon_entries(dl), c);
        let j = choose|j: int|
            0 <= j <= canon_entries(dl).len() && insert_sorted_spec(canon_entries(dl), c)
                == canon_entries(dl).take(j) + seq![c] + canon_entries(dl).skip(j);
        assert forall|v: NarEntryV| canon_entries(es).contains(v) implies exists|i: int|
            0 <= i < es.len() && v.name == #[trigger] es[i].name by {
            let m = choose|m: int| 0 <= m < canon_entries(es).len() && canon_entries(es)[m] == v;
            if m == j {
                assert(v == c);
                assert(v.name == es[es.len() - 1].name);
            } else {
                let m2 = if m < j {
                    m
                } else {
                    m - 1
                };
                assert(canon_entries(dl)[m2] == v);
                assert(canon_entries(dl).contains(v));
                let i = choose|i: int| 0 <= i < dl.len() && v.name == #[trigger] dl[i].name;
                assert(v.name == es[i].name);
            }
        }
    }
}

proof fn lemma_canon_entries_distinct(es: Seq<NarEntryV>)
    requires
        distinct_names(es),
    ensures
        distinct_names(canon_entries(es)),
    decreases es.len(),
{
    if es.len() > 0 {
        let dl = es.drop_last();
        assert(distinct_names(dl));
        lemma_canon_entries_distinct(dl);
        lemma_canon_elements(dl);
        let c = canon_entry(es.last());
        let t = canon_entries(dl);
        lemma_insert_sorted_shape(t, c);
        let j = choose|j: int|
            0 <= j <= t.len() && insert_sorted_spec(t, c) == t.take(j) + seq![c] + t.skip(j);
        let r = canon_entries(es);
        assert forall|p: int, q: int| 0 <= p < q < r.len() implies r[p].name != r[q].name by {
            if p == j || q == j {
                let other = if p == j {
                    q
                } else {
                    p
                };
                let m2 = if other < j {
                    other
                } else {
                    other - 1
                };
                assert(r[other] == t[m2]);
                assert(t.contains(t[m2]));
                let i = choose|i: int| 0 <= i < dl.len() && t[m2].name == #[trigger] dl[i].name;
                assert(es[i].name != es[es.len() - 1].name);
            } else {
                let p2 = if p < j {
                    p
                } else {
                    p - 1
                };
                let q2 = if q < j {
                    q
                } else {
                    q - 1
                };
                assert(r[p] == t[p2]);
                assert(r[q] == t[q2]);
                assert(t[p2].name != t[q2].name);
            }
        }
    }
}

/// The canonical entries are the original entries, each in canonical form,
/// sorted by name.
proof fn lemma_canon_entries_props(es: Seq<NarEntryV>)
    ensures
        vstd::relations::sorted_by(
            canon_entries(es),
            |x: NarEntryV, y: NarEntryV| entry_le(x, y),
        ),
        canon_entries(es).to_multiset() == canon_each(es).to_multiset(),
    decreases es.len(),
{
    broadcast use vstd::seq_lib::group_to_multiset_ensures;
    broadcast use vstd::multiset::group_multiset_axioms;

    if es.len() == 0 {
        assert(canon_each(es) =~= Seq::<NarEntryV>::empty());
    } else {
        let dl = es.drop_last();
        lemma_canon_entries_props(dl);
        let c = canon_entry(es.last());
        lemma_insert_sorted_sorted(canon_entries(dl), c);
        lemma_insert_sorted_multiset(canon_entries(dl), c);
        assert(canon_each(es) =~= canon_each(dl).push(c));
        assert(canon_each(es).to_multiset() == canon_each(dl).to_multiset().insert(c));
    }
}

/// Two equal collections of entries in different orders map to multiset-equal
/// collections of canonical entries.
proof fn lemma_map_multiset(a: Seq<NarEntryV>, b: Seq<NarEntryV>)
    requires
        a.to_multiset() == b.to_multiset(),
    ensures
        canon_each(a).to_multiset() == canon_each(b).to_multiset(),
    decreases a.len(),
{
    broadcast use vstd::seq_lib::group_to_multiset_ensures;
    broadcast use vstd::multiset::group_multiset_axioms;

    vstd::seq_lib::to_multiset_len(a);
    vstd::seq_lib::to_multiset_len(b);
    if a.len() == 0 {
        assert(canon_each(a) =~= Seq::<NarEntryV>::empty());
        assert(canon_each(b) =~= Seq::<NarEntryV>::empty());
    } else {
        let x = a.last();
        assert(a.contains(x));
        assert(b.to_multiset().contains(x));
        assert(b.contains(x));
        let i = choose|i: int| 0 <= i < b.len() && b[i] == x;
        let a2 = a.drop_last();
        let b2 = b.remove(i);
        vstd::seq_lib::to_multiset_remove(a, a.len() - 1);
        vstd::seq_lib::to_multiset_remove(b, i);
        assert(a.remove(a.len() - 1) =~= a2);
        assert(a2.to_multiset() == b2.to_multiset());
        lemma_map_multiset(a2, b2);
        let cx = canon_entry(x);
        assert(canon_each(a) =~= canon_each(a2).push(cx));
        assert(canon_each(a).to_multiset() == canon_each(a2).to_multiset().insert(cx));
        assert(canon_each(b).remove(i) =~= canon_each(b2));
        vstd::seq_lib::to_multiset_remove(canon_each(b), i);
        assert(canon_each(b)[i] == cx);
        assert(canon_each(b2).to_multiset() == canon_each(b).to_multiset().remove(cx));
        assert(canon_each(b).contains(cx));
        assert(canon_each(b).to_multiset().contains(cx));
        assert(canon_each(b).to_multiset().remove(cx).insert(cx) =~= canon_each(b).to_multiset());
    }
}

/// Two name-sorted entry collections holding the same entries, with distinct
/// names, are identical.
proof fn lemma_sorted_distinct_unique(x: Seq<NarEntryV>, y: Seq<NarEntryV>)
    requires
        vstd::relations::sorted_by(x, |a: NarEntryV, b: NarEntryV| entry_le(a, b)),
        vstd::relations::sorted_by(y, |a: NarEntryV, b: NarEntryV| entry_le(a, b)),
        x.to_multiset() == y.to_multiset(),
        distinct_names(x),
    ensures
        x == y,
    decreases x.len(),
{
    broadcast use vstd::seq_lib::group_to_multiset_ensures;
    broadcast use vstd::multiset::group_multiset_axioms;

    vstd::seq_lib::to_multiset_len(x);
    vstd::seq_lib::to_multiset_len(y);
    if x.len() == 0 {
        assert(x =~= y);
    } else {
        let leq = |a: NarEntryV, b: NarEntryV| entry_le(a, b);
        assert(y.to_multiset().contains(y[0]));
        assert(x.to_multiset().contains(y[0]));
        assert(x.contains(y[0]));
        let i = choose|i: int| 0 <= i < x.len() && x[i] == y[0];
        assert(y.to_multiset().contains(x[0]));
        assert(y.contains(x[0]));
        let j = choose|j: int| 0 <= j < y.len() && y[j] == x[0];
        crate::bytes::lemma_lex_lt_irreflexive(x[0].name);
        crate::bytes::lemma_lex_lt_irreflexive(y[0].name);
        if i > 0 {
            assert(leq(x[0], x[i]));
            assert(lex_le(x[0].name, x[i].name));
        }
        if j > 0 {
            assert(leq(y[0], y[j]));
            assert(lex_le(y[0].name, y[j].name));
        }
        assert(lex_le(x[0].name, y[0].name));
        assert(lex_le(y[0].name, x[0].name));
        crate::bytes::lemma_lex_le_antisym(x[0].name, y[0].name);
        assert(x[i].name == x[0].name);
        assert(i == 0);
        assert(x[0] == y[0]);
        let x2 = x.drop_first();
        let y2 = y.drop_first();
        vstd::seq_lib::to_multiset_remove(x, 0);
        vstd::seq_lib::to_multiset_remove(y, 0);
        assert(x.remove(0) =~= x2);
        assert(y.remove(0) =~= y2);
        assert forall|p: int, q: int| 0 <= p < q < x2.len() implies leq(x2[p], x2[q]) by {
            assert(leq(x[p + 1], x[q + 1]));
        }
        assert forall|p: int, q: int| 0 <= p < q < y2.len() implies leq(y2[p], y2[q]) by {
            assert(leq(y[p + 1], y[q + 1]));
        }
        assert(distinct_names(x2));
        lemma_sorted_distinct_unique(x2, y2);
        assert forall|k: int| 0 <= k < x.len() implies x[k] == y[k] by {
            if k > 0 {
                assert(x2[k - 1] == x[k]);
                assert(y2[k - 1] == y[k]);
            }
        }
        assert(x =~= y);
    }
}

/// Canonicality: the serialization of a directory depends only on which
/// entries it holds (by name, each in canonical form), never on the order in
/// which they were listed.
pub proof fn lemma_entries_order_irrelevant(a: Seq<NarEntryV>, b: Seq<NarEntryV>)
    requires
        a.to_multiset() == b.to_multiset(),
        distinct_names(a),
    ensures
        canon_entries(a) == canon_entries(b),
        nar_bytes(canon_node(NarNodeV::Directory { entries: a })) == nar_bytes(
            canon_node(NarNodeV::Directory { entries: b }),
        ),
{
    lemma_canon_entries_props(a);
    lemma_canon_entries_props(b);
    lemma_map_multiset(a, b);
    lemma_canon_entries_distinct(a);
    lemma_sorted_distinct_unique(canon_entries(a), canon_entries(b));
}



/// The composable form of canonicality: two listings whose entries agree in
/// canonical form — in any order — have the same canonical form, so a
/// shuffle anywhere in the tree leaves the archive unchanged.
pub proof fn lemma_canon_entries_unique(a: Seq<NarEntryV>, b: Seq<NarEntryV>)
    requires
        canon_each(a).to_multiset() == canon_each(b).to_multiset(),
        distinct_names(a),
    ensures
        canon_entries(a) == canon_entries(b),
        nar_bytes(canon_node(NarNodeV::Directory { entries: a })) == nar_bytes(
            canon_node(NarNodeV::Directory { entries: b }),
        ),
{
    lemma_canon_entries_props(a);
    lemma_canon_entries_props(b);
    lemma_canon_entries_distinct(a);
    lemma_sorted_distinct_unique(canon_entries(a), canon_entries(b));
}


} // verus!

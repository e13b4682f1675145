use vstd::prelude::*;

use crate::hash::{digest_of, hash, is_digest};
use crate::meta::{emit_bytes, known_option, Meta, MetaV};
use crate::nar::{dump_file_nar, nar_bytes, single_file_nar};

verus! {

/// Whether a file mode carries any owner-execute bit; group and other
/// execute bits are ignored.
pub open spec fn is_executable(mode: u32) -> bool {
    mode & 0o100 != 0
}

/// The mode an installed file gets: read-execute when the source owner could
/// execute it, read-only otherwise.
pub open spec fn spec_install_mode(src_mode: u32) -> u32 {
    if is_executable(src_mode) {
        0o555
    } else {
        0o444
    }
}

/// Permission mapping: any owner-execute bit in the source gives 0o555,
/// none gives 0o444.
pub fn install_mode(src_mode: u32) -> (r: u32)
    ensures
        r == spec_install_mode(src_mode),
        is_executable(src_mode) ==> r == 0o555,
        !is_executable(src_mode) ==> r == 0o444,
{
    if src_mode & 0o100 != 0 {
        0o555
    } else {
        0o444
    }
}

/// The store root, `/axim/`.
pub open spec fn store_root() -> Seq<u8> {
    seq![47u8, 97u8, 120u8, 105u8, 109u8, 47u8]
}

/// `.meta`
pub open spec fn meta_ext() -> Seq<u8> {
    seq![46u8, 109u8, 101u8, 116u8, 97u8]
}

/// `/axim/<digest>`: the digest holds a `/`, so this path crosses one
/// intermediate level.
pub open spec fn artifact_dir_path(d: Seq<u8>) -> Seq<u8> {
    store_root() + d
}

/// `/axim/<digest>/<basename>`
pub open spec fn dest_file_path(d: Seq<u8>, base: Seq<u8>) -> Seq<u8> {
    store_root() + d + seq![47u8] + base
}

/// `/axim/<meta digest>.meta`
pub open spec fn meta_file_path(md: Seq<u8>) -> Seq<u8> {
    store_root() + md + meta_ext()
}

/// `/axim/<digest>.meta`, the link beside the artifact directory.
pub open spec fn meta_link_path(d: Seq<u8>) -> Seq<u8> {
    store_root() + d + meta_ext()
}

fn store_root_vec() -> (r: Vec<u8>)
    ensures
        r@ == store_root(),
{
    let a = [47u8, 97u8, 120u8, 105u8, 109u8, 47u8];
    let v = vstd::slice::slice_to_vec(a.as_slice());
    proof {
        assert(v@ =~= store_root());
    }
    v
}

fn push_meta_ext(out: &mut Vec<u8>)
    ensures
        final(out)@ == old(out)@ + meta_ext(),
{
    let a = [46u8, 109u8, 101u8, 116u8, 97u8];
    proof {
        assert(a@ =~= meta_ext());
    }
    crate::bytes::push_bytes(out, a.as_slice());
}

/// The recipe that `add-file` constructs for a source import: a fixed-digest
/// record whose identity is its content.
pub open spec fn fixed_meta(name: Seq<u8>, version: Seq<u8>, d: Seq<u8>) -> MetaV {
    MetaV {
        name,
        version,
        opts: seq![known_option()],
        build_cmd: None,
        inputs: Seq::empty(),
        output_id: Some(d),
        output_digest: Some(d),
        runtime_deps: Seq::empty(),
    }
}

/// The output digest of a single file: the digest of its one-entry
/// directory archive.
pub open spec fn file_output_digest(base: Seq<u8>, executable: bool, contents: Seq<u8>) -> Seq<
    u8,
> {
    digest_of(nar_bytes(single_file_nar(base, executable, contents)))
}

/// Everything `add-file` decides: the digests, the record, its emitted text,
/// the install mode and the store paths.
pub struct AddFilePlan {
    pub meta: Meta,
    pub output_digest: Vec<u8>,
    pub meta_digest: Vec<u8>,
    pub meta_text: Vec<u8>,
    pub dest_mode: u32,
    pub artifact_dir: Vec<u8>,
    pub dest_path: Vec<u8>,
    pub meta_path: Vec<u8>,
    pub link_path: Vec<u8>,
}

/// The plan is pinned, field by field, to functions of the inputs alone.
pub open spec fn plan_matches(
    p: AddFilePlan,
    name: Seq<u8>,
    version: Seq<u8>,
    base: Seq<u8>,
    contents: Seq<u8>,
    src_mode: u32,
) -> bool {
    &&& p.output_digest@ == file_output_digest(base, is_executable(src_mode), contents)
    &&& p.meta@ == fixed_meta(name, version, p.output_digest@)
    &&& p.meta_text@ == emit_bytes(p.meta@)
    &&& p.meta_digest@ == digest_of(p.meta_text@)
    &&& p.dest_mode == spec_install_mode(src_mode)
    &&& p.artifact_dir@ == artifact_dir_path(p.output_digest@)
    &&& p.dest_path@ == dest_file_path(p.output_digest@, base)
    &&& p.meta_path@ == meta_file_path(p.meta_digest@)
    &&& p.link_path@ == meta_link_path(p.output_digest@)
}

/// Computes everything `add-file` decides about a source file: the output
/// digest of its one-entry archive, the fixed-digest record, the record's
/// digest and text, the install mode, and the store paths.
pub fn plan_add_file(
    name: &[u8],
    version: &[u8],
    base_name: &[u8],
    contents: &[u8],
    src_mode: u32,
) -> (p: AddFilePlan)
    ensures
        plan_matches(p, name@, version@, base_name@, contents@, src_mode),
        is_digest(p.output_digest@),
        is_digest(p.meta_digest@),
{
    let executable = src_mode & 0o100 != 0;
    let mut nar: Vec<u8> = Vec::new();
    dump_file_nar(&mut nar, base_name, executable, contents);
    proof {
        assert(nar@ =~= nar_bytes(single_file_nar(base_name@, executable, contents@)));
    }
    let d = hash(nar.as_slice());

    let opt_word = [
        102u8, 105u8, 120u8, 101u8, 100u8, 45u8, 100u8, 105u8, 103u8, 101u8, 115u8, 116u8,
    ];
    let mut opts: Vec<Vec<u8>> = Vec::new();
    opts.push(vstd::slice::slice_to_vec(opt_word.as_slice()));
    let meta = Meta {
        name: vstd::slice::slice_to_vec(name),
        version: vstd::slice::slice_to_vec(version),
        opts,
        build_cmd: None,
        inputs: Vec::new(),
        output_id: Some(vstd::slice::slice_to_vec(d.as_slice())),
        output_digest: Some(vstd::slice::slice_to_vec(d.as_slice())),
        runtime_deps: Vec::new(),
    };
    proof {
        assert(opt_word@ =~= known_option());
        assert(meta@ =~= fixed_meta(name@, version@, d@));
    }
    let mut meta_text: Vec<u8> = Vec::new();
    meta.dump(&mut meta_text);
    proof {
        assert(meta_text@ =~= emit_bytes(meta@));
    }
    let md = hash(meta_text.as_slice());

    let mut artifact_dir = store_root_vec();
    crate::bytes::push_bytes(&mut artifact_dir, d.as_slice());

    let mut dest_path = store_root_vec();
    crate::bytes::push_bytes(&mut dest_path, d.as_slice());
    dest_path.push(47);
    crate::bytes::push_bytes(&mut dest_path, base_name);

    let mut meta_path = store_root_vec();
    crate::bytes::push_bytes(&mut meta_path, md.as_slice());
    push_meta_ext(&mut meta_path);

    let mut link_path = store_root_vec();
    crate::bytes::push_bytes(&mut link_path, d.as_slice());
    push_meta_ext(&mut link_path);

    let dest_mode = install_mode(src_mode);
    proof {
        assert(dest_path@ =~= dest_file_path(d@, base_name@));
    }
    AddFilePlan {
        meta,
        output_digest: d,
        meta_digest: md,
        meta_text,
        dest_mode,
        artifact_dir,
        dest_path,
        meta_path,
        link_path,
    }
}

/// Publisher idempotence: two plans drawn from identical inputs are
/// identical, so replaying `add-file` on the same bytes converges to the
/// same on-disk state.
pub proof fn lemma_add_file_idempotent(
    p1: AddFilePlan,
    p2: AddFilePlan,
    name: Seq<u8>,
    version: Seq<u8>,
    base: Seq<u8>,
    contents: Seq<u8>,
    src_mode: u32,
)
    requires
        plan_matches(p1, name, version, base, contents, src_mode),
        plan_matches(p2, name, version, base, contents, src_mode),
    ensures
        p1.output_digest@ == p2.output_digest@,
        p1.meta@ == p2.meta@,
        p1.meta_text@ == p2.meta_text@,
        p1.meta_digest@ == p2.meta_digest@,
        p1.dest_mode == p2.dest_mode,
        p1.artifact_dir@ == p2.artifact_dir@,
        p1.dest_path@ == p2.dest_path@,
        p1.meta_path@ == p2.meta_path@,
        p1.link_path@ == p2.link_path@,
{
}

} // verus!

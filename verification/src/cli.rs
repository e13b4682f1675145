use vstd::prelude::*;

use crate::bytes::bytes_eq;

verus! {

/// The sub-commands the tool dispatches on.
#[derive(Debug, PartialEq, Eq, Structural, Clone, Copy)]
pub enum Command {
    DumpNar,
    Hash,
    NormalizeMeta,
    AddFile,
    Unknown,
}

pub open spec fn word_dump_nar() -> Seq<u8> {
    seq![100u8, 117u8, 109u8, 112u8, 45u8, 110u8, 97u8, 114u8]
}

pub open spec fn word_hash() -> Seq<u8> {
    seq![104u8, 97u8, 115u8, 104u8]
}

pub open spec fn word_normalize_meta() -> Seq<u8> {
    seq![
        110u8, 111u8, 114u8, 109u8, 97u8, 108u8, 105u8, 122u8, 101u8, 45u8, 109u8, 101u8, 116u8,
        97u8,
    ]
}

pub open spec fn word_add_file() -> Seq<u8> {
    seq![97u8, 100u8, 100u8, 45u8, 102u8, 105u8, 108u8, 101u8]
}

pub open spec fn spec_parse_command(c: Seq<u8>) -> Command {
    if c == word_dump_nar() {
        Command::DumpNar
    } else if c == word_hash() {
        Command::Hash
    } else if c == word_normalize_meta() {
        Command::NormalizeMeta
    } else if c == word_add_file() {
        Command::AddFile
    } else {
        Command::Unknown
    }
}

/// Recognizes a sub-command name.
pub fn parse_command(cmd: &[u8]) -> (r: Command)
    ensures
        r == spec_parse_command(cmd@),
{
    let w1 = [100u8, 117u8, 109u8, 112u8, 45u8, 110u8, 97u8, 114u8];
    let w2 = [104u8, 97u8, 115u8, 104u8];
    let w3 = [
        110u8, 111u8, 114u8, 109u8, 97u8, 108u8, 105u8, 122u8, 101u8, 45u8, 109u8, 101u8, 116u8,
        97u8,
    ];
    let w4 = [97u8, 100u8, 100u8, 45u8, 102u8, 105u8, 108u8, 101u8];
    proof {
        assert(w1@ =~= word_dump_nar());
        assert(w2@ =~= word_hash());
        assert(w3@ =~= word_normalize_meta());
        assert(w4@ =~= word_add_file());
    }
    if bytes_eq(cmd, w1.as_slice()) {
        Command::DumpNar
    } else if bytes_eq(cmd, w2.as_slice()) {
        Command::Hash
    } else if bytes_eq(cmd, w3.as_slice()) {
        Command::NormalizeMeta
    } else if bytes_eq(cmd, w4.as_slice()) {
        Command::AddFile
    } else {
        Command::Unknown
    }
}

} // verus!

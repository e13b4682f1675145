use vstd::prelude::*;

use crate::bytes::{bytes_eq, lex_le, lex_lt, push_bytes};
use crate::hash::{digest_of, Hasher};

verus! {

// ---------------------------------------------------------------------------
// The record and its mathematical view.
// ---------------------------------------------------------------------------

/// One input of a recipe: a human-chosen alias naming an id.
#[derive(Debug)]
pub struct MetaInput {
    pub alias: Vec<u8>,
    pub id: Vec<u8>,
}

/// A recipe: a line-oriented record with a canonical emitted form.
#[derive(Debug)]
pub struct Meta {
    pub name: Vec<u8>,
    pub version: Vec<u8>,
    pub opts: Vec<Vec<u8>>,
    pub build_cmd: Option<Vec<u8>>,
    pub inputs: Vec<MetaInput>,
    pub output_id: Option<Vec<u8>>,
    pub output_digest: Option<Vec<u8>>,
    pub runtime_deps: Vec<Vec<u8>>,
}

#[verifier::ext_equal]
pub struct InputV {
    pub alias: Seq<u8>,
    pub id: Seq<u8>,
}

#[verifier::ext_equal]
pub struct MetaV {
    pub name: Seq<u8>,
    pub version: Seq<u8>,
    pub opts: Seq<Seq<u8>>,
    pub build_cmd: Option<Seq<u8>>,
    pub inputs: Seq<InputV>,
    pub output_id: Option<Seq<u8>>,
    pub output_digest: Option<Seq<u8>>,
    pub runtime_deps: Seq<Seq<u8>>,
}

pub open spec fn vecs_view(v: Seq<Vec<u8>>) -> Seq<Seq<u8>> {
    Seq::new(v.len(), |i: int| v[i]@)
}

pub open spec fn opt_bytes_view(o: Option<Vec<u8>>) -> Option<Seq<u8>> {
    match o {
        Some(b) => Some(b@),
        None => None,
    }
}

pub open spec fn inputs_view(v: Seq<MetaInput>) -> Seq<InputV> {
    Seq::new(v.len(), |i: int| v[i]@)
}

impl View for MetaInput {
    type V = InputV;

    open spec fn view(&self) -> InputV {
        InputV { alias: self.alias@, id: self.id@ }
    }
}

impl View for Meta {
    type V = MetaV;

    open spec fn view(&self) -> MetaV {
        MetaV {
            name: self.name@,
            version: self.version@,
            opts: vecs_view(self.opts@),
            build_cmd: opt_bytes_view(self.build_cmd),
            inputs: inputs_view(self.inputs@),
            output_id: opt_bytes_view(self.output_id),
            output_digest: opt_bytes_view(self.output_digest),
            runtime_deps: vecs_view(self.runtime_deps@),
        }
    }
}

/// Why a record failed to parse. `line` is the zero-based offending line.
#[derive(Debug, Clone, PartialEq, Eq)]
pub enum MetaParseError {
    InvalidType { line: usize },
    MissingField { line: usize },
    DuplicateType { line: usize },
    DuplicateAlias { line: usize },
    InvalidOption { line: usize },
    InvalidId { line: usize },
    MissingName,
    MissingVersion,
    InvalidData { msg: Vec<u8> },
}

#[verifier::ext_equal]
pub enum MetaErrV {
    InvalidType { line: usize },
    MissingField { line: usize },
    DuplicateType { line: usize },
    DuplicateAlias { line: usize },
    InvalidOption { line: usize },
    InvalidId { line: usize },
    MissingName,
    MissingVersion,
    InvalidData { msg: Seq<u8> },
}

impl View for MetaParseError {
    type V = MetaErrV;

    open spec fn view(&self) -> MetaErrV {
        match self {
            MetaParseError::InvalidType { line } => MetaErrV::InvalidType { line: *line },
            MetaParseError::MissingField { line } => MetaErrV::MissingField { line: *line },
            MetaParseError::DuplicateType { line } => MetaErrV::DuplicateType { line: *line },
            MetaParseError::DuplicateAlias { line } => MetaErrV::DuplicateAlias { line: *line },
            MetaParseError::InvalidOption { line } => MetaErrV::InvalidOption { line: *line },
            MetaParseError::InvalidId { line } => MetaErrV::InvalidId { line: *line },
            MetaParseError::MissingName => MetaErrV::MissingName,
            MetaParseError::MissingVersion => MetaErrV::MissingVersion,
            MetaParseError::InvalidData { msg } => MetaErrV::InvalidData { msg: msg@ },
        }
    }
}

// ---------------------------------------------------------------------------
// Emission.
// ---------------------------------------------------------------------------

/// The only recognized option payload: `fixed-digest`.
pub open spec fn known_option() -> Seq<u8> {
    seq![102u8, 105u8, 120u8, 101u8, 100u8, 45u8, 100u8, 105u8, 103u8, 101u8, 115u8, 116u8]
}

/// A one-payload line: the tag, a space, the payload, a newline.
pub open spec fn tag_line(tag: u8, payload: Seq<u8>) -> Seq<u8> {
    seq![tag, 32u8] + payload + seq![10u8]
}

/// An input line: `i <alias> <id>` and a newline.
pub open spec fn input_line(i: InputV) -> Seq<u8> {
    seq![105u8, 32u8] + i.alias + seq![32u8] + i.id + seq![10u8]
}

pub open spec fn opt_lines(opts: Seq<Seq<u8>>) -> Seq<u8>
    decreases opts.len(),
{
    if opts.len() == 0 {
        Seq::empty()
    } else {
        opt_lines(opts.drop_last()) + tag_line(120u8, opts.last())
    }
}

pub open spec fn input_lines(inputs: Seq<InputV>) -> Seq<u8>
    decreases inputs.len(),
{
    if inputs.len() == 0 {
        Seq::empty()
    } else {
        input_lines(inputs.drop_last()) + input_line(inputs.last())
    }
}

pub open spec fn dep_lines(deps: Seq<Seq<u8>>) -> Seq<u8>
    decreases deps.len(),
{
    if deps.len() == 0 {
        Seq::empty()
    } else {
        dep_lines(deps.drop_last()) + tag_line(114u8, deps.last())
    }
}

/// The canonical projection: the part of the record that determines its
/// output id. Runtime deps and the output digest are deliberately left out;
/// the identity depends on the recipe's intent, not on its realized output.
pub open spec fn projection_bytes(m: MetaV) -> Seq<u8> {
    tag_line(110u8, m.name) + tag_line(118u8, m.version) + opt_lines(m.opts) + input_lines(
        m.inputs,
    ) + (match m.build_cmd {
        Some(b) => tag_line(98u8, b),
        None => Seq::empty(),
    })
}

/// The emitted form: the projection, then the output id, the output digest
/// and the runtime deps.
pub open spec fn emit_bytes(m: MetaV) -> Seq<u8> {
    projection_bytes(m) + (match m.output_id {
        Some(o) => tag_line(111u8, o),
        None => Seq::empty(),
    }) + (match m.output_digest {
        Some(d) => tag_line(100u8, d),
        None => Seq::empty(),
    }) + dep_lines(m.runtime_deps)
}

/// The output id a record earns when none was supplied: the digest of its
/// canonical projection.
pub open spec fn output_id_of(m: MetaV) -> Seq<u8> {
    digest_of(projection_bytes(m))
}

// ---------------------------------------------------------------------------
// Executable emission.
// ---------------------------------------------------------------------------

fn push_tag_line(out: &mut Vec<u8>, tag: u8, payload: &[u8])
    ensures
        final(out)@ == old(out)@ + tag_line(tag, payload@),
{
    out.push(tag);
    out.push(32);
    push_bytes(out, payload);
    out.push(10);
    proof {
        assert(out@ =~= old(out)@ + tag_line(tag, payload@));
    }
}

fn push_opt_lines(out: &mut Vec<u8>, opts: &Vec<Vec<u8>>)
    ensures
        final(out)@ == old(out)@ + opt_lines(vecs_view(opts@)),
{
    let ghost ov = vecs_view(opts@);
    let mut i: usize = 0;
    while i < opts.len()
        invariant
            i <= opts@.len(),
            ov == vecs_view(opts@),
            ov.len() == opts@.len(),
            out@ == old(out)@ + opt_lines(ov.take(i as int)),
        decreases opts@.len() - i,
    {
        push_tag_line(out, 120, opts[i].as_slice());
        proof {
            assert(ov.take(i + 1).drop_last() =~= ov.take(i as int));
            assert(ov.take(i + 1).last() == ov[i as int]);
            assert(ov[i as int] == opts@[i as int]@);
            assert(out@ =~= old(out)@ + opt_lines(ov.take(i + 1)));
        }
        i = i + 1;
    }
    proof {
        assert(ov.take(ov.len() as int) =~= ov);
    }
}

fn push_input_lines(out: &mut Vec<u8>, inputs: &Vec<MetaInput>)
    ensures
        final(out)@ == old(out)@ + input_lines(inputs_view(inputs@)),
{
    let ghost iv = inputs_view(inputs@);
    let mut i: usize = 0;
    while i < inputs.len()
        invariant
            i <= inputs@.len(),
            iv == inputs_view(inputs@),
            iv.len() == inputs@.len(),
            out@ == old(out)@ + input_lines(iv.take(i as int)),
        decreases inputs@.len() - i,
    {
        let inp = &inputs[i];
        out.push(105);
        out.push(32);
        push_bytes(out, inp.alias.as_slice());
        out.push(32);
        push_bytes(out, inp.id.as_slice());
        out.push(10);
        proof {
            assert(iv.take(i + 1).drop_last() =~= iv.take(i as int));
            assert(iv.take(i + 1).last() == iv[i as int]);
            assert(iv[i as int] == inputs@[i as int]@);
            assert(out@ =~= old(out)@ + input_lines(iv.take(i + 1)));
        }
        i = i + 1;
    }
    proof {
        assert(iv.take(iv.len() as int) =~= iv);
    }
}

fn push_dep_lines(out: &mut Vec<u8>, deps: &Vec<Vec<u8>>)
    ensures
        final(out)@ == old(out)@ + dep_lines(vecs_view(deps@)),
{
    let ghost dv = vecs_view(deps@);
    let mut i: usize = 0;
    while i < deps.len()
        invariant
            i <= deps@.len(),
            dv == vecs_view(deps@),
            dv.len() == deps@.len(),
            out@ == old(out)@ + dep_lines(dv.take(i as int)),
        decreases deps@.len() - i,
    {
        push_tag_line(out, 114, deps[i].as_slice());
        proof {
            assert(dv.take(i + 1).drop_last() =~= dv.take(i as int));
            assert(dv.take(i + 1).last() == dv[i as int]);
            assert(dv[i as int] == deps@[i as int]@);
            assert(out@ =~= old(out)@ + dep_lines(dv.take(i + 1)));
        }
        i = i + 1;
    }
    proof {
        assert(dv.take(dv.len() as int) =~= dv);
    }
}

impl Meta {
    /// Appends the canonical projection of the record.
    fn dump_projection(&self, out: &mut Vec<u8>)
        ensures
            final(out)@ == old(out)@ + projection_bytes(self@),
    {
        push_tag_line(out, 110, self.name.as_slice());
        push_tag_line(out, 118, self.version.as_slice());
        push_opt_lines(out, &self.opts);
        push_input_lines(out, &self.inputs);
        match &self.build_cmd {
            Some(b) => push_tag_line(out, 98, b.as_slice()),
            None => (),
        }
        proof {
            assert(out@ =~= old(out)@ + projection_bytes(self@));
        }
    }

    /// Appends the record in its canonical emitted order: name, version,
    /// options, inputs, build command, output id, output digest, runtime deps.
    pub fn dump(&self, writer: &mut Vec<u8>)
        ensures
            final(writer)@ == old(writer)@ + emit_bytes(self@),
    {
        self.dump_projection(writer);
        match &self.output_id {
            Some(o) => push_tag_line(writer, 111, o.as_slice()),
            None => (),
        }
        match &self.output_digest {
            Some(d) => push_tag_line(writer, 100, d.as_slice()),
            None => (),
        }
        push_dep_lines(writer, &self.runtime_deps);
        proof {
            assert(writer@ =~= old(writer)@ + emit_bytes(self@));
        }
    }

    /// Whether the record carries the given option.
    pub fn _option(&self, opt: &[u8]) -> (r: bool)
        ensures
            r == self@.opts.contains(opt@),
    {
        let mut i: usize = 0;
        while i < self.opts.len()
            invariant
                i <= self.opts@.len(),
                forall|k: int| 0 <= k < i ==> self@.opts[k] != opt@,
        decreases self.opts@.len() - i,
        {
            if bytes_eq(self.opts[i].as_slice(), opt) {
                proof {
                    assert(self@.opts[i as int] == opt@);
                }
                return true;
            }
            i = i + 1;
        }
        proof {
            assert(forall|k: int| 0 <= k < self@.opts.len() ==> self@.opts[k] != opt@);
        }
        false
    }

    /// Derives the output id from the canonical projection and records it.
    pub fn set_output_id(&mut self)
        requires
            (old(self).output_id is None),
        ensures
            final(self)@ == (MetaV { output_id: Some(output_id_of(old(self)@)), ..old(self)@ }),
    {
        let mut proj: Vec<u8> = Vec::new();
        self.dump_projection(&mut proj);
        let mut hasher = Hasher::new();
        hasher.update(proj.as_slice());
        proof {
            assert(Seq::<u8>::empty() + proj@ =~= proj@);
        }
        let id = hasher.finalize();
        self.output_id = Some(id);
        proof {
            assert(self@ =~= MetaV { output_id: Some(output_id_of(old(self)@)), ..old(self)@ });
        }
    }
}


// ---------------------------------------------------------------------------
// Parsing: lines and fields.
// ---------------------------------------------------------------------------

/// The index of the first occurrence of `b` in `t`, or `t.len()` if none.
pub open spec fn find_byte(t: Seq<u8>, b: u8) -> int
    decreases t.len(),
{
    if t.len() == 0 {
        0
    } else if t[0] == b {
        0
    } else {
        1 + find_byte(t.skip(1), b)
    }
}

pub proof fn lemma_find_byte(t: Seq<u8>, b: u8)
    ensures
        0 <= find_byte(t, b) <= t.len(),
        forall|k: int| 0 <= k < find_byte(t, b) ==> t[k] != b,
        find_byte(t, b) < t.len() ==> t[find_byte(t, b)] == b,
    decreases t.len(),
{
    if t.len() > 0 && t[0] != b {
        lemma_find_byte(t.skip(1), b);
        assert forall|k: int| 0 <= k < find_byte(t, b) implies t[k] != b by {
            if k > 0 {
                assert(t.skip(1)[k - 1] == t[k]);
            }
        }
        if find_byte(t, b) < t.len() {
            assert(t.skip(1)[find_byte(t, b) - 1] == t[find_byte(t, b)]);
        }
    }
}

pub proof fn lemma_find_byte_is(t: Seq<u8>, b: u8, i: int)
    requires
        0 <= i <= t.len(),
        forall|k: int| 0 <= k < i ==> t[k] != b,
        i < t.len() ==> t[i] == b,
    ensures
        find_byte(t, b) == i,
{
    lemma_find_byte(t, b);
    let f = find_byte(t, b);
    if f < i {
        assert(t[f] != b);
        assert(t[f] == b);
    }
    if f > i {
        assert(t[i] != b);
    }
}

/// Scans `t` for the first occurrence of `b`.
fn find_byte_exec(t: &[u8], b: u8) -> (j: usize)
    ensures
        j == find_byte(t@, b),
        j <= t@.len(),
{
    let mut j: usize = 0;
    while j < t.len()
        invariant_except_break
            j <= t@.len(),
            forall|k: int| 0 <= k < j ==> t@[k] != b,
        ensures
            j <= t@.len(),
            forall|k: int| 0 <= k < j ==> t@[k] != b,
            j < t@.len() ==> t@[j as int] == b,
        decreases t@.len() - j,
    {
        if t[j] == b {
            break ;
        }
        j = j + 1;
    }
    proof {
        lemma_find_byte_is(t@, b, j as int);
    }
    j
}

/// The lines of a byte text, split on the newline byte; a trailing newline
/// does not open a final empty line.
pub open spec fn split_lines(t: Seq<u8>) -> Seq<Seq<u8>>
    decreases t.len(),
{
    if t.len() == 0 {
        Seq::empty()
    } else {
        proof {
            lemma_find_byte(t, 10u8);
        }
        let i = find_byte(t, 10u8);
        if i == t.len() {
            seq![t]
        } else {
            seq![t.take(i)] + split_lines(t.skip(i + 1))
        }
    }
}

/// Copies `t[a..b]` into a fresh vector.
fn sub_vec(t: &[u8], a: usize, b: usize) -> (r: Vec<u8>)
    requires
        a <= b <= t@.len(),
    ensures
        r@ == t@.subrange(a as int, b as int),
{
    vstd::slice::slice_to_vec(vstd::slice::slice_subrange(t, a, b))
}

/// Splits a byte text into its lines.
fn split_lines_exec(t: &[u8]) -> (r: Vec<Vec<u8>>)
    ensures
        vecs_view(r@) == split_lines(t@),
{
    let mut r: Vec<Vec<u8>> = Vec::new();
    let mut pos: usize = 0;
    proof {
        assert(t@.skip(0) =~= t@);
        assert(vecs_view(r@) + split_lines(t@) =~= split_lines(t@));
    }
    while pos < t.len()
        invariant
            pos <= t@.len(),
            split_lines(t@) == vecs_view(r@) + split_lines(t@.skip(pos as int)),
        decreases t@.len() - pos,
    {
        let mut j: usize = pos;
        while j < t.len()
            invariant_except_break
                pos <= j <= t@.len(),
                forall|k: int| pos <= k < j ==> t@[k] != 10u8,
            ensures
                pos <= j <= t@.len(),
                forall|k: int| pos <= k < j ==> t@[k] != 10u8,
                j < t@.len() ==> t@[j as int] == 10u8,
            decreases t@.len() - j,
        {
            if t[j] == 10 {
                break ;
            }
            j = j + 1;
        }
        let line = sub_vec(t, pos, j);
        r.push(line);
        proof {
            let rest = t@.skip(pos as int);
            assert forall|k: int| 0 <= k < j - pos implies rest[k] != 10u8 by {
                assert(rest[k] == t@[pos + k]);
            }
            if j < t@.len() {
                assert(rest[j - pos] == t@[j as int]);
            }
            lemma_find_byte_is(rest, 10u8, j - pos);
            assert(rest.take(j - pos) =~= t@.subrange(pos as int, j as int));
            if j < t@.len() {
                assert(rest.skip(j - pos + 1) =~= t@.skip(j + 1));
                assert(split_lines(rest) == seq![line@] + split_lines(t@.skip(j + 1)));
            } else {
                assert(rest =~= t@.subrange(pos as int, j as int));
                assert(split_lines(rest) == seq![line@]);
            }
        }
        let ghost r_old = r@;
        if j < t.len() {
            pos = j + 1;
        } else {
            pos = j;
        }
        proof {
            assert(vecs_view(r@) =~= vecs_view(r@.drop_last()) + seq![line@]);
            assert(vecs_view(r@.drop_last()) + seq![line@] + split_lines(t@.skip(pos as int))
                =~= vecs_view(r@.drop_last()) + (seq![line@] + split_lines(t@.skip(pos as int))));
            if pos == t@.len() {
                assert(split_lines(t@.skip(pos as int)) =~= Seq::<Seq<u8>>::empty());
                assert(seq![line@] + split_lines(t@.skip(pos as int)) =~= seq![line@]);
            }
        }
    }
    proof {
        assert(t@.skip(pos as int) =~= Seq::<u8>::empty());
        assert(vecs_view(r@) + split_lines(t@.skip(pos as int)) =~= vecs_view(r@));
    }
    r
}

// ---------------------------------------------------------------------------
// Parsing: the record grammar.
// ---------------------------------------------------------------------------

/// The state a parse accumulates, line by line.
#[verifier::ext_equal]
pub struct AccV {
    pub name: Option<Seq<u8>>,
    pub version: Option<Seq<u8>>,
    pub opts: Seq<Seq<u8>>,
    pub build_cmd: Option<Seq<u8>>,
    pub inputs: Seq<InputV>,
    pub output_id: Option<Seq<u8>>,
    pub output_digest: Option<Seq<u8>>,
    pub runtime_deps: Seq<Seq<u8>>,
}

pub open spec fn acc0() -> AccV {
    AccV {
        name: None,
        version: None,
        opts: Seq::empty(),
        build_cmd: None,
        inputs: Seq::empty(),
        output_id: None,
        output_digest: None,
        runtime_deps: Seq::empty(),
    }
}

/// What one line does to the state: skip a comment, extend a field, or fail.
pub open spec fn parse_line(st: AccV, line: Seq<u8>, idx: int) -> Result<AccV, MetaErrV> {
    if line.len() > 0 && line[0] == 35u8 {
        Ok(st)
    } else if find_byte(line, 32u8) == line.len() {
        Err(MetaErrV::MissingField { line: idx as usize })
    } else if find_byte(line, 32u8) != 1 {
        Err(MetaErrV::InvalidType { line: idx as usize })
    } else {
        let tag = line[0];
        let payload = line.skip(2);
        if tag == 110u8 {
            if st.name is Some {
                Err(MetaErrV::DuplicateType { line: idx as usize })
            } else {
                Ok(AccV { name: Some(payload), ..st })
            }
        } else if tag == 118u8 {
            if st.version is Some {
                Err(MetaErrV::DuplicateType { line: idx as usize })
            } else {
                Ok(AccV { version: Some(payload), ..st })
            }
        } else if tag == 120u8 {
            if payload == known_option() {
                Ok(AccV { opts: st.opts.push(payload), ..st })
            } else {
                Err(MetaErrV::InvalidOption { line: idx as usize })
            }
        } else if tag == 98u8 {
            if st.build_cmd is Some {
                Err(MetaErrV::DuplicateType { line: idx as usize })
            } else {
                Ok(AccV { build_cmd: Some(payload), ..st })
            }
        } else if tag == 105u8 {
            let sp = find_byte(payload, 32u8);
            if sp == payload.len() {
                Err(MetaErrV::MissingField { line: idx as usize })
            } else {
                let alias = payload.take(sp);
                let id = payload.skip(sp + 1);
                if id == seq![45u8] {
                    Err(MetaErrV::InvalidId { line: idx as usize })
                } else if exists|k: int| 0 <= k < st.inputs.len() && (#[trigger] st.inputs[k]).alias
                    == alias {
                    Err(MetaErrV::DuplicateAlias { line: idx as usize })
                } else {
                    Ok(AccV { inputs: st.inputs.push(InputV { alias, id }), ..st })
                }
            }
        } else if tag == 111u8 {
            if st.output_id is Some {
                Err(MetaErrV::DuplicateType { line: idx as usize })
            } else {
                Ok(AccV { output_id: Some(payload), ..st })
            }
        } else if tag == 100u8 {
            if st.output_digest is Some {
                Err(MetaErrV::DuplicateType { line: idx as usize })
            } else {
                Ok(AccV { output_digest: Some(payload), ..st })
            }
        } else if tag == 114u8 {
            Ok(AccV { runtime_deps: st.runtime_deps.push(payload), ..st })
        } else {
            Err(MetaErrV::InvalidType { line: idx as usize })
        }
    }
}

/// Folds the lines from `idx` on through the state.
pub open spec fn parse_lines(st: AccV, lines: Seq<Seq<u8>>, idx: int) -> Result<AccV, MetaErrV>
    decreases lines.len(),
{
    if lines.len() == 0 {
        Ok(st)
    } else {
        match parse_line(st, lines[0], idx) {
            Err(e) => Err(e),
            Ok(st2) => parse_lines(st2, lines.skip(1), idx + 1),
        }
    }
}

/// Stable insertion of an input into an alias-sorted run.
pub open spec fn insert_input(s: Seq<InputV>, e: InputV) -> Seq<InputV>
    decreases s.len(),
{
    if s.len() == 0 {
        seq![e]
    } else if lex_le(s.last().alias, e.alias) {
        s.push(e)
    } else {
        insert_input(s.drop_last(), e).push(s.last())
    }
}

/// The inputs sorted ascending by alias.
pub open spec fn sort_inputs(s: Seq<InputV>) -> Seq<InputV>
    decreases s.len(),
{
    if s.len() == 0 {
        Seq::empty()
    } else {
        insert_input(sort_inputs(s.drop_last()), s.last())
    }
}

pub open spec fn msg_missing_digest() -> Seq<u8> {
    // "fixed-digest without digest"
    seq![
        102u8, 105u8, 120u8, 101u8, 100u8, 45u8, 100u8, 105u8, 103u8, 101u8, 115u8, 116u8, 32u8,
        119u8, 105u8, 116u8, 104u8, 111u8, 117u8, 116u8, 32u8, 100u8, 105u8, 103u8, 101u8, 115u8,
        116u8,
    ]
}

pub open spec fn msg_preset_id() -> Seq<u8> {
    // "fixed-digest with preset id"
    seq![
        102u8, 105u8, 120u8, 101u8, 100u8, 45u8, 100u8, 105u8, 103u8, 101u8, 115u8, 116u8, 32u8,
        119u8, 105u8, 116u8, 104u8, 32u8, 112u8, 114u8, 101u8, 115u8, 101u8, 116u8, 32u8, 105u8,
        100u8,
    ]
}

/// What happens at end of input: the inputs are sorted, name and version are
/// owed, the fixed-digest rule is applied, and a missing output id is derived
/// from the canonical projection.
pub open spec fn finalize_acc(st: AccV) -> Result<MetaV, MetaErrV> {
    let sorted = sort_inputs(st.inputs);
    if st.name is None {
        Err(MetaErrV::MissingName)
    } else if st.version is None {
        Err(MetaErrV::MissingVersion)
    } else {
        let m = MetaV {
            name: st.name->0,
            version: st.version->0,
            opts: st.opts,
            build_cmd: st.build_cmd,
            inputs: sorted,
            output_id: st.output_id,
            output_digest: st.output_digest,
            runtime_deps: st.runtime_deps,
        };
        if m.opts.contains(known_option()) {
            if m.output_digest is None {
                Err(MetaErrV::InvalidData { msg: msg_missing_digest() })
            } else if m.output_id is Some {
                Err(MetaErrV::InvalidData { msg: msg_preset_id() })
            } else {
                Ok(MetaV { output_id: Some(m.output_digest->0), ..m })
            }
        } else if m.output_id is None {
            Ok(MetaV { output_id: Some(output_id_of(m)), ..m })
        } else {
            Ok(m)
        }
    }
}

/// The whole parse, from raw text to a record or an error.
pub open spec fn spec_parse(t: Seq<u8>) -> Result<MetaV, MetaErrV> {
    match parse_lines(acc0(), split_lines(t), 0) {
        Err(e) => Err(e),
        Ok(st) => finalize_acc(st),
    }
}

pub open spec fn parse_result_ok(
    r: Result<Meta, MetaParseError>,
    s: Result<MetaV, MetaErrV>,
) -> bool {
    match (r, s) {
        (Ok(m), Ok(mv)) => m@ == mv,
        (Err(e), Err(ev)) => e@ == ev,
        _ => false,
    }
}



// ---------------------------------------------------------------------------
// Executable parsing.
// ---------------------------------------------------------------------------

/// The accumulating state of the executable parser.
struct Acc {
    name: Option<Vec<u8>>,
    version: Option<Vec<u8>>,
    opts: Vec<Vec<u8>>,
    build_cmd: Option<Vec<u8>>,
    inputs: Vec<MetaInput>,
    output_id: Option<Vec<u8>>,
    output_digest: Option<Vec<u8>>,
    runtime_deps: Vec<Vec<u8>>,
}

impl View for Acc {
    type V = AccV;

    closed spec fn view(&self) -> AccV {
        AccV {
            name: opt_bytes_view(self.name),
            version: opt_bytes_view(self.version),
            opts: vecs_view(self.opts@),
            build_cmd: opt_bytes_view(self.build_cmd),
            inputs: inputs_view(self.inputs@),
            output_id: opt_bytes_view(self.output_id),
            output_digest: opt_bytes_view(self.output_digest),
            runtime_deps: vecs_view(self.runtime_deps@),
        }
    }
}

/// Copies a byte vector.
fn dup_bytes(v: &Vec<u8>) -> (r: Vec<u8>)
    ensures
        r@ == v@,
{
    vstd::slice::slice_to_vec(v.as_slice())
}

/// Whether some element of `opts` equals `opt`.
fn opts_contain(opts: &Vec<Vec<u8>>, opt: &[u8]) -> (r: bool)
    ensures
        r == vecs_view(opts@).contains(opt@),
{
    let mut i: usize = 0;
    while i < opts.len()
        invariant
            i <= opts@.len(),
            forall|k: int| 0 <= k < i ==> vecs_view(opts@)[k] != opt@,
        decreases opts@.len() - i,
    {
        if bytes_eq(opts[i].as_slice(), opt) {
            proof {
                assert(vecs_view(opts@)[i as int] == opt@);
            }
            return true;
        }
        i = i + 1;
    }
    proof {
        assert(forall|k: int| 0 <= k < vecs_view(opts@).len() ==> vecs_view(opts@)[k] != opt@);
    }
    false
}

/// Applies one line to the state; an error leaves the state alone.
#[verifier::loop_isolation(false)]
fn parse_one(acc: &mut Acc, line: &Vec<u8>, idx: usize) -> (r: Option<MetaParseError>)
    ensures
        match r {
            None => parse_line(old(acc)@, line@, idx as int) == Ok::<AccV, MetaErrV>(final(acc)@),
            Some(e) => parse_line(old(acc)@, line@, idx as int) == Err::<AccV, MetaErrV>(e@),
        },
{
    if line.len() > 0 && line[0] == 35 {
        return None;
    }
    let sp = find_byte_exec(line.as_slice(), 32);
    if sp == line.len() {
        return Some(MetaParseError::MissingField { line: idx as usize });
    }
    if sp != 1 {
        return Some(MetaParseError::InvalidType { line: idx as usize });
    }
    let tag = line[0];
    let payload = sub_vec(line.as_slice(), 2, line.len());
    proof {
        assert(payload@ =~= line@.skip(2));
    }
    if tag == 110 {
        if acc.name.is_some() {
            return Some(MetaParseError::DuplicateType { line: idx as usize });
        }
        acc.name = Some(payload);
        None
    } else if tag == 118 {
        if acc.version.is_some() {
            return Some(MetaParseError::DuplicateType { line: idx as usize });
        }
        acc.version = Some(payload);
        None
    } else if tag == 120 {
        let opt_word = [
            102u8, 105u8, 120u8, 101u8, 100u8, 45u8, 100u8, 105u8, 103u8, 101u8, 115u8, 116u8,
        ];
        proof {
            assert(opt_word@ =~= known_option());
        }
        if !bytes_eq(payload.as_slice(), opt_word.as_slice()) {
            return Some(MetaParseError::InvalidOption { line: idx as usize });
        }
        acc.opts.push(payload);
        proof {
            assert(vecs_view(acc.opts@) =~= vecs_view(old(acc).opts@).push(line@.skip(2)));
            assert(acc@ =~= (AccV { opts: old(acc)@.opts.push(line@.skip(2)), ..old(acc)@ }));
        }
        None
    } else if tag == 98 {
        if acc.build_cmd.is_some() {
            return Some(MetaParseError::DuplicateType { line: idx as usize });
        }
        acc.build_cmd = Some(payload);
        None
    } else if tag == 105 {
        let sp2 = find_byte_exec(payload.as_slice(), 32);
        if sp2 == payload.len() {
            return Some(MetaParseError::MissingField { line: idx as usize });
        }
        let alias = sub_vec(payload.as_slice(), 0, sp2);
        let id = sub_vec(payload.as_slice(), sp2 + 1, payload.len());
        proof {
            assert(alias@ =~= payload@.take(sp2 as int));
            assert(id@ =~= payload@.skip(sp2 + 1));
        }
        let dash = [45u8];
        proof {
            assert(dash@ =~= seq![45u8]);
        }
        if bytes_eq(id.as_slice(), dash.as_slice()) {
            return Some(MetaParseError::InvalidId { line: idx as usize });
        }
        let mut k: usize = 0;
        while k < acc.inputs.len()
            invariant
                k <= acc.inputs@.len(),
                forall|m: int|
                    0 <= m < k ==> (#[trigger] inputs_view(acc.inputs@)[m]).alias != alias@,
            decreases acc.inputs@.len() - k,
        {
            if bytes_eq(acc.inputs[k].alias.as_slice(), alias.as_slice()) {
                proof {
                    assert(acc@ == old(acc)@);
                    let sa = line@.skip(2).take(find_byte(line@.skip(2), 32u8));
                    assert(alias@ == sa);
                    assert((#[trigger] old(acc)@.inputs[k as int]).alias == sa);
                }
                return Some(MetaParseError::DuplicateAlias { line: idx as usize });
            }
            k = k + 1;
        }
        proof {
            assert(forall|m: int|
                0 <= m < acc@.inputs.len() ==> (#[trigger] acc@.inputs[m]).alias != alias@);
        }
        let entry = MetaInput { alias, id };
        acc.inputs.push(entry);
        proof {
            assert(inputs_view(acc.inputs@) =~= inputs_view(old(acc).inputs@).push(
                InputV { alias: line@.skip(2).take(sp2 as int), id: line@.skip(2).skip(sp2 + 1) },
            ));
            assert(acc@ =~= (AccV {
                inputs: old(acc)@.inputs.push(
                    InputV {
                        alias: line@.skip(2).take(sp2 as int),
                        id: line@.skip(2).skip(sp2 + 1),
                    },
                ),
                ..old(acc)@
            }));
        }
        None
    } else if tag == 111 {
        if acc.output_id.is_some() {
            return Some(MetaParseError::DuplicateType { line: idx as usize });
        }
        acc.output_id = Some(payload);
        None
    } else if tag == 100 {
        if acc.output_digest.is_some() {
            return Some(MetaParseError::DuplicateType { line: idx as usize });
        }
        acc.output_digest = Some(payload);
        None
    } else if tag == 114 {
        acc.runtime_deps.push(payload);
        proof {
            assert(vecs_view(acc.runtime_deps@) =~= vecs_view(old(acc).runtime_deps@).push(
                line@.skip(2),
            ));
            assert(acc@ =~= (AccV {
                runtime_deps: old(acc)@.runtime_deps.push(line@.skip(2)),
                ..old(acc)@
            }));
        }
        None
    } else {
        Some(MetaParseError::InvalidType { line: idx as usize })
    }
}

/// Finds where an input belongs among alias-sorted inputs, from the right.
fn find_input_pos(v: &Vec<MetaInput>, alias: &[u8]) -> (j: usize)
    ensures
        j <= v@.len(),
        forall|m: int|
            j <= m < v@.len() ==> lex_lt(alias@, (#[trigger] inputs_view(v@)[m]).alias),
        j > 0 ==> lex_le(inputs_view(v@)[j - 1].alias, alias@),
{
    let mut j: usize = v.len();
    while j > 0
        invariant_except_break
            j <= v@.len(),
            forall|m: int|
                j <= m < v@.len() ==> lex_lt(alias@, (#[trigger] inputs_view(v@)[m]).alias),
        ensures
            j <= v@.len(),
            forall|m: int|
                j <= m < v@.len() ==> lex_lt(alias@, (#[trigger] inputs_view(v@)[m]).alias),
            j > 0 ==> lex_le(inputs_view(v@)[j - 1].alias, alias@),
        decreases j,
    {
        if !crate::bytes::bytes_lt(alias, v[j - 1].alias.as_slice()) {
            break ;
        }
        j = j - 1;
    }
    j
}

proof fn lemma_insert_input_split(s: Seq<InputV>, e: InputV, j: int)
    requires
        0 <= j <= s.len(),
        forall|m: int| j <= m < s.len() ==> lex_lt(e.alias, (#[trigger] s[m]).alias),
        j > 0 ==> lex_le(s[j - 1].alias, e.alias),
    ensures
        insert_input(s, e) == s.take(j) + seq![e] + s.skip(j),
    decreases s.len(),
{
    if s.len() == 0 {
        assert(insert_input(s, e) =~= s.take(j) + seq![e] + s.skip(j));
    } else if j == s.len() {
        assert(lex_le(s.last().alias, e.alias));
        assert(s.push(e) =~= s.take(j) + seq![e] + s.skip(j));
    } else {
        assert(lex_lt(e.alias, s.last().alias));
        let dl = s.drop_last();
        assert(forall|m: int| j <= m < dl.len() ==> lex_lt(e.alias, (#[trigger] dl[m]).alias));
        assert(j > 0 ==> lex_le(dl[j - 1].alias, e.alias));
        lemma_insert_input_split(dl, e, j);
        assert((dl.take(j) + seq![e] + dl.skip(j)).push(s.last()) =~= s.take(j) + seq![e] + s.skip(
            j,
        ));
    }
}

/// Inserts one input at its sorted position.
fn insert_input_exec(v: &mut Vec<MetaInput>, e: MetaInput)
    ensures
        inputs_view(final(v)@) == insert_input(inputs_view(old(v)@), e@),
{
    let j = find_input_pos(v, e.alias.as_slice());
    let ghost s = inputs_view(old(v)@);
    let ghost ev = e@;
    proof {
        lemma_insert_input_split(s, ev, j as int);
    }
    v.insert(j, e);
    proof {
        assert(v@ =~= old(v)@.take(j as int) + seq![e] + old(v)@.skip(j as int));
        assert(inputs_view(v@) =~= s.take(j as int) + seq![ev] + s.skip(j as int));
    }
}

/// Sorts the inputs ascending by alias.
fn sort_inputs_exec(v: &mut Vec<MetaInput>)
    ensures
        inputs_view(final(v)@) == sort_inputs(inputs_view(old(v)@)),
{
    let ghost s0 = inputs_view(old(v)@);
    let mut out: Vec<MetaInput> = Vec::new();
    let ghost mut k: int = 0;
    proof {
        assert(inputs_view(out@) =~= Seq::<InputV>::empty());
        assert(s0.take(0) =~= Seq::<InputV>::empty());
        assert(sort_inputs(Seq::<InputV>::empty()) == Seq::<InputV>::empty());
        assert(inputs_view(v@) =~= s0.skip(0));
    }
    #[verifier::loop_isolation(false)]
    while v.len() > 0
        invariant
            0 <= k,
            k + v@.len() == s0.len(),
            inputs_view(v@) =~= s0.skip(k),
            inputs_view(out@) == sort_inputs(s0.take(k)),
        decreases v@.len(),
    {
        let ghost pre = v@;
        let e = v.remove(0);
        proof {
            assert(e == pre[0]);
            assert(inputs_view(pre) =~= s0.skip(k));
            assert(e@ == inputs_view(pre)[0]);
            assert(e@ == s0[k]);
            assert(v@ =~= pre.skip(1));
            assert forall|q: int| 0 <= q < v@.len() implies inputs_view(v@)[q] == s0.skip(k + 1)[q]
                by {
                assert(inputs_view(v@)[q] == inputs_view(pre)[q + 1]);
                assert(inputs_view(pre)[q + 1] == s0.skip(k)[q + 1]);
            }
            assert(inputs_view(v@) =~= s0.skip(k + 1));
        }
        insert_input_exec(&mut out, e);
        proof {
            assert(s0.take(k + 1).drop_last() =~= s0.take(k));
            assert(s0.take(k + 1).last() == s0[k]);
            assert(sort_inputs(s0.take(k + 1)) == insert_input(sort_inputs(s0.take(k)), s0[k]));
            k = k + 1;
        }
    }
    proof {
        assert(s0.take(s0.len() as int) =~= s0);
    }
    // the vector is drained; move the sorted entries back
    let mut i: usize = 0;
    let ghost sorted = inputs_view(out@);
    #[verifier::loop_isolation(false)]
    while out.len() > 0
        invariant
            v@.len() + out@.len() == sorted.len(),
            inputs_view(out@) =~= sorted.take(out@.len() as int),
            inputs_view(v@) =~= sorted.skip(out@.len() as int),
        decreases out@.len(),
    {
        let ghost pre_out = out@;
        let ghost pre_v = v@;
        let e = match out.pop() {
            Some(e) => e,
            None => {
                proof {
                    assert(false);
                }
                vstd::pervasive::unreached()
            },
        };
        v.insert(0, e);
        proof {
            let n = pre_out.len() - 1;
            assert(e == pre_out[n]);
            assert(e@ == inputs_view(pre_out)[n]);
            assert(inputs_view(pre_out)[n] == sorted.take(n + 1)[n]);
            assert(e@ == sorted[n]);
            assert(out@ =~= pre_out.take(n));
            assert(inputs_view(out@) =~= sorted.take(n));
            assert(v@ =~= seq![e] + pre_v);
            assert forall|q: int| 0 <= q < v@.len() implies inputs_view(v@)[q] == sorted.skip(n)[q]
                by {
                if q > 0 {
                    assert(inputs_view(v@)[q] == inputs_view(pre_v)[q - 1]);
                    assert(inputs_view(pre_v)[q - 1] == sorted.skip(n + 1)[q - 1]);
                }
            }
            assert(inputs_view(v@) =~= sorted.skip(n));
        }
    }
    proof {
        assert(sorted.skip(0) =~= sorted);
        assert(inputs_view(v@) =~= sorted);
    }
}



fn msg_missing_digest_vec() -> (r: Vec<u8>)
    ensures
        r@ == msg_missing_digest(),
{
    let a = [
        102u8, 105u8, 120u8, 101u8, 100u8, 45u8, 100u8, 105u8, 103u8, 101u8, 115u8, 116u8, 32u8,
        119u8, 105u8, 116u8, 104u8, 111u8, 117u8, 116u8, 32u8, 100u8, 105u8, 103u8, 101u8, 115u8,
        116u8,
    ];
    let v = vstd::slice::slice_to_vec(a.as_slice());
    proof {
        assert(v@ =~= msg_missing_digest());
    }
    v
}

fn msg_preset_id_vec() -> (r: Vec<u8>)
    ensures
        r@ == msg_preset_id(),
{
    let a = [
        102u8, 105u8, 120u8, 101u8, 100u8, 45u8, 100u8, 105u8, 103u8, 101u8, 115u8, 116u8, 32u8,
        119u8, 105u8, 116u8, 104u8, 32u8, 112u8, 114u8, 101u8, 115u8, 101u8, 116u8, 32u8, 105u8,
        100u8,
    ];
    let v = vstd::slice::slice_to_vec(a.as_slice());
    proof {
        assert(v@ =~= msg_preset_id());
    }
    v
}

impl Meta {
    /// Parses a record from its line-oriented text: exactly the lines, tags
    /// and checks of the grammar, then inputs sorted by alias, name and
    /// version owed, the fixed-digest rule applied, and a missing output id
    /// derived from the canonical projection.
    #[verifier::loop_isolation(false)]
    pub fn parse(text: &[u8]) -> (r: Result<Meta, MetaParseError>)
        ensures
            parse_result_ok(r, spec_parse(text@)),
    {
        let lines = split_lines_exec(text);
        let ghost all = split_lines(text@);
        let mut acc = Acc {
            name: None,
            version: None,
            opts: Vec::new(),
            build_cmd: None,
            inputs: Vec::new(),
            output_id: None,
            output_digest: None,
            runtime_deps: Vec::new(),
        };
        proof {
            assert(acc@ =~= acc0());
            assert(all.skip(0) =~= all);
        }
        let mut i: usize = 0;
        while i < lines.len()
            invariant
                i <= lines@.len(),
                vecs_view(lines@) == all,
                parse_lines(acc0(), all, 0) == parse_lines(acc@, all.skip(i as int), i as int),
            decreases lines@.len() - i,
        {
            let ghost pre = acc@;
            let line = &lines[i];
            let r = parse_one(&mut acc, line, i);
            proof {
                assert(all.skip(i as int)[0] == vecs_view(lines@)[i as int]);
                assert(vecs_view(lines@)[i as int] == lines@[i as int]@);
            }
            match r {
                Some(e) => {
                    proof {
                        assert(parse_lines(pre, all.skip(i as int), i as int) == Err::<AccV, MetaErrV>(
                            e@,
                        ));
                    }
                    return Err(e);
                },
                None => (),
            }
            proof {
                assert(all.skip(i as int).skip(1) =~= all.skip(i + 1));
                assert(parse_lines(pre, all.skip(i as int), i as int) == parse_lines(
                    acc@,
                    all.skip(i + 1),
                    i + 1,
                ));
            }
            i = i + 1;
        }
        proof {
            assert(all.skip(i as int) =~= Seq::<Seq<u8>>::empty());
        }
        let ghost st = acc@;
        sort_inputs_exec(&mut acc.inputs);
        let ghost st1 = AccV { inputs: sort_inputs(st.inputs), ..st };
        proof {
            assert(acc@ =~= st1);
        }
        let name = match acc.name {
            Some(n) => n,
            None => {
                return Err(MetaParseError::MissingName);
            },
        };
        let version = match acc.version {
            Some(v) => v,
            None => {
                return Err(MetaParseError::MissingVersion);
            },
        };
        let mut m = Meta {
            name,
            version,
            opts: acc.opts,
            build_cmd: acc.build_cmd,
            inputs: acc.inputs,
            output_id: acc.output_id,
            output_digest: acc.output_digest,
            runtime_deps: acc.runtime_deps,
        };
        let ghost mv = MetaV {
            name: st1.name->0,
            version: st1.version->0,
            opts: st1.opts,
            build_cmd: st1.build_cmd,
            inputs: st1.inputs,
            output_id: st1.output_id,
            output_digest: st1.output_digest,
            runtime_deps: st1.runtime_deps,
        };
        proof {
            assert(m@ =~= mv);
        }
        let opt_word = [
            102u8, 105u8, 120u8, 101u8, 100u8, 45u8, 100u8, 105u8, 103u8, 101u8, 115u8, 116u8,
        ];
        proof {
            assert(opt_word@ =~= known_option());
        }
        let fixed = m._option(opt_word.as_slice());
        if fixed {
            let oid = match &m.output_digest {
                Some(d) => dup_bytes(d),
                None => {
                    return Err(MetaParseError::InvalidData { msg: msg_missing_digest_vec() });
                },
            };
            if m.output_id.is_some() {
                return Err(MetaParseError::InvalidData { msg: msg_preset_id_vec() });
            }
            m.output_id = Some(oid);
            proof {
                assert(m@ =~= (MetaV { output_id: Some(mv.output_digest->0), ..mv }));
            }
            Ok(m)
        } else {
            if m.output_id.is_none() {
                m.set_output_id();
                proof {
                    assert(m@ =~= (MetaV { output_id: Some(output_id_of(mv)), ..mv }));
                }
            }
            Ok(m)
        }
    }
}



// ---------------------------------------------------------------------------
// Laws of the record.
// ---------------------------------------------------------------------------

/// Output-ID stability: two records that agree on name, version, options,
/// inputs and build command earn the same output id, whatever their runtime
/// deps, output digests or preset ids.
pub proof fn lemma_output_id_stability(a: MetaV, b: MetaV)
    requires
        a.name == b.name,
        a.version == b.version,
        a.opts == b.opts,
        a.inputs == b.inputs,
        a.build_cmd == b.build_cmd,
    ensures
        output_id_of(a) == output_id_of(b),
{
    assert(projection_bytes(a) == projection_bytes(b));
}

/// Fixed-digest contract: a record carrying the fixed-digest option must
/// carry an output digest and no preset output id; either violation fails
/// with invalid data, and otherwise the id is taken from the digest.
pub proof fn lemma_fixed_digest_contract(st: AccV)
    requires
        (st.name is Some),
        (st.version is Some),
        st.opts.contains(known_option()),
    ensures
        (st.output_digest is None) ==> finalize_acc(st) == Err::<MetaV, MetaErrV>(
            MetaErrV::InvalidData { msg: msg_missing_digest() },
        ),
        (st.output_digest is Some && st.output_id is Some) ==> finalize_acc(st) == Err::<
            MetaV,
            MetaErrV,
        >(MetaErrV::InvalidData { msg: msg_preset_id() }),
        (st.output_digest is Some && st.output_id is None) ==> (finalize_acc(st) matches Ok(m)
            && m.output_id == st.output_digest),
{
}



// ---------------------------------------------------------------------------
// Round trip: emitted records parse back to themselves.
// ---------------------------------------------------------------------------

proof fn lemma_split_prepend(l: Seq<u8>, rest: Seq<u8>)
    requires
        !l.contains(10u8),
    ensures
        split_lines(l + seq![10u8] + rest) == seq![l] + split_lines(rest),
{
    let t = l + seq![10u8] + rest;
    assert forall|k: int| 0 <= k < l.len() implies t[k] != 10u8 by {
        assert(t[k] == l[k]);
        assert(l[k] != 10u8) by {
            assert(l.contains(l[k]) == false || true);
            if l[k] == 10u8 {
                assert(l.contains(10u8));
            }
        }
    }
    assert(t[l.len() as int] == 10u8);
    lemma_find_byte_is(t, 10u8, l.len() as int);
    assert(t.len() > 0);
    assert(t.take(l.len() as int) =~= l);
    assert(t.skip(l.len() as int + 1) =~= rest);
}

/// Consuming one emitted line advances the parse by one step.
proof fn lemma_parse_step(st: AccV, content: Seq<u8>, rest: Seq<u8>, idx: int)
    requires
        !content.contains(10u8),
    ensures
        parse_lines(st, split_lines(content + seq![10u8] + rest), idx) == (match parse_line(
            st,
            content,
            idx,
        ) {
            Err(e) => Err(e),
            Ok(st2) => parse_lines(st2, split_lines(rest), idx + 1),
        }),
{
    lemma_split_prepend(content, rest);
    let ls = seq![content] + split_lines(rest);
    assert(ls[0] == content);
    assert(ls.skip(1) =~= split_lines(rest));
}

proof fn lemma_opt_lines_head(opts: Seq<Seq<u8>>)
    requires
        opts.len() > 0,
    ensures
        opt_lines(opts) == tag_line(120u8, opts[0]) + opt_lines(opts.skip(1)),
    decreases opts.len(),
{
    if opts.len() == 1 {
        assert(opts.drop_last() =~= Seq::<Seq<u8>>::empty());
        assert(opts.skip(1) =~= Seq::<Seq<u8>>::empty());
        assert(opt_lines(opts) =~= tag_line(120u8, opts[0]) + opt_lines(opts.skip(1)));
    } else {
        let dl = opts.drop_last();
        lemma_opt_lines_head(dl);
        assert(dl[0] == opts[0]);
        assert(opts.skip(1).drop_last() =~= dl.skip(1));
        assert(opts.skip(1).last() == opts.last());
        assert(opt_lines(opts.skip(1)) == opt_lines(dl.skip(1)) + tag_line(120u8, opts.last()));
        assert(opt_lines(opts) =~= tag_line(120u8, opts[0]) + opt_lines(opts.skip(1)));
    }
}

proof fn lemma_input_lines_head(inputs: Seq<InputV>)
    requires
        inputs.len() > 0,
    ensures
        input_lines(inputs) == input_line(inputs[0]) + input_lines(inputs.skip(1)),
    decreases inputs.len(),
{
    if inputs.len() == 1 {
        assert(inputs.drop_last() =~= Seq::<InputV>::empty());
        assert(inputs.skip(1) =~= Seq::<InputV>::empty());
        assert(input_lines(inputs) =~= input_line(inputs[0]) + input_lines(inputs.skip(1)));
    } else {
        let dl = inputs.drop_last();
        lemma_input_lines_head(dl);
        assert(dl[0] == inputs[0]);
        assert(inputs.skip(1).drop_last() =~= dl.skip(1));
        assert(inputs.skip(1).last() == inputs.last());
        assert(input_lines(inputs.skip(1)) == input_lines(dl.skip(1)) + input_line(
            inputs.last(),
        ));
        assert(input_lines(inputs) =~= input_line(inputs[0]) + input_lines(inputs.skip(1)));
    }
}

proof fn lemma_dep_lines_head(deps: Seq<Seq<u8>>)
    requires
        deps.len() > 0,
    ensures
        dep_lines(deps) == tag_line(114u8, deps[0]) + dep_lines(deps.skip(1)),
    decreases deps.len(),
{
    if deps.len() == 1 {
        assert(deps.drop_last() =~= Seq::<Seq<u8>>::empty());
        assert(deps.skip(1) =~= Seq::<Seq<u8>>::empty());
        assert(dep_lines(deps) =~= tag_line(114u8, deps[0]) + dep_lines(deps.skip(1)));
    } else {
        let dl = deps.drop_last();
        lemma_dep_lines_head(dl);
        assert(dl[0] == deps[0]);
        assert(deps.skip(1).drop_last() =~= dl.skip(1));
        assert(deps.skip(1).last() == deps.last());
        assert(dep_lines(deps.skip(1)) == dep_lines(dl.skip(1)) + tag_line(114u8, deps.last()));
        assert(dep_lines(deps) =~= tag_line(114u8, deps[0]) + dep_lines(deps.skip(1)));
    }
}

/// Consuming the emitted option lines pushes each option in turn.
proof fn lemma_parse_opts(st: AccV, opts: Seq<Seq<u8>>, rest: Seq<u8>, idx: int)
    requires
        forall|k: int| 0 <= k < opts.len() ==> #[trigger] opts[k] == known_option(),
    ensures
        parse_lines(st, split_lines(opt_lines(opts) + rest), idx) == parse_lines(
            AccV { opts: st.opts + opts, ..st },
            split_lines(rest),
            idx + opts.len(),
        ),
    decreases opts.len(),
{
    if opts.len() == 0 {
        assert(opt_lines(opts) + rest =~= rest);
        assert(st.opts + opts =~= st.opts);
        assert((AccV { opts: st.opts + opts, ..st }) =~= st);
    } else {
        lemma_opt_lines_head(opts);
        let content = seq![120u8, 32u8] + opts[0];
        assert(!content.contains(10u8)) by {
            assert(opts[0] == known_option());
            if content.contains(10u8) {
                let k = choose|k: int| 0 <= k < content.len() && content[k] == 10u8;
                assert(k >= 2 ==> content[k] == known_option()[k - 2]);
            }
        }
        assert(opt_lines(opts) + rest =~= content + seq![10u8] + (opt_lines(opts.skip(1))
            + rest));
        lemma_parse_step(st, content, opt_lines(opts.skip(1)) + rest, idx);
        assert(content[0] == 120u8);
        assert(content[1] == 32u8);
        lemma_find_byte_is(content, 32u8, 1);
        let payload = content.skip(2);
        assert(payload =~= opts[0]);
        let st2 = AccV { opts: st.opts.push(opts[0]), ..st };
        assert(parse_line(st, content, idx) == Ok::<AccV, MetaErrV>(st2));
        lemma_parse_opts(st2, opts.skip(1), rest, idx + 1);
        assert(st2.opts + opts.skip(1) =~= st.opts + opts);
        assert((AccV { opts: st2.opts + opts.skip(1), ..st2 }) =~= (AccV {
            opts: st.opts + opts,
            ..st
        }));
    }
}

/// Consuming the emitted dep lines pushes each runtime dep in turn.
proof fn lemma_parse_deps(st: AccV, deps: Seq<Seq<u8>>, rest: Seq<u8>, idx: int)
    requires
        forall|k: int| 0 <= k < deps.len() ==> !(#[trigger] deps[k]).contains(10u8),
    ensures
        parse_lines(st, split_lines(dep_lines(deps) + rest), idx) == parse_lines(
            AccV { runtime_deps: st.runtime_deps + deps, ..st },
            split_lines(rest),
            idx + deps.len(),
        ),
    decreases deps.len(),
{
    if deps.len() == 0 {
        assert(dep_lines(deps) + rest =~= rest);
        assert(st.runtime_deps + deps =~= st.runtime_deps);
        assert((AccV { runtime_deps: st.runtime_deps + deps, ..st }) =~= st);
    } else {
        lemma_dep_lines_head(deps);
        let content = seq![114u8, 32u8] + deps[0];
        assert(!content.contains(10u8)) by {
            if content.contains(10u8) {
                let k = choose|k: int| 0 <= k < content.len() && content[k] == 10u8;
                if k >= 2 {
                    assert(deps[0][k - 2] == 10u8);
                    assert(deps[0].contains(10u8));
                }
            }
        }
        assert(dep_lines(deps) + rest =~= content + seq![10u8] + (dep_lines(deps.skip(1))
            + rest));
        lemma_parse_step(st, content, dep_lines(deps.skip(1)) + rest, idx);
        assert(content[0] == 114u8);
        assert(content[1] == 32u8);
        lemma_find_byte_is(content, 32u8, 1);
        let payload = content.skip(2);
        assert(payload =~= deps[0]);
        let st2 = AccV { runtime_deps: st.runtime_deps.push(deps[0]), ..st };
        assert(parse_line(st, content, idx) == Ok::<AccV, MetaErrV>(st2));
        assert(forall|k: int|
            0 <= k < deps.skip(1).len() ==> !(#[trigger] deps.skip(1)[k]).contains(10u8));
        lemma_parse_deps(st2, deps.skip(1), rest, idx + 1);
        assert(st2.runtime_deps + deps.skip(1) =~= st.runtime_deps + deps);
        assert((AccV { runtime_deps: st2.runtime_deps + deps.skip(1), ..st2 }) =~= (AccV {
            runtime_deps: st.runtime_deps + deps,
            ..st
        }));
    }
}

/// One input entry is clean enough to survive a round trip.
pub open spec fn clean_input(i: InputV) -> bool {
    &&& !i.alias.contains(10u8)
    &&& !i.alias.contains(32u8)
    &&& !i.id.contains(10u8)
    &&& i.id != seq![45u8]
}

/// Consuming the emitted input lines pushes each input in turn.
proof fn lemma_parse_inputs(st: AccV, inputs: Seq<InputV>, rest: Seq<u8>, idx: int)
    requires
        forall|k: int| 0 <= k < inputs.len() ==> clean_input(#[trigger] inputs[k]),
        forall|p: int, q: int|
            0 <= p < q < inputs.len() ==> (#[trigger] inputs[p]).alias != (
            #[trigger] inputs[q]).alias,
        forall|p: int, q: int|
            0 <= p < st.inputs.len() && 0 <= q < inputs.len() ==> (
            #[trigger] st.inputs[p]).alias != (#[trigger] inputs[q]).alias,
    ensures
        parse_lines(st, split_lines(input_lines(inputs) + rest), idx) == parse_lines(
            AccV { inputs: st.inputs + inputs, ..st },
            split_lines(rest),
            idx + inputs.len(),
        ),
    decreases inputs.len(),
{
    if inputs.len() == 0 {
        assert(input_lines(inputs) + rest =~= rest);
        assert(st.inputs + inputs =~= st.inputs);
        assert((AccV { inputs: st.inputs + inputs, ..st }) =~= st);
    } else {
        lemma_input_lines_head(inputs);
        let e = inputs[0];
        let content = seq![105u8, 32u8] + e.alias + seq![32u8] + e.id;
        assert(input_line(e) =~= content + seq![10u8]);
        assert(!content.contains(10u8)) by {
            if content.contains(10u8) {
                let k = choose|k: int| 0 <= k < content.len() && content[k] == 10u8;
                if 2 <= k < 2 + e.alias.len() {
                    assert(e.alias[k - 2] == 10u8);
                    assert(e.alias.contains(10u8));
                } else if k >= 3 + e.alias.len() {
                    assert(e.id[k - 3 - e.alias.len()] == 10u8);
                    assert(e.id.contains(10u8));
                }
            }
        }
        assert(input_lines(inputs) + rest =~= content + seq![10u8] + (input_lines(inputs.skip(1))
            + rest));
        lemma_parse_step(st, content, input_lines(inputs.skip(1)) + rest, idx);
        assert(content[0] == 105u8);
        assert(content[1] == 32u8);
        lemma_find_byte_is(content, 32u8, 1);
        let payload = content.skip(2);
        assert(payload =~= e.alias + seq![32u8] + e.id);
        assert forall|k: int| 0 <= k < e.alias.len() implies payload[k] != 32u8 by {
            assert(payload[k] == e.alias[k]);
            if e.alias[k] == 32u8 {
                assert(e.alias.contains(32u8));
            }
        }
        assert(payload[e.alias.len() as int] == 32u8);
        lemma_find_byte_is(payload, 32u8, e.alias.len() as int);
        assert(payload.take(e.alias.len() as int) =~= e.alias);
        assert(payload.skip(e.alias.len() as int + 1) =~= e.id);
        assert(!(exists|k: int|
            0 <= k < st.inputs.len() && (#[trigger] st.inputs[k]).alias == e.alias));
        let st2 = AccV { inputs: st.inputs.push(InputV { alias: e.alias, id: e.id }), ..st };
        assert((InputV { alias: e.alias, id: e.id }) =~= e);
        assert(parse_line(st, content, idx) == Ok::<AccV, MetaErrV>(st2));
        assert(forall|k: int|
            0 <= k < inputs.skip(1).len() ==> clean_input(#[trigger] inputs.skip(1)[k]));
        assert forall|p: int, q: int|
            0 <= p < q < inputs.skip(1).len() implies (#[trigger] inputs.skip(1)[p]).alias != (
        #[trigger] inputs.skip(1)[q]).alias by {
            assert(inputs.skip(1)[p] == inputs[p + 1]);
            assert(inputs.skip(1)[q] == inputs[q + 1]);
        }
        assert forall|p: int, q: int|
            0 <= p < st2.inputs.len() && 0 <= q < inputs.skip(1).len() implies (
        #[trigger] st2.inputs[p]).alias != (#[trigger] inputs.skip(1)[q]).alias by {
            assert(inputs.skip(1)[q] == inputs[q + 1]);
            if p < st.inputs.len() {
                assert(st2.inputs[p] == st.inputs[p]);
            } else {
                assert(st2.inputs[p] == e);
            }
        }
        lemma_parse_inputs(st2, inputs.skip(1), rest, idx + 1);
        assert(st2.inputs + inputs.skip(1) =~= st.inputs + inputs);
        assert((AccV { inputs: st2.inputs + inputs.skip(1), ..st2 }) =~= (AccV {
            inputs: st.inputs + inputs,
            ..st
        }));
    }
}



/// A record in the shape that a successful parse leaves behind: fields free
/// of newlines, options all recognized, inputs clean, alias-sorted and
/// distinct, and the output id filled in.
pub open spec fn clean_record(m: MetaV) -> bool {
    &&& !m.name.contains(10u8)
    &&& !m.version.contains(10u8)
    &&& forall|k: int| 0 <= k < m.opts.len() ==> #[trigger] m.opts[k] == known_option()
    &&& (match m.build_cmd {
        Some(b) => !b.contains(10u8),
        None => true,
    })
    &&& forall|k: int| 0 <= k < m.inputs.len() ==> clean_input(#[trigger] m.inputs[k])
    &&& (forall|p: int, q: int|
        0 <= p < q < m.inputs.len() ==> (#[trigger] m.inputs[p]).alias != (
        #[trigger] m.inputs[q]).alias)
    &&& (forall|p: int, q: int|
        0 <= p < q < m.inputs.len() ==> lex_le(
            (#[trigger] m.inputs[p]).alias,
            (#[trigger] m.inputs[q]).alias,
        ))
    &&& (match m.output_id {
        Some(o) => !o.contains(10u8),
        None => false,
    })
    &&& (match m.output_digest {
        Some(d) => !d.contains(10u8),
        None => true,
    })
    &&& forall|k: int| 0 <= k < m.runtime_deps.len() ==> !(#[trigger] m.runtime_deps[k]).contains(
        10u8,
    )
}

/// Sorting already alias-sorted inputs changes nothing.
proof fn lemma_sort_inputs_id(s: Seq<InputV>)
    requires
        forall|p: int, q: int|
            0 <= p < q < s.len() ==> lex_le((#[trigger] s[p]).alias, (#[trigger] s[q]).alias),
    ensures
        sort_inputs(s) == s,
    decreases s.len(),
{
    if s.len() > 0 {
        let dl = s.drop_last();
        assert(forall|p: int, q: int|
            0 <= p < q < dl.len() ==> lex_le((#[trigger] dl[p]).alias, (#[trigger] dl[q]).alias));
        lemma_sort_inputs_id(dl);
        if dl.len() == 0 {
            assert(sort_inputs(s) =~= s);
        } else {
            assert(lex_le(s[s.len() - 2].alias, s[s.len() - 1].alias));
            assert(dl.last() == s[s.len() - 2]);
            assert(insert_input(dl, s.last()) == dl.push(s.last()));
            assert(dl.push(s.last()) =~= s);
        }
    }
}

/// A clean record's emitted text parses back to the record itself.
#[verifier::rlimit(60)]
proof fn lemma_round_trip_clean(m: MetaV)
    requires
        clean_record(m),
        !m.opts.contains(known_option()),
    ensures
        spec_parse(emit_bytes(m)) == Ok::<MetaV, MetaErrV>(m),
{
    let t = emit_bytes(m);
    let o = m.output_id->0;
    let r7 = dep_lines(m.runtime_deps);
    let r6 = (match m.output_digest {
        Some(d) => tag_line(100u8, d),
        None => Seq::<u8>::empty(),
    }) + r7;
    let r5 = tag_line(111u8, o) + r6;
    let r4 = (match m.build_cmd {
        Some(b) => tag_line(98u8, b),
        None => Seq::<u8>::empty(),
    }) + r5;
    let r3 = input_lines(m.inputs) + r4;
    let r2 = opt_lines(m.opts) + r3;
    let nc = seq![110u8, 32u8] + m.name;
    let vc = seq![118u8, 32u8] + m.version;
    let r1 = vc + seq![10u8] + r2;
    assert(t =~= nc + seq![10u8] + r1);

    // n line
    assert(!nc.contains(10u8)) by {
        if nc.contains(10u8) {
            let k = choose|k: int| 0 <= k < nc.len() && nc[k] == 10u8;
            if k >= 2 {
                assert(m.name[k - 2] == 10u8);
                assert(m.name.contains(10u8));
            }
        }
    }
    lemma_parse_step(acc0(), nc, r1, 0);
    lemma_find_byte_is(nc, 32u8, 1);
    assert(nc.skip(2) =~= m.name);
    let st1 = AccV { name: Some(m.name), ..acc0() };
    assert(parse_line(acc0(), nc, 0) == Ok::<AccV, MetaErrV>(st1));

    // v line
    assert(!vc.contains(10u8)) by {
        if vc.contains(10u8) {
            let k = choose|k: int| 0 <= k < vc.len() && vc[k] == 10u8;
            if k >= 2 {
                assert(m.version[k - 2] == 10u8);
                assert(m.version.contains(10u8));
            }
        }
    }
    lemma_parse_step(st1, vc, r2, 1);
    lemma_find_byte_is(vc, 32u8, 1);
    assert(vc.skip(2) =~= m.version);
    let st2 = AccV { version: Some(m.version), ..st1 };
    assert(parse_line(st1, vc, 1) == Ok::<AccV, MetaErrV>(st2));

    // x lines
    lemma_parse_opts(st2, m.opts, r3, 2);
    let st3 = AccV { opts: st2.opts + m.opts, ..st2 };
    assert(st2.opts + m.opts =~= m.opts);

    // i lines
    lemma_parse_inputs(st3, m.inputs, r4, 2 + m.opts.len() as int);
    let st4 = AccV { inputs: st3.inputs + m.inputs, ..st3 };
    assert(st3.inputs + m.inputs =~= m.inputs);
    let idx4: int = 2 + m.opts.len() as int + m.inputs.len() as int;

    // b line, if any
    let st5 = AccV { build_cmd: m.build_cmd, ..st4 };
    let idx5: int = (match m.build_cmd {
        Some(b) => idx4 + 1,
        None => idx4,
    });
    match m.build_cmd {
        Some(b) => {
            let bc = seq![98u8, 32u8] + b;
            assert(!bc.contains(10u8)) by {
                if bc.contains(10u8) {
                    let k = choose|k: int| 0 <= k < bc.len() && bc[k] == 10u8;
                    if k >= 2 {
                        assert(b[k - 2] == 10u8);
                        assert(b.contains(10u8));
                    }
                }
            }
            assert(r4 =~= bc + seq![10u8] + r5);
            lemma_parse_step(st4, bc, r5, idx4);
            lemma_find_byte_is(bc, 32u8, 1);
            assert(bc.skip(2) =~= b);
            assert(parse_line(st4, bc, idx4) == Ok::<AccV, MetaErrV>(st5));
        },
        None => {
            assert(r4 =~= r5);
            assert(st5 =~= st4);
        },
    }

    // o line
    let oc = seq![111u8, 32u8] + o;
    assert(!oc.contains(10u8)) by {
        if oc.contains(10u8) {
            let k = choose|k: int| 0 <= k < oc.len() && oc[k] == 10u8;
            if k >= 2 {
                assert(o[k - 2] == 10u8);
                assert(o.contains(10u8));
            }
        }
    }
    assert(r5 =~= oc + seq![10u8] + r6);
    lemma_parse_step(st5, oc, r6, idx5);
    lemma_find_byte_is(oc, 32u8, 1);
    assert(oc.skip(2) =~= o);
    let st6 = AccV { output_id: Some(o), ..st5 };
    assert(parse_line(st5, oc, idx5) == Ok::<AccV, MetaErrV>(st6));

    // d line, if any
    let st7 = AccV { output_digest: m.output_digest, ..st6 };
    let idx7: int = (match m.output_digest {
        Some(d) => idx5 + 2,
        None => idx5 + 1,
    });
    match m.output_digest {
        Some(d) => {
            let dc = seq![100u8, 32u8] + d;
            assert(!dc.contains(10u8)) by {
                if dc.contains(10u8) {
                    let k = choose|k: int| 0 <= k < dc.len() && dc[k] == 10u8;
                    if k >= 2 {
                        assert(d[k - 2] == 10u8);
                        assert(d.contains(10u8));
                    }
                }
            }
            assert(r6 =~= dc + seq![10u8] + r7);
            lemma_parse_step(st6, dc, r7, idx5 + 1);
            lemma_find_byte_is(dc, 32u8, 1);
            assert(dc.skip(2) =~= d);
            assert(parse_line(st6, dc, idx5 + 1) == Ok::<AccV, MetaErrV>(st7));
        },
        None => {
            assert(r6 =~= r7);
            assert(st7 =~= st6);
        },
    }

    // r lines
    assert(r7 =~= dep_lines(m.runtime_deps) + Seq::<u8>::empty());
    lemma_parse_deps(st7, m.runtime_deps, Seq::<u8>::empty(), idx7);
    let st8 = AccV { runtime_deps: st7.runtime_deps + m.runtime_deps, ..st7 };
    assert(st7.runtime_deps + m.runtime_deps =~= m.runtime_deps);
    assert(split_lines(Seq::<u8>::empty()) =~= Seq::<Seq<u8>>::empty());
    assert(parse_lines(st8, Seq::<Seq<u8>>::empty(), idx7 + m.runtime_deps.len() as int) == Ok::<
        AccV,
        MetaErrV,
    >(st8));
    assert(parse_lines(acc0(), split_lines(t), 0) == Ok::<AccV, MetaErrV>(st8));

    // finalize
    lemma_sort_inputs_id(st8.inputs);
    assert(st8.name is Some);
    assert(st8.version is Some);
    assert(!st8.opts.contains(known_option()));
    assert(st8.output_id is Some);
    let mfinal = (match finalize_acc(st8) {
        Ok(x) => x,
        Err(_) => m,
    });
    assert(finalize_acc(st8) == Ok::<MetaV, MetaErrV>(mfinal));
    assert(mfinal =~= m);
}



proof fn lemma_split_lines_no_nl(t: Seq<u8>)
    ensures
        forall|k: int|
            0 <= k < split_lines(t).len() ==> !(#[trigger] split_lines(t)[k]).contains(10u8),
    decreases t.len(),
{
    if t.len() > 0 {
        lemma_find_byte(t, 10u8);
        let i = find_byte(t, 10u8);
        if i == t.len() {
            assert forall|k: int|
                0 <= k < split_lines(t).len() implies !(#[trigger] split_lines(t)[k]).contains(
                10u8,
            ) by {
                assert(split_lines(t)[k] == t);
                if t.contains(10u8) {
                    let p = choose|p: int| 0 <= p < t.len() && t[p] == 10u8;
                }
            }
        } else {
            lemma_split_lines_no_nl(t.skip(i + 1));
            assert forall|k: int|
                0 <= k < split_lines(t).len() implies !(#[trigger] split_lines(t)[k]).contains(
                10u8,
            ) by {
                if k == 0 {
                    assert(split_lines(t)[0] == t.take(i));
                    if t.take(i).contains(10u8) {
                        let p = choose|p: int| 0 <= p < i && t.take(i)[p] == 10u8;
                        assert(t[p] == 10u8);
                    }
                } else {
                    assert(split_lines(t)[k] == split_lines(t.skip(i + 1))[k - 1]);
                }
            }
        }
    }
}

/// The state a parse run maintains: every accumulated field is clean.
pub open spec fn clean_acc(st: AccV) -> bool {
    &&& (match st.name {
        Some(x) => !x.contains(10u8),
        None => true,
    })
    &&& (match st.version {
        Some(x) => !x.contains(10u8),
        None => true,
    })
    &&& forall|k: int| 0 <= k < st.opts.len() ==> #[trigger] st.opts[k] == known_option()
    &&& (match st.build_cmd {
        Some(x) => !x.contains(10u8),
        None => true,
    })
    &&& forall|k: int| 0 <= k < st.inputs.len() ==> clean_input(#[trigger] st.inputs[k])
    &&& (forall|p: int, q: int|
        0 <= p < q < st.inputs.len() ==> (#[trigger] st.inputs[p]).alias != (
        #[trigger] st.inputs[q]).alias)
    &&& (match st.output_id {
        Some(x) => !x.contains(10u8),
        None => true,
    })
    &&& (match st.output_digest {
        Some(x) => !x.contains(10u8),
        None => true,
    })
    &&& forall|k: int|
        0 <= k < st.runtime_deps.len() ==> !(#[trigger] st.runtime_deps[k]).contains(10u8)
}

proof fn lemma_subrange_no_byte(x: Seq<u8>, a: int, b: int, c: u8)
    requires
        !x.contains(c),
        0 <= a <= b <= x.len(),
    ensures
        !x.subrange(a, b).contains(c),
{
    if x.subrange(a, b).contains(c) {
        let p = choose|p: int| 0 <= p < b - a && x.subrange(a, b)[p] == c;
        assert(x[a + p] == c);
    }
}

proof fn lemma_parse_line_clean(st: AccV, line: Seq<u8>, idx: int)
    requires
        clean_acc(st),
        !line.contains(10u8),
    ensures
        (parse_line(st, line, idx) matches Ok(st2) ==> clean_acc(st2)),
{
    if parse_line(st, line, idx) is Ok {
        let st2 = parse_line(st, line, idx)->Ok_0;
        if line.len() > 0 && line[0] == 35u8 {
        } else {
            lemma_find_byte(line, 32u8);
            let payload = line.skip(2);
            if find_byte(line, 32u8) == 1 {
                lemma_subrange_no_byte(line, 2, line.len() as int, 10u8);
                assert(!payload.contains(10u8));
                let tag = line[0];
                if tag == 105u8 {
                    lemma_find_byte(payload, 32u8);
                    let sp = find_byte(payload, 32u8);
                    if sp < payload.len() {
                        let alias = payload.take(sp);
                        let id = payload.skip(sp + 1);
                        lemma_subrange_no_byte(payload, 0, sp, 10u8);
                        lemma_subrange_no_byte(payload, sp + 1, payload.len() as int, 10u8);
                        assert(!alias.contains(32u8)) by {
                            if alias.contains(32u8) {
                                let p = choose|p: int| 0 <= p < sp && alias[p] == 32u8;
                                assert(payload[p] == 32u8);
                            }
                        }
                        if parse_line(st, line, idx) is Ok {
                            assert forall|p: int, q: int|
                                0 <= p < q < st2.inputs.len() implies (
                            #[trigger] st2.inputs[p]).alias != (#[trigger] st2.inputs[q]).alias by {
                                if q == st2.inputs.len() - 1 {
                                    assert(st2.inputs[p] == st.inputs[p]);
                                }
                            }
                        }
                    }
                }
            }
        }
    }
}

proof fn lemma_parse_lines_clean(st: AccV, lines: Seq<Seq<u8>>, idx: int)
    requires
        clean_acc(st),
        forall|k: int| 0 <= k < lines.len() ==> !(#[trigger] lines[k]).contains(10u8),
    ensures
        (parse_lines(st, lines, idx) matches Ok(st2) ==> clean_acc(st2)),
    decreases lines.len(),
{
    if lines.len() > 0 {
        lemma_parse_line_clean(st, lines[0], idx);
        match parse_line(st, lines[0], idx) {
            Err(_) => {},
            Ok(stm) => {
                assert(forall|k: int|
                    0 <= k < lines.skip(1).len() ==> !(#[trigger] lines.skip(1)[k]).contains(
                        10u8,
                    ));
                lemma_parse_lines_clean(stm, lines.skip(1), idx + 1);
            },
        }
    }
}

/// The insertion only splices the input somewhere into the run.
proof fn lemma_insert_input_shape(s: Seq<InputV>, e: InputV)
    ensures
        exists|j: int| 0 <= j <= s.len() && insert_input(s, e) == s.take(j) + seq![e] + s.skip(j),
    decreases s.len(),
{
    if s.len() == 0 {
        assert(insert_input(s, e) =~= s.take(0) + seq![e] + s.skip(0));
    } else if lex_le(s.last().alias, e.alias) {
        let j = s.len() as int;
        assert(s.push(e) =~= s.take(j) + seq![e] + s.skip(j));
        assert(insert_input(s, e) == s.take(j) + seq![e] + s.skip(j));
    } else {
        let dl = s.drop_last();
        lemma_insert_input_shape(dl, e);
        let j = choose|j: int|
            0 <= j <= dl.len() && insert_input(dl, e) == dl.take(j) + seq![e] + dl.skip(j);
        assert((dl.take(j) + seq![e] + dl.skip(j)).push(s.last()) =~= s.take(j) + seq![e] + s.skip(
            j,
        ));
        assert(insert_input(s, e) == s.take(j) + seq![e] + s.skip(j));
    }
}

proof fn lemma_insert_input_sorted(s: Seq<InputV>, e: InputV)
    requires
        forall|p: int, q: int|
            0 <= p < q < s.len() ==> lex_le((#[trigger] s[p]).alias, (#[trigger] s[q]).alias),
    ensures
        forall|p: int, q: int|
            0 <= p < q < insert_input(s, e).len() ==> lex_le(
                (#[trigger] insert_input(s, e)[p]).alias,
                (#[trigger] insert_input(s, e)[q]).alias,
            ),
    decreases s.len(),
{
    if s.len() == 0 {
    } else if lex_le(s.last().alias, e.alias) {
        let r = s.push(e);
        assert forall|p: int, q: int| 0 <= p < q < r.len() implies lex_le(
            (#[trigger] r[p]).alias,
            (#[trigger] r[q]).alias,
        ) by {
            if q == r.len() - 1 {
                if p < s.len() - 1 {
                    assert(lex_le(s[p].alias, s[s.len() - 1].alias));
                    crate::bytes::lemma_lex_le_trans(s[p].alias, s.last().alias, e.alias);
                }
            }
        }
    } else {
        let dl = s.drop_last();
        assert(forall|p: int, q: int|
            0 <= p < q < dl.len() ==> lex_le((#[trigger] dl[p]).alias, (#[trigger] dl[q]).alias));
        lemma_insert_input_sorted(dl, e);
        let t = insert_input(dl, e);
        lemma_insert_input_shape(dl, e);
        let j = choose|j: int|
            0 <= j <= dl.len() && insert_input(dl, e) == dl.take(j) + seq![e] + dl.skip(j);
        assert forall|p: int| 0 <= p < t.len() implies lex_le(
            (#[trigger] t[p]).alias,
            s.last().alias,
        ) by {
            if p < j {
                assert(t[p] == s[p]);
                assert(lex_le(s[p].alias, s[s.len() - 1].alias));
            } else if p == j {
                assert(t[p] == e);
                crate::bytes::lemma_lex_lt_le(e.alias, s.last().alias);
            } else {
                assert(t[p] == s[p - 1]);
                assert(lex_le(s[p - 1].alias, s[s.len() - 1].alias));
            }
        }
        let r = t.push(s.last());
        assert(insert_input(s, e) == r);
        assert forall|p: int, q: int| 0 <= p < q < r.len() implies lex_le(
            (#[trigger] r[p]).alias,
            (#[trigger] r[q]).alias,
        ) by {
            if q < r.len() - 1 {
                assert(lex_le(t[p].alias, t[q].alias));
            } else {
                assert(r[p] == t[p]);
            }
        }
    }
}

/// Every input of the sorted run was an input of the original run.
proof fn lemma_sort_inputs_elements(s: Seq<InputV>)
    ensures
        forall|v: InputV| sort_inputs(s).contains(v) ==> s.contains(v),
        sort_inputs(s).len() == s.len(),
    decreases s.len(),
{
    if s.len() > 0 {
        let dl = s.drop_last();
        lemma_sort_inputs_elements(dl);
        lemma_insert_input_shape(sort_inputs(dl), s.last());
        let t = sort_inputs(dl);
        let j = choose|j: int|
            0 <= j <= t.len() && insert_input(t, s.last()) == t.take(j) + seq![s.last()] + t.skip(
                j,
            );
        assert forall|v: InputV| sort_inputs(s).contains(v) implies s.contains(v) by {
            let p = choose|p: int| 0 <= p < sort_inputs(s).len() && sort_inputs(s)[p] == v;
            if p == j {
                assert(v == s.last());
                assert(s[s.len() - 1] == v);
            } else {
                let p2 = if p < j {
                    p
                } else {
                    p - 1
                };
                assert(t[p2] == v);
                assert(t.contains(v));
                assert(dl.contains(v));
                let q = choose|q: int| 0 <= q < dl.len() && dl[q] == v;
                assert(s[q] == v);
            }
        }
    }
}

/// Sorting clean, alias-distinct inputs keeps them clean and distinct and
/// leaves them alias-sorted.
proof fn lemma_sort_inputs_clean(s: Seq<InputV>)
    requires
        forall|k: int| 0 <= k < s.len() ==> clean_input(#[trigger] s[k]),
        forall|p: int, q: int|
            0 <= p < q < s.len() ==> (#[trigger] s[p]).alias != (#[trigger] s[q]).alias,
    ensures
        forall|k: int| 0 <= k < sort_inputs(s).len() ==> clean_input(#[trigger] sort_inputs(s)[k]),
        forall|p: int, q: int|
            0 <= p < q < sort_inputs(s).len() ==> (#[trigger] sort_inputs(s)[p]).alias != (
            #[trigger] sort_inputs(s)[q]).alias,
        forall|p: int, q: int|
            0 <= p < q < sort_inputs(s).len() ==> lex_le(
                (#[trigger] sort_inputs(s)[p]).alias,
                (#[trigger] sort_inputs(s)[q]).alias,
            ),
    decreases s.len(),
{
    if s.len() > 0 {
        let dl = s.drop_last();
        lemma_sort_inputs_clean(dl);
        lemma_sort_inputs_elements(dl);
        lemma_insert_input_sorted(sort_inputs(dl), s.last());
        lemma_insert_input_shape(sort_inputs(dl), s.last());
        let t = sort_inputs(dl);
        let j = choose|j: int|
            0 <= j <= t.len() && insert_input(t, s.last()) == t.take(j) + seq![s.last()] + t.skip(
                j,
            );
        let r = sort_inputs(s);
        assert forall|k: int| 0 <= k < r.len() implies clean_input(#[trigger] r[k]) by {
            if k == j {
                assert(r[k] == s.last());
            } else {
                let k2 = if k < j {
                    k
                } else {
                    k - 1
                };
                assert(r[k] == t[k2]);
            }
        }
        assert forall|p: int, q: int| 0 <= p < q < r.len() implies (#[trigger] r[p]).alias != (
        #[trigger] r[q]).alias by {
            if p == j || q == j {
                let other = if p == j {
                    q
                } else {
                    p
                };
                let o2 = if other < j {
                    other
                } else {
                    other - 1
                };
                assert(r[other] == t[o2]);
                assert(t.contains(t[o2]));
                assert(dl.contains(t[o2]));
                let w = choose|w: int| 0 <= w < dl.len() && dl[w] == t[o2];
                assert(s[w] == t[o2]);
                assert(s[w].alias != s[s.len() - 1].alias);
            } else {
                let p2 = if p < j {
                    p
                } else {
                    p - 1
                };
                let q2 = if q < j {
                    q
                } else {
                    q - 1
                };
                assert(r[p] == t[p2]);
                assert(r[q] == t[q2]);
            }
        }
    }
}

proof fn lemma_finalize_clean(st: AccV)
    requires
        clean_acc(st),
        !st.opts.contains(known_option()),
    ensures
        (finalize_acc(st) matches Ok(m) ==> clean_record(m)),
{
    if finalize_acc(st) is Ok {
        let m = finalize_acc(st)->Ok_0;
        lemma_sort_inputs_clean(st.inputs);
        if st.output_id is None {
            let m0 = MetaV {
                name: st.name->0,
                version: st.version->0,
                opts: st.opts,
                build_cmd: st.build_cmd,
                inputs: sort_inputs(st.inputs),
                output_id: st.output_id,
                output_digest: st.output_digest,
                runtime_deps: st.runtime_deps,
            };
            assert(m.output_id == Some(output_id_of(m0)));
            crate::hash::lemma_digest_no_newline(crate::hash::sha3_of(projection_bytes(m0)));
        }
    }
}

/// Meta round-trip: a record that parsed successfully, re-emitted and parsed
/// again, comes back unchanged — its inputs are already in canonical order
/// and its output id already filled. Records carrying the fixed-digest
/// option are the one exception: their emitted form holds both the digest
/// and the id taken from it, which the fixed-digest rule rejects on a
/// second parse.
pub proof fn lemma_meta_round_trip(t: Seq<u8>, m: MetaV)
    requires
        spec_parse(t) == Ok::<MetaV, MetaErrV>(m),
        !m.opts.contains(known_option()),
    ensures
        spec_parse(emit_bytes(m)) == Ok::<MetaV, MetaErrV>(m),
{
    let st = (match parse_lines(acc0(), split_lines(t), 0) {
        Ok(st) => st,
        Err(_) => acc0(),
    });
    assert(parse_lines(acc0(), split_lines(t), 0) == Ok::<AccV, MetaErrV>(st));
    lemma_split_lines_no_nl(t);
    lemma_parse_lines_clean(acc0(), split_lines(t), 0);
    assert(clean_acc(st));
    assert(m.opts == st.opts);
    lemma_finalize_clean(st);
    assert(clean_record(m));
    lemma_round_trip_clean(m);
}


} // verus!

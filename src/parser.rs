//! The pull parser: a cursor over a byte source that yields the start and
//! end of each node record, the attributes of the node just started, and
//! finally the footer.

use vstd::prelude::*;
use vstd::utf8::{decode_utf8, valid_utf8};
use crate::attribute::{model_type, le_u16, le_u32, read_u16_le, read_u32_le, ArrayAttributeHeader, AttributeValue};
use crate::decode::{
    decode_array_payload, decode_bool_byte, decode_fixed, decode_special, fixed_size,
    is_array_code, is_fixed_code, string_from_utf8, CODE_ARR_BOOL, CODE_ARR_F32, CODE_ARR_F64,
    CODE_ARR_I32, CODE_ARR_I64, CODE_BINARY, CODE_BOOL, CODE_F32, CODE_F64, CODE_I16, CODE_I32,
    CODE_I64, CODE_STRING,
};
use crate::error::{ParseError, Warning};
use crate::frame::{
    all_zero, attribute_at, bytes_equal, fbx_magic, footer_padding_len, footer_tail_bytes,
    header_size, header_size_of, magic_bytes, node_header, Decoded, FbxFooter, NodeHeader,
    MAGIC_LEN,
};
use crate::source::ParserSource;
use crate::visitor::{visit_value, VisitAttribute};

verus! {

/// What the file header at offset `p` gives: the version, or the error.
pub open spec fn file_header(d: Seq<u8>, p: int) -> Result<u16, ParseError> {
    if p + 23 > d.len() {
        Err(ParseError::UnexpectedEof)
    } else if d.subrange(p, p + 23) != fbx_magic() {
        Err(ParseError::InvalidMagic)
    } else if p + 25 > d.len() {
        Err(ParseError::UnexpectedEof)
    } else {
        let v = le_u16(d, p + 23);
        if 7000 <= v <= 7999 {
            Ok(v as u16)
        } else {
            Err(ParseError::UnsupportedVersion(v as u32))
        }
    }
}

/// A node whose record is being read.
#[derive(Debug, Clone, Copy, PartialEq, Eq, Structural)]
pub struct OpenNode {
    /// Offset right after the record.
    pub end_offset: u64,
    /// Offset right after the attribute block.
    pub attributes_end: u64,
}

/// The attributes of the node just started that are still to be read.
#[derive(Debug, Clone, Copy, PartialEq, Eq, Structural)]
pub struct PendingAttributes {
    /// How many are left.
    pub remaining: u64,
    /// Offset right after the attribute block.
    pub end: u64,
}

/// The start of a node record.
#[derive(Debug, Clone, PartialEq, Eq)]
pub struct StartNode {
    /// The node name.
    pub name: String,
    /// The number of attributes the node declares.
    pub num_attributes: u64,
}

/// An event of the parser.
#[derive(Debug, Clone, PartialEq, Eq)]
pub enum Event {
    /// A node record begins; its attributes may be read next.
    StartNode(StartNode),
    /// The innermost open node ends.
    EndNode,
    /// The file ends; the footer has been read.
    EndFbx(FbxFooter),
}

/// What reading the next attribute of a pending block gives.
pub open spec fn attribute_step(d: Seq<u8>, p: int, a: PendingAttributes) -> Decoded {
    if p >= a.end {
        Decoded::Failure(ParseError::AttributeCountMismatch)
    } else {
        match attribute_at(d, p) {
            Decoded::Value { value, end, warning } => {
                if end > a.end || (a.remaining == 1 && end != a.end) {
                    Decoded::Failure(ParseError::NodeLengthMismatch)
                } else {
                    Decoded::Value { value, end, warning }
                }
            },
            f => f,
        }
    }
}

/// The values of the `n` attributes that start at `p`, in a block that ends
/// at `end`, as far as they decode.
pub open spec fn attribute_values(d: Seq<u8>, p: int, n: nat, end: u64) -> Seq<crate::attribute::AttributeModel>
    decreases n,
{
    if n == 0 {
        Seq::empty()
    } else {
        match attribute_step(d, p, PendingAttributes { remaining: n as u64, end }) {
            Decoded::Value { value, end: e, warning } => seq![value] + attribute_values(d, e, (n - 1) as nat, end),
            Decoded::Failure(_) => Seq::empty(),
        }
    }
}

/// The record at offset `c` is a node named `name` whose attributes, every
/// one of them decoded, are `attrs`.
pub open spec fn record_holds(d: Seq<u8>, wide: bool, c: int, name: Seq<char>, attrs: Seq<crate::attribute::AttributeModel>) -> bool {
    let hs = header_size(wide);
    let h = node_header(d.subrange(c, c + hs), wide);
    let a = c + hs + h.bytelen_name;
    &&& !h.spec_is_null()
    &&& name == decode_utf8(d.subrange(c + hs, a))
    &&& attrs == attribute_values(d, a, h.num_attributes as nat, (a + h.bytelen_attributes) as u64)
    &&& attrs.len() == h.num_attributes
}

/// The record at offset `c` is a node named `name` whose attributes start
/// at `a` and are described by `pending`.
pub open spec fn record_header(d: Seq<u8>, wide: bool, c: int, name: Seq<char>, a: int, pending: PendingAttributes) -> bool {
    let hs = header_size(wide);
    let h = node_header(d.subrange(c, c + hs), wide);
    &&& !h.spec_is_null()
    &&& a == c + hs + h.bytelen_name
    &&& name == decode_utf8(d.subrange(c + hs, a))
    &&& pending.remaining == h.num_attributes
    &&& pending.end == (a + h.bytelen_attributes) as u64
}

/// The error that reading the footer at offset `p` meets, if the source
/// delivers every byte asked for.
pub open spec fn footer_error(d: Seq<u8>, p: int, version: u16) -> Option<ParseError> {
    let k = p + 16;
    let v = k + footer_padding_len(k as nat) + 4;
    if v + 4 > d.len() {
        Some(ParseError::UnexpectedEof)
    } else if le_u32(d, v) != version as nat {
        Some(ParseError::FooterMismatch)
    } else if v + 4 + 120 + 16 > d.len() {
        Some(ParseError::UnexpectedEof)
    } else {
        None
    }
}

/// Where a parser stands: the offset, the open records and the attributes
/// of the node just started that are still to be read.
pub ghost struct ParseState {
    pub pos: int,
    pub open: Seq<OpenNode>,
    pub pending: Option<PendingAttributes>,
}

/// The kind of an event.
pub ghost enum EventKind {
    Start,
    End,
    Fbx,
}

/// The kind of an event.
pub open spec fn kind_of(e: Event) -> EventKind {
    match e {
        Event::StartNode(_) => EventKind::Start,
        Event::EndNode => EventKind::End,
        Event::EndFbx(_) => EventKind::Fbx,
    }
}

/// Offset at which the next record begins.
pub open spec fn state_next_record(st: ParseState) -> int {
    match st.pending {
        Some(a) => a.end as int,
        None => st.pos,
    }
}

/// The header of the record at the next record offset.
pub open spec fn state_header(d: Seq<u8>, wide: bool, st: ParseState) -> NodeHeader {
    let c = state_next_record(st);
    node_header(d.subrange(c, c + header_size(wide)), wide)
}

/// The error that the next event meets from state `st`, if the source
/// delivers every byte asked for; `None` where an event comes.
pub open spec fn step_error(d: Seq<u8>, wide: bool, version: u16, st: ParseState) -> Option<ParseError> {
    let settle = match st.pending {
        Some(a) => if st.pos > a.end {
            Some(ParseError::NodeLengthMismatch)
        } else if a.end > d.len() {
            Some(ParseError::UnexpectedEof)
        } else {
            None
        },
        None => None,
    };
    let here = state_next_record(st);
    let open = st.open;
    let hs = header_size(wide);
    let h = state_header(d, wide, st);
    let a = here + hs + h.bytelen_name;
    if settle is Some {
        settle
    } else if open.len() > 0 && here == open.last().end_offset {
        None
    } else if open.len() > 0 && here > open.last().end_offset {
        Some(ParseError::NodeLengthMismatch)
    } else if here + hs > d.len() {
        Some(ParseError::UnexpectedEof)
    } else if h.spec_is_null() {
        if open.len() == 0 {
            footer_error(d, here + hs, version)
        } else if here + hs != open.last().end_offset {
            Some(ParseError::NodeLengthMismatch)
        } else {
            None
        }
    } else if a > d.len() {
        Some(ParseError::UnexpectedEof)
    } else if !valid_utf8(d.subrange(here + hs, a)) {
        Some(ParseError::InvalidUtf8)
    } else if a + h.bytelen_attributes > u64::MAX || a + h.bytelen_attributes > h.end_offset
        || (open.len() > 0 && h.end_offset > open.last().end_offset)
        || (h.num_attributes == 0 && h.bytelen_attributes != 0) {
        Some(ParseError::NodeLengthMismatch)
    } else {
        None
    }
}

/// The kind of the next event from state `st`, where no error comes.
pub open spec fn step_kind(d: Seq<u8>, wide: bool, st: ParseState) -> EventKind {
    let here = state_next_record(st);
    if st.open.len() > 0 && here == st.open.last().end_offset {
        EventKind::End
    } else if state_header(d, wide, st).spec_is_null() {
        if st.open.len() == 0 {
            EventKind::Fbx
        } else {
            EventKind::End
        }
    } else {
        EventKind::Start
    }
}

/// The state after the next event from `st`, where no error comes and the
/// file does not end there.
pub open spec fn step_next(d: Seq<u8>, wide: bool, st: ParseState) -> ParseState {
    let here = state_next_record(st);
    let hs = header_size(wide);
    let h = state_header(d, wide, st);
    let a = here + hs + h.bytelen_name;
    if st.open.len() > 0 && here == st.open.last().end_offset {
        ParseState { pos: here, open: st.open.drop_last(), pending: None }
    } else if h.spec_is_null() {
        ParseState { pos: here + hs, open: st.open.drop_last(), pending: None }
    } else {
        ParseState {
            pos: a,
            open: st.open.push(OpenNode { end_offset: h.end_offset, attributes_end: (a + h.bytelen_attributes) as u64 }),
            pending: Some(PendingAttributes { remaining: h.num_attributes, end: (a + h.bytelen_attributes) as u64 }),
        }
    }
}

/// The state once every attribute of the node just started is read.
pub open spec fn after_attributes(next: ParseState) -> ParseState {
    ParseState { pending: Some(PendingAttributes { remaining: 0, end: next.pending->0.end }), ..next }
}

/// From state `st`, within `fuel` events, the parser reaches the end of the
/// file with every event and every attribute decoded.
pub open spec fn parses_from(d: Seq<u8>, wide: bool, version: u16, st: ParseState, fuel: nat) -> bool
    decreases fuel,
{
    if fuel == 0 || step_error(d, wide, version, st) is Some {
        false
    } else {
        let next = step_next(d, wide, st);
        match step_kind(d, wide, st) {
            EventKind::Fbx => true,
            EventKind::End => parses_from(d, wide, version, next, (fuel - 1) as nat),
            EventKind::Start => {
                let a = next.pending->0;
                &&& attribute_values(d, next.pos, a.remaining as nat, a.end).len() == a.remaining
                &&& parses_from(d, wide, version, after_attributes(next), (fuel - 1) as nat)
            },
        }
    }
}

/// A record that the parse starts: its offset and the index of the node of
/// its enclosing record (`0`, the root, for top-level records).
pub ghost struct RunRecord {
    pub offset: int,
    pub parent: nat,
}

/// What a parse gives: the records it starts, in order, and the offset
/// right after the footer.
pub ghost struct RunResult {
    pub records: Seq<RunRecord>,
    pub end: int,
}

/// The records that the parse from state `st` starts, within `fuel` events,
/// and where the file ends. `stack` holds the node indices of the open
/// records after the root's, and `count` how many records started before.
pub open spec fn run(d: Seq<u8>, wide: bool, version: u16, st: ParseState, fuel: nat, stack: Seq<nat>, count: nat) -> RunResult
    decreases fuel,
{
    if fuel == 0 || step_error(d, wide, version, st) is Some {
        RunResult { records: Seq::empty(), end: 0 }
    } else {
        let next = step_next(d, wide, st);
        let here = state_next_record(st);
        match step_kind(d, wide, st) {
            EventKind::Fbx => {
                let f = here + header_size(wide) + 16;
                RunResult { records: Seq::empty(), end: f + footer_padding_len(f as nat) + 4 + 4 + 120 + 16 }
            },
            EventKind::End => run(d, wide, version, next, (fuel - 1) as nat, stack.drop_last(), count),
            EventKind::Start => {
                let rest = run(d, wide, version, after_attributes(next), (fuel - 1) as nat, stack.push(count + 1), count + 1);
                RunResult {
                    records: seq![RunRecord { offset: here, parent: stack.last() }] + rest.records,
                    end: rest.end,
                }
            },
        }
    }
}

/// `new` is `old` followed by footer warnings only.
pub open spec fn footer_warnings_after(old: Seq<(Warning, u64)>, new: Seq<(Warning, u64)>) -> bool {
    &&& old.is_prefix_of(new)
    &&& forall|j: int| old.len() <= j < new.len()
        ==> (#[trigger] new[j]).0 is InvalidFooterPadding || new[j].0 is UnexpectedFooterFieldValue
}

/// The warnings that reading the `n` attributes from offset `p`, in a block
/// that ends at `end`, records, each with the offset of its attribute.
pub open spec fn attribute_warnings(d: Seq<u8>, p: int, n: nat, end: u64) -> Seq<(Warning, u64)>
    decreases n,
{
    if n == 0 {
        Seq::empty()
    } else {
        match attribute_step(d, p, PendingAttributes { remaining: n as u64, end }) {
            Decoded::Value { value, end: e, warning } => {
                let here: Seq<(Warning, u64)> = match warning {
                    Some(w) => seq![(w, p as u64)],
                    None => Seq::empty(),
                };
                here + attribute_warnings(d, e, (n - 1) as nat, end)
            },
            Decoded::Failure(_) => Seq::empty(),
        }
    }
}

/// The warnings that the parse from state `st` records before the footer,
/// within `fuel` events: empty node names and attribute warnings, in order.
pub open spec fn run_warnings(d: Seq<u8>, wide: bool, version: u16, st: ParseState, fuel: nat) -> Seq<(Warning, u64)>
    decreases fuel,
{
    if fuel == 0 || step_error(d, wide, version, st) is Some {
        Seq::empty()
    } else {
        let next = step_next(d, wide, st);
        match step_kind(d, wide, st) {
            EventKind::Fbx => Seq::empty(),
            EventKind::End => run_warnings(d, wide, version, next, (fuel - 1) as nat),
            EventKind::Start => {
                let named: Seq<(Warning, u64)> = if state_header(d, wide, st).bytelen_name == 0 {
                    seq![(Warning::EmptyNodeName, state_next_record(st) as u64)]
                } else {
                    Seq::empty()
                };
                let a = next.pending->0;
                named + attribute_warnings(d, next.pos, a.remaining as nat, a.end)
                    + run_warnings(d, wide, version, after_attributes(next), (fuel - 1) as nat)
            },
        }
    }
}

/// The warnings of the way from `init` to state `st` so far are `done`.
pub open spec fn warnings_reach(d: Seq<u8>, wide: bool, version: u16, init: ParseState, st: ParseState, steps: nat, done: Seq<(Warning, u64)>) -> bool {
    forall|f: nat| #[trigger] parses_from(d, wide, version, st, f)
        ==> run_warnings(d, wide, version, init, f + steps) == done + run_warnings(d, wide, version, st, f)
}

/// A node start extends the warnings of the way.
#[verifier::rlimit(100)]
pub proof fn lemma_warnings_start(d: Seq<u8>, wide: bool, version: u16, init: ParseState, st: ParseState, steps: nat, done: Seq<(Warning, u64)>)
    requires
        warnings_reach(d, wide, version, init, st, steps, done),
        step_error(d, wide, version, st) is None,
        step_kind(d, wide, st) == EventKind::Start,
        ({
            let next = step_next(d, wide, st);
            attribute_values(d, next.pos, next.pending->0.remaining as nat, next.pending->0.end).len() == next.pending->0.remaining
        }),
    ensures
        ({
            let next = step_next(d, wide, st);
            let a = next.pending->0;
            let named: Seq<(Warning, u64)> = if state_header(d, wide, st).bytelen_name == 0 {
                seq![(Warning::EmptyNodeName, state_next_record(st) as u64)]
            } else {
                Seq::empty()
            };
            warnings_reach(d, wide, version, init, after_attributes(next), steps + 1,
                done + named + attribute_warnings(d, next.pos, a.remaining as nat, a.end))
        }),
{
    let next = step_next(d, wide, st);
    let a = next.pending->0;
    let named: Seq<(Warning, u64)> = if state_header(d, wide, st).bytelen_name == 0 {
        seq![(Warning::EmptyNodeName, state_next_record(st) as u64)]
    } else {
        Seq::empty()
    };
    let aw = attribute_warnings(d, next.pos, a.remaining as nat, a.end);
    let st2 = after_attributes(next);
    assert forall|f: nat| #[trigger] parses_from(d, wide, version, st2, f)
        implies run_warnings(d, wide, version, init, f + (steps + 1)) == done + named + aw + run_warnings(d, wide, version, st2, f) by {
        assert(parses_from(d, wide, version, st, (f + 1) as nat));
        assert(f + 1 + steps == f + (steps + 1));
        assert(run_warnings(d, wide, version, st, (f + 1) as nat) == named + aw + run_warnings(d, wide, version, st2, f));
        assert(done + (named + aw + run_warnings(d, wide, version, st2, f)) =~= done + named + aw + run_warnings(d, wide, version, st2, f));
    }
}

/// A node end keeps the warnings of the way.
pub proof fn lemma_warnings_end(d: Seq<u8>, wide: bool, version: u16, init: ParseState, st: ParseState, steps: nat, done: Seq<(Warning, u64)>)
    requires
        warnings_reach(d, wide, version, init, st, steps, done),
        step_error(d, wide, version, st) is None,
        step_kind(d, wide, st) == EventKind::End,
    ensures
        warnings_reach(d, wide, version, init, step_next(d, wide, st), steps + 1, done),
{
    let st2 = step_next(d, wide, st);
    assert forall|f: nat| #[trigger] parses_from(d, wide, version, st2, f)
        implies run_warnings(d, wide, version, init, f + (steps + 1)) == done + run_warnings(d, wide, version, st2, f) by {
        assert(parses_from(d, wide, version, st, (f + 1) as nat));
        assert(f + 1 + steps == f + (steps + 1));
        assert(run_warnings(d, wide, version, st, (f + 1) as nat) == run_warnings(d, wide, version, st2, f));
    }
}

/// At the end of the file the warnings of the way are complete.
pub proof fn lemma_warnings_end_of_file(d: Seq<u8>, wide: bool, version: u16, init: ParseState, st: ParseState, steps: nat, done: Seq<(Warning, u64)>)
    requires
        warnings_reach(d, wide, version, init, st, steps, done),
        parses_from(d, wide, version, st, 1),
        step_kind(d, wide, st) == EventKind::Fbx,
    ensures
        run_warnings(d, wide, version, init, steps + 1) == done,
{
    assert(done + Seq::<(Warning, u64)>::empty() =~= done);
}

/// What is known of the way from `init` to state `st`: it went `steps`
/// events, started the records `prefix`, and has `stack` open.
pub open spec fn run_reaches(
    d: Seq<u8>,
    wide: bool,
    version: u16,
    init: ParseState,
    st: ParseState,
    steps: nat,
    prefix: Seq<RunRecord>,
    stack: Seq<nat>,
) -> bool {
    forall|f: nat| #[trigger] parses_from(d, wide, version, st, f) ==> parses_from(d, wide, version, init, f + steps)
        && run(d, wide, version, init, f + steps, seq![0nat], 0) == RunResult {
            records: prefix + run(d, wide, version, st, f, stack, prefix.len()).records,
            end: run(d, wide, version, st, f, stack, prefix.len()).end,
        }
}

/// A node start with all its attributes decoded extends the way.
pub proof fn lemma_run_start(
    d: Seq<u8>,
    wide: bool,
    version: u16,
    init: ParseState,
    st: ParseState,
    steps: nat,
    prefix: Seq<RunRecord>,
    stack: Seq<nat>,
)
    requires
        run_reaches(d, wide, version, init, st, steps, prefix, stack),
        step_error(d, wide, version, st) is None,
        step_kind(d, wide, st) == EventKind::Start,
        ({
            let next = step_next(d, wide, st);
            attribute_values(d, next.pos, next.pending->0.remaining as nat, next.pending->0.end).len() == next.pending->0.remaining
        }),
    ensures
        run_reaches(
            d,
            wide,
            version,
            init,
            after_attributes(step_next(d, wide, st)),
            steps + 1,
            prefix.push(RunRecord { offset: state_next_record(st), parent: stack.last() }),
            stack.push(prefix.len() + 1),
        ),
{
    let st2 = after_attributes(step_next(d, wide, st));
    let rec = RunRecord { offset: state_next_record(st), parent: stack.last() };
    let prefix2 = prefix.push(rec);
    let stack2 = stack.push(prefix.len() + 1);
    assert forall|f: nat| #[trigger] parses_from(d, wide, version, st2, f)
        implies parses_from(d, wide, version, init, f + (steps + 1))
        && run(d, wide, version, init, f + (steps + 1), seq![0nat], 0) == RunResult {
            records: prefix2 + run(d, wide, version, st2, f, stack2, prefix2.len()).records,
            end: run(d, wide, version, st2, f, stack2, prefix2.len()).end,
        } by {
        assert(parses_from(d, wide, version, st, (f + 1) as nat));
        assert(f + 1 + steps == f + (steps + 1));
        let rest = run(d, wide, version, st2, f, stack2, prefix2.len());
        assert(run(d, wide, version, st, (f + 1) as nat, stack, prefix.len()).records == seq![rec] + rest.records);
        assert(prefix + (seq![rec] + rest.records) =~= prefix2 + rest.records);
    }
}

/// A node end extends the way.
pub proof fn lemma_run_end(
    d: Seq<u8>,
    wide: bool,
    version: u16,
    init: ParseState,
    st: ParseState,
    steps: nat,
    prefix: Seq<RunRecord>,
    stack: Seq<nat>,
)
    requires
        run_reaches(d, wide, version, init, st, steps, prefix, stack),
        step_error(d, wide, version, st) is None,
        step_kind(d, wide, st) == EventKind::End,
    ensures
        run_reaches(d, wide, version, init, step_next(d, wide, st), steps + 1, prefix, stack.drop_last()),
{
    let st2 = step_next(d, wide, st);
    assert forall|f: nat| #[trigger] parses_from(d, wide, version, st2, f)
        implies parses_from(d, wide, version, init, f + (steps + 1))
        && run(d, wide, version, init, f + (steps + 1), seq![0nat], 0) == RunResult {
            records: prefix + run(d, wide, version, st2, f, stack.drop_last(), prefix.len()).records,
            end: run(d, wide, version, st2, f, stack.drop_last(), prefix.len()).end,
        } by {
        assert(parses_from(d, wide, version, st, (f + 1) as nat));
        assert(f + 1 + steps == f + (steps + 1));
    }
}

/// Reaching the end of the file completes the way.
pub proof fn lemma_run_end_of_file(
    d: Seq<u8>,
    wide: bool,
    version: u16,
    init: ParseState,
    st: ParseState,
    steps: nat,
    prefix: Seq<RunRecord>,
    stack: Seq<nat>,
)
    requires
        run_reaches(d, wide, version, init, st, steps, prefix, stack),
        step_error(d, wide, version, st) is None,
        step_kind(d, wide, st) == EventKind::Fbx,
    ensures
        parses_from(d, wide, version, init, steps + 1),
        run(d, wide, version, init, steps + 1, seq![0nat], 0).records == prefix,
        run(d, wide, version, init, steps + 1, seq![0nat], 0).end == run(d, wide, version, st, 1, stack, prefix.len()).end,
{
    assert(parses_from(d, wide, version, st, 1));
    assert(prefix + Seq::<RunRecord>::empty() =~= prefix);
}

/// The file parses from state `st` to its end.
pub open spec fn file_parses(d: Seq<u8>, wide: bool, version: u16, st: ParseState) -> bool {
    exists|fuel: nat| parses_from(d, wide, version, st, fuel)
}

/// Two states that differ at most in an offset inside the same pending
/// attribute block lead to the same next event.
pub proof fn lemma_step_same(d: Seq<u8>, wide: bool, version: u16, s1: ParseState, s2: ParseState)
    requires
        s1.open == s2.open,
        s1.pending == s2.pending,
        s1.pending is None ==> s1.pos == s2.pos,
        s1.pending is Some ==> s1.pos <= s1.pending->0.end && s2.pos <= s1.pending->0.end,
    ensures
        step_error(d, wide, version, s1) == step_error(d, wide, version, s2),
        step_kind(d, wide, s1) == step_kind(d, wide, s2),
        step_next(d, wide, s1) == step_next(d, wide, s2),
{
}

/// Pull parser for binary FBX 7.x.
pub struct Parser<S: ParserSource> {
    source: S,
    version: u16,
    open: Vec<OpenNode>,
    pending: Option<PendingAttributes>,
    finished: bool,
    failure: Option<ParseError>,
    warnings: Vec<(Warning, u64)>,
}

impl<S: ParserSource> Parser<S> {
    /// The bytes of the file.
    pub closed spec fn content(&self) -> Seq<u8> {
        self.source.content()
    }

    /// Whether the source fails only at the end of its content.
    pub closed spec fn infallible(&self) -> bool {
        self.source.infallible()
    }

    /// Offset of the next byte to be read.
    pub closed spec fn pos(&self) -> nat {
        self.source.pos()
    }

    /// The version from the file header.
    pub closed spec fn spec_version(&self) -> u16 {
        self.version
    }

    /// The nodes whose records are open, outermost first.
    pub closed spec fn open_nodes(&self) -> Seq<OpenNode> {
        self.open@
    }

    /// The attributes of the node just started that are left to read.
    pub closed spec fn pending_attributes(&self) -> Option<PendingAttributes> {
        self.pending
    }

    /// Whether the footer has been read.
    pub closed spec fn is_finished(&self) -> bool {
        self.finished
    }

    /// The error that stopped the parser, if any.
    pub closed spec fn failure(&self) -> Option<ParseError> {
        self.failure
    }

    /// Warnings so far, each with the offset it concerns.
    pub closed spec fn warning_log(&self) -> Seq<(Warning, u64)> {
        self.warnings@
    }

    /// While no failure happened, the offset lies within the file and within
    /// the pending attribute block.
    pub open spec fn wf(&self) -> bool {
        &&& (self.infallible() ==> self.failure() != Some(ParseError::Io))
        &&& self.failure() is None ==> {
            &&& self.pos() <= self.content().len()
            &&& (self.pending_attributes() is Some ==> self.pos() <= self.pending_attributes()->0.end)
        }
    }

    /// Offset at which the next record begins.
    pub open spec fn next_record(&self) -> int {
        match self.pending_attributes() {
            Some(a) => a.end as int,
            None => self.pos() as int,
        }
    }

    /// Whether node headers have 64-bit fields.
    pub open spec fn wide(&self) -> bool {
        self.spec_version() >= 7500
    }

    /// The error that the next event meets, if the source delivers every
    /// byte asked for; `None` where an event comes.
    pub open spec fn event_error(&self) -> Option<ParseError> {
        step_error(self.content(), self.wide(), self.spec_version(), self.state())
    }

    /// Where the parser stands: offset, open records, pending attributes.
    pub open spec fn state(&self) -> ParseState {
        ParseState { pos: self.pos() as int, open: self.open_nodes(), pending: self.pending_attributes() }
    }

    /// The header of the record at the next record offset.
    pub open spec fn next_header(&self) -> NodeHeader {
        let c = self.next_record();
        node_header(self.content().subrange(c, c + header_size(self.wide())), self.wide())
    }

    /// Reads the file header and returns a parser placed at the first node
    /// record.
    pub fn from_source(source: S) -> (r: Result<Parser<S>, ParseError>)
        ensures
            match r {
                Ok(p) => {
                    &&& file_header(source.content(), source.pos() as int) == Ok::<u16, ParseError>(p.spec_version())
                    &&& p.content() == source.content()
                    &&& p.infallible() == source.infallible()
                    &&& p.pos() == source.pos() + 25
                    &&& p.wf()
                    &&& p.open_nodes().len() == 0
                    &&& p.pending_attributes() is None
                    &&& !p.is_finished()
                    &&& p.failure() is None
                    &&& p.warning_log().len() == 0
                },
                Err(e) => e is Io || file_header(source.content(), source.pos() as int) == Err::<u16, ParseError>(e),
            },
    {
        let mut source = source;
        let magic = match source.read_bytes(MAGIC_LEN) {
            Ok(m) => m,
            Err(e) => return Err(e),
        };
        let expected = magic_bytes();
        if !bytes_equal(magic.as_slice(), expected.as_slice()) {
            return Err(ParseError::InvalidMagic);
        }
        let vb = match source.read_bytes(2) {
            Ok(b) => b,
            Err(e) => return Err(e),
        };
        let version = read_u16_le(vb.as_slice(), 0);
        if version < 7000 || version > 7999 {
            return Err(ParseError::UnsupportedVersion(version as u32));
        }
        Ok(Parser {
            source,
            version,
            open: Vec::new(),
            pending: None,
            finished: false,
            failure: None,
            warnings: Vec::new(),
        })
    }

    /// Returns the version from the file header.
    pub fn version(&self) -> (r: u16)
        ensures
            r == self.spec_version(),
    {
        self.version
    }

    /// Returns the offset of the next byte to be read.
    pub fn position(&self) -> (r: u64)
        ensures
            r == self.pos(),
    {
        self.source.position()
    }

    /// Returns the warnings so far, each with the offset it concerns.
    pub fn warnings(&self) -> (r: &Vec<(Warning, u64)>)
        ensures
            r@ == self.warning_log(),
    {
        &self.warnings
    }

    /// Returns the number of nodes whose records are open.
    pub fn depth(&self) -> (r: usize)
        ensures
            r == self.open_nodes().len(),
    {
        self.open.len()
    }

    /// Reads `n` bytes from the source.
    fn read_bytes(&mut self, n: usize) -> (r: Result<Vec<u8>, ParseError>)
        ensures
            old(self).infallible() && r is Err ==> !(r->Err_0 is Io),
            final(self).content() == old(self).content(),
            final(self).infallible() == old(self).infallible(),
            final(self).spec_version() == old(self).spec_version(),
            final(self).open_nodes() == old(self).open_nodes(),
            final(self).pending_attributes() == old(self).pending_attributes(),
            final(self).is_finished() == old(self).is_finished(),
            final(self).failure() == old(self).failure(),
            final(self).warning_log() == old(self).warning_log(),
            match r {
                Ok(v) => {
                    &&& old(self).pos() + n <= old(self).content().len()
                    &&& v@ == old(self).content().subrange(old(self).pos() as int, old(self).pos() + n)
                    &&& final(self).pos() == old(self).pos() + n
                },
                Err(e) => {
                    &&& e is Io || e is UnexpectedEof
                    &&& (e is UnexpectedEof ==> old(self).pos() + n > old(self).content().len())
                },
            },
    {
        self.source.read_bytes(n)
    }

    /// Records a warning at offset `at`.
    fn warn(&mut self, w: Warning, at: u64)
        ensures
            final(self).content() == old(self).content(),
            final(self).infallible() == old(self).infallible(),
            final(self).pos() == old(self).pos(),
            final(self).spec_version() == old(self).spec_version(),
            final(self).open_nodes() == old(self).open_nodes(),
            final(self).pending_attributes() == old(self).pending_attributes(),
            final(self).is_finished() == old(self).is_finished(),
            final(self).failure() == old(self).failure(),
            final(self).warning_log() == old(self).warning_log().push((w, at)),
    {
        self.warnings.push((w, at));
    }

    /// Reads the attribute that starts at the current offset.
    fn read_attribute(&mut self) -> (r: Result<(AttributeValue, Option<Warning>), ParseError>)
        ensures
            old(self).infallible() && r is Err ==> !(r->Err_0 is Io),
            final(self).content() == old(self).content(),
            final(self).infallible() == old(self).infallible(),
            final(self).spec_version() == old(self).spec_version(),
            final(self).open_nodes() == old(self).open_nodes(),
            final(self).pending_attributes() == old(self).pending_attributes(),
            final(self).is_finished() == old(self).is_finished(),
            final(self).failure() == old(self).failure(),
            final(self).warning_log() == old(self).warning_log(),
            r is Ok ==> old(self).pos() < final(self).pos() <= final(self).content().len(),
            match r {
                Ok((v, w)) => attribute_at(old(self).content(), old(self).pos() as int)
                    == (Decoded::Value { value: v@, end: final(self).pos() as int, warning: w }),
                Err(e) => e is Io || attribute_at(old(self).content(), old(self).pos() as int)
                    == Decoded::Failure(e),
            },
    {
        let ghost d = self.content();
        let ghost p = self.pos() as int;
        let code = match self.read_bytes(1) {
            Ok(b) => b[0],
            Err(e) => return Err(e),
        };
        if code == CODE_BOOL {
            let b = match self.read_bytes(1) {
                Ok(b) => b[0],
                Err(e) => return Err(e),
            };
            match decode_bool_byte(b) {
                Some((v, w)) => {
                    let warning = if w {
                        Some(Warning::IncorrectBooleanRepresentation)
                    } else {
                        None
                    };
                    Ok((AttributeValue::Bool(v), warning))
                },
                None => Err(ParseError::InvalidBoolean(b)),
            }
        } else if code == CODE_I16 || code == CODE_I32 || code == CODE_I64 || code == CODE_F32
            || code == CODE_F64 {
            let n: usize = if code == CODE_I16 {
                2
            } else if code == CODE_I32 || code == CODE_F32 {
                4
            } else {
                8
            };
            assert(n == fixed_size(code));
            let b = match self.read_bytes(n) {
                Ok(b) => b,
                Err(e) => return Err(e),
            };
            Ok((decode_fixed(code, b.as_slice()), None))
        } else if code == CODE_ARR_BOOL || code == CODE_ARR_I32 || code == CODE_ARR_I64
            || code == CODE_ARR_F32 || code == CODE_ARR_F64 {
            let hb = match self.read_bytes(12) {
                Ok(b) => b,
                Err(e) => return Err(e),
            };
            let header = ArrayAttributeHeader::from_bytes(hb.as_slice());
            assert(header.elements_count as nat == le_u32(d, p + 1));
            assert(header.encoding as nat == le_u32(d, p + 5));
            assert(header.bytelen as nat == le_u32(d, p + 9));
            if header.encoding != 0 && header.encoding != 1 {
                return Err(ParseError::InvalidArrayEncoding(header.encoding));
            }
            let body = match self.read_bytes(header.bytelen as usize) {
                Ok(b) => b,
                Err(e) => return Err(e),
            };
            match decode_array_payload(code, header, body.as_slice()) {
                Ok((v, w)) => {
                    let warning = if w {
                        Some(Warning::IncorrectBooleanRepresentation)
                    } else {
                        None
                    };
                    Ok((v, warning))
                },
                Err(e) => Err(e),
            }
        } else if code == CODE_STRING || code == CODE_BINARY {
            let hb = match self.read_bytes(4) {
                Ok(b) => b,
                Err(e) => return Err(e),
            };
            let len = read_u32_le(hb.as_slice(), 0);
            assert(len as nat == le_u32(d, p + 1));
            let body = match self.read_bytes(len as usize) {
                Ok(b) => b,
                Err(e) => return Err(e),
            };
            let (v, w) = decode_special(code, body);
            let warning = if w {
                Some(Warning::NonUtf8String)
            } else {
                None
            };
            Ok((v, warning))
        } else {
            Err(ParseError::InvalidAttributeTypeCode(code))
        }
    }

    /// Reads the next attribute of the node just started, or `None` when
    /// all of them have been read or no node was just started.
    ///
    /// The last attribute must end exactly at the end of the attribute block
    /// that the node header declared.
    pub fn next_attribute(&mut self) -> (r: Result<Option<AttributeValue>, ParseError>)
        requires
            old(self).wf(),
        ensures
            old(self).infallible() && r is Err ==> !(r->Err_0 is Io),
            final(self).wf(),
            r is Ok ==> old(self).pos() <= final(self).pos(),
            final(self).content() == old(self).content(),
            final(self).infallible() == old(self).infallible(),
            final(self).spec_version() == old(self).spec_version(),
            final(self).open_nodes() == old(self).open_nodes(),
            final(self).is_finished() == old(self).is_finished(),
            old(self).failure() is Some ==> r == Err::<Option<AttributeValue>, ParseError>(old(self).failure()->0)
                && final(self).failure() == old(self).failure()
                && final(self).pos() == old(self).pos(),
            old(self).failure() is None ==> match old(self).pending_attributes() {
                Some(a) if a.remaining > 0 => match r {
                    Ok(Some(v)) => match attribute_step(old(self).content(), old(self).pos() as int, a) {
                        Decoded::Value { value, end, warning } => {
                            &&& v@ == value
                            &&& final(self).pos() == end
                            &&& final(self).pending_attributes() == Some(PendingAttributes { remaining: (a.remaining - 1) as u64, end: a.end })
                            &&& final(self).failure() is None
                            &&& final(self).warning_log() == match warning {
                                Some(w) => old(self).warning_log().push((w, old(self).pos() as u64)),
                                None => old(self).warning_log(),
                            }
                        },
                        Decoded::Failure(_) => false,
                    },
                    Ok(None) => false,
                    Err(e) => {
                        &&& e is Io || attribute_step(old(self).content(), old(self).pos() as int, a) == Decoded::Failure(e)
                        &&& final(self).failure() == Some(e)
                    },
                },
                _ => r == Ok::<Option<AttributeValue>, ParseError>(None)
                    && final(self).pos() == old(self).pos()
                    && final(self).pending_attributes() == old(self).pending_attributes()
                    && final(self).failure() is None
                    && final(self).warning_log() == old(self).warning_log(),
            },
    {
        if let Some(e) = self.failure {
            return Err(e);
        }
        let a = match self.pending {
            Some(a) => a,
            None => return Ok(None),
        };
        if a.remaining == 0 {
            return Ok(None);
        }
        let start = self.source.position();
        if start >= a.end {
            self.failure = Some(ParseError::AttributeCountMismatch);
            return Err(ParseError::AttributeCountMismatch);
        }
        match self.read_attribute() {
            Ok((v, warning)) => {
                let end = self.source.position();
                if end > a.end || (a.remaining == 1 && end != a.end) {
                    self.failure = Some(ParseError::NodeLengthMismatch);
                    return Err(ParseError::NodeLengthMismatch);
                }
                self.pending = Some(PendingAttributes { remaining: a.remaining - 1, end: a.end });
                if let Some(w) = warning {
                    self.warn(w, start);
                }
                Ok(Some(v))
            },
            Err(e) => {
                self.failure = Some(e);
                Err(e)
            },
        }
    }

    /// Reads the next attribute of the node just started and hands it to
    /// `visitor`; `None` when no attribute is left to read. The parser moves
    /// as with `next_attribute`; a visitor that expects another type rejects
    /// the value with `UnexpectedAttribute`.
    pub fn visit_next_attribute<V: VisitAttribute>(&mut self, visitor: V) -> (r: Result<Option<V::Output>, ParseError>)
        requires
            old(self).wf(),
        ensures
            final(self).wf(),
            final(self).content() == old(self).content(),
            final(self).infallible() == old(self).infallible(),
            final(self).spec_version() == old(self).spec_version(),
            final(self).open_nodes() == old(self).open_nodes(),
            final(self).is_finished() == old(self).is_finished(),
            old(self).failure() is Some ==> r == Err::<Option<V::Output>, ParseError>(old(self).failure()->0)
                && final(self).failure() == old(self).failure()
                && final(self).pos() == old(self).pos(),
            old(self).failure() is None ==> match old(self).pending_attributes() {
                Some(a) if a.remaining > 0 => {
                    &&& final(self).failure() is Some ==> {
                        let e = final(self).failure()->0;
                        &&& r == Err::<Option<V::Output>, ParseError>(e)
                        &&& (e is Io || attribute_step(old(self).content(), old(self).pos() as int, a) == Decoded::Failure(e))
                    }
                    &&& final(self).failure() is None ==> match attribute_step(old(self).content(), old(self).pos() as int, a) {
                        Decoded::Value { value, end, warning } => {
                            &&& final(self).pos() == end
                            &&& final(self).pending_attributes() == Some(PendingAttributes { remaining: (a.remaining - 1) as u64, end: a.end })
                            &&& final(self).warning_log() == match warning {
                                Some(w) => old(self).warning_log().push((w, old(self).pos() as u64)),
                                None => old(self).warning_log(),
                            }
                            &&& (r is Ok ==> r->Ok_0 is Some && visitor.expects() == model_type(value)
                                && visitor.produces(value, r->Ok_0->0))
                            &&& (visitor.expects() != model_type(value) ==> r == Err::<Option<V::Output>, ParseError>(
                                ParseError::UnexpectedAttribute(visitor.expects(), model_type(value))))
                        },
                        Decoded::Failure(_) => false,
                    }
                },
                _ => r == Ok::<Option<V::Output>, ParseError>(None)
                    && final(self).pos() == old(self).pos()
                    && final(self).pending_attributes() == old(self).pending_attributes()
                    && final(self).failure() is None
                    && final(self).warning_log() == old(self).warning_log(),
            },
    {
        match self.next_attribute() {
            Ok(Some(v)) => match visit_value(visitor, v) {
                Ok(out) => Ok(Some(out)),
                Err(e) => Err(e),
            },
            Ok(None) => Ok(None),
            Err(e) => Err(e),
        }
    }

    /// Reads the footer that follows the top-level null record. Anomalies
    /// are warnings; only a version other than the header's is an error.
    fn read_footer(&mut self) -> (r: Result<FbxFooter, ParseError>)
        ensures
            footer_warnings_after(old(self).warning_log(), final(self).warning_log()),
            old(self).infallible() && r is Err ==> !(r->Err_0 is Io),
            final(self).content() == old(self).content(),
            final(self).infallible() == old(self).infallible(),
            final(self).spec_version() == old(self).spec_version(),
            final(self).open_nodes() == old(self).open_nodes(),
            final(self).pending_attributes() == old(self).pending_attributes(),
            final(self).is_finished() == old(self).is_finished(),
            final(self).failure() == old(self).failure(),
            old(self).warning_log().is_prefix_of(final(self).warning_log()),
            match r {
                Ok(f) => {
                    let v_at = old(self).pos() + 16 + f.padding_len + 4int;
                    &&& f.key@ == old(self).content().subrange(old(self).pos() as int, old(self).pos() + 16int)
                    &&& f.padding_len == footer_padding_len(old(self).pos() + 16)
                    &&& f.version == old(self).spec_version() as u32
                    &&& le_u32(old(self).content(), v_at) == f.version
                    &&& final(self).pos() == v_at + 4 + 120 + 16
                    &&& final(self).pos() <= final(self).content().len()
                },
                Err(e) => e is Io || footer_error(old(self).content(), old(self).pos() as int, old(self).spec_version()) == Some(e),
            },
    {
        let key = match self.read_bytes(16) {
            Ok(b) => b,
            Err(e) => return Err(e),
        };
        let here = self.source.position();
        let pad = ((16 - here % 16) % 16) as usize;
        let padding = match self.read_bytes(pad) {
            Ok(b) => b,
            Err(e) => return Err(e),
        };
        if !all_zero(padding.as_slice()) {
            self.warn(Warning::InvalidFooterPadding, here);
        }
        let at = self.source.position();
        let zeros = match self.read_bytes(4) {
            Ok(b) => b,
            Err(e) => return Err(e),
        };
        if !all_zero(zeros.as_slice()) {
            self.warn(Warning::UnexpectedFooterFieldValue, at);
        }
        let vb = match self.read_bytes(4) {
            Ok(b) => b,
            Err(e) => return Err(e),
        };
        let version = read_u32_le(vb.as_slice(), 0);
        if version != self.version as u32 {
            return Err(ParseError::FooterMismatch);
        }
        let at = self.source.position();
        let reserved = match self.read_bytes(120) {
            Ok(b) => b,
            Err(e) => return Err(e),
        };
        if !all_zero(reserved.as_slice()) {
            self.warn(Warning::UnexpectedFooterFieldValue, at);
        }
        let at = self.source.position();
        let tail = match self.read_bytes(16) {
            Ok(b) => b,
            Err(e) => return Err(e),
        };
        let expected = footer_tail_bytes();
        if !bytes_equal(tail.as_slice(), expected.as_slice()) {
            self.warn(Warning::UnexpectedFooterFieldValue, at);
        }
        Ok(FbxFooter { key, padding_len: pad as u8, version })
    }

    /// Advances to the next event.
    ///
    /// Attributes of the node just started that were not read are skipped.
    /// A node ends where its header said: either right after its attributes,
    /// or after a null record that closes its children. The null record that
    /// closes the top level is followed by the footer. Any failure is final:
    /// later calls return the same error.
    pub fn next_event(&mut self) -> (r: Result<Event, ParseError>)
        requires
            old(self).wf(),
        ensures
            r is Ok && r->Ok_0 is EndNode ==> final(self).warning_log() == old(self).warning_log(),
            r is Ok && r->Ok_0 is EndFbx ==> footer_warnings_after(old(self).warning_log(), final(self).warning_log()),
            old(self).infallible() && r is Err ==> !(r->Err_0 is Io),
            final(self).wf(),
            r is Ok ==> old(self).pos() <= final(self).pos(),
            old(self).failure() is None && !old(self).is_finished() ==> {
                &&& (r is Err ==> r->Err_0 is Io || old(self).event_error() == Some(r->Err_0))
                &&& (r is Ok ==> kind_of(r->Ok_0) == step_kind(old(self).content(), old(self).wide(), old(self).state()))
                &&& (r is Ok ==> old(self).event_error() is None)
                &&& (r is Ok && !(r->Ok_0 is EndFbx) ==> final(self).state() == step_next(old(self).content(), old(self).wide(), old(self).state()))
                &&& (r is Ok && old(self).open_nodes().len() > 0
                    && old(self).next_record() == old(self).open_nodes().last().end_offset ==> r->Ok_0 is EndNode)
                &&& (r is Ok && r->Ok_0 is StartNode ==> final(self).warning_log() == if old(self).next_header().bytelen_name == 0 {
                    old(self).warning_log().push((Warning::EmptyNodeName, old(self).next_record() as u64))
                } else {
                    old(self).warning_log()
                })
            },
            final(self).content() == old(self).content(),
            final(self).infallible() == old(self).infallible(),
            final(self).spec_version() == old(self).spec_version(),
            old(self).warning_log().is_prefix_of(final(self).warning_log()),
            old(self).failure() is Some ==> r == Err::<Event, ParseError>(old(self).failure()->0)
                && final(self).failure() == old(self).failure(),
            old(self).failure() is None && old(self).is_finished() ==> r == Err::<Event, ParseError>(
                ParseError::AlreadyFinished,
            ) && final(self).failure() == Some(ParseError::AlreadyFinished),
            old(self).failure() is None && !old(self).is_finished() ==> match r {
                Ok(Event::StartNode(n)) => {
                    let c = old(self).next_record();
                    let h = old(self).next_header();
                    let a = c + header_size(old(self).wide()) + h.bytelen_name;
                    &&& !h.spec_is_null()
                    &&& final(self).pos() == a
                    &&& valid_utf8(old(self).content().subrange(a - h.bytelen_name, a))
                    &&& n.name@ == decode_utf8(old(self).content().subrange(a - h.bytelen_name, a))
                    &&& n.num_attributes == h.num_attributes
                    &&& a + h.bytelen_attributes <= h.end_offset
                    &&& (h.num_attributes == 0 ==> h.bytelen_attributes == 0)
                    &&& (old(self).open_nodes().len() > 0 ==> h.end_offset <= old(self).open_nodes().last().end_offset)
                    &&& final(self).open_nodes() == old(self).open_nodes().push(
                        OpenNode { end_offset: h.end_offset, attributes_end: (a + h.bytelen_attributes) as u64 },
                    )
                    &&& final(self).pending_attributes() == Some(
                        PendingAttributes { remaining: h.num_attributes, end: (a + h.bytelen_attributes) as u64 },
                    )
                    &&& !final(self).is_finished()
                    &&& final(self).failure() is None
                },
                Ok(Event::EndNode) => {
                    &&& old(self).open_nodes().len() > 0
                    &&& final(self).pos() == old(self).open_nodes().last().end_offset
                    &&& final(self).open_nodes() == old(self).open_nodes().drop_last()
                    &&& final(self).pending_attributes() is None
                    &&& !final(self).is_finished()
                    &&& final(self).failure() is None
                },
                Ok(Event::EndFbx(f)) => {
                    let c = old(self).next_record();
                    let hs = header_size(old(self).wide());
                    &&& old(self).open_nodes().len() == 0
                    &&& old(self).next_header().spec_is_null()
                    &&& f.version == old(self).spec_version() as u32
                    &&& f.padding_len == footer_padding_len((c + hs + 16) as nat)
                    &&& final(self).pos() == c + hs + 16 + f.padding_len + 4 + 4 + 120 + 16
                    &&& final(self).open_nodes().len() == 0
                    &&& final(self).is_finished()
                    &&& final(self).failure() is None
                },
                Err(e) => final(self).failure() == Some(e),
            },
    {
        if let Some(e) = self.failure {
            return Err(e);
        }
        if self.finished {
            self.failure = Some(ParseError::AlreadyFinished);
            return Err(ParseError::AlreadyFinished);
        }
        let r = self.read_event();
        match r {
            Ok(ev) => Ok(ev),
            Err(e) => {
                self.failure = Some(e);
                Err(e)
            },
        }
    }

    /// Reads the record at the next record offset and the footer after a
    /// top-level null record.
    #[verifier::rlimit(100)]
    fn read_event(&mut self) -> (r: Result<Event, ParseError>)
        requires
            old(self).failure() is None,
            !old(self).is_finished(),
            old(self).wf(),
        ensures
            r is Ok && r->Ok_0 is EndNode ==> final(self).warning_log() == old(self).warning_log(),
            r is Ok && r->Ok_0 is EndFbx ==> footer_warnings_after(old(self).warning_log(), final(self).warning_log()),
            old(self).infallible() && r is Err ==> !(r->Err_0 is Io),
            r is Err ==> r->Err_0 is Io || old(self).event_error() == Some(r->Err_0),
            r is Ok ==> kind_of(r->Ok_0) == step_kind(old(self).content(), old(self).wide(), old(self).state()),
            r is Ok ==> old(self).event_error() is None,
            r is Ok && !(r->Ok_0 is EndFbx) ==> final(self).state() == step_next(old(self).content(), old(self).wide(), old(self).state()),
            r is Ok && old(self).open_nodes().len() > 0 && old(self).next_record() == old(self).open_nodes().last().end_offset
                ==> r->Ok_0 is EndNode,
            r is Ok && r->Ok_0 is StartNode ==> final(self).warning_log() == if old(self).next_header().bytelen_name == 0 {
                old(self).warning_log().push((Warning::EmptyNodeName, old(self).next_record() as u64))
            } else {
                old(self).warning_log()
            },
            r is Ok ==> final(self).wf(),
            r is Ok ==> old(self).pos() <= final(self).pos() <= final(self).content().len(),
            final(self).content() == old(self).content(),
            final(self).infallible() == old(self).infallible(),
            final(self).spec_version() == old(self).spec_version(),
            old(self).warning_log().is_prefix_of(final(self).warning_log()),
            final(self).failure() is None,
            match r {
                Ok(Event::StartNode(n)) => {
                    let c = old(self).next_record();
                    let h = old(self).next_header();
                    let a = c + header_size(old(self).wide()) + h.bytelen_name;
                    &&& !h.spec_is_null()
                    &&& final(self).pos() == a
                    &&& valid_utf8(old(self).content().subrange(a - h.bytelen_name, a))
                    &&& n.name@ == decode_utf8(old(self).content().subrange(a - h.bytelen_name, a))
                    &&& n.num_attributes == h.num_attributes
                    &&& a + h.bytelen_attributes <= h.end_offset
                    &&& (h.num_attributes == 0 ==> h.bytelen_attributes == 0)
                    &&& (old(self).open_nodes().len() > 0 ==> h.end_offset <= old(self).open_nodes().last().end_offset)
                    &&& final(self).open_nodes() == old(self).open_nodes().push(
                        OpenNode { end_offset: h.end_offset, attributes_end: (a + h.bytelen_attributes) as u64 },
                    )
                    &&& final(self).pending_attributes() == Some(
                        PendingAttributes { remaining: h.num_attributes, end: (a + h.bytelen_attributes) as u64 },
                    )
                    &&& !final(self).is_finished()
                },
                Ok(Event::EndNode) => {
                    &&& old(self).open_nodes().len() > 0
                    &&& final(self).pos() == old(self).open_nodes().last().end_offset
                    &&& final(self).open_nodes() == old(self).open_nodes().drop_last()
                    &&& final(self).pending_attributes() is None
                    &&& !final(self).is_finished()
                },
                Ok(Event::EndFbx(f)) => {
                    let c = old(self).next_record();
                    let hs = header_size(old(self).wide());
                    &&& old(self).open_nodes().len() == 0
                    &&& old(self).next_header().spec_is_null()
                    &&& f.version == old(self).spec_version() as u32
                    &&& f.padding_len == footer_padding_len((c + hs + 16) as nat)
                    &&& final(self).pos() == c + hs + 16 + f.padding_len + 4 + 4 + 120 + 16
                    &&& final(self).open_nodes().len() == 0
                    &&& final(self).is_finished()
                },
                Err(_) => true,
            },
    {
        // Leave the attribute block of the node just started.
        if let Some(a) = self.pending {
            let here = self.source.position();
            if here > a.end {
                return Err(ParseError::NodeLengthMismatch);
            }
            match self.source.skip_to(a.end) {
                Ok(()) => {},
                Err(e) => return Err(e),
            }
            self.pending = None;
        }
        let here = self.source.position();
        let depth = self.open.len();
        if depth > 0 {
            let top = self.open[depth - 1];
            if here == top.end_offset {
                self.open.pop();
                return Ok(Event::EndNode);
            }
            if here > top.end_offset {
                return Err(ParseError::NodeLengthMismatch);
            }
        }
        let wide = self.version >= 7500;
        let hb = match self.read_bytes(header_size_of(wide)) {
            Ok(b) => b,
            Err(e) => return Err(e),
        };
        let header = NodeHeader::from_bytes(hb.as_slice(), wide);
        if header.is_null() {
            if depth == 0 {
                let footer = match self.read_footer() {
                    Ok(f) => f,
                    Err(e) => return Err(e),
                };
                self.finished = true;
                return Ok(Event::EndFbx(footer));
            }
            let top = self.open[depth - 1];
            if self.source.position() != top.end_offset {
                return Err(ParseError::NodeLengthMismatch);
            }
            self.open.pop();
            return Ok(Event::EndNode);
        }
        let name_bytes = match self.read_bytes(header.bytelen_name as usize) {
            Ok(b) => b,
            Err(e) => return Err(e),
        };
        let name = match string_from_utf8(name_bytes) {
            Ok(s) => s,
            Err(_) => return Err(ParseError::InvalidUtf8),
        };
        let attrs_start = self.source.position();
        if header.bytelen_attributes > u64::MAX - attrs_start {
            return Err(ParseError::NodeLengthMismatch);
        }
        let attributes_end = attrs_start + header.bytelen_attributes;
        if attributes_end > header.end_offset {
            return Err(ParseError::NodeLengthMismatch);
        }
        if header.num_attributes == 0 && header.bytelen_attributes != 0 {
            return Err(ParseError::NodeLengthMismatch);
        }
        if depth > 0 && header.end_offset > self.open[depth - 1].end_offset {
            return Err(ParseError::NodeLengthMismatch);
        }
        if header.bytelen_name == 0 {
            self.warn(Warning::EmptyNodeName, here);
        }
        self.open.push(OpenNode { end_offset: header.end_offset, attributes_end });
        self.pending = Some(PendingAttributes { remaining: header.num_attributes, end: attributes_end });
        Ok(Event::StartNode(StartNode { name, num_attributes: header.num_attributes }))
    }
}

} // verus!

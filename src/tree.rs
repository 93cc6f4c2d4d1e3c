//! The node tree: every node record of a file, in an arena, with the strings
//! of their names.

use vstd::prelude::*;
use crate::arena::{
    appended, arena_append_value, arena_data, arena_first_child, arena_last_child, arena_new,
    arena_new_node, arena_next_sibling, arena_parent, arena_previous_sibling, arena_slots,
    arena_has_free_slot, arena_live, can_append, detached, raw_index, raw_index_of, Slot,
};
use indextree::NodeId as RawNodeId;
use crate::attribute::{attribute_models, AttributeModel, AttributeValue};
use crate::error::{ParseError, Warning};
use crate::interner::StringInterner;
use crate::frame::{header_size, node_header, Decoded};
use crate::parser::{
    attribute_step, attribute_values, attribute_warnings, file_parses, footer_warnings_after, lemma_warnings_end,
    lemma_warnings_end_of_file, lemma_warnings_start, run_warnings, state_header, state_next_record, warnings_reach, run, RunRecord, run_reaches, lemma_run_start, lemma_run_end,
    lemma_run_end_of_file, after_attributes, lemma_step_same, parses_from, record_header, record_holds, step_error,
    step_kind, step_next, Event, EventKind, OpenNode, ParseState, Parser, PendingAttributes,
};
use crate::source::ParserSource;

verus! {

/// A handle on an interned string.
#[derive(Debug, Clone, Copy, PartialEq, Eq, Hash, Structural)]
pub struct StrSym(pub usize);

/// The data of a node, without its links.
#[derive(Debug, Clone, PartialEq)]
pub struct NodeData {
    /// Node name.
    name: StrSym,
    /// Node attributes.
    attributes: Vec<AttributeValue>,
}

impl NodeData {
    /// The symbol of the name.
    pub closed spec fn spec_name(&self) -> StrSym {
        self.name
    }

    /// The attribute values.
    pub closed spec fn spec_attributes(&self) -> Seq<AttributeModel> {
        attribute_models(self.attributes@)
    }

    /// Creates node data.
    pub fn new(name: StrSym, attributes: Vec<AttributeValue>) -> (r: NodeData)
        ensures
            r.spec_name() == name,
            r.spec_attributes() == attribute_models(attributes@),
    {
        NodeData { name, attributes }
    }

    /// Returns the symbol of the name.
    pub fn name_sym(&self) -> (r: StrSym)
        ensures
            r == self.spec_name(),
    {
        self.name
    }

    /// Returns the attributes.
    pub fn attributes(&self) -> (r: &Vec<AttributeValue>)
        ensures
            attribute_models(r@) == self.spec_attributes(),
    {
        &self.attributes
    }
}

/// A node of the tree, by its zero-based index; the root has index zero.
#[derive(Debug, Clone, Copy, PartialEq, Eq, Hash, Structural)]
pub struct NodeId(pub usize);

impl NodeId {
    /// The zero-based index of the node.
    pub open spec fn index(&self) -> int {
        self.0 as int
    }

    /// Returns the zero-based index of the node.
    pub fn to_index(&self) -> (r: usize)
        ensures
            r == self.index(),
    {
        self.0
    }

    /// The node for an arena id.
    fn from_raw(raw: RawNodeId) -> (r: NodeId)
        requires
            raw_index(raw) >= 1,
        ensures
            r.index() == raw_index(raw) - 1,
    {
        NodeId(raw_index_of(raw) - 1)
    }
}

/// The indices of a sequence of nodes.
pub open spec fn indices(v: Seq<NodeId>) -> Seq<nat> {
    v.map_values(|x: NodeId| x.index() as nat)
}

/// The index of an optional node.
pub open spec fn opt_index(o: Option<NodeId>) -> Option<nat> {
    match o {
        Some(n) => Some(n.index() as nat),
        None => None,
    }
}

/// The tree as mathematical values: per node, its name symbol, attributes,
/// parent and children; and the strings of the symbols.
pub ghost struct TreeModel {
    pub names: Seq<nat>,
    pub attributes: Seq<Seq<AttributeModel>>,
    pub parents: Seq<Option<nat>>,
    pub children: Seq<Seq<nat>>,
    pub strings: Seq<Seq<char>>,
}

impl TreeModel {
    /// The number of nodes.
    pub open spec fn len(&self) -> nat {
        self.names.len()
    }

    /// The name of node `i`.
    pub open spec fn name_of(&self, i: nat) -> Seq<char> {
        self.strings[self.names[i as int] as int]
    }
}

/// The children of a node, among `cs`, whose name is `name`, in order.
pub open spec fn named(t: TreeModel, cs: Seq<nat>, name: Seq<char>) -> Seq<nat>
    decreases cs.len(),
{
    if cs.len() == 0 {
        Seq::empty()
    } else {
        let rest = named(t, cs.drop_last(), name);
        if t.name_of(cs.last()) == name {
            rest.push(cs.last())
        } else {
            rest
        }
    }
}

/// The children of node `i` whose name is `name`, in order.
pub open spec fn children_named(t: TreeModel, i: nat, name: Seq<char>) -> Seq<nat> {
    named(t, t.children[i as int], name)
}

/// The node reached from `i` by taking, for each component of the path, the
/// first child of that name; `None` where some step finds no such child.
pub open spec fn node_by_path(t: TreeModel, i: nat, path: Seq<Seq<char>>) -> Option<nat>
    decreases path.len(),
{
    if path.len() == 0 {
        Some(i)
    } else {
        let cs = children_named(t, i, path[0]);
        if cs.len() == 0 {
            None
        } else {
            node_by_path(t, cs[0], path.drop_first())
        }
    }
}

/// Offset right after the record that starts at `c`, as its header says.
pub open spec fn record_end(d: Seq<u8>, wide: bool, c: int) -> int {
    node_header(d.subrange(c, c + header_size(wide)), wide).end_offset as int
}

/// Node `i` lies under its parent, and the parent's record, unless it is the
/// root, encloses the record of node `i`.
pub open spec fn within_parent(t: TreeModel, d: Seq<u8>, wide: bool, offsets: Seq<int>, i: int) -> bool {
    match t.parents[i] {
        Some(p) => p < i && (p >= 1 ==> offsets[p as int] < offsets[i] < record_end(d, wide, offsets[p as int])),
        None => false,
    }
}

/// The nodes on `stack` are those whose records `open` lists, after the root.
pub open spec fn stack_matches(stack: Seq<usize>, open: Seq<OpenNode>, offsets: Seq<int>, d: Seq<u8>, wide: bool) -> bool {
    &&& stack.len() == open.len() + 1
    &&& stack[0] == 0
    &&& forall|k: int| 1 <= k < stack.len() ==> #[trigger] stack[k] >= 1
        && open[k - 1].end_offset == record_end(d, wide, offsets[stack[k] as int])
}

/// The node indices on a stack.
pub open spec fn stack_nats(stack: Seq<usize>) -> Seq<nat> {
    stack.map_values(|x: usize| x as nat)
}

/// The tree holds the records `recs` that a parse started: the root has an
/// empty name and no attributes, and node `i` is the record `recs[i - 1]`,
/// with its decoded name and all its decoded attributes, under the node of
/// its enclosing record and in that node's list of children.
pub open spec fn tree_is_run(t: TreeModel, d: Seq<u8>, wide: bool, recs: Seq<RunRecord>) -> bool {
    &&& t.len() == recs.len() + 1
    &&& t.name_of(0) == Seq::<char>::empty()
    &&& t.attributes[0] == Seq::<AttributeModel>::empty()
    &&& forall|j: int| 0 <= j < recs.len() ==> {
        &&& record_holds(d, wide, (#[trigger] recs[j]).offset, t.name_of((j + 1) as nat), t.attributes[j + 1])
        &&& t.parents[j + 1] == Some(recs[j].parent)
        &&& t.children[recs[j].parent as int].contains((j + 1) as nat)
    }
}

/// The file `d`, read by the parser from state `init`, parses to its end,
/// which lies at `end`, and `t` is the tree of the records it starts.
pub open spec fn tree_of_file(t: TreeModel, d: Seq<u8>, wide: bool, version: u16, init: ParseState, end: int) -> bool {
    exists|fuel: nat| #[trigger] parses_from(d, wide, version, init, fuel) && {
        let r = run(d, wide, version, init, fuel, seq![0nat], 0);
        &&& tree_is_run(t, d, wide, r.records)
        &&& r.end == end
    }
}

/// Whether the model is a consistent tree over its strings.
pub open spec fn model_wf(t: TreeModel) -> bool {
    &&& t.attributes.len() == t.len()
    &&& t.parents.len() == t.len()
    &&& t.children.len() == t.len()
    &&& t.len() >= 1
    &&& forall|i: int| 0 <= i < t.len() ==> (#[trigger] t.names[i]) < t.strings.len()
    &&& forall|i: int, k: int| 0 <= i < t.len() && 0 <= k < t.children[i].len()
        ==> i < #[trigger] t.children[i][k] < t.len()
    &&& forall|i: int, k: int| 0 <= i < t.len() && 0 <= k < t.children[i].len()
        ==> t.parents[#[trigger] t.children[i][k] as int] == Some(i as nat)
    &&& forall|i: int, j: int, k: int| 0 <= i < t.len() && 0 <= j < k < t.children[i].len()
        ==> #[trigger] t.children[i][j] < #[trigger] t.children[i][k]
    &&& forall|i: int, j: int| 0 <= i < j < t.strings.len() ==> t.strings[i] != t.strings[j]
}

/// The `k`-th child `cs[k]` of node `i` is linked as such.
pub open spec fn child_linked(s: Seq<Slot>, cs: Seq<nat>, i: int, k: int) -> bool {
    let c = cs[k] as int;
    &&& i < c < s.len()
    &&& s[c].parent == Some(i as nat)
    &&& s[c].previous_sibling == (if k == 0 { None } else { Some(cs[k - 1]) })
    &&& s[c].next_sibling == (if k + 1 < cs.len() { Some(cs[k + 1]) } else { None })
    &&& (k + 1 < cs.len() ==> cs[k] < cs[k + 1])
}

/// The links of node `i` in the slots match its list of children `cs`,
/// which is in increasing order.
pub open spec fn children_linked(s: Seq<Slot>, cs: Seq<nat>, i: int) -> bool {
    &&& forall|j: int, k: int| 0 <= j < k < cs.len() ==> cs[j] < cs[k]
    &&& s[i].first_child == (if cs.len() > 0 { Some(cs[0]) } else { None })
    &&& s[i].last_child == (if cs.len() > 0 { Some(cs.last()) } else { None })
    &&& forall|k: int| 0 <= k < cs.len() ==> #[trigger] child_linked(s, cs, i, k)
}

/// Every node's links match its list of children.
pub open spec fn tree_linked(s: Seq<Slot>, ch: Seq<Seq<nat>>) -> bool {
    &&& ch.len() == s.len()
    &&& forall|i: int| 0 <= i < s.len() ==> #[trigger] children_linked(s, ch[i], i)
}

/// The node tree of a file.
pub struct Core {
    arena: indextree::Arena<NodeData>,
    raw_ids: Vec<RawNodeId>,
    count: usize,
    strings: StringInterner,
    children: Ghost<Seq<Seq<nat>>>,
}

impl View for Core {
    type V = TreeModel;

    closed spec fn view(&self) -> TreeModel {
        let s = arena_slots(self.arena);
        TreeModel {
            names: s.map_values(|x: Slot| x.data.spec_name().0 as nat),
            attributes: s.map_values(|x: Slot| x.data.spec_attributes()),
            parents: s.map_values(|x: Slot| x.parent),
            children: self.children@,
            strings: self.strings@,
        }
    }
}

impl Core {
    /// Well-formedness: the arena's links match the children lists, names
    /// are interned, and the root is the first node.
    pub closed spec fn wf(&self) -> bool {
        let s = arena_slots(self.arena);
        &&& !arena_has_free_slot(self.arena)
        &&& s.len() == self.count
        &&& s.len() >= 1
        &&& self.raw_ids@.len() == self.count
        &&& forall|i: int| 0 <= i < self.count ==> raw_index(#[trigger] self.raw_ids@[i]) == i + 1
        &&& forall|i: int| 0 <= i < self.count ==> arena_live(self.arena, #[trigger] self.raw_ids@[i])
        &&& s[0].parent is None
        &&& tree_linked(s, self.children@)
        &&& self.strings.wf()
        &&& forall|i: int| 0 <= i < s.len() ==> (#[trigger] s[i]).data.spec_name().0 < self.strings@.len()
    }

    /// Whether `id` is a node of this tree.
    pub open spec fn contains(&self, id: NodeId) -> bool {
        0 <= id.index() < self@.len()
    }

    /// Well-formedness implies a consistent model.
    pub proof fn lemma_wf_model(&self)
        requires
            self.wf(),
        ensures
            model_wf(self@),
    {
        let s = arena_slots(self.arena);
        let t = self@;
        assert forall|i: int| 0 <= i < t.len() implies (#[trigger] t.names[i]) < t.strings.len() by {
            assert(s[i].data.spec_name().0 < self.strings@.len());
        }
        assert forall|i: int, k: int| 0 <= i < t.len() && 0 <= k < t.children[i].len()
            implies i < #[trigger] t.children[i][k] < t.len() by {
            assert(children_linked(s, self.children@[i], i));
            assert(child_linked(s, self.children@[i], i, k));
        }
        assert forall|i: int, k: int| 0 <= i < t.len() && 0 <= k < t.children[i].len()
            implies t.parents[#[trigger] t.children[i][k] as int] == Some(i as nat) by {
            assert(children_linked(s, self.children@[i], i));
            assert(child_linked(s, self.children@[i], i, k));
        }
        assert forall|i: int, j: int, k: int| 0 <= i < t.len() && 0 <= j < k < t.children[i].len()
            implies #[trigger] t.children[i][j] < #[trigger] t.children[i][k] by {
            assert(children_linked(s, self.children@[i], i));
        }
    }

    /// A tree holding only the root, whose name is the empty string.
    fn with_root() -> (r: Core)
        ensures
            r.wf(),
            r@.len() == 1,
            r@.children[0] == Seq::<nat>::empty(),
            r@.strings == seq![Seq::<char>::empty()],
            r@.attributes[0] == Seq::<AttributeModel>::empty(),
            r@.name_of(0) == Seq::<char>::empty(),
    {
        let mut strings = StringInterner::new();
        proof {
            reveal_strlit("");
            assert(""@ =~= Seq::<char>::empty());
        }
        let name = strings.get_or_intern("");
        assert(strings@ =~= seq![Seq::<char>::empty()]);
        let mut arena = arena_new();
        let attributes: Vec<AttributeValue> = Vec::new();
        proof {
            assert(attribute_models(attributes@) =~= Seq::<AttributeModel>::empty());
        }
        let root = arena_new_node(&mut arena, NodeData::new(name, attributes));
        let ghost ch = seq![Seq::<nat>::empty()];
        let mut raw_ids: Vec<RawNodeId> = Vec::new();
        raw_ids.push(root);
        let r = Core { arena, raw_ids, count: 1, strings, children: Ghost(ch) };
        proof {
            let s = arena_slots(r.arena);
            assert(s.len() == 1);
            assert(children_linked(s, ch[0], 0));
            assert(r@.children =~= ch);
            assert(r@.strings =~= seq![Seq::<char>::empty()]);
        }
        r
    }

    /// Appends a node with `data` as the last child of `parent`.
    fn append(&mut self, parent: usize, data: NodeData) -> (r: Result<usize, ParseError>)
        requires
            old(self).wf(),
            parent < old(self)@.len(),
            data.spec_name().0 < old(self)@.strings.len(),
        ensures
            match r {
                Ok(id) => {
                    let p = parent as int;
                    let n = old(self)@.len();
                    &&& final(self).wf()
                    &&& id == n
                    &&& final(self)@.names == old(self)@.names.push(data.spec_name().0 as nat)
                    &&& final(self)@.attributes == old(self)@.attributes.push(data.spec_attributes())
                    &&& final(self)@.parents == old(self)@.parents.push(Some(p as nat))
                    &&& final(self)@.children == old(self)@.children.update(p, old(self)@.children[p].push(n)).push(Seq::empty())
                    &&& final(self)@.strings == old(self)@.strings
                },
                Err(e) => e is TooManyNodes && *final(self) == *old(self) && old(self)@.len() >= usize::MAX - 2,
            },
    {
        if self.count >= usize::MAX - 2 {
            return Err(ParseError::TooManyNodes);
        }
        let ghost s0 = arena_slots(self.arena);
        let ghost ch = self.children@;
        let ghost p = parent as nat;
        let raw_parent = self.raw_ids[parent];
        proof {
            assert(children_linked(s0, ch[p as int], p as int));
            if ch[p as int].len() > 0 {
                assert(child_linked(s0, ch[p as int], p as int, ch[p as int].len() - 1));
            }
            assert(arena_live(self.arena, self.raw_ids@[parent as int]));
        }
        let ghost a0 = self.arena;
        let id = arena_append_value(&mut self.arena, raw_parent, data);
        let ghost old_ids = self.raw_ids@;
        self.raw_ids.push(id);
        let index = self.count;
        self.count = self.count + 1;
        let ghost ch2 = ch.update(p as int, ch[p as int].push(s0.len())).push(Seq::<nat>::empty());
        proof {
            let s1 = arena_slots(self.arena);
            lemma_append_linked(s0, s1, ch, p, data);
            assert forall|i: int| 0 <= i < s1.len() implies (#[trigger] s1[i]).data.spec_name().0 < self.strings@.len() by {
                if i < s0.len() {
                    assert(s0[i].data.spec_name().0 < self.strings@.len());
                }
            }
            assert forall|i: int| 0 <= i < self.count implies arena_live(self.arena, #[trigger] self.raw_ids@[i]) by {
                if i < old_ids.len() {
                    assert(self.raw_ids@[i] == old_ids[i]);
                    assert(arena_live(a0, old_ids[i]));
                }
            }
        }
        self.children = Ghost(ch2);
        proof {
            let s1 = arena_slots(self.arena);
            assert(self@.names =~= old(self)@.names.push(data.spec_name().0 as nat));
            assert(self@.attributes =~= old(self)@.attributes.push(data.spec_attributes()));
            assert(self@.parents =~= old(self)@.parents.push(Some(p)));
        }
        Ok(index)
    }

    /// Returns the symbol of `s`, interning it first if needed.
    pub fn intern(&mut self, s: &str) -> (r: StrSym)
        requires
            old(self).wf(),
        ensures
            final(self).wf(),
            r.0 < final(self)@.strings.len(),
            final(self)@.strings[r.0 as int] == s@,
            old(self)@.strings.is_prefix_of(final(self)@.strings),
            (exists|i: int| 0 <= i < old(self)@.strings.len() && old(self)@.strings[i] == s@)
                ==> final(self)@.strings == old(self)@.strings,
            final(self)@.names == old(self)@.names,
            final(self)@.attributes == old(self)@.attributes,
            final(self)@.parents == old(self)@.parents,
            final(self)@.children == old(self)@.children,
    {
        let r = self.strings.get_or_intern(s);
        proof {
            let sl = arena_slots(self.arena);
            assert forall|i: int| 0 <= i < sl.len() implies (#[trigger] sl[i]).data.spec_name().0 < self.strings@.len() by {
                assert(sl[i].data.spec_name().0 < old(self).strings@.len());
            }
        }
        r
    }

    /// Builds the tree by reading every event of `parser` up to the end of
    /// the file. Each started node becomes the last child of the innermost
    /// open one, with all its attributes; the outermost records are children
    /// of a root with an empty name and no attributes.
    ///
    /// On success the parser has read the footer and every node it started
    /// has ended.
    #[verifier::rlimit(100)]
    pub fn load<S: ParserSource>(parser: &mut Parser<S>) -> (r: Result<Core, ParseError>)
        requires
            old(parser).wf(),
            old(parser).open_nodes().len() == 0,
            !old(parser).is_finished(),
            old(parser).failure() is None,
        ensures
            match r {
                Ok(core) => {
                    &&& core.wf()
                    &&& tree_of_file(core@, old(parser).content(), old(parser).wide(), old(parser).spec_version(), old(parser).state(),
                        final(parser).pos() as int)
                    &&& exists|fuel: nat| #[trigger] parses_from(old(parser).content(), old(parser).wide(), old(parser).spec_version(), old(parser).state(), fuel)
                        && footer_warnings_after(
                            old(parser).warning_log() + run_warnings(old(parser).content(), old(parser).wide(), old(parser).spec_version(), old(parser).state(), fuel),
                            final(parser).warning_log(),
                        )
                    &&& final(parser).is_finished()
                    &&& final(parser).failure() is None
                    &&& final(parser).open_nodes().len() == 0
                    &&& old(parser).pos() <= final(parser).pos() <= final(parser).content().len()
                },
                Err(e) => final(parser).failure() == Some(e)
                    || (e is TooManyNodes && old(parser).content().len() >= old(parser).pos() + 13 * (usize::MAX - 2)),
            },
            file_parses(old(parser).content(), old(parser).wide(), old(parser).spec_version(), old(parser).state())
                ==> match r {
                Ok(_) => true,
                Err(e) => (e is Io && !old(parser).infallible()) || e is TooManyNodes,
            },
    {
        let mut core = Core::with_root();
        let mut stack: Vec<usize> = Vec::new();
        stack.push(0);
        let ghost d = parser.content();
        let ghost wide = parser.wide();
        let ghost mut offsets: Seq<int> = seq![0int];
        let ghost version = parser.spec_version();
        let ghost ok = file_parses(d, wide, version, parser.state());
        let ghost mut fuel: nat = if ok {
            choose|f: nat| parses_from(d, wide, version, parser.state(), f)
        } else {
            0
        };
        let ghost mut st: ParseState = parser.state();
        let ghost init: ParseState = parser.state();
        let ghost mut steps: nat = 0;
        let ghost mut recs: Seq<RunRecord> = Seq::empty();
        let ghost mut wdone: Seq<(Warning, u64)> = Seq::empty();
        let ghost log0 = parser.warning_log();
        proof {
            assert(stack_nats(stack@) =~= seq![0nat]);
            assert(log0 + wdone =~= log0);
            assert forall|f: nat| #[trigger] parses_from(d, wide, version, st, f)
                implies run_warnings(d, wide, version, init, f + steps) == wdone + run_warnings(d, wide, version, st, f) by {
                assert(wdone + run_warnings(d, wide, version, st, f) =~= run_warnings(d, wide, version, st, f));
            }
            assert forall|f: nat| #[trigger] parses_from(d, wide, version, st, f) implies parses_from(d, wide, version, init, f + steps)
                && run(d, wide, version, init, f + steps, seq![0nat], 0) == (crate::parser::RunResult {
                    records: recs + run(d, wide, version, st, f, stack_nats(stack@), recs.len()).records,
                    end: run(d, wide, version, st, f, stack_nats(stack@), recs.len()).end,
                }) by {
                assert(recs + run(d, wide, version, st, f, stack_nats(stack@), recs.len()).records
                    =~= run(d, wide, version, st, f, stack_nats(stack@), recs.len()).records);
            }
        }
        loop
            invariant
                core.wf(),
                d == old(parser).content(),
                wide == old(parser).wide(),
                parser.spec_version() == old(parser).spec_version(),
                offsets.len() == core@.len(),
                forall|i: int| 1 <= i < core@.len()
                    ==> #[trigger] record_holds(d, wide, offsets[i], core@.name_of(i as nat), core@.attributes[i]),
                forall|i: int, j: int| 1 <= i < j < core@.len() ==> #[trigger] offsets[i] < #[trigger] offsets[j],
                forall|i: int| 1 <= i < core@.len() ==> #[trigger] offsets[i] < parser.pos(),
                forall|i: int| 1 <= i < core@.len() ==> #[trigger] within_parent(core@, d, wide, offsets, i),
                stack_matches(stack@, parser.open_nodes(), offsets, d, wide),
                version == parser.spec_version(),
                ok == file_parses(d, wide, version, old(parser).state()),
                ok ==> parses_from(d, wide, version, st, fuel),
                st.open == parser.open_nodes(),
                st.pending == parser.pending_attributes(),
                st.pending is None ==> st.pos == parser.pos(),
                st.pending is Some ==> st.pos <= st.pending->0.end,
                init == old(parser).state(),
                run_reaches(d, wide, version, init, st, steps, recs, stack_nats(stack@)),
                warnings_reach(d, wide, version, init, st, steps, wdone),
                log0 == old(parser).warning_log(),
                parser.warning_log() == log0 + wdone,
                recs.len() == core@.len() - 1,
                forall|j: int| 0 <= j < recs.len() ==> (#[trigger] recs[j]).offset == offsets[j + 1] && core@.parents[j + 1] == Some(recs[j].parent),
                forall|j: int| 0 <= j < recs.len() ==> core@.children[(#[trigger] recs[j]).parent as int].contains((j + 1) as nat),
                forall|j: int| 0 <= j < recs.len() ==> (#[trigger] recs[j]).parent < j + 1,
                core@.len() >= 1,
                core@.name_of(0) == Seq::<char>::empty(),
                core@.attributes[0] == Seq::<AttributeModel>::empty(),
                parser.wf(),
                parser.failure() is None,
                !parser.is_finished(),
                parser.content() == old(parser).content(),
                parser.infallible() == old(parser).infallible(),
                old(parser).pos() <= parser.pos(),
                stack@.len() == parser.open_nodes().len() + 1,
                forall|k: int| 0 <= k < stack@.len() ==> #[trigger] stack@[k] < core@.len(),
                13 * (core@.len() - 1) <= parser.pos() - old(parser).pos(),
            decreases 2 * (parser.content().len() - parser.pos()) + parser.open_nodes().len(),
        {
            let ghost pos_before = parser.pos();
            let ghost c = parser.next_record();
            let ghost open0 = parser.open_nodes();
            let ghost old_stack = stack@;
            proof {
                lemma_step_same(d, wide, version, st, parser.state());
            }
            match parser.next_event() {
                Ok(Event::StartNode(start)) => {
                    let ghost attrs_start = parser.pos();
                    let ghost open1 = parser.open_nodes();
                    let ghost pend = parser.pending_attributes()->0;
                    assert(attrs_start >= pos_before + 13);
                    assert(record_header(d, wide, c, start.name@, attrs_start as int, pend));
                    assert(open1 == open0.push(open1.last()));
                    let ghost parser_next = parser.state();
                    let ghost named: Seq<(Warning, u64)> = if state_header(d, wide, st).bytelen_name == 0 {
                        seq![(Warning::EmptyNodeName, state_next_record(st) as u64)]
                    } else {
                        Seq::empty()
                    };
                    assert(parser.warning_log() == log0 + wdone + named);
                    let ghost mut aw: Seq<(Warning, u64)> = Seq::empty();
                    assert(aw + attribute_warnings(d, attrs_start as int, pend.remaining as nat, pend.end)
                        =~= attribute_warnings(d, attrs_start as int, pend.remaining as nat, pend.end));
                    assert(log0 + wdone + named + aw =~= log0 + wdone + named);
                    let mut attributes: Vec<AttributeValue> = Vec::new();
                    proof {
                        assert(attribute_models(attributes@) + attribute_values(d, attrs_start as int, pend.remaining as nat, pend.end)
                            =~= attribute_values(d, attrs_start as int, pend.remaining as nat, pend.end));
                    }
                    loop
                        invariant
                            parser.wf(),
                            parser.failure() is None,
                            !parser.is_finished(),
                            parser.pending_attributes() is Some,
                            parser.content() == old(parser).content(),
                            parser.infallible() == old(parser).infallible(),
                parser.infallible() == old(parser).infallible(),
                            old(parser).pos() <= parser.pos(),
                            attrs_start <= parser.pos(),
                            parser.open_nodes() == open1,
                            stack@.len() == parser.open_nodes().len(),
                            13 * core@.len() <= parser.pos() - old(parser).pos(),
                            attributes@.len() + parser.pending_attributes()->0.remaining == pend.remaining,
                            stack_matches(stack@, open0, offsets, d, wide),
                            open1 == open0.push(open1.last()),
                            open1.last().end_offset == record_end(d, wide, c),
                            open0.len() > 0 ==> c < open0.last().end_offset,
                            ok ==> attribute_values(d, attrs_start as int, pend.remaining as nat, pend.end).len() == pend.remaining,
                            ok ==> parses_from(d, wide, version,
                                ParseState { pending: Some(PendingAttributes { remaining: 0, end: pend.end }), ..parser_next },
                                (fuel - 1) as nat),
                            parser_next.open == open1,
                            parser_next.pending == Some(pend),
                            parser_next.pos == attrs_start,
                            version == parser.spec_version(),
                            version == old(parser).spec_version(),
                            wide == old(parser).wide(),
                            ok == file_parses(d, wide, version, old(parser).state()),
                            step_error(d, wide, version, st) is None,
                            step_kind(d, wide, st) == EventKind::Start,
                            step_next(d, wide, st) == parser_next,
                            init == old(parser).state(),
                            run_reaches(d, wide, version, init, st, steps, recs, stack_nats(stack@)),
                            warnings_reach(d, wide, version, init, st, steps, wdone),
                            log0 == old(parser).warning_log(),
                            parser.warning_log() == log0 + wdone + named + aw,
                            aw + attribute_warnings(d, parser.pos() as int, parser.pending_attributes()->0.remaining as nat, pend.end)
                                == attribute_warnings(d, attrs_start as int, pend.remaining as nat, pend.end),
                recs.len() == core@.len() - 1,
                forall|j: int| 0 <= j < recs.len() ==> (#[trigger] recs[j]).offset == offsets[j + 1] && core@.parents[j + 1] == Some(recs[j].parent),
                forall|j: int| 0 <= j < recs.len() ==> core@.children[(#[trigger] recs[j]).parent as int].contains((j + 1) as nat),
                forall|j: int| 0 <= j < recs.len() ==> (#[trigger] recs[j]).parent < j + 1,
                            offsets.len() == core@.len(),
                            forall|i: int| 1 <= i < core@.len() ==> #[trigger] offsets[i] < c,
                            parser.pending_attributes()->0.end == pend.end,
                            d == old(parser).content(),
                            parser.spec_version() == old(parser).spec_version(),
                            record_header(d, wide, c, start.name@, attrs_start as int, pend),
                            attribute_models(attributes@) + attribute_values(d, parser.pos() as int,
                                parser.pending_attributes()->0.remaining as nat, pend.end)
                                == attribute_values(d, attrs_start as int, pend.remaining as nat, pend.end),
                        ensures
                            parser.pending_attributes() == Some(PendingAttributes { remaining: 0, end: pend.end }),
                            attribute_models(attributes@) == attribute_values(d, attrs_start as int, pend.remaining as nat, pend.end),
                            attributes@.len() == pend.remaining,
                            parser.warning_log() == log0 + wdone + named
                                + attribute_warnings(d, attrs_start as int, pend.remaining as nat, pend.end),
                        decreases parser.pending_attributes()->0.remaining,
                    {
                        let ghost q0 = parser.pos();
                        let ghost rem = parser.pending_attributes()->0.remaining;
                        let ghost before = attributes@;
                        let ghost log_before = parser.warning_log();
                        match parser.next_attribute() {
                            Ok(Some(v)) => {
                                attributes.push(v);
                                proof {
                                    assert(attribute_models(attributes@) =~= attribute_models(before).push(v@));
                                    assert(attribute_values(d, q0 as int, rem as nat, pend.end)
                                        == seq![v@] + attribute_values(d, parser.pos() as int, (rem - 1) as nat, pend.end));
                                    assert(attribute_models(before).push(v@) + attribute_values(d, parser.pos() as int, (rem - 1) as nat, pend.end)
                                        =~= attribute_models(before) + (seq![v@] + attribute_values(d, parser.pos() as int, (rem - 1) as nat, pend.end)));
                                    let here: Seq<(Warning, u64)> = parser.warning_log().subrange(log_before.len() as int, parser.warning_log().len() as int);
                                    assert(parser.warning_log() =~= log_before + here);
                                    assert(attribute_warnings(d, q0 as int, rem as nat, pend.end)
                                        == here + attribute_warnings(d, parser.pos() as int, (rem - 1) as nat, pend.end));
                                    assert(aw + here + attribute_warnings(d, parser.pos() as int, (rem - 1) as nat, pend.end)
                                        =~= aw + (here + attribute_warnings(d, parser.pos() as int, (rem - 1) as nat, pend.end)));
                                    assert(log0 + wdone + named + (aw + here) =~= log0 + wdone + named + aw + here);
                                    aw = aw + here;
                                }
                            },
                            Ok(None) => {
                                proof {
                                    assert(attribute_models(attributes@) + attribute_values(d, parser.pos() as int, 0, pend.end)
                                        =~= attribute_models(attributes@));
                                    assert(aw + attribute_warnings(d, parser.pos() as int, 0, pend.end) =~= aw);
                                }
                                break;
                            },
                            Err(e) => {
                                proof {
                                    if ok {
                                        let full = attribute_values(d, attrs_start as int, pend.remaining as nat, pend.end);
                                        let tail = attribute_values(d, q0 as int, rem as nat, pend.end);
                                        assert(attribute_models(before).len() == before.len());
                                        assert((attribute_models(before) + tail).len() == full.len());
                                        assert(tail.len() == rem);
                                        assert(PendingAttributes { remaining: rem as nat as u64, end: pend.end }
                                            == PendingAttributes { remaining: rem, end: pend.end });
                                        assert(rem > 0);
                                        if !(e is Io) {
                                            assert(attribute_step(d, q0 as int, PendingAttributes { remaining: rem, end: pend.end })
                                                == Decoded::Failure(e));
                                            assert(tail.len() == 0);
                                        }
                                    }
                                }
                                return Err(e);
                            },
                        }
                    }
                    proof {
                        core.lemma_wf_model();
                    }
                    let ghost before = core@;
                    let ghost attrs = attribute_models(attributes@);
                    assert(record_holds(d, wide, c, start.name@, attrs));
                    let name = core.intern(start.name.as_str());
                    let top = stack[stack.len() - 1];
                    let ghost mid = core@;
                    let id = match core.append(top, NodeData::new(name, attributes)) {
                        Ok(id) => id,
                        Err(e) => return Err(e),
                    };
                    stack.push(id);
                    proof {
                        let n = before.len();
                        assert forall|i: int| 1 <= i < core@.len()
                            implies #[trigger] record_holds(d, wide, offsets.push(c)[i], core@.name_of(i as nat), core@.attributes[i]) by {
                            if i < n {
                                assert(record_holds(d, wide, offsets[i], before.name_of(i as nat), before.attributes[i]));
                                assert(before.names[i] < before.strings.len());
                                assert(core@.name_of(i as nat) == before.name_of(i as nat));
                            } else {
                                assert(core@.name_of(i as nat) == start.name@);
                                assert(core@.attributes[i] == attrs);
                            }
                        }
                        assert(attrs_start > c);
                        let offs = offsets.push(c);
                        assert forall|i: int| 1 <= i < core@.len() implies #[trigger] within_parent(core@, d, wide, offs, i) by {
                            if i < n {
                                assert(within_parent(before, d, wide, offsets, i));
                                assert(core@.parents[i] == before.parents[i]);
                            } else {
                                assert(core@.parents[i] == Some(top as nat));
                                if top >= 1 {
                                    assert(stack@[stack@.len() - 2] == top);
                                }
                            }
                        }
                        assert forall|k: int| 1 <= k < stack@.len() implies #[trigger] stack@[k] >= 1
                            && open1[k - 1].end_offset == record_end(d, wide, offs[stack@[k] as int]) by {
                            if k < stack@.len() - 1 {
                                assert(stack@[k] < n);
                            }
                        }
                        offsets = offs;
                        let st_new = after_attributes(parser_next);
                        assert(attribute_values(d, attrs_start as int, pend.remaining as nat, pend.end).len() == pend.remaining);
                        let rec = RunRecord { offset: c, parent: top as nat };
                        assert(stack_nats(old_stack).last() == top as nat);
                        lemma_run_start(d, wide, version, init, st, steps, recs, stack_nats(old_stack));
                        lemma_warnings_start(d, wide, version, init, st, steps, wdone);
                        wdone = wdone + named + attribute_warnings(d, attrs_start as int, pend.remaining as nat, pend.end);
                        assert(stack_nats(stack@) =~= stack_nats(old_stack).push(recs.len() + 1));
                        let recs2 = recs.push(rec);
                        assert forall|j: int| 0 <= j < recs2.len() implies (#[trigger] recs2[j]).offset == offsets[j + 1]
                            && core@.parents[j + 1] == Some(recs2[j].parent) by {
                            if j < recs.len() {
                                assert(recs2[j] == recs[j]);
                                assert(core@.parents[j + 1] == before.parents[j + 1]);
                            }
                        }
                        lemma_children_extend(mid, core@, recs, rec);
                        recs = recs2;
                        steps = steps + 1;
                        st = st_new;
                        if ok {
                            fuel = (fuel - 1) as nat;
                        }
                    }
                },
                Ok(Event::EndNode) => {
                    stack.pop();
                    proof {
                        let st_new = parser.state();
                        lemma_run_end(d, wide, version, init, st, steps, recs, stack_nats(old_stack));
                        lemma_warnings_end(d, wide, version, init, st, steps, wdone);
                        assert(stack_nats(stack@) =~= stack_nats(old_stack).drop_last());
                        steps = steps + 1;
                        st = st_new;
                        if ok {
                            fuel = (fuel - 1) as nat;
                        }
                        assert forall|k: int| 1 <= k < stack@.len() implies #[trigger] stack@[k] >= 1
                            && parser.open_nodes()[k - 1].end_offset == record_end(d, wide, offsets[stack@[k] as int]) by {
                            assert(stack_matches(old_stack, open0, offsets, d, wide));
                            assert(old_stack[k] == stack@[k]);
                        }
                    }
                },
                Ok(Event::EndFbx(_)) => {
                    proof {
                        lemma_run_end_of_file(d, wide, version, init, st, steps, recs, stack_nats(stack@));
                        lemma_warnings_end_of_file(d, wide, version, init, st, steps, wdone);
                        assert(tree_is_run(core@, d, wide, recs));
                        assert(offsets.len() == core@.len() && (forall|i: int| 1 <= i < core@.len()
                            ==> #[trigger] record_holds(d, wide, offsets[i], core@.name_of(i as nat), core@.attributes[i]))
                            && (forall|i: int, j: int| 1 <= i < j < core@.len() ==> #[trigger] offsets[i] < #[trigger] offsets[j])
                            && (forall|i: int| 1 <= i < core@.len() ==> #[trigger] within_parent(core@, d, wide, offsets, i)));
                    }
                    return Ok(core);
                },
                Err(e) => {
                    return Err(e);
                },
            }
        }
    }


    /// The arena id of a node.
    fn raw(&self, id: NodeId) -> (r: RawNodeId)
        requires
            self.wf(),
            self.contains(id),
        ensures
            raw_index(r) == id.index() + 1,
    {
        self.raw_ids[id.0]
    }

    /// Returns the number of nodes, the root included.
    pub fn node_count(&self) -> (r: usize)
        requires
            self.wf(),
        ensures
            r == self@.len(),
    {
        self.count
    }

    /// Returns the root node.
    pub fn root(&self) -> (r: NodeId)
        requires
            self.wf(),
        ensures
            r.index() == 0,
    {
        NodeId(0)
    }

    /// Returns the symbol of `s`, if some name or string of the tree is `s`.
    pub fn find_sym(&self, s: &str) -> (r: Option<StrSym>)
        requires
            self.wf(),
        ensures
            match r {
                Some(sym) => sym.0 < self@.strings.len() && self@.strings[sym.0 as int] == s@,
                None => forall|i: int| 0 <= i < self@.strings.len() ==> self@.strings[i] != s@,
            },
    {
        self.strings.get(s)
    }

    /// Returns the string of `sym`, or `None` for a symbol this tree never
    /// gave out.
    pub fn string(&self, sym: StrSym) -> (r: Option<&str>)
        ensures
            r is Some <==> sym.0 < self@.strings.len(),
            r is Some ==> r->0@ == self@.strings[sym.0 as int],
    {
        self.strings.resolve(sym)
    }

    /// Returns a view on the node `id`.
    pub fn node(&self, id: NodeId) -> (r: Node<'_>)
        requires
            self.wf(),
            self.contains(id),
        ensures
            r.tree() == self,
            r.id() == id,
    {
        Node { tree: self, id }
    }

    /// Returns all children of `id`, in order.
    pub fn children(&self, id: NodeId) -> (r: Vec<NodeId>)
        requires
            self.wf(),
            self.contains(id),
        ensures
            indices(r@) == self@.children[id.index()],
            forall|k: int| 0 <= k < r@.len() ==> self.contains(#[trigger] r@[k]),
    {
        let ghost t = self@;
        let ghost i = id.index();
        let ghost cs = t.children[i];
        let ghost sl = arena_slots(self.arena);
        proof {
            self.lemma_wf_model();
            assert(children_linked(sl, cs, i));
        }
        let mut out: Vec<NodeId> = Vec::new();
        let mut cur = arena_first_child(&self.arena, self.raw(id));
        let ghost mut k: int = 0;
        loop
            invariant
                self.wf(),
                t == self@,
                sl == arena_slots(self.arena),
                model_wf(t),
                children_linked(sl, cs, i),
                cs == t.children[i],
                i == id.index(),
                0 <= i < t.len(),
                0 <= k <= cs.len(),
                cur is Some <==> k < cs.len(),
                cur is Some ==> raw_index(cur->0) == cs[k] + 1,
                indices(out@) == cs.subrange(0, k),
                forall|j: int| 0 <= j < out@.len() ==> self.contains(#[trigger] out@[j]),
            decreases cs.len() - k,
        {
            match cur {
                None => {
                    proof {
                        assert(cs.subrange(0, k) =~= cs);
                    }
                    return out;
                },
                Some(c) => {
                    proof {
                        assert(child_linked(sl, cs, i, k));
                    }
                    let ghost before = out@;
                    let n = NodeId::from_raw(c);
                    out.push(n);
                    proof {
                        assert(indices(before).len() == before.len());
                        assert(before.len() == k);
                        assert(n.index() == cs[k]);
                        assert forall|j: int| 0 <= j < k implies indices(out@)[j] == cs.subrange(0, k + 1)[j] by {
                            assert(out@[j] == before[j]);
                            assert(indices(before)[j] == cs.subrange(0, k)[j]);
                        }
                        assert(indices(out@)[k] == cs[k]);
                        assert(indices(out@) =~= cs.subrange(0, k + 1));
                    }
                    cur = arena_next_sibling(&self.arena, c);
                    proof {
                        k = k + 1;
                    }
                },
            }
        }
    }

    /// Returns the children of `id` whose name is `name`, in order.
    pub fn children_by_name(&self, id: NodeId, name: &str) -> (r: Vec<NodeId>)
        requires
            self.wf(),
            self.contains(id),
        ensures
            indices(r@) == children_named(self@, id.index() as nat, name@),
            forall|k: int| 0 <= k < r@.len() ==> self.contains(#[trigger] r@[k]),
    {
        let ghost t = self@;
        let ghost i = id.index();
        let ghost cs = t.children[i];
        let ghost sl = arena_slots(self.arena);
        proof {
            self.lemma_wf_model();
            assert(children_linked(sl, cs, i));
        }
        let mut out: Vec<NodeId> = Vec::new();
        let target = match self.strings.get(name) {
            Some(sym) => sym,
            None => {
                proof {
                    lemma_named_absent(t, cs, name@);
                    assert(indices(out@) =~= Seq::<nat>::empty());
                }
                return out;
            },
        };
        let mut cur = arena_first_child(&self.arena, self.raw(id));
        let ghost mut k: int = 0;
        loop
            invariant
                self.wf(),
                t == self@,
                sl == arena_slots(self.arena),
                model_wf(t),
                children_linked(sl, cs, i),
                cs == t.children[i],
                i == id.index(),
                0 <= i < t.len(),
                0 <= k <= cs.len(),
                cur is Some <==> k < cs.len(),
                cur is Some ==> raw_index(cur->0) == cs[k] + 1,
                target.0 < t.strings.len(),
                t.strings[target.0 as int] == name@,
                indices(out@) == named(t, cs.subrange(0, k), name@),
                forall|j: int| 0 <= j < out@.len() ==> self.contains(#[trigger] out@[j]),
            decreases cs.len() - k,
        {
            match cur {
                None => {
                    proof {
                        assert(k == cs.len());
                        assert(cs.subrange(0, k) =~= cs);
                        assert(indices(out@) == named(t, cs, name@));
                        assert(children_named(t, i as nat, name@) == named(t, cs, name@));
                    }
                    return out;
                },
                Some(c) => {
                    proof {
                        assert(child_linked(sl, cs, i, k));
                    }
                    let data = arena_data(&self.arena, c);
                    let ghost before = out@;
                    if data.name_sym() == target {
                        out.push(NodeId::from_raw(c));
                    }
                    proof {
                        let c_i = cs[k];
                        assert(cs.subrange(0, k + 1).drop_last() =~= cs.subrange(0, k));
                        assert(t.names[c_i as int] == data.spec_name().0);
                        if t.name_of(c_i) == name@ {
                            assert(t.names[c_i as int] == target.0);
                        }
                        assert(indices(out@) =~= named(t, cs.subrange(0, k + 1), name@));
                    }
                    cur = arena_next_sibling(&self.arena, c);
                    proof {
                        k = k + 1;
                    }
                },
            }
        }
    }

    /// Returns the first child of the root whose name is `name`.
    pub fn find_toplevel(&self, name: &str) -> (r: Option<NodeId>)
        requires
            self.wf(),
        ensures
            match r {
                Some(n) => {
                    let cs = children_named(self@, 0, name@);
                    cs.len() > 0 && n.index() == cs[0] && self.contains(n)
                },
                None => children_named(self@, 0, name@).len() == 0,
            },
    {
        let cs = self.children_by_name(self.root(), name);
        if cs.len() == 0 {
            None
        } else {
            proof {
                assert(indices(cs@)[0] == cs@[0].index());
            }
            Some(cs[0])
        }
    }

    /// Returns the node reached from `id` by taking, for each component of
    /// `path`, the first child of that name.
    pub fn first_node_by_path(&self, id: NodeId, path: &[&str]) -> (r: Option<NodeId>)
        requires
            self.wf(),
            self.contains(id),
        ensures
            opt_index(r) == node_by_path(self@, id.index() as nat, path@.map_values(|s: &str| s@)),
            r is Some ==> self.contains(r->0),
    {
        let ghost t = self@;
        let ghost full = path@.map_values(|s: &str| s@);
        let mut cur = id;
        let mut i: usize = 0;
        assert(full.subrange(0, full.len() as int) =~= full);
        while i < path.len()
            invariant
                self.wf(),
                t == self@,
                full == path@.map_values(|s: &str| s@),
                i <= path@.len(),
                self.contains(cur),
                node_by_path(t, id.index() as nat, full) == node_by_path(t, cur.index() as nat, full.subrange(i as int, full.len() as int)),
            decreases path@.len() - i,
        {
            let ghost rest = full.subrange(i as int, full.len() as int);
            assert(rest[0] == path@[i as int]@);
            assert(rest.drop_first() =~= full.subrange(i + 1, full.len() as int));
            let cs = self.children_by_name(cur, path[i]);
            if cs.len() == 0 {
                return None;
            }
            proof {
                assert(indices(cs@)[0] == cs@[0].index());
            }
            cur = cs[0];
            i = i + 1;
        }
        proof {
            assert(full.subrange(i as int, full.len() as int) =~= Seq::<Seq<char>>::empty());
        }
        Some(cur)
    }
}

/// Appending a node keeps every node's links matching its list of children,
/// with the new node added to its parent's list.
proof fn lemma_append_linked(s: Seq<Slot>, t: Seq<Slot>, ch: Seq<Seq<nat>>, p: nat, data: NodeData)
    requires
        tree_linked(s, ch),
        p < s.len(),
        appended(s, t, p, data),
    ensures
        tree_linked(t, ch.update(p as int, ch[p as int].push(s.len())).push(Seq::<nat>::empty())),
{
    let n = s.len();
    let ch2 = ch.update(p as int, ch[p as int].push(n)).push(Seq::<nat>::empty());
    let last = s[p as int].last_child;
    let cp = ch[p as int];
    assert(children_linked(s, cp, p as int));
    if cp.len() > 0 {
        assert(child_linked(s, cp, p as int, cp.len() - 1));
    }
    assert forall|i: int| 0 <= i < t.len() implies #[trigger] children_linked(t, ch2[i], i) by {
        if i == n {
            assert(ch2[i] =~= Seq::<nat>::empty());
        } else if i == p {
            let cs2 = cp.push(n);
            assert(ch2[i] == cs2);
            assert forall|k: int| 0 <= k < cs2.len() implies #[trigger] child_linked(t, cs2, i, k) by {
                if k == cp.len() {
                } else {
                    assert(child_linked(s, cp, i, k));
                    let c = cp[k] as int;
                    if k == cp.len() - 1 {
                        assert(c == last->0);
                    } else {
                        if last is Some && c == last->0 {
                            assert(child_linked(s, cp, i, cp.len() - 1));
                        }
                        assert(t[c] == s[c]);
                    }
                }
            }
        } else {
            let cs = ch[i];
            assert(ch2[i] == cs);
            assert(children_linked(s, cs, i));
            assert forall|k: int| 0 <= k < cs.len() implies #[trigger] child_linked(t, cs, i, k) by {
                assert(child_linked(s, cs, i, k));
                let c = cs[k] as int;
                if last is Some && c == last->0 {
                    assert(child_linked(s, cp, p as int, cp.len() - 1));
                }
            }
        }
    }
}

/// Following a path in two parts is following the first part, then the
/// second from where the first ended; the walk ends in `None` exactly where
/// some step finds no child of the component's name.
pub proof fn lemma_path_composes(t: TreeModel, i: nat, first: Seq<Seq<char>>, second: Seq<Seq<char>>)
    ensures
        node_by_path(t, i, first + second) == match node_by_path(t, i, first) {
            Some(m) => node_by_path(t, m, second),
            None => None,
        },
    decreases first.len(),
{
    if first.len() == 0 {
        assert(first + second =~= second);
    } else {
        assert((first + second)[0] == first[0]);
        assert((first + second).drop_first() =~= first.drop_first() + second);
        let cs = children_named(t, i, first[0]);
        if cs.len() > 0 {
            lemma_path_composes(t, cs[0], first.drop_first(), second);
        }
    }
}

/// Following a one-component path takes the first child of that name, if
/// any.
pub proof fn lemma_path_step(t: TreeModel, i: nat, a: Seq<char>)
    ensures
        node_by_path(t, i, seq![a]) == (if children_named(t, i, a).len() == 0 {
            None
        } else {
            Some(children_named(t, i, a)[0])
        }),
{
    assert(seq![a].drop_first() =~= Seq::<Seq<char>>::empty());
    let cs = children_named(t, i, a);
    if cs.len() > 0 {
        assert(node_by_path(t, cs[0], Seq::<Seq<char>>::empty()) == Some(cs[0]));
    }
}

/// Interning more strings changes no name: the children of a given name are
/// the same.
pub proof fn lemma_named_stable(t0: TreeModel, t1: TreeModel, cs: Seq<nat>, name: Seq<char>)
    requires
        t1.names == t0.names,
        t0.strings.is_prefix_of(t1.strings),
        forall|k: int| 0 <= k < cs.len() ==> #[trigger] cs[k] < t0.len(),
        forall|i: int| 0 <= i < t0.len() ==> (#[trigger] t0.names[i]) < t0.strings.len(),
    ensures
        named(t0, cs, name) == named(t1, cs, name),
    decreases cs.len(),
{
    if cs.len() > 0 {
        lemma_named_stable(t0, t1, cs.drop_last(), name);
        assert(t0.names[cs.last() as int] < t0.strings.len());
    }
}

/// The children of a given name have that name, and are among the children.
pub proof fn lemma_named_members(t: TreeModel, cs: Seq<nat>, name: Seq<char>)
    ensures
        forall|k: int| 0 <= k < named(t, cs, name).len() ==> t.name_of(#[trigger] named(t, cs, name)[k]) == name
            && cs.contains(named(t, cs, name)[k]),
    decreases cs.len(),
{
    if cs.len() > 0 {
        lemma_named_members(t, cs.drop_last(), name);
        let rest = named(t, cs.drop_last(), name);
        assert forall|k: int| 0 <= k < named(t, cs, name).len() implies t.name_of(#[trigger] named(t, cs, name)[k]) == name
            && cs.contains(named(t, cs, name)[k]) by {
            if k < rest.len() {
                assert(named(t, cs, name)[k] == rest[k]);
                assert(cs.drop_last().contains(rest[k]));
                let j = choose|j: int| 0 <= j < cs.drop_last().len() && cs.drop_last()[j] == rest[k];
                assert(cs[j] == rest[k]);
            } else {
                assert(cs[cs.len() - 1] == cs.last());
            }
        }
    }
}

/// Appending node `n` under `rec.parent` keeps every recorded node in its
/// parent's list of children and adds the new one.
proof fn lemma_children_extend(mid: TreeModel, after: TreeModel, recs: Seq<RunRecord>, rec: RunRecord)
    requires
        rec.parent < mid.len(),
        recs.len() + 1 == mid.len(),
        mid.children.len() == mid.len(),
        after.children == mid.children.update(rec.parent as int, mid.children[rec.parent as int].push(mid.len())).push(Seq::empty()),
        forall|j: int| 0 <= j < recs.len() ==> (#[trigger] recs[j]).parent < j + 1,
        forall|j: int| 0 <= j < recs.len() ==> mid.children[(#[trigger] recs[j]).parent as int].contains((j + 1) as nat),
    ensures
        forall|j: int| 0 <= j < recs.push(rec).len() ==> (#[trigger] recs.push(rec)[j]).parent < j + 1,
        forall|j: int| 0 <= j < recs.push(rec).len() ==> after.children[(#[trigger] recs.push(rec)[j]).parent as int].contains((j + 1) as nat),
{
    let recs2 = recs.push(rec);
    assert forall|j: int| 0 <= j < recs2.len() implies after.children[(#[trigger] recs2[j]).parent as int].contains((j + 1) as nat) by {
        if j < recs.len() {
            assert(recs2[j] == recs[j]);
            let p = recs[j].parent as int;
            assert(mid.children[p].contains((j + 1) as nat));
            let w = choose|w: int| 0 <= w < mid.children[p].len() && mid.children[p][w] == (j + 1) as nat;
            assert(after.children[p][w] == mid.children[p][w]);
        } else {
            let p = rec.parent as int;
            assert(after.children[p][after.children[p].len() - 1] == (j + 1) as nat);
        }
    }
    assert forall|j: int| 0 <= j < recs2.len() implies (#[trigger] recs2[j]).parent < j + 1 by {
        if j < recs.len() {
            assert(recs2[j] == recs[j]);
        }
    }
}

/// Where no string of the tree is `name`, no node has that name.
proof fn lemma_named_absent(t: TreeModel, cs: Seq<nat>, name: Seq<char>)
    requires
        model_wf(t),
        forall|k: int| 0 <= k < cs.len() ==> #[trigger] cs[k] < t.len(),
        forall|i: int| 0 <= i < t.strings.len() ==> t.strings[i] != name,
    ensures
        named(t, cs, name) == Seq::<nat>::empty(),
    decreases cs.len(),
{
    if cs.len() > 0 {
        lemma_named_absent(t, cs.drop_last(), name);
        assert(t.names[cs.last() as int] < t.strings.len());
    }
}

/// A view on one node of a tree.
pub struct Node<'a> {
    tree: &'a Core,
    id: NodeId,
}

impl<'a> Node<'a> {
    /// The tree.
    pub closed spec fn tree(&self) -> &'a Core {
        self.tree
    }

    /// The node.
    pub closed spec fn id(&self) -> NodeId {
        self.id
    }

    /// Whether this view is on a node of a well-formed tree.
    pub open spec fn valid(&self) -> bool {
        self.tree().wf() && self.tree().contains(self.id())
    }

    /// The index of the node.
    pub open spec fn index(&self) -> nat {
        self.id().index() as nat
    }

    /// Returns the node name.
    pub fn name(&self) -> (r: &'a str)
        requires
            self.valid(),
        ensures
            r@ == self.tree()@.name_of(self.index()),
    {
        let data = arena_data(&self.tree.arena, self.tree.raw(self.id));
        proof {
            let sl = arena_slots(self.tree.arena);
            assert(sl[self.index() as int].data.spec_name().0 < self.tree.strings@.len());
        }
        self.tree.strings.resolve(data.name_sym()).unwrap()
    }

    /// Returns the symbol of the node name.
    pub fn name_sym(&self) -> (r: StrSym)
        requires
            self.valid(),
        ensures
            r.0 == self.tree()@.names[self.index() as int],
    {
        arena_data(&self.tree.arena, self.tree.raw(self.id)).name_sym()
    }

    /// Returns the node attributes.
    pub fn attributes(&self) -> (r: &'a Vec<AttributeValue>)
        requires
            self.valid(),
        ensures
            attribute_models(r@) == self.tree()@.attributes[self.index() as int],
    {
        arena_data(&self.tree.arena, self.tree.raw(self.id)).attributes()
    }

    /// Returns the parent node; the root has none.
    pub fn parent(&self) -> (r: Option<NodeId>)
        requires
            self.valid(),
        ensures
            opt_index(r) == self.tree()@.parents[self.index() as int],
    {
        let r = arena_parent(&self.tree.arena, self.tree.raw(self.id));
        match r {
            Some(p) => Some(NodeId::from_raw(p)),
            None => None,
        }
    }

    /// Returns the first child.
    pub fn first_child(&self) -> (r: Option<NodeId>)
        requires
            self.valid(),
        ensures
            ({
                let cs = self.tree()@.children[self.index() as int];
                opt_index(r) == if cs.len() > 0 { Some(cs[0]) } else { None }
            }),
            r is Some ==> self.tree().contains(r->0),
    {
        let r = arena_first_child(&self.tree.arena, self.tree.raw(self.id));
        proof {
            let sl = arena_slots(self.tree.arena);
            let i = self.index() as int;
            let cs = self.tree.children@[i];
            assert(children_linked(sl, cs, i));
            if cs.len() > 0 {
                assert(child_linked(sl, cs, i, 0));
            }
        }
        match r {
            Some(c) => Some(NodeId::from_raw(c)),
            None => None,
        }
    }

    /// Returns the last child.
    pub fn last_child(&self) -> (r: Option<NodeId>)
        requires
            self.valid(),
        ensures
            ({
                let cs = self.tree()@.children[self.index() as int];
                opt_index(r) == if cs.len() > 0 { Some(cs.last()) } else { None }
            }),
            r is Some ==> self.tree().contains(r->0),
    {
        let r = arena_last_child(&self.tree.arena, self.tree.raw(self.id));
        proof {
            let sl = arena_slots(self.tree.arena);
            let i = self.index() as int;
            let cs = self.tree.children@[i];
            assert(children_linked(sl, cs, i));
            if cs.len() > 0 {
                assert(child_linked(sl, cs, i, cs.len() - 1));
            }
        }
        match r {
            Some(c) => Some(NodeId::from_raw(c)),
            None => None,
        }
    }

    /// Returns the previous sibling.
    pub fn previous_sibling(&self) -> (r: Option<NodeId>)
        requires
            self.valid(),
        ensures
            forall|p: int, k: int|
                0 <= p < self.tree()@.len() && 0 <= k < self.tree()@.children[p].len()
                    && #[trigger] self.tree()@.children[p][k] == self.index()
                    ==> opt_index(r) == if k > 0 { Some(self.tree()@.children[p][k - 1]) } else { None },
    {
        let raw = arena_previous_sibling(&self.tree.arena, self.tree.raw(self.id));
        let r = match raw {
            Some(c) => Some(NodeId::from_raw(c)),
            None => None,
        };
        proof {
            let sl = arena_slots(self.tree.arena);
            let t = self.tree@;
            assert forall|p: int, k: int|
                0 <= p < t.len() && 0 <= k < t.children[p].len() && #[trigger] t.children[p][k] == self.index()
                implies opt_index(r) == if k > 0 { Some(t.children[p][k - 1]) } else { None } by {
                assert(children_linked(sl, t.children[p], p));
                assert(child_linked(sl, t.children[p], p, k));
            }
        }
        r
    }

    /// Returns the next sibling.
    pub fn next_sibling(&self) -> (r: Option<NodeId>)
        requires
            self.valid(),
        ensures
            forall|p: int, k: int|
                0 <= p < self.tree()@.len() && 0 <= k < self.tree()@.children[p].len()
                    && #[trigger] self.tree()@.children[p][k] == self.index()
                    ==> opt_index(r) == if k + 1 < self.tree()@.children[p].len() {
                        Some(self.tree()@.children[p][k + 1])
                    } else {
                        None
                    },
    {
        let raw = arena_next_sibling(&self.tree.arena, self.tree.raw(self.id));
        let r = match raw {
            Some(c) => Some(NodeId::from_raw(c)),
            None => None,
        };
        proof {
            let sl = arena_slots(self.tree.arena);
            let t = self.tree@;
            assert forall|p: int, k: int|
                0 <= p < t.len() && 0 <= k < t.children[p].len() && #[trigger] t.children[p][k] == self.index()
                implies opt_index(r) == if k + 1 < t.children[p].len() { Some(t.children[p][k + 1]) } else { None } by {
                assert(children_linked(sl, t.children[p], p));
                assert(child_linked(sl, t.children[p], p, k));
            }
        }
        r
    }
}

impl NodeId {
    /// Returns a view on this node of `tree`.
    pub fn node(self, tree: &Core) -> (r: Node<'_>)
        requires
            tree.wf(),
            tree.contains(self),
        ensures
            r.tree() == tree,
            r.id() == self,
    {
        tree.node(self)
    }

    /// Returns the children of this node whose name is `name`, in order.
    pub fn children_by_name(self, tree: &Core, name: &str) -> (r: Vec<NodeId>)
        requires
            tree.wf(),
            tree.contains(self),
        ensures
            indices(r@) == children_named(tree@, self.index() as nat, name@),
            forall|k: int| 0 <= k < r@.len() ==> tree.contains(#[trigger] r@[k]),
    {
        tree.children_by_name(self, name)
    }

    /// Returns the node reached from this one by taking, for each component
    /// of `path`, the first child of that name.
    pub fn first_node_by_path(self, tree: &Core, path: &[&str]) -> (r: Option<NodeId>)
        requires
            tree.wf(),
            tree.contains(self),
        ensures
            opt_index(r) == node_by_path(tree@, self.index() as nat, path@.map_values(|s: &str| s@)),
            r is Some ==> tree.contains(r->0),
    {
        tree.first_node_by_path(self, path)
    }
}

} // verus!

//! The pointer assignment graph: nodes for variables, abstract locations
//! and indirect call targets, with the constraints between them.

use vstd::prelude::*;
use crate::constraints::{AbstractLocation, Constraint, ConstraintKind, LocKind};
use crate::flow::{FlowConstraint, ReturnFlow};
use crate::ids::{CallSiteId, FieldId, FileId, FnId, LocId, PagNodeId, TypeId, VarId};
use crate::keymap::{KeyMap, km_lookup, lemma_km_lookup_entry, pair_key, pair_key_spec};
use crate::program::{Program, program_wf, returns_of};
use crate::symbol::{CallSite, StorageClass, SymbolTable, Variable, fn_index, lemma_fn_index, name_lookup, lookup_name};
use crate::text::{chars_to_string, push_all, str_chars, u32_decimal, contains_chars, contains_char, contains_seq};
use crate::types::{TypeInfo, TypeDesc, TypeKind, TypeTable, table_wf, resolve_spec, is_tag_pick, tag_pick, tag_matches, lemma_tag_pick_unique};

verus! {

#[derive(Debug, Clone, Copy, PartialEq, Eq, Hash, Structural)]
pub enum PagNodeKind {
    Var(VarId),
    Loc(LocId),
    CallTarget(CallSiteId),
}

#[derive(Debug, Clone, Copy)]
pub struct PagNode {
    pub id: PagNodeId,
    pub kind: PagNodeKind,
}

/// Constraints by the node that triggers them (position = node id), and
/// indirect call sites by their target node.
#[derive(Debug)]
pub struct SolverIndices {
    pub copy_src: Vec<Vec<usize>>,
    pub addr_of_dst: Vec<Vec<usize>>,
    pub load_src: Vec<Vec<usize>>,
    pub store_dst: Vec<Vec<usize>>,
    pub store_src: Vec<Vec<usize>>,
    pub gep_src: Vec<Vec<usize>>,
    pub indirect_by_target: Vec<Vec<CallSiteId>>,
}

/// Deepest nesting of instance-sensitive field locations; deeper accesses
/// fold into the per-(type, field) summaries.
pub const FIELD_LOC_DEPTH_CAP: u8 = 4;

/// Node and location counts stay below this, so that ids fit in 32 bits.
pub const ID_ROOM: usize = 0xffff_fff0;

/// The graph. Location `k` has id `k`; its node, nesting depth and summary
/// are at position `k` of `loc_node`, `field_depth` and
/// `field_loc_to_summary`. Maps are keyed by the id's number (pairs of ids
/// by `pair_key`).
#[derive(Debug)]
pub struct Pag {
    pub nodes: Vec<PagNode>,
    pub constraints: Vec<Constraint>,
    pub locations: Vec<AbstractLocation>,
    pub loc_node: Vec<PagNodeId>,
    pub var_node: KeyMap<PagNodeId>,
    pub call_targets: KeyMap<PagNodeId>,
    pub fn_locations: KeyMap<LocId>,
    pub var_location: KeyMap<LocId>,
    /// Field locations keyed by (parent location, field).
    pub field_loc: KeyMap<LocId>,
    pub field_depth: Vec<u8>,
    /// Summary locations keyed by (struct type, field).
    pub field_summary: KeyMap<LocId>,
    pub field_loc_to_summary: Vec<Option<LocId>>,
    /// Function locations parked in an array variable by its initializer.
    pub array_fn_members: Vec<(VarId, LocId)>,
    pub indices: SolverIndices,
}

/// The node of variable `v`.
pub open spec fn vn(p: Pag, v: VarId) -> Option<PagNodeId> {
    km_lookup(p.var_node.entries@, v.0 as u64)
}

/// The storage location of variable `v`.
pub open spec fn vloc(p: Pag, v: VarId) -> Option<LocId> {
    km_lookup(p.var_location.entries@, v.0 as u64)
}

/// The location of function `f`.
pub open spec fn floc(p: Pag, f: FnId) -> Option<LocId> {
    km_lookup(p.fn_locations.entries@, f.0 as u64)
}

/// The target node of indirect call site `cs`.
pub open spec fn ctn(p: Pag, cs: CallSiteId) -> Option<PagNodeId> {
    km_lookup(p.call_targets.entries@, cs.0 as u64)
}

/// The node of location `l`.
pub open spec fn lnode(p: Pag, l: LocId) -> PagNodeId {
    p.loc_node@[l.0 as int]
}

pub open spec fn is_storage_kind(k: LocKind) -> bool {
    k == LocKind::Global || k == LocKind::FileStatic || k == LocKind::FnStatic || k == LocKind::Local
}

/// The graph's invariant.
pub open spec fn pag_wf(p: Pag) -> bool {
    let ns = p.nodes@;
    let ls = p.locations@;
    &&& ns.len() <= u32::MAX
    &&& ls.len() <= u32::MAX
    &&& p.loc_node@.len() == ls.len()
    &&& p.field_depth@.len() == ls.len()
    &&& forall|i: int| 0 <= i < ls.len() ==> #[trigger] p.field_depth@[i] <= FIELD_LOC_DEPTH_CAP
    &&& p.field_loc_to_summary@.len() == ls.len()
    &&& forall|i: int| 0 <= i < ns.len() ==> (#[trigger] ns[i]).id.0 == i
    &&& forall|i: int| 0 <= i < ns.len() ==> ((#[trigger] ns[i]).kind matches PagNodeKind::Loc(l) ==> (l.0 as int) < ls.len())
    &&& forall|i: int| 0 <= i < ls.len() ==> {
        &&& (#[trigger] ls[i]).id.0 == i
        &&& (p.loc_node@[i].0 as int) < ns.len()
        &&& ns[p.loc_node@[i].0 as int].kind == PagNodeKind::Loc(LocId(i as u32))
        &&& (ls[i].kind == LocKind::Function ==> ls[i].fn_id is Some)
    }
    &&& forall|i: int| 0 <= i < p.var_node.entries@.len() ==> {
        let e = #[trigger] p.var_node.entries@[i];
        &&& e.0 <= u32::MAX
        &&& (e.1.0 as int) < ns.len()
        &&& ns[e.1.0 as int].kind == PagNodeKind::Var(VarId(e.0 as u32))
    }
    &&& forall|i: int| 0 <= i < p.call_targets.entries@.len() ==> {
        let e = #[trigger] p.call_targets.entries@[i];
        &&& e.0 <= u32::MAX
        &&& (e.1.0 as int) < ns.len()
        &&& ns[e.1.0 as int].kind == PagNodeKind::CallTarget(CallSiteId(e.0 as u32))
    }
    &&& forall|i: int| 0 <= i < p.fn_locations.entries@.len() ==> {
        let e = #[trigger] p.fn_locations.entries@[i];
        &&& e.0 <= u32::MAX
        &&& (e.1.0 as int) < ls.len()
        &&& ls[e.1.0 as int].kind == LocKind::Function
        &&& ls[e.1.0 as int].fn_id == Some(FnId(e.0 as u32))
    }
    &&& forall|i: int| 0 <= i < p.var_location.entries@.len() ==> {
        let e = #[trigger] p.var_location.entries@[i];
        &&& e.0 <= u32::MAX
        &&& (e.1.0 as int) < ls.len()
        &&& is_storage_kind(ls[e.1.0 as int].kind)
        &&& ls[e.1.0 as int].var == Some(VarId(e.0 as u32))
    }
    &&& forall|i: int| 0 <= i < p.field_loc.entries@.len() ==> {
        let e = #[trigger] p.field_loc.entries@[i];
        &&& (e.1.0 as int) < ls.len()
        &&& ls[e.1.0 as int].kind == LocKind::Field
    }
    &&& forall|i: int| 0 <= i < p.field_summary.entries@.len() ==> {
        let e = #[trigger] p.field_summary.entries@[i];
        &&& (e.1.0 as int) < ls.len()
        &&& ls[e.1.0 as int].kind == LocKind::FieldSummary
    }
    &&& forall|i: int| 0 <= i < ls.len() && (#[trigger] p.field_loc_to_summary@[i]) is Some ==> {
        let s = p.field_loc_to_summary@[i]->0;
        &&& (s.0 as int) < ls.len()
        &&& ls[s.0 as int].kind == LocKind::FieldSummary
    }
    &&& forall|i: int| 0 <= i < p.constraints@.len() ==> {
        let c = #[trigger] p.constraints@[i];
        &&& (c.dst.0 as int) < ns.len()
        &&& (c.src.0 as int) < ns.len()
        &&& (c.kind == ConstraintKind::AddrOf ==> ns[c.src.0 as int].kind is Loc)
        &&& (c.kind == ConstraintKind::Gep ==> c.field is Some)
    }
    &&& forall|i: int| 0 <= i < p.array_fn_members@.len() ==> {
        let e = #[trigger] p.array_fn_members@[i];
        &&& (e.1.0 as int) < ls.len()
        &&& ls[e.1.0 as int].kind == LocKind::Function
    }
}

/// What a key map held under each key is still held.
pub open spec fn km_grows<V>(a: KeyMap<V>, b: KeyMap<V>) -> bool {
    forall|k: u64| #[trigger] km_lookup(a.entries@, k) is Some ==> km_lookup(b.entries@, k) == km_lookup(a.entries@, k)
}

/// `b` extends `a`: nodes, locations, constraints and map entries are kept.
pub open spec fn pag_grows(a: Pag, b: Pag) -> bool {
    &&& a.nodes@.len() <= b.nodes@.len()
    &&& forall|i: int| 0 <= i < a.nodes@.len() ==> #[trigger] b.nodes@[i] == a.nodes@[i]
    &&& a.locations@.len() <= b.locations@.len()
    &&& forall|i: int| 0 <= i < a.locations@.len() ==> #[trigger] b.locations@[i] == a.locations@[i]
    &&& forall|i: int| 0 <= i < a.locations@.len() ==> #[trigger] b.loc_node@[i] == a.loc_node@[i]
    &&& forall|i: int| 0 <= i < a.locations@.len() ==> #[trigger] b.field_depth@[i] == a.field_depth@[i]
    &&& forall|i: int| 0 <= i < a.locations@.len() && (#[trigger] a.field_loc_to_summary@[i]) is Some
        ==> b.field_loc_to_summary@[i] == a.field_loc_to_summary@[i]
    &&& a.constraints@.len() <= b.constraints@.len()
    &&& forall|i: int| 0 <= i < a.constraints@.len() ==> #[trigger] b.constraints@[i] == a.constraints@[i]
    &&& a.array_fn_members@.len() <= b.array_fn_members@.len()
    &&& forall|i: int| 0 <= i < a.array_fn_members@.len() ==> #[trigger] b.array_fn_members@[i] == a.array_fn_members@[i]
    &&& km_grows(a.var_node, b.var_node)
    &&& km_grows(a.call_targets, b.call_targets)
    &&& km_grows(a.fn_locations, b.fn_locations)
    &&& km_grows(a.var_location, b.var_location)
    &&& km_grows(a.field_loc, b.field_loc)
    &&& km_grows(a.field_summary, b.field_summary)
}

/// Whether another few nodes and locations fit.
pub open spec fn has_room(p: Pag) -> bool {
    p.nodes@.len() < ID_ROOM && p.locations@.len() < ID_ROOM
}

pub proof fn lemma_grows_trans(a: Pag, b: Pag, c: Pag)
    requires
        pag_grows(a, b),
        pag_grows(b, c),
    ensures
        pag_grows(a, c),
{
    assert forall|k: u64| #[trigger] km_lookup(a.var_node.entries@, k) is Some implies
        km_lookup(c.var_node.entries@, k) == km_lookup(a.var_node.entries@, k) by {
        assert(km_lookup(b.var_node.entries@, k) is Some);
    }
    assert forall|k: u64| #[trigger] km_lookup(a.call_targets.entries@, k) is Some implies
        km_lookup(c.call_targets.entries@, k) == km_lookup(a.call_targets.entries@, k) by {
        assert(km_lookup(b.call_targets.entries@, k) is Some);
    }
    assert forall|k: u64| #[trigger] km_lookup(a.fn_locations.entries@, k) is Some implies
        km_lookup(c.fn_locations.entries@, k) == km_lookup(a.fn_locations.entries@, k) by {
        assert(km_lookup(b.fn_locations.entries@, k) is Some);
    }
    assert forall|k: u64| #[trigger] km_lookup(a.var_location.entries@, k) is Some implies
        km_lookup(c.var_location.entries@, k) == km_lookup(a.var_location.entries@, k) by {
        assert(km_lookup(b.var_location.entries@, k) is Some);
    }
    assert forall|k: u64| #[trigger] km_lookup(a.field_loc.entries@, k) is Some implies
        km_lookup(c.field_loc.entries@, k) == km_lookup(a.field_loc.entries@, k) by {
        assert(km_lookup(b.field_loc.entries@, k) is Some);
    }
    assert forall|k: u64| #[trigger] km_lookup(a.field_summary.entries@, k) is Some implies
        km_lookup(c.field_summary.entries@, k) == km_lookup(a.field_summary.entries@, k) by {
        assert(km_lookup(b.field_summary.entries@, k) is Some);
    }
    assert forall|i: int| 0 <= i < a.locations@.len() && (#[trigger] a.field_loc_to_summary@[i]) is Some implies
        c.field_loc_to_summary@[i] == a.field_loc_to_summary@[i] by {
        assert(b.field_loc_to_summary@[i] is Some);
    }
}

impl Pag {
    /// An empty graph.
    pub fn new() -> (p: Pag)
        ensures
            pag_wf(p),
            p.nodes@.len() == 0,
            p.locations@.len() == 0,
            p.constraints@.len() == 0,
            p.var_node.entries@.len() == 0,
            p.call_targets.entries@.len() == 0,
            p.fn_locations.entries@.len() == 0,
            p.var_location.entries@.len() == 0,
            p.field_loc.entries@.len() == 0,
            p.field_summary.entries@.len() == 0,
            p.array_fn_members@.len() == 0,
    {
        Pag {
            nodes: Vec::new(),
            constraints: Vec::new(),
            locations: Vec::new(),
            loc_node: Vec::new(),
            var_node: KeyMap::new(),
            call_targets: KeyMap::new(),
            fn_locations: KeyMap::new(),
            var_location: KeyMap::new(),
            field_loc: KeyMap::new(),
            field_depth: Vec::new(),
            field_summary: KeyMap::new(),
            field_loc_to_summary: Vec::new(),
            array_fn_members: Vec::new(),
            indices: SolverIndices {
                copy_src: Vec::new(),
                addr_of_dst: Vec::new(),
                load_src: Vec::new(),
                store_dst: Vec::new(),
                store_src: Vec::new(),
                gep_src: Vec::new(),
                indirect_by_target: Vec::new(),
            },
        }
    }

    /// Whether another few nodes and locations fit.
    pub fn room(&self) -> (r: bool)
        ensures
            r == has_room(*self),
    {
        self.nodes.len() < ID_ROOM && self.locations.len() < ID_ROOM
    }

    /// Appends a node of kind `kind`.
    fn alloc_node(&mut self, kind: PagNodeKind) -> (id: PagNodeId)
        requires
            old(self).nodes@.len() < u32::MAX,
        ensures
            id.0 as int == old(self).nodes@.len(),
            final(self).nodes@ == old(self).nodes@.push(PagNode { id, kind }),
            final(self).locations == old(self).locations,
            final(self).loc_node == old(self).loc_node,
            final(self).constraints == old(self).constraints,
            final(self).var_node == old(self).var_node,
            final(self).call_targets == old(self).call_targets,
            final(self).fn_locations == old(self).fn_locations,
            final(self).var_location == old(self).var_location,
            final(self).field_loc == old(self).field_loc,
            final(self).field_depth == old(self).field_depth,
            final(self).field_summary == old(self).field_summary,
            final(self).field_loc_to_summary == old(self).field_loc_to_summary,
            final(self).array_fn_members == old(self).array_fn_members,
            final(self).indices == old(self).indices,
    {
        let id = PagNodeId(self.nodes.len() as u32);
        self.nodes.push(PagNode { id, kind });
        id
    }

    /// Appends location `loc` (whose id must be the next one) with its
    /// node, at nesting depth `depth`.
    fn alloc_loc(&mut self, loc: AbstractLocation, depth: u8) -> (id: LocId)
        requires
            pag_wf(*old(self)),
            old(self).nodes@.len() < u32::MAX,
            old(self).locations@.len() < u32::MAX,
            loc.id.0 as int == old(self).locations@.len(),
            loc.kind == LocKind::Function ==> loc.fn_id is Some,
            depth <= FIELD_LOC_DEPTH_CAP,
        ensures
            pag_wf(*final(self)),
            pag_grows(*old(self), *final(self)),
            id == loc.id,
            final(self).locations@ == old(self).locations@.push(loc),
            final(self).nodes@.len() == old(self).nodes@.len() + 1,
            final(self).field_depth@ == old(self).field_depth@.push(depth),
            final(self).field_loc_to_summary@ == old(self).field_loc_to_summary@.push(None),
            final(self).constraints == old(self).constraints,
            final(self).var_node == old(self).var_node,
            final(self).call_targets == old(self).call_targets,
            final(self).fn_locations == old(self).fn_locations,
            final(self).var_location == old(self).var_location,
            final(self).field_loc == old(self).field_loc,
            final(self).field_summary == old(self).field_summary,
            final(self).array_fn_members == old(self).array_fn_members,
            final(self).indices == old(self).indices,
    {
        let id = loc.id;
        let node_id = self.alloc_node(PagNodeKind::Loc(id));
        self.loc_node.push(node_id);
        self.locations.push(loc);
        self.field_depth.push(depth);
        self.field_loc_to_summary.push(None);
        proof {
            let p = *self;
            assert forall|i: int| 0 <= i < p.locations@.len() implies {
                &&& (#[trigger] p.locations@[i]).id.0 == i
                &&& (p.loc_node@[i].0 as int) < p.nodes@.len()
                &&& p.nodes@[p.loc_node@[i].0 as int].kind == PagNodeKind::Loc(LocId(i as u32))
                &&& (p.locations@[i].kind == LocKind::Function ==> p.locations@[i].fn_id is Some)
            } by {
                if i < p.locations@.len() - 1 {
                    assert(p.locations@[i] == old(self).locations@[i]);
                    assert(p.loc_node@[i] == old(self).loc_node@[i]);
                }
            }
        }
        id
    }

    /// The node of `var`, created on first use.
    pub fn var_node_id(&mut self, var: VarId) -> (r: PagNodeId)
        requires
            pag_wf(*old(self)),
            old(self).nodes@.len() < u32::MAX,
        ensures
            pag_wf(*final(self)),
            pag_grows(*old(self), *final(self)),
            vn(*final(self), var) == Some(r),
            vn(*old(self), var) is Some ==> *final(self) == *old(self),
            final(self).nodes@.len() <= old(self).nodes@.len() + 1,
            final(self).locations == old(self).locations,
            final(self).loc_node == old(self).loc_node,
            final(self).field_depth == old(self).field_depth,
            final(self).field_loc_to_summary == old(self).field_loc_to_summary,
            final(self).constraints == old(self).constraints,
            final(self).call_targets == old(self).call_targets,
            final(self).fn_locations == old(self).fn_locations,
            final(self).var_location == old(self).var_location,
            final(self).field_loc == old(self).field_loc,
            final(self).field_summary == old(self).field_summary,
            final(self).array_fn_members == old(self).array_fn_members,
            final(self).indices == old(self).indices,
    {
        if let Some(id) = self.var_node.get(var.0 as u64) {
            return id;
        }
        let ghost before = *self;
        let id = self.alloc_node(PagNodeKind::Var(var));
        self.var_node.insert_new(var.0 as u64, id);
        proof {
            let p = *self;
            assert forall|i: int| 0 <= i < p.var_node.entries@.len() implies {
                let e = #[trigger] p.var_node.entries@[i];
                &&& e.0 <= u32::MAX
                &&& (e.1.0 as int) < p.nodes@.len()
                &&& p.nodes@[e.1.0 as int].kind == PagNodeKind::Var(VarId(e.0 as u32))
            } by {
                if i < p.var_node.entries@.len() - 1 {
                    assert(p.var_node.entries@[i] == before.var_node.entries@[i]);
                }
            }
            assert forall|k: u64| #[trigger] km_lookup(before.var_node.entries@, k) is Some implies
                km_lookup(p.var_node.entries@, k) == km_lookup(before.var_node.entries@, k) by {
                assert(k != var.0 as u64);
            }
        }
        id
    }

    /// The target node of indirect call site `cs`, created on first use.
    pub fn call_target_node(&mut self, cs: CallSiteId) -> (r: PagNodeId)
        requires
            pag_wf(*old(self)),
            old(self).nodes@.len() < u32::MAX,
        ensures
            pag_wf(*final(self)),
            pag_grows(*old(self), *final(self)),
            ctn(*final(self), cs) == Some(r),
            ctn(*old(self), cs) is Some ==> *final(self) == *old(self),
            forall|q: CallSiteId| q != cs ==> #[trigger] ctn(*final(self), q) == ctn(*old(self), q),
            final(self).nodes@.len() <= old(self).nodes@.len() + 1,
            final(self).locations == old(self).locations,
            final(self).loc_node == old(self).loc_node,
            final(self).field_depth == old(self).field_depth,
            final(self).field_loc_to_summary == old(self).field_loc_to_summary,
            final(self).constraints == old(self).constraints,
            final(self).var_node == old(self).var_node,
            final(self).fn_locations == old(self).fn_locations,
            final(self).var_location == old(self).var_location,
            final(self).field_loc == old(self).field_loc,
            final(self).field_summary == old(self).field_summary,
            final(self).array_fn_members == old(self).array_fn_members,
            final(self).indices == old(self).indices,
    {
        if let Some(id) = self.call_targets.get(cs.0 as u64) {
            return id;
        }
        let ghost before = *self;
        let id = self.alloc_node(PagNodeKind::CallTarget(cs));
        self.call_targets.insert_new(cs.0 as u64, id);
        proof {
            let p = *self;
            assert forall|i: int| 0 <= i < p.call_targets.entries@.len() implies {
                let e = #[trigger] p.call_targets.entries@[i];
                &&& e.0 <= u32::MAX
                &&& (e.1.0 as int) < p.nodes@.len()
                &&& p.nodes@[e.1.0 as int].kind == PagNodeKind::CallTarget(CallSiteId(e.0 as u32))
            } by {
                if i < p.call_targets.entries@.len() - 1 {
                    assert(p.call_targets.entries@[i] == before.call_targets.entries@[i]);
                }
            }
            assert forall|k: u64| #[trigger] km_lookup(before.call_targets.entries@, k) is Some implies
                km_lookup(p.call_targets.entries@, k) == km_lookup(before.call_targets.entries@, k) by {
                assert(k != cs.0 as u64);
            }
        }
        id
    }

    /// Appends the constraint `c`.
    fn add_constraint(&mut self, c: Constraint)
        requires
            pag_wf(*old(self)),
            (c.dst.0 as int) < old(self).nodes@.len(),
            (c.src.0 as int) < old(self).nodes@.len(),
            c.kind == ConstraintKind::AddrOf ==> old(self).nodes@[c.src.0 as int].kind is Loc,
            c.kind == ConstraintKind::Gep ==> c.field is Some,
        ensures
            pag_wf(*final(self)),
            pag_grows(*old(self), *final(self)),
            final(self).constraints@ == old(self).constraints@.push(c),
            final(self).nodes == old(self).nodes,
            final(self).locations == old(self).locations,
            final(self).loc_node == old(self).loc_node,
            final(self).field_loc == old(self).field_loc,
            final(self).field_summary == old(self).field_summary,
            final(self).field_depth == old(self).field_depth,
            final(self).field_loc_to_summary == old(self).field_loc_to_summary,
            final(self).var_node == old(self).var_node,
            final(self).var_location == old(self).var_location,
            final(self).fn_locations == old(self).fn_locations,
            final(self).call_targets == old(self).call_targets,
            final(self).array_fn_members == old(self).array_fn_members,
            final(self).indices == old(self).indices,
    {
        self.constraints.push(c);
        proof {
            let p = *self;
            assert forall|i: int| 0 <= i < p.constraints@.len() implies {
                let c = #[trigger] p.constraints@[i];
                &&& (c.dst.0 as int) < p.nodes@.len()
                &&& (c.src.0 as int) < p.nodes@.len()
                &&& (c.kind == ConstraintKind::AddrOf ==> p.nodes@[c.src.0 as int].kind is Loc)
                &&& (c.kind == ConstraintKind::Gep ==> c.field is Some)
            } by {
                if i < p.constraints@.len() - 1 {
                    assert(p.constraints@[i] == old(self).constraints@[i]);
                }
            }
        }
    }

    /// `pts(dst) ⊇ pts(src)`.
    pub fn add_copy(&mut self, dst: PagNodeId, src: PagNodeId)
        requires
            pag_wf(*old(self)),
            (dst.0 as int) < old(self).nodes@.len(),
            (src.0 as int) < old(self).nodes@.len(),
        ensures
            pag_wf(*final(self)),
            pag_grows(*old(self), *final(self)),
            final(self).constraints@ == old(self).constraints@.push(
                Constraint { kind: ConstraintKind::Copy, dst, src, field: None }),
            final(self).nodes == old(self).nodes,
            final(self).locations == old(self).locations,
            final(self).loc_node == old(self).loc_node,
            final(self).field_loc == old(self).field_loc,
            final(self).field_summary == old(self).field_summary,
            final(self).field_depth == old(self).field_depth,
            final(self).field_loc_to_summary == old(self).field_loc_to_summary,
            final(self).var_node == old(self).var_node,
            final(self).var_location == old(self).var_location,
            final(self).fn_locations == old(self).fn_locations,
            final(self).call_targets == old(self).call_targets,
            final(self).array_fn_members == old(self).array_fn_members,
            final(self).indices == old(self).indices,
    {
        self.add_constraint(Constraint { kind: ConstraintKind::Copy, dst, src, field: None });
    }

    /// `pts(dst) ⊇ {loc}` for the location node `loc_node`.
    fn add_addr_of(&mut self, dst: PagNodeId, loc_node: PagNodeId)
        requires
            pag_wf(*old(self)),
            (dst.0 as int) < old(self).nodes@.len(),
            (loc_node.0 as int) < old(self).nodes@.len(),
            old(self).nodes@[loc_node.0 as int].kind is Loc,
        ensures
            pag_wf(*final(self)),
            pag_grows(*old(self), *final(self)),
            final(self).constraints@ == old(self).constraints@.push(
                Constraint { kind: ConstraintKind::AddrOf, dst, src: loc_node, field: None }),
            final(self).nodes == old(self).nodes,
            final(self).locations == old(self).locations,
            final(self).loc_node == old(self).loc_node,
            final(self).field_loc == old(self).field_loc,
            final(self).field_summary == old(self).field_summary,
            final(self).field_depth == old(self).field_depth,
            final(self).field_loc_to_summary == old(self).field_loc_to_summary,
            final(self).var_node == old(self).var_node,
            final(self).var_location == old(self).var_location,
            final(self).fn_locations == old(self).fn_locations,
            final(self).call_targets == old(self).call_targets,
            final(self).array_fn_members == old(self).array_fn_members,
            final(self).indices == old(self).indices,
    {
        self.add_constraint(Constraint { kind: ConstraintKind::AddrOf, dst, src: loc_node, field: None });
    }

    /// `pts(dst) ⊇ memory(o)` for each `o ∈ pts(src)`.
    fn add_load(&mut self, dst: PagNodeId, src: PagNodeId)
        requires
            pag_wf(*old(self)),
            (dst.0 as int) < old(self).nodes@.len(),
            (src.0 as int) < old(self).nodes@.len(),
        ensures
            pag_wf(*final(self)),
            pag_grows(*old(self), *final(self)),
            final(self).constraints@ == old(self).constraints@.push(
                Constraint { kind: ConstraintKind::Load, dst, src, field: None }),
            final(self).nodes == old(self).nodes,
            final(self).locations == old(self).locations,
            final(self).loc_node == old(self).loc_node,
            final(self).field_loc == old(self).field_loc,
            final(self).field_summary == old(self).field_summary,
            final(self).field_depth == old(self).field_depth,
            final(self).field_loc_to_summary == old(self).field_loc_to_summary,
            final(self).var_node == old(self).var_node,
            final(self).var_location == old(self).var_location,
            final(self).fn_locations == old(self).fn_locations,
            final(self).call_targets == old(self).call_targets,
            final(self).array_fn_members == old(self).array_fn_members,
            final(self).indices == old(self).indices,
    {
        self.add_constraint(Constraint { kind: ConstraintKind::Load, dst, src, field: None });
    }

    /// `memory(o) ⊇ pts(src)` for each `o ∈ pts(dst)`.
    fn add_store(&mut self, dst: PagNodeId, src: PagNodeId)
        requires
            pag_wf(*old(self)),
            (dst.0 as int) < old(self).nodes@.len(),
            (src.0 as int) < old(self).nodes@.len(),
        ensures
            pag_wf(*final(self)),
            pag_grows(*old(self), *final(self)),
            final(self).constraints@ == old(self).constraints@.push(
                Constraint { kind: ConstraintKind::Store, dst, src, field: None }),
            final(self).nodes == old(self).nodes,
            final(self).locations == old(self).locations,
            final(self).loc_node == old(self).loc_node,
            final(self).field_loc == old(self).field_loc,
            final(self).field_summary == old(self).field_summary,
            final(self).field_depth == old(self).field_depth,
            final(self).field_loc_to_summary == old(self).field_loc_to_summary,
            final(self).var_node == old(self).var_node,
            final(self).var_location == old(self).var_location,
            final(self).fn_locations == old(self).fn_locations,
            final(self).call_targets == old(self).call_targets,
            final(self).array_fn_members == old(self).array_fn_members,
            final(self).indices == old(self).indices,
    {
        self.add_constraint(Constraint { kind: ConstraintKind::Store, dst, src, field: None });
    }

    /// `dst = &base->field`.
    pub fn add_gep(&mut self, dst: PagNodeId, base: PagNodeId, field: FieldId)
        requires
            pag_wf(*old(self)),
            (dst.0 as int) < old(self).nodes@.len(),
            (base.0 as int) < old(self).nodes@.len(),
        ensures
            pag_wf(*final(self)),
            pag_grows(*old(self), *final(self)),
            final(self).constraints@ == old(self).constraints@.push(
                Constraint { kind: ConstraintKind::Gep, dst, src: base, field: Some(field) }),
            final(self).nodes == old(self).nodes,
            final(self).locations == old(self).locations,
            final(self).loc_node == old(self).loc_node,
            final(self).field_loc == old(self).field_loc,
            final(self).field_summary == old(self).field_summary,
            final(self).field_depth == old(self).field_depth,
            final(self).field_loc_to_summary == old(self).field_loc_to_summary,
            final(self).var_node == old(self).var_node,
            final(self).var_location == old(self).var_location,
            final(self).fn_locations == old(self).fn_locations,
            final(self).call_targets == old(self).call_targets,
            final(self).array_fn_members == old(self).array_fn_members,
            final(self).indices == old(self).indices,
    {
        self.add_constraint(Constraint { kind: ConstraintKind::Gep, dst, src: base, field: Some(field) });
    }
}


/// The location kind of a variable's storage.
pub open spec fn storage_kind(s: StorageClass) -> LocKind {
    match s {
        StorageClass::Global => LocKind::Global,
        StorageClass::FileStatic => LocKind::FileStatic,
        StorageClass::FnStatic => LocKind::FnStatic,
        StorageClass::Local => LocKind::Local,
        StorageClass::Param => LocKind::Local,
    }
}

/// Globals and statics get their storage location when the graph is built.
pub open spec fn is_static_storage(s: StorageClass) -> bool {
    s == StorageClass::Global || s == StorageClass::FileStatic || s == StorageClass::FnStatic
}

/// `f` takes the address of `v`.
pub open spec fn addr_of_var(f: FlowConstraint, v: VarId) -> bool {
    f matches FlowConstraint::AddrOfVar { src, .. } && src == v
}

/// Entry `j` of a return summary returns the address of `v`.
pub open spec fn returns_addr_of(rs: Option<Seq<ReturnFlow>>, j: int, v: VarId) -> bool {
    rs matches Some(s) && 0 <= j < s.len() && s[j] == (ReturnFlow::AddrOfVar { src: v })
}

/// Some flow fact or return summary of `program` takes the address of
/// variable `v`.
pub open spec fn addr_named(program: Program, v: VarId) -> bool {
    ||| exists|i: int| 0 <= i < program.flow@.len() && addr_of_var(#[trigger] program.flow@[i], v)
    ||| exists|f: FnId, j: int| #[trigger] returns_addr_of(returns_of(program.fn_returns@, f), j, v)
}

/// Variable `v` of `program` is a global or a static.
pub open spec fn static_var(program: Program, v: VarId) -> bool {
    (v.0 as int) < program.symbols.variables@.len() && is_static_storage(program.symbols.variables@[v.0 as int].storage)
}

/// Locations are made lazily: a variable has a storage location only when
/// it is static or some address-of names it; and the location's kind is
/// the one of the variable's storage class.
pub open spec fn lazy_locs(p: Pag, program: Program) -> bool {
    forall|i: int| 0 <= i < p.var_location.entries@.len() ==> {
        let e = #[trigger] p.var_location.entries@[i];
        let v = VarId(e.0 as u32);
        &&& static_var(program, v) || addr_named(program, v)
        &&& (e.0 as int) < program.symbols.variables@.len()
        &&& (e.1.0 as int) < p.locations@.len()
        &&& p.locations@[e.1.0 as int].kind == storage_kind(program.symbols.variables@[e.0 as int].storage)
    }
}

/// `b` keeps `a`'s lazy locations.
pub open spec fn lazy_kept(a: Pag, b: Pag, program: Program) -> bool {
    lazy_locs(a, program) ==> lazy_locs(b, program)
}

fn loc_kind_of(s: StorageClass) -> (k: LocKind)
    ensures
        k == storage_kind(s),
{
    match s {
        StorageClass::Global => LocKind::Global,
        StorageClass::FileStatic => LocKind::FileStatic,
        StorageClass::FnStatic => LocKind::FnStatic,
        StorageClass::Local => LocKind::Local,
        StorageClass::Param => LocKind::Local,
    }
}

/// A location's type is interned, and its function, if any, is known.
pub open spec fn loc_ok(program: Program, l: AbstractLocation) -> bool {
    &&& (l.type_id.0 as int) < program.types.types@.len()
    &&& (l.fn_id matches Some(f) ==> fn_index(program.symbols.functions@, f) >= 0)
}

/// Every location of the graph is `loc_ok`.
pub open spec fn locs_ok(p: Pag, program: Program) -> bool {
    forall|i: int| 0 <= i < p.locations@.len() ==> loc_ok(program, #[trigger] p.locations@[i])
}

impl Pag {
    /// Appends a storage location for variable `v` of `program`.
    fn new_var_loc(&mut self, program: &Program, v: usize) -> (l: LocId)
        requires
            pag_wf(*old(self)),
            old(self).nodes@.len() < u32::MAX,
            old(self).locations@.len() < u32::MAX,
            program_wf(*program),
            v < program.symbols.variables@.len(),
            vloc(*old(self), VarId(v as u32)) is None,
            locs_ok(*old(self), *program),
        ensures
            static_var(*program, VarId(v as u32)) || addr_named(*program, VarId(v as u32))
                ==> lazy_kept(*old(self), *final(self), *program),
            pag_wf(*final(self)),
            pag_grows(*old(self), *final(self)),
            locs_ok(*final(self), *program),
            vloc(*final(self), VarId(v as u32)) == Some(l),
            final(self).var_location.entries@ == old(self).var_location.entries@.push((v as u64, l)),
            l.0 as int == old(self).locations@.len(),
            final(self).locations@[l.0 as int].kind == storage_kind(program.symbols.variables@[v as int].storage),
            final(self).locations@[l.0 as int].var == Some(VarId(v as u32)),
            final(self).locations@.len() == old(self).locations@.len() + 1,
            final(self).nodes@.len() == old(self).nodes@.len() + 1,
            final(self).constraints == old(self).constraints,
            final(self).var_node == old(self).var_node,
            final(self).fn_locations == old(self).fn_locations,
            final(self).call_targets == old(self).call_targets,
            final(self).array_fn_members == old(self).array_fn_members,
            final(self).indices == old(self).indices,
    {
        let var = &program.symbols.variables[v];
        let loc_id = LocId(self.locations.len() as u32);
        let ghost before = *self;
        self.alloc_loc(AbstractLocation {
            id: loc_id,
            kind: loc_kind_of(var.storage),
            var: Some(var.id),
            fn_id: var.fn_id,
            field: None,
            type_id: var.type_id,
            desc: var.name.clone(),
        }, 0);
        let ghost mid = *self;
        self.var_location.insert_new(var.id.0 as u64, loc_id);
        proof {
            let p = *self;
            assert(var.id.0 == v);
            assert forall|i: int| 0 <= i < p.var_location.entries@.len() implies {
                let e = #[trigger] p.var_location.entries@[i];
                &&& e.0 <= u32::MAX
                &&& (e.1.0 as int) < p.locations@.len()
                &&& is_storage_kind(p.locations@[e.1.0 as int].kind)
                &&& p.locations@[e.1.0 as int].var == Some(VarId(e.0 as u32))
            } by {
                if i < p.var_location.entries@.len() - 1 {
                    assert(p.var_location.entries@[i] == mid.var_location.entries@[i]);
                }
            }
            assert forall|k: u64| #[trigger] km_lookup(mid.var_location.entries@, k) is Some implies
                km_lookup(p.var_location.entries@, k) == km_lookup(mid.var_location.entries@, k) by {
                assert(k != var.id.0 as u64);
            }
            lemma_grows_trans(before, mid, p);
            assert forall|i: int| 0 <= i < p.locations@.len() implies loc_ok(*program, #[trigger] p.locations@[i]) by {
                if i < before.locations@.len() {
                    assert(p.locations@[i] == before.locations@[i]);
                }
            }
        }
        loc_id
    }

    /// The storage location of `var`, created on first use for a variable
    /// of the program. `None` for an unknown variable, or when the graph
    /// has no room left.
    pub fn ensure_var_loc(&mut self, program: &Program, var: VarId) -> (r: Option<LocId>)
        requires
            pag_wf(*old(self)),
            program_wf(*program),
            locs_ok(*old(self), *program),
        ensures
            static_var(*program, var) || addr_named(*program, var) ==> lazy_kept(*old(self), *final(self), *program),
            pag_wf(*final(self)),
            pag_grows(*old(self), *final(self)),
            locs_ok(*final(self), *program),
            vloc(*old(self), var) is Some ==> r == vloc(*old(self), var) && *final(self) == *old(self),
            vloc(*old(self), var) is None ==> match r {
                Some(l) => vloc(*final(self), var) == Some(l) && (var.0 as int) < program.symbols.variables@.len()
                    && l.0 as int == old(self).locations@.len()
                    && final(self).locations@[l.0 as int].var == Some(var)
                    && final(self).locations@[l.0 as int].kind
                        == storage_kind(program.symbols.variables@[var.0 as int].storage),
                None => *final(self) == *old(self)
                    && ((var.0 as int) >= program.symbols.variables@.len() || !has_room(*old(self))),
            },
            final(self).nodes@.len() <= old(self).nodes@.len() + 1,
            final(self).locations@.len() <= old(self).locations@.len() + 1,
            final(self).constraints == old(self).constraints,
            final(self).var_node == old(self).var_node,
            final(self).fn_locations == old(self).fn_locations,
            final(self).call_targets == old(self).call_targets,
            final(self).array_fn_members == old(self).array_fn_members,
            final(self).indices == old(self).indices,
    {
        if let Some(loc) = self.var_location.get(var.0 as u64) {
            return Some(loc);
        }
        let v = var.0 as usize;
        if v >= program.symbols.variables.len() || !self.room() {
            return None;
        }
        proof { assert(program.symbols.variables@[v as int].id.0 == v); }
        let l = self.new_var_loc(program, v);
        Some(l)
    }

    /// Nodes for every variable, and storage locations for globals and
    /// statics.
    fn build_variables(&mut self, program: &Program)
        requires
            pag_wf(*old(self)),
            program_wf(*program),
            old(self).var_location.entries@.len() == 0,
            locs_ok(*old(self), *program),
        ensures
            lazy_kept(*old(self), *final(self), *program),
            pag_wf(*final(self)),
            pag_grows(*old(self), *final(self)),
            locs_ok(*final(self), *program),
            has_room(*final(self)) ==> forall|i: int| 0 <= i < program.symbols.variables@.len() ==> {
                &&& vn(*final(self), #[trigger] program.symbols.variables@[i].id) is Some
                &&& (is_static_storage(program.symbols.variables@[i].storage)
                    ==> vloc(*final(self), program.symbols.variables@[i].id) is Some)
            },
            final(self).constraints == old(self).constraints,
            final(self).fn_locations == old(self).fn_locations,
            final(self).call_targets == old(self).call_targets,
            final(self).array_fn_members == old(self).array_fn_members,
            final(self).indices == old(self).indices,
    {
        let ghost start = *self;
        let vars = &program.symbols.variables;
        let mut i: usize = 0;
        while i < vars.len()
            invariant
                i <= vars@.len(),
                lazy_kept(start, *self, *program),
                *vars == program.symbols.variables,
                program_wf(*program),
                pag_wf(*self),
                pag_grows(start, *self),
                locs_ok(*self, *program),
                forall|j: int| 0 <= j < self.var_location.entries@.len() ==> (#[trigger] self.var_location.entries@[j]).0 < i,
                has_room(*self) ==> forall|j: int| 0 <= j < i ==> {
                    &&& vn(*self, #[trigger] vars@[j].id) is Some
                    &&& (is_static_storage(vars@[j].storage) ==> vloc(*self, vars@[j].id) is Some)
                },
                self.constraints == start.constraints,
                self.fn_locations == start.fn_locations,
                self.call_targets == start.call_targets,
                self.array_fn_members == start.array_fn_members,
                self.indices == start.indices,
            decreases vars@.len() - i,
        {
            if self.room() {
                let ghost s0 = *self;
                let var = &vars[i];
                proof { assert(var.id.0 == i); }
                self.var_node_id(var.id);
                let ghost s1 = *self;
                if var.storage == StorageClass::Global || var.storage == StorageClass::FileStatic
                    || var.storage == StorageClass::FnStatic {
                    proof {
                        lemma_km_lookup_entry(self.var_location.entries@, i as u64);
                    }
                    self.new_var_loc(program, i);
                    proof { lemma_grows_trans(s1, *self, *self); }
                }
                proof {
                    lemma_grows_trans(s0, s1, *self);
                    lemma_grows_trans(start, s0, *self);
                    let p = *self;
                    assert forall|j: int| 0 <= j < p.var_location.entries@.len() implies (#[trigger] p.var_location.entries@[j]).0 < i + 1 by {
                        if j < s1.var_location.entries@.len() {
                            assert(p.var_location.entries@[j] == s1.var_location.entries@[j]);
                        }
                    }
                    if has_room(p) {
                        assert(has_room(s0));
                        assert forall|j: int| 0 <= j < i + 1 implies {
                            &&& vn(p, #[trigger] vars@[j].id) is Some
                            &&& (is_static_storage(vars@[j].storage) ==> vloc(p, vars@[j].id) is Some)
                        } by {
                            if j < i {
                                assert(km_lookup(s0.var_node.entries@, vars@[j].id.0 as u64) is Some);
                                if is_static_storage(vars@[j].storage) {
                                    assert(km_lookup(s0.var_location.entries@, vars@[j].id.0 as u64) is Some);
                                }
                            }
                        }
                    }
                }
            }
            i = i + 1;
        }
    }

    /// A location for each function.
    fn build_function_locations(&mut self, program: &Program)
        requires
            pag_wf(*old(self)),
            program_wf(*program),
            locs_ok(*old(self), *program),
        ensures
            pag_wf(*final(self)),
            pag_grows(*old(self), *final(self)),
            locs_ok(*final(self), *program),
            has_room(*final(self)) ==> forall|i: int| 0 <= i < program.symbols.functions@.len()
                ==> floc(*final(self), #[trigger] program.symbols.functions@[i].id) is Some,
            final(self).constraints == old(self).constraints,
            final(self).var_node == old(self).var_node,
            final(self).var_location == old(self).var_location,
            final(self).call_targets == old(self).call_targets,
            final(self).array_fn_members == old(self).array_fn_members,
            final(self).indices == old(self).indices,
    {
        let ghost start = *self;
        let fns = &program.symbols.functions;
        let mut i: usize = 0;
        while i < fns.len()
            invariant
                i <= fns@.len(),
                *fns == program.symbols.functions,
                program_wf(*program),
                pag_wf(*self),
                pag_grows(start, *self),
                locs_ok(*self, *program),
                has_room(*self) ==> forall|j: int| 0 <= j < i ==> floc(*self, #[trigger] fns@[j].id) is Some,
                self.constraints == start.constraints,
                self.var_node == start.var_node,
                self.var_location == start.var_location,
                self.call_targets == start.call_targets,
                self.array_fn_members == start.array_fn_members,
                self.indices == start.indices,
            decreases fns@.len() - i,
        {
            let func = &fns[i];
            if self.room() && self.fn_locations.get(func.id.0 as u64).is_none() {
                let ghost s0 = *self;
                let loc_id = LocId(self.locations.len() as u32);
                self.alloc_loc(AbstractLocation {
                    id: loc_id,
                    kind: LocKind::Function,
                    var: None,
                    fn_id: Some(func.id),
                    field: None,
                    type_id: func.return_type,
                    desc: func.name.clone(),
                }, 0);
                let ghost s1 = *self;
                self.fn_locations.insert_new(func.id.0 as u64, loc_id);
                proof {
                    let p = *self;
                    assert forall|j: int| 0 <= j < p.fn_locations.entries@.len() implies {
                        let e = #[trigger] p.fn_locations.entries@[j];
                        &&& e.0 <= u32::MAX
                        &&& (e.1.0 as int) < p.locations@.len()
                        &&& p.locations@[e.1.0 as int].kind == LocKind::Function
                        &&& p.locations@[e.1.0 as int].fn_id == Some(FnId(e.0 as u32))
                    } by {
                        if j < p.fn_locations.entries@.len() - 1 {
                            assert(p.fn_locations.entries@[j] == s1.fn_locations.entries@[j]);
                        }
                    }
                    assert forall|k: u64| #[trigger] km_lookup(s1.fn_locations.entries@, k) is Some implies
                        km_lookup(p.fn_locations.entries@, k) == km_lookup(s1.fn_locations.entries@, k) by {
                        assert(k != func.id.0 as u64);
                    }
                    lemma_grows_trans(s0, s1, p);
                    lemma_grows_trans(start, s0, p);
                    assert forall|j: int| 0 <= j < p.locations@.len() implies loc_ok(*program, #[trigger] p.locations@[j]) by {
                        if j < s0.locations@.len() {
                            assert(p.locations@[j] == s0.locations@[j]);
                        } else {
                            lemma_fn_index(program.symbols.functions@, func.id);
                            assert(program.symbols.functions@[i as int].id == func.id);
                        }
                    }
                    if has_room(p) {
                        assert forall|j: int| 0 <= j < i + 1 implies floc(p, #[trigger] fns@[j].id) is Some by {
                            if j < i {
                                assert(km_lookup(s0.fn_locations.entries@, fns@[j].id.0 as u64) is Some);
                            }
                        }
                    }
                }
            }
            i = i + 1;
        }
    }
}

/// `id` is one of the functions that `name` may denote from `file`: the
/// external one, or one so named in `file`.
pub open spec fn is_candidate(s: SymbolTable, name: Seq<char>, file: Option<FileId>, id: FnId) -> bool {
    ||| name_lookup(s.fn_by_name@, name) == Some(id)
    ||| exists|k: int| 0 <= k < s.functions@.len() && file is Some
        && (#[trigger] s.functions@[k]).name@ == name && s.functions@[k].file == file->0
        && s.functions@[k].id == id
}

/// The file of a known function.
pub open spec fn fn_file(s: SymbolTable, f: FnId) -> FileId {
    s.functions@[fn_index(s.functions@, f)].file
}

/// The file of the function a variable belongs to, if any.
pub open spec fn var_file(s: SymbolTable, v: VarId) -> Option<FileId> {
    match s.variables@[v.0 as int].fn_id {
        Some(f) => Some(fn_file(s, f)),
        None => None,
    }
}

/// The graph has constraint `c`.
pub open spec fn has_c(p: Pag, c: Constraint) -> bool {
    p.constraints@.contains(c)
}

pub open spec fn copy_c(dst: PagNodeId, src: PagNodeId) -> Constraint {
    Constraint { kind: ConstraintKind::Copy, dst, src, field: None }
}

pub open spec fn addr_c(dst: PagNodeId, loc_node: PagNodeId) -> Constraint {
    Constraint { kind: ConstraintKind::AddrOf, dst, src: loc_node, field: None }
}

/// The non-call part of a returned value flows into node `dn`.
pub open spec fn ret_encoded(program: Program, p: Pag, dn: PagNodeId, rf: ReturnFlow) -> bool {
    match rf {
        ReturnFlow::AddrOfVar { src } => (src.0 as int) < program.symbols.variables@.len()
            ==> vloc(p, src) is Some && has_c(p, addr_c(dn, lnode(p, vloc(p, src)->0))),
        ReturnFlow::AddrOfFn { callee } => fn_index(program.symbols.functions@, callee) >= 0
            ==> floc(p, callee) is Some && has_c(p, addr_c(dn, lnode(p, floc(p, callee)->0))),
        ReturnFlow::Copy { src } => vn(p, src) is Some && has_c(p, copy_c(dn, vn(p, src)->0)),
        ReturnFlow::Call { .. } => true,
    }
}

/// A value returned by a function of `file` flows into `dn`; for a returned
/// call, the functions it may denote are in `vs`.
pub open spec fn handled(program: Program, p: Pag, dn: PagNodeId, vs: Set<FnId>, file: FileId, rf: ReturnFlow) -> bool {
    &&& ret_encoded(program, p, dn, rf)
    &&& (rf matches ReturnFlow::Call { callee_name } ==> forall|g: FnId|
        is_candidate(program.symbols, callee_name@, Some(file), g) ==> #[trigger] vs.contains(g))
}

/// The return values of `f` flow into `dn`, and the functions its returned
/// calls may denote are in `vs`.
pub open spec fn returns_processed(program: Program, p: Pag, dn: PagNodeId, vs: Set<FnId>, f: FnId) -> bool {
    returns_of(program.fn_returns@, f) matches Some(flows) ==> forall|k: int| 0 <= k < flows.len()
        ==> handled(program, p, dn, vs, fn_file(program.symbols, f), #[trigger] flows[k])
}

/// The functions marked in `visited` (by the position of their first entry).
pub open spec fn visited_set(s: SymbolTable, visited: Seq<bool>) -> Set<FnId> {
    Set::new(|f: FnId| fn_index(s.functions@, f) >= 0 && visited[fn_index(s.functions@, f)])
}

/// Number of unmarked positions.
pub open spec fn count_unvisited(v: Seq<bool>) -> nat
    decreases v.len(),
{
    if v.len() == 0 {
        0
    } else {
        count_unvisited(v.drop_last()) + if v.last() { 0nat } else { 1nat }
    }
}

proof fn lemma_count_mark(v: Seq<bool>, i: int)
    requires
        0 <= i < v.len(),
        !v[i],
    ensures
        count_unvisited(v.update(i, true)) + 1 == count_unvisited(v),
    decreases v.len(),
{
    let u = v.update(i, true);
    if i < v.len() - 1 {
        assert(u.drop_last() =~= v.drop_last().update(i, true));
        lemma_count_mark(v.drop_last(), i);
    } else {
        assert(u.drop_last() =~= v.drop_last());
    }
}

pub proof fn lemma_grows_room(a: Pag, b: Pag)
    requires
        pag_grows(a, b),
        has_room(b),
    ensures
        has_room(a),
{
}

/// A constraint of `a` is one of `b`.
pub proof fn lemma_has_c_grows(a: Pag, b: Pag, c: Constraint)
    requires
        pag_grows(a, b),
        has_c(a, c),
    ensures
        has_c(b, c),
{
    let i = choose|i: int| 0 <= i < a.constraints@.len() && a.constraints@[i] == c;
    assert(b.constraints@[i] == c);
}

/// Encoded return values stay encoded as the graph grows.
pub proof fn lemma_ret_encoded_grows(program: Program, a: Pag, b: Pag, dn: PagNodeId, rf: ReturnFlow)
    requires
        pag_wf(a),
        pag_grows(a, b),
        ret_encoded(program, a, dn, rf),
    ensures
        ret_encoded(program, b, dn, rf),
{
    match rf {
        ReturnFlow::AddrOfVar { src } => {
            if (src.0 as int) < program.symbols.variables@.len() {
                let l = vloc(a, src)->0;
                assert(km_lookup(a.var_location.entries@, src.0 as u64) is Some);
                lemma_km_lookup_entry(a.var_location.entries@, src.0 as u64);
                let i = choose|i: int| 0 <= i < a.var_location.entries@.len()
                    && (#[trigger] a.var_location.entries@[i]) == (src.0 as u64, l);
                assert(a.var_location.entries@[i] == (src.0 as u64, l));
                assert(b.loc_node@[l.0 as int] == a.loc_node@[l.0 as int]);
                lemma_has_c_grows(a, b, addr_c(dn, lnode(a, l)));
            }
        },
        ReturnFlow::AddrOfFn { callee } => {
            if fn_index(program.symbols.functions@, callee) >= 0 {
                let l = floc(a, callee)->0;
                assert(km_lookup(a.fn_locations.entries@, callee.0 as u64) is Some);
                lemma_km_lookup_entry(a.fn_locations.entries@, callee.0 as u64);
                let i = choose|i: int| 0 <= i < a.fn_locations.entries@.len()
                    && (#[trigger] a.fn_locations.entries@[i]) == (callee.0 as u64, l);
                assert(a.fn_locations.entries@[i] == (callee.0 as u64, l));
                assert(b.loc_node@[l.0 as int] == a.loc_node@[l.0 as int]);
                lemma_has_c_grows(a, b, addr_c(dn, lnode(a, l)));
            }
        },
        ReturnFlow::Copy { src } => {
            assert(km_lookup(a.var_node.entries@, src.0 as u64) is Some);
            lemma_has_c_grows(a, b, copy_c(dn, vn(a, src)->0));
        },
        ReturnFlow::Call { .. } => {},
    }
}

/// A handled return value stays handled as the graph and `vs` grow.
pub proof fn lemma_handled_grows(program: Program, a: Pag, b: Pag, dn: PagNodeId, vs: Set<FnId>, ws: Set<FnId>, file: FileId, rf: ReturnFlow)
    requires
        pag_wf(a),
        pag_grows(a, b),
        vs.subset_of(ws),
        handled(program, a, dn, vs, file, rf),
    ensures
        handled(program, b, dn, ws, file, rf),
{
    lemma_ret_encoded_grows(program, a, b, dn, rf);
    if let ReturnFlow::Call { callee_name } = rf {
        assert forall|g: FnId| is_candidate(program.symbols, callee_name@, Some(file), g)
            implies #[trigger] ws.contains(g) by {
            assert(vs.contains(g));
        }
    }
}

/// Processed return values stay processed as the graph and the visited
/// set grow.
pub proof fn lemma_processed_grows(program: Program, a: Pag, b: Pag, dn: PagNodeId, vs: Set<FnId>, ws: Set<FnId>, f: FnId)
    requires
        pag_wf(a),
        pag_grows(a, b),
        vs.subset_of(ws),
        returns_processed(program, a, dn, vs, f),
    ensures
        returns_processed(program, b, dn, ws, f),
{
    if let Some(flows) = returns_of(program.fn_returns@, f) {
        assert forall|k: int| 0 <= k < flows.len() implies
            handled(program, b, dn, ws, fn_file(program.symbols, f), #[trigger] flows[k]) by {
            lemma_handled_grows(program, a, b, dn, vs, ws, fn_file(program.symbols, f), flows[k]);
        }
    }
}

/// A candidate function is known.
pub proof fn lemma_candidate_known(program: Program, name: Seq<char>, file: Option<FileId>, g: FnId)
    requires
        program_wf(program),
        is_candidate(program.symbols, name, file, g),
    ensures
        fn_index(program.symbols.functions@, g) >= 0,
{
    let s = program.symbols;
    lemma_fn_index(s.functions@, g);
    if name_lookup(s.fn_by_name@, name) == Some(g) {
        crate::symbol::lemma_name_pos(s.fn_by_name@, name);
        let i = crate::symbol::name_pos(s.fn_by_name@, name);
        assert(fn_index(s.functions@, s.fn_by_name@[i].1) >= 0);
    } else {
        let k = choose|k: int| 0 <= k < s.functions@.len() && file is Some
            && (#[trigger] s.functions@[k]).name@ == name && s.functions@[k].file == file->0
            && s.functions@[k].id == g;
        assert(s.functions@[k].id == g);
    }
}

/// The return summaries recorded for `f`.
fn returns_for(program: &Program, f: FnId) -> (r: Option<&Vec<ReturnFlow>>)
    ensures
        match returns_of(program.fn_returns@, f) {
            Some(flows) => r matches Some(v) && v@ == flows,
            None => r is None,
        },
{
    let entries = &program.fn_returns;
    let mut k: usize = 0;
    assert(entries@.subrange(0, entries@.len() as int) =~= entries@);
    while k < entries.len()
        invariant
            k <= entries@.len(),
            *entries == program.fn_returns,
            returns_of(entries@, f) == returns_of(entries@.subrange(k as int, entries@.len() as int), f),
        decreases entries@.len() - k,
    {
        let ghost rest = entries@.subrange(k as int, entries@.len() as int);
        assert(rest[0] == entries@[k as int]);
        if entries[k].0 == f {
            return Some(&entries[k].1);
        }
        assert(rest.drop_first() =~= entries@.subrange(k + 1, entries@.len() as int));
        k = k + 1;
    }
    assert(entries@.subrange(k as int, entries@.len() as int).len() == 0);
    None
}

/// Position of the first function with id `f` (which must exist).
fn fn_pos(s: &SymbolTable, f: FnId) -> (r: usize)
    requires
        fn_index(s.functions@, f) >= 0,
    ensures
        r as int == fn_index(s.functions@, f),
{
    proof { lemma_fn_index(s.functions@, f); }
    let mut k: usize = 0;
    while k < s.functions.len()
        invariant
            k <= s.functions@.len(),
            fn_index(s.functions@, f) >= 0,
            forall|j: int| 0 <= j < k ==> (#[trigger] s.functions@[j]).id != f,
        decreases s.functions@.len() - k,
    {
        if s.functions[k].id == f {
            proof {
                lemma_fn_index(s.functions@, f);
                let fi = fn_index(s.functions@, f);
                if fi < k {
                    assert(s.functions@[fi].id == f);
                }
            }
            return k;
        }
        k = k + 1;
    }
    proof {
        lemma_fn_index(s.functions@, f);
        let fi = fn_index(s.functions@, f);
        assert(s.functions@[fi].id == f);
    }
    0
}

/// Marking positions only lowers the number of unmarked ones.
proof fn lemma_count_mono(a: Seq<bool>, b: Seq<bool>)
    requires
        a.len() == b.len(),
        forall|i: int| 0 <= i < a.len() && #[trigger] a[i] ==> b[i],
    ensures
        count_unvisited(b) <= count_unvisited(a),
    decreases a.len(),
{
    if a.len() > 0 {
        lemma_count_mono(a.drop_last(), b.drop_last());
    }
}

/// Marking more marks more functions.
proof fn lemma_visited_subset(s: SymbolTable, a: Seq<bool>, b: Seq<bool>)
    requires
        marks_more(a, b),
        a.len() == s.functions@.len(),
    ensures
        visited_set(s, a).subset_of(visited_set(s, b)),
{
    assert forall|f: FnId| #[trigger] visited_set(s, a).contains(f) implies visited_set(s, b).contains(f) by {
        lemma_fn_index(s.functions@, f);
        assert(a[fn_index(s.functions@, f)]);
    }
}

/// Marking the position of `callee` adds `callee` alone.
proof fn lemma_visited_mark(s: SymbolTable, a: Seq<bool>, callee: FnId, f: FnId)
    requires
        a.len() == s.functions@.len(),
        fn_index(s.functions@, callee) >= 0,
        visited_set(s, a.update(fn_index(s.functions@, callee), true)).contains(f),
        !visited_set(s, a).contains(f),
    ensures
        f == callee,
{
    lemma_fn_index(s.functions@, f);
    lemma_fn_index(s.functions@, callee);
    let pos = fn_index(s.functions@, callee);
    assert(fn_index(s.functions@, f) == pos);
}

/// Every function of the program has its location.
pub open spec fn fn_locs_complete(p: Pag, program: Program) -> bool {
    forall|i: int| 0 <= i < program.symbols.functions@.len() ==> floc(p, #[trigger] program.symbols.functions@[i].id) is Some
}

/// `b` marks at least what `a` marks.
pub open spec fn marks_more(a: Seq<bool>, b: Seq<bool>) -> bool {
    a.len() == b.len() && forall|i: int| 0 <= i < a.len() && #[trigger] a[i] ==> b[i]
}

impl Pag {
    /// Adds what the values returned by `callee` (and, through returned
    /// calls, by the functions those may denote) contribute to `dst`;
    /// functions marked in `visited` are skipped, and each expanded one is
    /// marked.
    fn expand_return_flows(&mut self, program: &Program, dst: PagNodeId, callee: FnId, visited: &mut Vec<bool>)
        requires
            pag_wf(*old(self)),
            program_wf(*program),
            locs_ok(*old(self), *program),
            fn_locs_complete(*old(self), *program),
            (dst.0 as int) < old(self).nodes@.len(),
            old(visited)@.len() == program.symbols.functions@.len(),
            fn_index(program.symbols.functions@, callee) >= 0,
        ensures
            lazy_kept(*old(self), *final(self), *program),
            pag_wf(*final(self)),
            pag_grows(*old(self), *final(self)),
            locs_ok(*final(self), *program),
            final(self).fn_locations == old(self).fn_locations,
            final(self).call_targets == old(self).call_targets,
            final(self).array_fn_members == old(self).array_fn_members,
            final(self).indices == old(self).indices,
            marks_more(old(visited)@, final(visited)@),
            writes_into(*final(self), old(self).constraints@.len() as int, dst),
            has_room(*final(self)) ==> {
                let vs = visited_set(program.symbols, final(visited)@);
                &&& vs.contains(callee)
                &&& forall|f: FnId| #[trigger] vs.contains(f) && !visited_set(program.symbols, old(visited)@).contains(f)
                    ==> returns_processed(*program, *final(self), dst, vs, f)
            },
        decreases count_unvisited(old(visited)@),
    {
        let ghost s0 = *self;
        let ghost v0 = visited@;
        let ghost fs = program.symbols;
        if !self.room() {
            return;
        }
        let pos = fn_pos(&program.symbols, callee);
        proof { lemma_fn_index(fs.functions@, callee); }
        if visited[pos] {
            return;
        }
        visited.set(pos, true);
        proof {
            lemma_count_mark(v0, pos as int);
        }
        let flows = match returns_for(program, callee) {
            Some(f) => f,
            None => {
                proof {
                    let vs = visited_set(fs, visited@);
                    assert(vs.contains(callee));
                    assert forall|f: FnId| #[trigger] vs.contains(f) && !visited_set(fs, v0).contains(f)
                        implies returns_processed(*program, *self, dst, vs, f) by {
                        lemma_visited_mark(fs, v0, callee, f);
                    }
                }
                return;
            },
        };
        let file = program.symbols.functions[pos].file;
        let mut k: usize = 0;
        proof {
            let vs = visited_set(fs, visited@);
            assert forall|f: FnId| #[trigger] vs.contains(f) && !visited_set(fs, v0).contains(f) && f != callee
                implies returns_processed(*program, *self, dst, vs, f) by {
                lemma_visited_mark(fs, v0, callee, f);
            }
        }
        while k < flows.len()
            invariant
                k <= flows@.len(),
                lazy_kept(*old(self), *self, *program),
                returns_of(program.fn_returns@, callee) == Some(flows@),
                fn_file(fs, callee) == file,
                fs == program.symbols,
                pos as int == fn_index(fs.functions@, callee),
                program_wf(*program),
                pag_wf(*self),
                pag_grows(s0, *self),
                locs_ok(*self, *program),
                fn_locs_complete(*self, *program),
                (dst.0 as int) < self.nodes@.len(),
                self.fn_locations == s0.fn_locations,
                self.call_targets == s0.call_targets,
                self.array_fn_members == s0.array_fn_members,
                self.indices == s0.indices,
                marks_more(v0, visited@),
                v0.len() == fs.functions@.len(),
                pos < v0.len(),
                visited@[pos as int],
                count_unvisited(visited@) < count_unvisited(v0),
                v0 == old(visited)@,
                writes_into(*self, s0.constraints@.len() as int, dst),
                has_room(*self) ==> {
                    let vs = visited_set(fs, visited@);
                    &&& forall|f: FnId| #[trigger] vs.contains(f) && !visited_set(fs, v0).contains(f) && f != callee
                        ==> returns_processed(*program, *self, dst, vs, f)
                    &&& forall|j: int| 0 <= j < k ==> handled(*program, *self, dst, vs, file, #[trigger] flows@[j])
                },
            decreases flows@.len() - k,
        {
            let ghost s1 = *self;
            let ghost v1 = visited@;
            match &flows[k] {
                ReturnFlow::AddrOfVar { src } => {
                    proof { assert(returns_addr_of(returns_of(program.fn_returns@, callee), k as int, *src)); }
                    let r = self.ensure_var_loc(program, *src);
                    if let Some(loc) = r {
                        proof {
                            lemma_km_lookup_entry(self.var_location.entries@, src.0 as u64);
                            let i = choose|i: int| 0 <= i < self.var_location.entries@.len()
                                && (#[trigger] self.var_location.entries@[i]) == (src.0 as u64, loc);
                            assert(self.var_location.entries@[i] == (src.0 as u64, loc));
                        }
                        let ln = self.loc_node[loc.0 as usize];
                        self.add_addr_of(dst, ln);
                        proof {
                            assert(self.constraints@[self.constraints@.len() - 1] == addr_c(dst, ln));
                        }
                    }
                },
                ReturnFlow::AddrOfFn { callee: f } => {
                    if let Some(fl) = self.fn_locations.get(f.0 as u64) {
                        proof {
                            lemma_km_lookup_entry(self.fn_locations.entries@, f.0 as u64);
                            let i = choose|i: int| 0 <= i < self.fn_locations.entries@.len()
                                && (#[trigger] self.fn_locations.entries@[i]) == (f.0 as u64, fl);
                            assert(self.fn_locations.entries@[i] == (f.0 as u64, fl));
                        }
                        let ln = self.loc_node[fl.0 as usize];
                        self.add_addr_of(dst, ln);
                        proof {
                            assert(self.constraints@[self.constraints@.len() - 1] == addr_c(dst, ln));
                        }
                    } else {
                        proof {
                            if fn_index(fs.functions@, *f) >= 0 {
                                lemma_fn_index(fs.functions@, *f);
                                assert(floc(*self, fs.functions@[fn_index(fs.functions@, *f)].id) is Some);
                            }
                        }
                    }
                },
                ReturnFlow::Copy { src } => {
                    if self.room() {
                        let sn = self.var_node_id(*src);
                        proof {
                            lemma_km_lookup_entry(self.var_node.entries@, src.0 as u64);
                            let i = choose|i: int| 0 <= i < self.var_node.entries@.len()
                                && (#[trigger] self.var_node.entries@[i]) == (src.0 as u64, sn);
                            assert(self.var_node.entries@[i] == (src.0 as u64, sn));
                        }
                        self.add_copy(dst, sn);
                        proof {
                            assert(self.constraints@[self.constraints@.len() - 1] == copy_c(dst, sn));
                        }
                    }
                },
                ReturnFlow::Call { callee_name } => {
                    let cands = program.symbols.resolve_function_candidates(callee_name.as_str(), Some(file));
                    let mut m: usize = 0;
                    while m < cands.len()
                        invariant
                            m <= cands@.len(),
                            fs == program.symbols,
                            lazy_kept(*old(self), *self, *program),
                            program_wf(*program),
                            pag_wf(*self),
                            pag_grows(s1, *self),
                            locs_ok(*self, *program),
                            fn_locs_complete(*self, *program),
                            (dst.0 as int) < self.nodes@.len(),
                            self.fn_locations == s0.fn_locations,
                            self.call_targets == s0.call_targets,
                            self.array_fn_members == s0.array_fn_members,
                            self.indices == s0.indices,
                            marks_more(v1, visited@),
                            v1.len() == fs.functions@.len(),
                            count_unvisited(visited@) < count_unvisited(v0),
                            writes_into(*self, s0.constraints@.len() as int, dst),
                            v0 == old(visited)@,
                            forall|g: FnId| #[trigger] cands@.contains(g) ==> is_candidate(fs, callee_name@, Some(file), g),
                            has_room(*self) ==> {
                                let vs = visited_set(fs, visited@);
                                &&& forall|f: FnId| #[trigger] vs.contains(f) && !visited_set(fs, v1).contains(f)
                                    ==> returns_processed(*program, *self, dst, vs, f)
                                &&& forall|j: int| 0 <= j < m ==> vs.contains(#[trigger] cands@[j])
                            },
                        decreases cands@.len() - m,
                    {
                        let inner = cands[m];
                        proof {
                            assert(cands@.contains(inner));
                            lemma_candidate_known(*program, callee_name@, Some(file), inner);
                        }
                        let ghost s2 = *self;
                        let ghost v2 = visited@;
                        self.expand_return_flows(program, dst, inner, visited);
                        proof {
                            lemma_count_mono(v2, visited@);
                            lemma_grows_trans(s1, s2, *self);
                            if has_room(*self) {
                                lemma_grows_room(s2, *self);
                                let vs2 = visited_set(fs, v2);
                                let vs = visited_set(fs, visited@);
                                lemma_visited_subset(fs, v2, visited@);
                                assert forall|f: FnId| #[trigger] vs.contains(f) && !visited_set(fs, v1).contains(f)
                                    implies returns_processed(*program, *self, dst, vs, f) by {
                                    if vs2.contains(f) {
                                        lemma_processed_grows(*program, s2, *self, dst, vs2, vs, f);
                                    }
                                }
                                assert forall|j: int| 0 <= j < m + 1 implies vs.contains(#[trigger] cands@[j]) by {
                                    if j < m {
                                        assert(vs2.contains(cands@[j]));
                                    }
                                }
                            }
                        }
                        m = m + 1;
                    }
                    proof {
                        if has_room(*self) {
                            let vs = visited_set(fs, visited@);
                            assert forall|g: FnId| is_candidate(fs, callee_name@, Some(file), g)
                                implies #[trigger] vs.contains(g) by {
                                assert(cands@.contains(g));
                                let j = choose|j: int| 0 <= j < cands@.len() && cands@[j] == g;
                                assert(vs.contains(cands@[j]));
                            }
                        }
                    }
                },
            }
            proof {
                assert(v1[pos as int]);
                if has_room(*self) {
                    lemma_grows_room(s1, *self);
                    let vs1 = visited_set(fs, v1);
                    let vs = visited_set(fs, visited@);
                    lemma_visited_subset(fs, v1, visited@);
                    assert forall|f: FnId| #[trigger] vs.contains(f) && !visited_set(fs, v0).contains(f) && f != callee
                        implies returns_processed(*program, *self, dst, vs, f) by {
                        if vs1.contains(f) {
                            lemma_processed_grows(*program, s1, *self, dst, vs1, vs, f);
                        }
                    }
                    assert forall|j: int| 0 <= j < k + 1 implies handled(*program, *self, dst, vs, file, #[trigger] flows@[j]) by {
                        if j < k {
                            lemma_handled_grows(*program, s1, *self, dst, vs1, vs, file, flows@[j]);
                        }
                    }
                }
                lemma_grows_trans(s0, s1, *self);
            }
            k = k + 1;
        }
    }
}

/// A callee text that names a field path (`a->f` or `a.f`).
pub open spec fn is_field_path(name: Seq<char>) -> bool {
    contains_seq(name, seq!['-', '>']) || name.contains('.')
}

/// Whether `name` names a field path.
pub fn field_path(name: &str) -> (r: bool)
    ensures
        r == is_field_path(name@),
{
    let cs = str_chars(name);
    let arrow = ['-', '>'];
    assert(arrow@ =~= seq!['-', '>']);
    contains_chars(cs.as_slice(), arrow.as_slice()) || contains_char(cs.as_slice(), '.')
}

pub open spec fn simple_c(kind: ConstraintKind, dst: PagNodeId, src: PagNodeId) -> Constraint {
    Constraint { kind, dst, src, field: None }
}

/// Both variables have nodes, joined by a constraint of `kind`.
pub open spec fn pair_encoded(p: Pag, kind: ConstraintKind, dst: VarId, src: VarId) -> bool {
    &&& vn(p, dst) is Some
    &&& vn(p, src) is Some
    &&& has_c(p, simple_c(kind, vn(p, dst)->0, vn(p, src)->0))
}

/// `vs` holds the functions `name` may denote from `file`, and, for each
/// function in `vs`, its return values flow into `dn` and its returned
/// calls' functions are in `vs`.
pub open spec fn returns_closed(program: Program, p: Pag, dn: PagNodeId, name: Seq<char>, file: Option<FileId>, vs: Set<FnId>) -> bool {
    &&& forall|g: FnId| is_candidate(program.symbols, name, file, g) ==> #[trigger] vs.contains(g)
    &&& forall|f: FnId| #[trigger] vs.contains(f) ==> returns_processed(program, p, dn, vs, f)
}

/// The constraints that flow fact `f` stands for are in the graph.
pub open spec fn flow_encoded(program: Program, p: Pag, f: FlowConstraint) -> bool {
    let s = program.symbols;
    match f {
        FlowConstraint::Copy { dst, src } => pair_encoded(p, ConstraintKind::Copy, dst, src),
        FlowConstraint::Load { dst, src } => pair_encoded(p, ConstraintKind::Load, dst, src),
        FlowConstraint::Store { dst, src } => pair_encoded(p, ConstraintKind::Store, dst, src),
        FlowConstraint::GepField { dst, base, field } => {
            &&& vn(p, dst) is Some
            &&& vn(p, base) is Some
            &&& has_c(p, Constraint { kind: ConstraintKind::Gep, dst: vn(p, dst)->0, src: vn(p, base)->0, field: Some(field) })
        },
        FlowConstraint::AddrOfVar { dst, src } => {
            &&& vn(p, dst) is Some
            &&& ((src.0 as int) < s.variables@.len() ==> vloc(p, src) is Some
                && has_c(p, addr_c(vn(p, dst)->0, lnode(p, vloc(p, src)->0))))
        },
        FlowConstraint::AddrOfFn { dst, callee } => {
            &&& vn(p, dst) is Some
            &&& (fn_index(s.functions@, callee) >= 0 ==> floc(p, callee) is Some
                && has_c(p, addr_c(vn(p, dst)->0, lnode(p, floc(p, callee)->0))))
        },
        FlowConstraint::ArrayFnMember { array, callee } => {
            &&& vn(p, array) is Some
            &&& (fn_index(s.functions@, callee) >= 0 ==> floc(p, callee) is Some
                && has_c(p, addr_c(vn(p, array)->0, lnode(p, floc(p, callee)->0)))
                && p.array_fn_members@.contains((array, floc(p, callee)->0)))
        },
        FlowConstraint::CallReturn { dst, callee_name } => {
            &&& vn(p, dst) is Some
            &&& exists|vs: Set<FnId>| #[trigger] returns_closed(program, p, vn(p, dst)->0, callee_name@, var_file(s, dst), vs)
        },
    }
}

/// A variable node of `a` is kept in `b`.
proof fn lemma_vn_grows(a: Pag, b: Pag, v: VarId)
    requires
        pag_grows(a, b),
        vn(a, v) is Some,
    ensures
        vn(b, v) == vn(a, v),
{
    assert(km_lookup(a.var_node.entries@, v.0 as u64) is Some);
}

/// `c` is a constraint that flow fact `f` gives in graph `p`: the pair's
/// constraint, the field step, or the address of the variable's or the
/// function's location; for a call's result, a copy or an address into the
/// result's node.
pub open spec fn flow_makes(p: Pag, f: FlowConstraint, c: Constraint) -> bool {
    match f {
        FlowConstraint::Copy { dst, src } => vn(p, dst) is Some && vn(p, src) is Some
            && c == simple_c(ConstraintKind::Copy, vn(p, dst)->0, vn(p, src)->0),
        FlowConstraint::Load { dst, src } => vn(p, dst) is Some && vn(p, src) is Some
            && c == simple_c(ConstraintKind::Load, vn(p, dst)->0, vn(p, src)->0),
        FlowConstraint::Store { dst, src } => vn(p, dst) is Some && vn(p, src) is Some
            && c == simple_c(ConstraintKind::Store, vn(p, dst)->0, vn(p, src)->0),
        FlowConstraint::GepField { dst, base, field } => vn(p, dst) is Some && vn(p, base) is Some
            && c == (Constraint { kind: ConstraintKind::Gep, dst: vn(p, dst)->0, src: vn(p, base)->0, field: Some(field) }),
        FlowConstraint::AddrOfVar { dst, src } => vn(p, dst) is Some && vloc(p, src) is Some
            && c == addr_c(vn(p, dst)->0, lnode(p, vloc(p, src)->0)),
        FlowConstraint::AddrOfFn { dst, callee } => vn(p, dst) is Some && floc(p, callee) is Some
            && c == addr_c(vn(p, dst)->0, lnode(p, floc(p, callee)->0)),
        FlowConstraint::ArrayFnMember { array, callee } => vn(p, array) is Some && floc(p, callee) is Some
            && c == addr_c(vn(p, array)->0, lnode(p, floc(p, callee)->0)),
        FlowConstraint::CallReturn { dst, .. } => vn(p, dst) is Some && writes_to(c, vn(p, dst)->0),
    }
}

/// `c` copies into `d`, or puts an address into `d`.
pub open spec fn writes_to(c: Constraint, d: PagNodeId) -> bool {
    c.dst == d && c.field is None && (c.kind == ConstraintKind::Copy || c.kind == ConstraintKind::AddrOf)
}

/// Every constraint of `p` from index `k` on writes into `d`.
pub open spec fn writes_into(p: Pag, k: int, d: PagNodeId) -> bool {
    forall|i: int| k <= i < p.constraints@.len() ==> writes_to(#[trigger] p.constraints@[i], d)
}

/// Every constraint of `p` from index `k` on is one that `f` gives.
pub open spec fn made_by(p: Pag, k: int, f: FlowConstraint) -> bool {
    forall|i: int| k <= i < p.constraints@.len() ==> flow_makes(p, f, #[trigger] p.constraints@[i])
}

/// `c` is a constraint that one of the program's flow facts gives.
pub open spec fn from_flow(program: Program, p: Pag, c: Constraint) -> bool {
    exists|j: int| 0 <= j < program.flow@.len() && #[trigger] flow_makes(p, program.flow@[j], c)
}

/// `c` feeds the target node of indirect call site `cs`: a copy or a load
/// into it.
pub open spec fn into_target(p: Pag, cs: CallSite, c: Constraint) -> bool {
    &&& !cs.is_direct
    &&& ctn(p, cs.id) == Some(c.dst)
    &&& c.field is None
    &&& (c.kind == ConstraintKind::Copy || c.kind == ConstraintKind::Load)
}

/// `c` feeds the target node of one of the program's indirect call sites.
pub open spec fn from_call(program: Program, p: Pag, c: Constraint) -> bool {
    exists|j: int| 0 <= j < program.symbols.call_sites@.len() && #[trigger] into_target(p, program.symbols.call_sites@[j], c)
}

/// What a flow fact gives stays so as the graph grows.
pub proof fn lemma_flow_makes_grows(a: Pag, b: Pag, f: FlowConstraint, c: Constraint)
    requires
        pag_wf(a),
        pag_grows(a, b),
        flow_makes(a, f, c),
    ensures
        flow_makes(b, f, c),
{
    match f {
        FlowConstraint::Copy { dst, src } => { lemma_vn_grows(a, b, dst); lemma_vn_grows(a, b, src); },
        FlowConstraint::Load { dst, src } => { lemma_vn_grows(a, b, dst); lemma_vn_grows(a, b, src); },
        FlowConstraint::Store { dst, src } => { lemma_vn_grows(a, b, dst); lemma_vn_grows(a, b, src); },
        FlowConstraint::GepField { dst, base, .. } => { lemma_vn_grows(a, b, dst); lemma_vn_grows(a, b, base); },
        FlowConstraint::AddrOfVar { dst, src } => {
            lemma_vn_grows(a, b, dst);
            let l = vloc(a, src)->0;
            assert(km_lookup(a.var_location.entries@, src.0 as u64) is Some);
            lemma_km_lookup_entry(a.var_location.entries@, src.0 as u64);
            let i = choose|i: int| 0 <= i < a.var_location.entries@.len()
                && (#[trigger] a.var_location.entries@[i]) == (src.0 as u64, l);
            assert(a.var_location.entries@[i] == (src.0 as u64, l));
            assert(b.loc_node@[l.0 as int] == a.loc_node@[l.0 as int]);
        },
        FlowConstraint::AddrOfFn { dst, callee } => {
            lemma_vn_grows(a, b, dst);
            let l = floc(a, callee)->0;
            assert(km_lookup(a.fn_locations.entries@, callee.0 as u64) is Some);
            lemma_km_lookup_entry(a.fn_locations.entries@, callee.0 as u64);
            let i = choose|i: int| 0 <= i < a.fn_locations.entries@.len()
                && (#[trigger] a.fn_locations.entries@[i]) == (callee.0 as u64, l);
            assert(a.fn_locations.entries@[i] == (callee.0 as u64, l));
            assert(b.loc_node@[l.0 as int] == a.loc_node@[l.0 as int]);
        },
        FlowConstraint::ArrayFnMember { array, callee } => {
            lemma_vn_grows(a, b, array);
            let l = floc(a, callee)->0;
            assert(km_lookup(a.fn_locations.entries@, callee.0 as u64) is Some);
            lemma_km_lookup_entry(a.fn_locations.entries@, callee.0 as u64);
            let i = choose|i: int| 0 <= i < a.fn_locations.entries@.len()
                && (#[trigger] a.fn_locations.entries@[i]) == (callee.0 as u64, l);
            assert(a.fn_locations.entries@[i] == (callee.0 as u64, l));
            assert(b.loc_node@[l.0 as int] == a.loc_node@[l.0 as int]);
        },
        FlowConstraint::CallReturn { dst, .. } => { lemma_vn_grows(a, b, dst); },
    }
}

/// Encoded flow facts stay encoded as the graph grows.
pub proof fn lemma_flow_encoded_grows(program: Program, a: Pag, b: Pag, f: FlowConstraint)
    requires
        pag_wf(a),
        pag_grows(a, b),
        flow_encoded(program, a, f),
    ensures
        flow_encoded(program, b, f),
{
    let s = program.symbols;
    match f {
        FlowConstraint::Copy { dst, src } => {
            lemma_vn_grows(a, b, dst);
            lemma_vn_grows(a, b, src);
            lemma_has_c_grows(a, b, simple_c(ConstraintKind::Copy, vn(a, dst)->0, vn(a, src)->0));
        },
        FlowConstraint::Load { dst, src } => {
            lemma_vn_grows(a, b, dst);
            lemma_vn_grows(a, b, src);
            lemma_has_c_grows(a, b, simple_c(ConstraintKind::Load, vn(a, dst)->0, vn(a, src)->0));
        },
        FlowConstraint::Store { dst, src } => {
            lemma_vn_grows(a, b, dst);
            lemma_vn_grows(a, b, src);
            lemma_has_c_grows(a, b, simple_c(ConstraintKind::Store, vn(a, dst)->0, vn(a, src)->0));
        },
        FlowConstraint::GepField { dst, base, field } => {
            lemma_vn_grows(a, b, dst);
            lemma_vn_grows(a, b, base);
            lemma_has_c_grows(a, b, Constraint { kind: ConstraintKind::Gep, dst: vn(a, dst)->0, src: vn(a, base)->0, field: Some(field) });
        },
        FlowConstraint::AddrOfVar { dst, src } => {
            lemma_vn_grows(a, b, dst);
            if (src.0 as int) < s.variables@.len() {
                lemma_ret_encoded_grows(program, a, b, vn(a, dst)->0, ReturnFlow::AddrOfVar { src });
            }
        },
        FlowConstraint::AddrOfFn { dst, callee } => {
            lemma_vn_grows(a, b, dst);
            lemma_ret_encoded_grows(program, a, b, vn(a, dst)->0, ReturnFlow::AddrOfFn { callee });
        },
        FlowConstraint::ArrayFnMember { array, callee } => {
            lemma_vn_grows(a, b, array);
            lemma_ret_encoded_grows(program, a, b, vn(a, array)->0, ReturnFlow::AddrOfFn { callee });
            if fn_index(s.functions@, callee) >= 0 {
                assert(km_lookup(a.fn_locations.entries@, callee.0 as u64) is Some);
                let e = (array, floc(a, callee)->0);
                let i = choose|i: int| 0 <= i < a.array_fn_members@.len() && a.array_fn_members@[i] == e;
                assert(b.array_fn_members@[i] == e);
            }
        },
        FlowConstraint::CallReturn { dst, callee_name } => {
            lemma_vn_grows(a, b, dst);
            let vs = choose|vs: Set<FnId>| #[trigger] returns_closed(program, a, vn(a, dst)->0, callee_name@, var_file(s, dst), vs);
            assert forall|f: FnId| #[trigger] vs.contains(f) implies returns_processed(program, b, vn(b, dst)->0, vs, f) by {
                lemma_processed_grows(program, a, b, vn(a, dst)->0, vs, vs, f);
            }
            assert(returns_closed(program, b, vn(b, dst)->0, callee_name@, var_file(s, dst), vs));
        },
    }
}

/// What the encoding steps keep unchanged besides growing.
pub open spec fn keeps_tables(a: Pag, b: Pag) -> bool {
    &&& b.fn_locations == a.fn_locations
    &&& b.call_targets == a.call_targets
    &&& b.indices == a.indices
}

/// Position of a variable node (which must exist) is below the node count.
proof fn lemma_vn_bound(p: Pag, v: VarId)
    requires
        pag_wf(p),
        vn(p, v) is Some,
    ensures
        ((vn(p, v)->0).0 as int) < p.nodes@.len(),
{
    lemma_km_lookup_entry(p.var_node.entries@, v.0 as u64);
    let i = choose|i: int| 0 <= i < p.var_node.entries@.len()
        && (#[trigger] p.var_node.entries@[i]) == (v.0 as u64, vn(p, v)->0);
    assert(p.var_node.entries@[i] == (v.0 as u64, vn(p, v)->0));
}

/// A located function's location is in the graph, with a location node.
proof fn lemma_floc_bound(p: Pag, f: FnId)
    requires
        pag_wf(p),
        floc(p, f) is Some,
    ensures
        ((floc(p, f)->0).0 as int) < p.locations@.len(),
        p.locations@[(floc(p, f)->0).0 as int].kind == LocKind::Function,
        (lnode(p, floc(p, f)->0).0 as int) < p.nodes@.len(),
        p.nodes@[lnode(p, floc(p, f)->0).0 as int].kind is Loc,
{
    lemma_km_lookup_entry(p.fn_locations.entries@, f.0 as u64);
    let i = choose|i: int| 0 <= i < p.fn_locations.entries@.len()
        && (#[trigger] p.fn_locations.entries@[i]) == (f.0 as u64, floc(p, f)->0);
    assert(p.fn_locations.entries@[i] == (f.0 as u64, floc(p, f)->0));
    let l = floc(p, f)->0;
    assert(p.locations@[l.0 as int].id.0 == l.0);
}

/// A function's location exists once all functions have theirs.
proof fn lemma_floc_known(p: Pag, program: Program, f: FnId)
    requires
        fn_locs_complete(p, program),
        fn_index(program.symbols.functions@, f) >= 0,
    ensures
        floc(p, f) is Some,
{
    lemma_fn_index(program.symbols.functions@, f);
    assert(floc(p, program.symbols.functions@[fn_index(program.symbols.functions@, f)].id) is Some);
}

/// Preconditions shared by the encoding steps.
pub open spec fn encode_ready(p: Pag, program: Program) -> bool {
    &&& pag_wf(p)
    &&& program_wf(program)
    &&& locs_ok(p, program)
    &&& fn_locs_complete(p, program)
}

proof fn lemma_ready_grows(a: Pag, b: Pag, program: Program)
    requires
        encode_ready(a, program),
        pag_wf(b),
        pag_grows(a, b),
        locs_ok(b, program),
    ensures
        encode_ready(b, program),
{
    assert forall|i: int| 0 <= i < program.symbols.functions@.len() implies
        floc(b, #[trigger] program.symbols.functions@[i].id) is Some by {
        assert(km_lookup(a.fn_locations.entries@, program.symbols.functions@[i].id.0 as u64) is Some);
    }
}

impl Pag {
    /// `dst` and `src` joined by a constraint of `kind` (copy, load or store).
    fn encode_pair(&mut self, program: &Program, kind: ConstraintKind, dst: VarId, src: VarId)
        requires
            encode_ready(*old(self), *program),
            kind == ConstraintKind::Copy || kind == ConstraintKind::Load || kind == ConstraintKind::Store,
        ensures
            lazy_kept(*old(self), *final(self), *program),
            encode_ready(*final(self), *program),
            pag_grows(*old(self), *final(self)),
            keeps_tables(*old(self), *final(self)),
            final(self).array_fn_members == old(self).array_fn_members,
            has_room(*final(self)) ==> pair_encoded(*final(self), kind, dst, src),
            forall|i: int| old(self).constraints@.len() <= i < final(self).constraints@.len()
                ==> #[trigger] final(self).constraints@[i] == simple_c(kind, vn(*final(self), dst)->0, vn(*final(self), src)->0)
                    && vn(*final(self), dst) is Some && vn(*final(self), src) is Some,
    {
        let ghost s0 = *self;
        if !self.room() {
            return;
        }
        let d = self.var_node_id(dst);
        let ghost s1 = *self;
        let sn = self.var_node_id(src);
        proof {
            lemma_vn_grows(s1, *self, dst);
            lemma_vn_bound(*self, dst);
            lemma_vn_bound(*self, src);
        }
        let ghost s2 = *self;
        if kind == ConstraintKind::Copy {
            self.add_copy(d, sn);
        } else if kind == ConstraintKind::Load {
            self.add_load(d, sn);
        } else {
            self.add_store(d, sn);
        }
        proof {
            assert(self.constraints@[self.constraints@.len() - 1] == simple_c(kind, d, sn));
            lemma_grows_trans(s0, s1, s2);
            lemma_grows_trans(s0, s2, *self);
            lemma_ready_grows(s0, *self, *program);
        }
    }

    /// `dst = &base->field`.
    fn encode_gep(&mut self, program: &Program, dst: VarId, base: VarId, field: FieldId)
        requires
            encode_ready(*old(self), *program),
        ensures
            lazy_kept(*old(self), *final(self), *program),
            encode_ready(*final(self), *program),
            pag_grows(*old(self), *final(self)),
            keeps_tables(*old(self), *final(self)),
            final(self).array_fn_members == old(self).array_fn_members,
            has_room(*final(self)) ==> flow_encoded(*program, *final(self), FlowConstraint::GepField { dst, base, field }),
            made_by(*final(self), old(self).constraints@.len() as int, FlowConstraint::GepField { dst, base, field }),
    {
        let ghost s0 = *self;
        if !self.room() {
            return;
        }
        let d = self.var_node_id(dst);
        let ghost s1 = *self;
        let b = self.var_node_id(base);
        proof {
            lemma_vn_grows(s1, *self, dst);
            lemma_vn_bound(*self, dst);
            lemma_vn_bound(*self, base);
        }
        let ghost s2 = *self;
        self.add_gep(d, b, field);
        proof {
            assert(self.constraints@[self.constraints@.len() - 1]
                == Constraint { kind: ConstraintKind::Gep, dst: d, src: b, field: Some(field) });
            lemma_grows_trans(s0, s1, s2);
            lemma_grows_trans(s0, s2, *self);
            lemma_ready_grows(s0, *self, *program);
        }
    }

    /// `dst = &src`.
    fn encode_addr_var(&mut self, program: &Program, dst: VarId, src: VarId)
        requires
            encode_ready(*old(self), *program),
            addr_named(*program, src),
        ensures
            lazy_kept(*old(self), *final(self), *program),
            encode_ready(*final(self), *program),
            pag_grows(*old(self), *final(self)),
            keeps_tables(*old(self), *final(self)),
            final(self).array_fn_members == old(self).array_fn_members,
            has_room(*final(self)) ==> flow_encoded(*program, *final(self), FlowConstraint::AddrOfVar { dst, src }),
            made_by(*final(self), old(self).constraints@.len() as int, FlowConstraint::AddrOfVar { dst, src }),
    {
        let ghost s0 = *self;
        if !self.room() {
            return;
        }
        let d = self.var_node_id(dst);
        let ghost s1 = *self;
        proof { lemma_ready_grows(s0, s1, *program); }
        let r = self.ensure_var_loc(program, src);
        let ghost s2 = *self;
        proof {
            lemma_grows_trans(s0, s1, s2);
            lemma_vn_grows(s1, s2, dst);
            lemma_vn_bound(s2, dst);
        }
        if let Some(loc) = r {
            proof {
                lemma_km_lookup_entry(self.var_location.entries@, src.0 as u64);
                let i = choose|i: int| 0 <= i < self.var_location.entries@.len()
                    && (#[trigger] self.var_location.entries@[i]) == (src.0 as u64, loc);
                assert(self.var_location.entries@[i] == (src.0 as u64, loc));
            }
            let ln = self.loc_node[loc.0 as usize];
            self.add_addr_of(d, ln);
            proof {
                assert(self.constraints@[self.constraints@.len() - 1] == addr_c(d, ln));
                lemma_grows_trans(s0, s2, *self);
            }
        }
        proof { lemma_ready_grows(s0, *self, *program); }
    }

    /// `dst = &callee`.
    fn encode_addr_fn(&mut self, program: &Program, dst: VarId, callee: FnId)
        requires
            encode_ready(*old(self), *program),
        ensures
            lazy_kept(*old(self), *final(self), *program),
            encode_ready(*final(self), *program),
            pag_grows(*old(self), *final(self)),
            keeps_tables(*old(self), *final(self)),
            final(self).array_fn_members == old(self).array_fn_members,
            has_room(*final(self)) ==> flow_encoded(*program, *final(self), FlowConstraint::AddrOfFn { dst, callee }),
            made_by(*final(self), old(self).constraints@.len() as int, FlowConstraint::AddrOfFn { dst, callee }),
            floc(*old(self), callee) is None ==> final(self).constraints == old(self).constraints,
            match floc(*old(self), callee) {
                Some(fl) => has_room(*old(self)) ==> final(self).constraints@
                    == old(self).constraints@.push(addr_c(vn(*final(self), dst)->0, lnode(*final(self), fl))),
                None => true,
            },
    {
        let ghost s0 = *self;
        if !self.room() {
            return;
        }
        let d = self.var_node_id(dst);
        let ghost s1 = *self;
        proof {
            lemma_vn_bound(s1, dst);
            lemma_ready_grows(s0, s1, *program);
        }
        if let Some(fl) = self.fn_locations.get(callee.0 as u64) {
            proof { lemma_floc_bound(*self, callee); }
            let ln = self.loc_node[fl.0 as usize];
            self.add_addr_of(d, ln);
            proof {
                assert(self.constraints@[self.constraints@.len() - 1] == addr_c(d, ln));
                lemma_grows_trans(s0, s1, *self);
            }
        } else {
            proof {
                if fn_index(program.symbols.functions@, callee) >= 0 {
                    lemma_floc_known(*self, *program, callee);
                }
            }
        }
        proof { lemma_ready_grows(s0, *self, *program); }
    }

    /// `callee` is one of the functions in the table `array`.
    fn encode_array_member(&mut self, program: &Program, array: VarId, callee: FnId)
        requires
            encode_ready(*old(self), *program),
        ensures
            lazy_kept(*old(self), *final(self), *program),
            encode_ready(*final(self), *program),
            pag_grows(*old(self), *final(self)),
            keeps_tables(*old(self), *final(self)),
            has_room(*final(self)) ==> flow_encoded(*program, *final(self), FlowConstraint::ArrayFnMember { array, callee }),
            made_by(*final(self), old(self).constraints@.len() as int, FlowConstraint::ArrayFnMember { array, callee }),
            floc(*old(self), callee) is None ==> final(self).constraints == old(self).constraints
                && final(self).array_fn_members == old(self).array_fn_members,
            match floc(*old(self), callee) {
                Some(fl) => has_room(*old(self)) ==> final(self).array_fn_members@ == old(self).array_fn_members@.push((array, fl))
                    && final(self).constraints@ == old(self).constraints@.push(addr_c(vn(*final(self), array)->0, lnode(*final(self), fl))),
                None => true,
            },
    {
        let ghost s0 = *self;
        if !self.room() {
            return;
        }
        let a = self.var_node_id(array);
        let ghost s1 = *self;
        proof {
            lemma_vn_bound(s1, array);
            lemma_ready_grows(s0, s1, *program);
        }
        if let Some(fl) = self.fn_locations.get(callee.0 as u64) {
            proof { lemma_floc_bound(*self, callee); }
            let ln = self.loc_node[fl.0 as usize];
            self.add_addr_of(a, ln);
            let ghost s2 = *self;
            self.array_fn_members.push((array, fl));
            proof {
                assert(self.constraints@[self.constraints@.len() - 1] == addr_c(a, ln));
                assert(self.array_fn_members@[self.array_fn_members@.len() - 1] == (array, fl));
                let p = *self;
                assert forall|i: int| 0 <= i < p.array_fn_members@.len() implies {
                    let e = #[trigger] p.array_fn_members@[i];
                    &&& (e.1.0 as int) < p.locations@.len()
                    &&& p.locations@[e.1.0 as int].kind == LocKind::Function
                } by {
                    if i < p.array_fn_members@.len() - 1 {
                        assert(p.array_fn_members@[i] == s2.array_fn_members@[i]);
                    }
                }
                assert(pag_grows(s2, p));
                lemma_grows_trans(s0, s1, s2);
                lemma_grows_trans(s0, s2, p);
            }
        } else {
            proof {
                if fn_index(program.symbols.functions@, callee) >= 0 {
                    lemma_floc_known(*self, *program, callee);
                }
            }
        }
        proof { lemma_ready_grows(s0, *self, *program); }
    }

    /// `dst = callee_name()`: every value the functions that the name may
    /// denote (from `dst`'s file) return, transitively through returned
    /// calls, flows into `dst`.
    fn encode_call_return(&mut self, program: &Program, dst: VarId, callee_name: &String)
        requires
            encode_ready(*old(self), *program),
            (dst.0 as int) < program.symbols.variables@.len(),
        ensures
            lazy_kept(*old(self), *final(self), *program),
            encode_ready(*final(self), *program),
            pag_grows(*old(self), *final(self)),
            keeps_tables(*old(self), *final(self)),
            final(self).array_fn_members == old(self).array_fn_members,
            has_room(*final(self)) ==> flow_encoded(*program, *final(self),
                FlowConstraint::CallReturn { dst, callee_name: *callee_name }),
            made_by(*final(self), old(self).constraints@.len() as int, FlowConstraint::CallReturn { dst, callee_name: *callee_name }),
    {
        let ghost s0 = *self;
        let ghost fs = program.symbols;
        if !self.room() {
            return;
        }
        let d = self.var_node_id(dst);
        let ghost s1 = *self;
        proof {
            lemma_vn_bound(s1, dst);
            lemma_ready_grows(s0, s1, *program);
            assert(program.symbols.variables@[dst.0 as int].id == dst);
        }
        let var = program.symbols.variable(dst);
        let file = match var.fn_id {
            Some(f) => Some(program.symbols.function(f).file),
            None => None,
        };
        proof {
            if let Some(f) = var.fn_id {
                lemma_fn_index(fs.functions@, f);
            }
            assert(file == var_file(fs, dst));
        }
        let n = program.symbols.functions.len();
        let mut visited: Vec<bool> = Vec::new();
        let mut i: usize = 0;
        while i < n
            invariant
                i <= n,
                n == fs.functions@.len(),
                visited@.len() == i,
                forall|j: int| 0 <= j < i ==> !(#[trigger] visited@[j]),
            decreases n - i,
        {
            visited.push(false);
            i = i + 1;
        }
        let ghost v0 = visited@;
        proof {
            assert forall|f: FnId| !(#[trigger] visited_set(fs, v0).contains(f)) by {
                lemma_fn_index(fs.functions@, f);
            }
        }
        let cands = program.symbols.resolve_function_candidates(callee_name.as_str(), file);
        let mut m: usize = 0;
        while m < cands.len()
            invariant
                m <= cands@.len(),
                fs == program.symbols,
                lazy_kept(s0, *self, *program),
                encode_ready(*self, *program),
                pag_grows(s1, *self),
                keeps_tables(s1, *self),
                self.array_fn_members == s1.array_fn_members,
                (d.0 as int) < self.nodes@.len(),
                vn(*self, dst) == Some(d),
                visited@.len() == fs.functions@.len(),
                writes_into(*self, s0.constraints@.len() as int, d),
                forall|g: FnId| #[trigger] cands@.contains(g) ==> is_candidate(fs, callee_name@, file, g),
                has_room(*self) ==> {
                    let vs = visited_set(fs, visited@);
                    &&& forall|f: FnId| #[trigger] vs.contains(f) ==> returns_processed(*program, *self, d, vs, f)
                    &&& forall|j: int| 0 <= j < m ==> vs.contains(#[trigger] cands@[j])
                },
            decreases cands@.len() - m,
        {
            let inner = cands[m];
            proof {
                assert(cands@.contains(inner));
                lemma_candidate_known(*program, callee_name@, file, inner);
            }
            let ghost s2 = *self;
            let ghost v2 = visited@;
            self.expand_return_flows(program, d, inner, &mut visited);
            proof {
                assert forall|i: int| s0.constraints@.len() <= i < self.constraints@.len()
                    implies writes_to(#[trigger] self.constraints@[i], d) by {
                    if i < s2.constraints@.len() {
                        assert(self.constraints@[i] == s2.constraints@[i]);
                    }
                }
                lemma_grows_trans(s1, s2, *self);
                lemma_vn_grows(s2, *self, dst);
                lemma_ready_grows(s2, *self, *program);
                if has_room(*self) {
                    lemma_grows_room(s2, *self);
                    let vs2 = visited_set(fs, v2);
                    let vs = visited_set(fs, visited@);
                    lemma_visited_subset(fs, v2, visited@);
                    assert forall|f: FnId| #[trigger] vs.contains(f) implies returns_processed(*program, *self, d, vs, f) by {
                        if vs2.contains(f) {
                            lemma_processed_grows(*program, s2, *self, d, vs2, vs, f);
                        }
                    }
                    assert forall|j: int| 0 <= j < m + 1 implies vs.contains(#[trigger] cands@[j]) by {
                        if j < m {
                            assert(vs2.contains(cands@[j]));
                        }
                    }
                }
            }
            m = m + 1;
        }
        proof {
            lemma_grows_trans(s0, s1, *self);
            assert forall|i: int| s0.constraints@.len() <= i < self.constraints@.len()
                implies flow_makes(*self, FlowConstraint::CallReturn { dst, callee_name: *callee_name }, #[trigger] self.constraints@[i]) by {
                assert(writes_to(self.constraints@[i], d));
            }
            if has_room(*self) {
                let vs = visited_set(fs, visited@);
                assert forall|g: FnId| is_candidate(fs, callee_name@, file, g) implies #[trigger] vs.contains(g) by {
                    assert(cands@.contains(g));
                    let j = choose|j: int| 0 <= j < cands@.len() && cands@[j] == g;
                    assert(vs.contains(cands@[j]));
                }
                assert(returns_closed(*program, *self, d, callee_name@, var_file(fs, dst), vs));
                assert(vn(*self, dst) == Some(d));
                assert(returns_closed(*program, *self, vn(*self, dst)->0, (*callee_name)@, var_file(program.symbols, dst), vs));
                let fc = FlowConstraint::CallReturn { dst, callee_name: *callee_name };
                assert(exists|w: Set<FnId>| #[trigger] returns_closed(*program, *self, vn(*self, dst)->0, (*callee_name)@, var_file(program.symbols, dst), w));
                assert(fc matches FlowConstraint::CallReturn { dst: d2, callee_name: n2 } && d2 == dst && n2 == *callee_name);
                assert(flow_encoded(*program, *self, fc));
            }
        }
    }
}

impl Pag {
    /// The constraints of one flow fact.
    fn encode_flow(&mut self, program: &Program, f: &FlowConstraint)
        requires
            encode_ready(*old(self), *program),
            f matches FlowConstraint::CallReturn { dst, .. } ==> (dst.0 as int) < program.symbols.variables@.len(),
            f matches FlowConstraint::AddrOfVar { src, .. } ==> addr_named(*program, *src),
        ensures
            lazy_kept(*old(self), *final(self), *program),
            encode_ready(*final(self), *program),
            pag_grows(*old(self), *final(self)),
            keeps_tables(*old(self), *final(self)),
            has_room(*final(self)) ==> flow_encoded(*program, *final(self), *f),
            made_by(*final(self), old(self).constraints@.len() as int, *f),
    {
        match f {
            FlowConstraint::Copy { dst, src } => self.encode_pair(program, ConstraintKind::Copy, *dst, *src),
            FlowConstraint::Load { dst, src } => self.encode_pair(program, ConstraintKind::Load, *dst, *src),
            FlowConstraint::Store { dst, src } => self.encode_pair(program, ConstraintKind::Store, *dst, *src),
            FlowConstraint::GepField { dst, base, field } => self.encode_gep(program, *dst, *base, *field),
            FlowConstraint::AddrOfVar { dst, src } => self.encode_addr_var(program, *dst, *src),
            FlowConstraint::AddrOfFn { dst, callee } => self.encode_addr_fn(program, *dst, *callee),
            FlowConstraint::ArrayFnMember { array, callee } => self.encode_array_member(program, *array, *callee),
            FlowConstraint::CallReturn { dst, callee_name } => self.encode_call_return(program, *dst, callee_name),
        }
    }

    /// The constraints of every flow fact of the program.
    fn build_flow_constraints(&mut self, program: &Program)
        requires
            encode_ready(*old(self), *program),
        ensures
            encode_ready(*final(self), *program),
            pag_grows(*old(self), *final(self)),
            keeps_tables(*old(self), *final(self)),
            lazy_kept(*old(self), *final(self), *program),
            has_room(*final(self)) ==> forall|i: int| 0 <= i < program.flow@.len()
                ==> flow_encoded(*program, *final(self), #[trigger] program.flow@[i]),
            forall|i: int| old(self).constraints@.len() <= i < final(self).constraints@.len()
                ==> from_flow(*program, *final(self), #[trigger] final(self).constraints@[i]),
    {
        let ghost s0 = *self;
        let flows = &program.flow;
        let mut i: usize = 0;
        while i < flows.len()
            invariant
                i <= flows@.len(),
                *flows == program.flow,
                encode_ready(*self, *program),
                pag_grows(s0, *self),
                keeps_tables(s0, *self),
                lazy_kept(s0, *self, *program),
                has_room(*self) ==> forall|j: int| 0 <= j < i ==> flow_encoded(*program, *self, #[trigger] flows@[j]),
                forall|k: int| s0.constraints@.len() <= k < self.constraints@.len()
                    ==> exists|j: int| 0 <= j < i && flow_makes(*self, #[trigger] flows@[j], #[trigger] self.constraints@[k]),
            decreases flows@.len() - i,
        {
            let ghost s1 = *self;
            proof {
                assert(program_wf(*program));
                assert(flows@[i as int] == program.flow@[i as int]);
                if let FlowConstraint::AddrOfVar { src, .. } = flows@[i as int] {
                    assert(addr_of_var(program.flow@[i as int], src));
                }
            }
            self.encode_flow(program, &flows[i]);
            proof {
                assert forall|k: int| s0.constraints@.len() <= k < self.constraints@.len()
                    implies exists|j: int| 0 <= j < i + 1 && flow_makes(*self, #[trigger] flows@[j], #[trigger] self.constraints@[k]) by {
                    if k < s1.constraints@.len() {
                        let j = choose|j: int| 0 <= j < i && flow_makes(s1, #[trigger] flows@[j], #[trigger] s1.constraints@[k]);
                        assert(self.constraints@[k] == s1.constraints@[k]);
                        lemma_flow_makes_grows(s1, *self, flows@[j], s1.constraints@[k]);
                        assert(flow_makes(*self, flows@[j], self.constraints@[k]));
                    } else {
                        assert(flow_makes(*self, flows@[i as int], self.constraints@[k]));
                    }
                }
                lemma_grows_trans(s0, s1, *self);
                if has_room(*self) {
                    lemma_grows_room(s1, *self);
                    assert forall|j: int| 0 <= j < i + 1 implies flow_encoded(*program, *self, #[trigger] flows@[j]) by {
                        if j < i {
                            lemma_flow_encoded_grows(*program, s1, *self, flows@[j]);
                        }
                    }
                }
            }
            i = i + 1;
        }
        proof {
            assert forall|k: int| s0.constraints@.len() <= k < self.constraints@.len()
                implies from_flow(*program, *self, #[trigger] self.constraints@[k]) by {
                let j = choose|j: int| 0 <= j < i && flow_makes(*self, #[trigger] flows@[j], #[trigger] self.constraints@[k]);
                assert(program.flow@[j] == flows@[j]);
                assert(flow_makes(*self, program.flow@[j], self.constraints@[k]));
            }
        }
    }
}

/// The last variable of `caller` named `name`.
pub open spec fn last_fn_var(vars: Seq<Variable>, caller: FnId, name: Seq<char>) -> Option<VarId>
    decreases vars.len(),
{
    if vars.len() == 0 {
        None
    } else if vars.last().fn_id == Some(caller) && vars.last().name@ == name {
        Some(vars.last().id)
    } else {
        last_fn_var(vars.drop_last(), caller, name)
    }
}

/// The variable `name` denotes inside `caller`: its own (the last so
/// named), else the global.
pub open spec fn var_in_fn(s: SymbolTable, caller: FnId, name: Seq<char>) -> Option<VarId> {
    match last_fn_var(s.variables@, caller, name) {
        Some(v) => Some(v),
        None => name_lookup(s.global_by_name@, name),
    }
}

/// The kind of the constraint from a callee variable to a call target:
/// a field path holds the function pointer itself, a plain variable is
/// loaded through.
pub open spec fn callee_kind(name: Seq<char>) -> ConstraintKind {
    if is_field_path(name) { ConstraintKind::Copy } else { ConstraintKind::Load }
}

/// The constraints feeding the target of an indirect call site.
pub open spec fn call_encoded(program: Program, p: Pag, cs: CallSite) -> bool {
    let s = program.symbols;
    cs.is_direct || match cs.callee_var {
        Some(v) => {
            &&& ctn(p, cs.id) is Some
            &&& vn(p, v) is Some
            &&& has_c(p, simple_c(callee_kind(cs.callee_name@), ctn(p, cs.id)->0, vn(p, v)->0))
        },
        None => name_lookup(s.fn_by_name@, cs.callee_name@) is None ==> {
            &&& ctn(p, cs.id) is Some
            &&& (var_in_fn(s, cs.caller, cs.callee_name@) matches Some(v) ==> vn(p, v) is Some
                && has_c(p, simple_c(ConstraintKind::Load, ctn(p, cs.id)->0, vn(p, v)->0)))
        },
    }
}

/// A call-target node of `a` is kept in `b`.
proof fn lemma_ctn_grows(a: Pag, b: Pag, cs: CallSiteId)
    requires
        pag_grows(a, b),
        ctn(a, cs) is Some,
    ensures
        ctn(b, cs) == ctn(a, cs),
{
    assert(km_lookup(a.call_targets.entries@, cs.0 as u64) is Some);
}

/// A call target's node is in the graph.
proof fn lemma_ctn_bound(p: Pag, cs: CallSiteId)
    requires
        pag_wf(p),
        ctn(p, cs) is Some,
    ensures
        ((ctn(p, cs)->0).0 as int) < p.nodes@.len(),
        p.nodes@[(ctn(p, cs)->0).0 as int].kind == PagNodeKind::CallTarget(cs),
{
    lemma_km_lookup_entry(p.call_targets.entries@, cs.0 as u64);
    let i = choose|i: int| 0 <= i < p.call_targets.entries@.len()
        && (#[trigger] p.call_targets.entries@[i]) == (cs.0 as u64, ctn(p, cs)->0);
    assert(p.call_targets.entries@[i] == (cs.0 as u64, ctn(p, cs)->0));
}

pub proof fn lemma_call_encoded_grows(program: Program, a: Pag, b: Pag, cs: CallSite)
    requires
        pag_wf(a),
        pag_grows(a, b),
        call_encoded(program, a, cs),
    ensures
        call_encoded(program, b, cs),
{
    let s = program.symbols;
    if !cs.is_direct {
        match cs.callee_var {
            Some(v) => {
                lemma_ctn_grows(a, b, cs.id);
                lemma_vn_grows(a, b, v);
                lemma_has_c_grows(a, b, simple_c(callee_kind(cs.callee_name@), ctn(a, cs.id)->0, vn(a, v)->0));
            },
            None => {
                if name_lookup(s.fn_by_name@, cs.callee_name@) is None {
                    lemma_ctn_grows(a, b, cs.id);
                    if let Some(v) = var_in_fn(s, cs.caller, cs.callee_name@) {
                        lemma_vn_grows(a, b, v);
                        lemma_has_c_grows(a, b, simple_c(ConstraintKind::Load, ctn(a, cs.id)->0, vn(a, v)->0));
                    }
                }
            },
        }
    }
}

/// The variable `name` denotes inside `caller`.
fn lookup_var_in_fn(program: &Program, name: &str, caller: FnId) -> (r: Option<VarId>)
    ensures
        r == var_in_fn(program.symbols, caller, name@),
{
    let vars = &program.symbols.variables;
    let mut k = vars.len();
    assert(vars@.subrange(0, k as int) =~= vars@);
    while k > 0
        invariant
            k <= vars@.len(),
            *vars == program.symbols.variables,
            last_fn_var(vars@, caller, name@) == last_fn_var(vars@.subrange(0, k as int), caller, name@),
        decreases k,
    {
        assert(vars@.subrange(0, k as int).drop_last() =~= vars@.subrange(0, k - 1));
        let v = &vars[k - 1];
        if v.fn_id == Some(caller) && crate::text::string_is(&v.name, name) {
            return Some(v.id);
        }
        k = k - 1;
    }
    lookup_name(&program.symbols.global_by_name, name)
}

impl Pag {
    /// The constraints feeding the target node of indirect call site `cs`.
    fn encode_call(&mut self, program: &Program, cs: &CallSite)
        requires
            encode_ready(*old(self), *program),
        ensures
            lazy_kept(*old(self), *final(self), *program),
            encode_ready(*final(self), *program),
            pag_grows(*old(self), *final(self)),
            final(self).fn_locations == old(self).fn_locations,
            final(self).indices == old(self).indices,
            has_room(*final(self)) ==> call_encoded(*program, *final(self), *cs),
            cs.is_direct ==> *final(self) == *old(self),
            forall|q: CallSiteId| q != cs.id ==> #[trigger] ctn(*final(self), q) == ctn(*old(self), q),
            forall|i: int| old(self).constraints@.len() <= i < final(self).constraints@.len()
                ==> into_target(*final(self), *cs, #[trigger] final(self).constraints@[i]),
    {
        let ghost s0 = *self;
        if cs.is_direct || !self.room() {
            return;
        }
        if let Some(var) = cs.callee_var {
            let t = self.call_target_node(cs.id);
            let ghost s1 = *self;
            let vnode = self.var_node_id(var);
            proof {
                lemma_ctn_grows(s1, *self, cs.id);
                lemma_ctn_bound(*self, cs.id);
                lemma_vn_bound(*self, var);
            }
            let ghost s2 = *self;
            if field_path(cs.callee_name.as_str()) {
                self.add_copy(t, vnode);
            } else {
                self.add_load(t, vnode);
            }
            proof {
                assert(self.constraints@[self.constraints@.len() - 1]
                    == simple_c(callee_kind(cs.callee_name@), t, vnode));
                lemma_grows_trans(s0, s1, s2);
                lemma_grows_trans(s0, s2, *self);
                lemma_ready_grows(s0, *self, *program);
                assert forall|q: CallSiteId| q != cs.id implies #[trigger] ctn(*self, q) == ctn(s0, q) by {
                    assert(ctn(s1, q) == ctn(s0, q));
                }
            }
        } else if program.symbols.resolve_function(cs.callee_name.as_str()).is_none() {
            let t = self.call_target_node(cs.id);
            let ghost s1 = *self;
            proof {
                lemma_ready_grows(s0, s1, *program);
                assert forall|q: CallSiteId| q != cs.id implies #[trigger] ctn(s1, q) == ctn(s0, q) by {}
            }
            if let Some(v) = lookup_var_in_fn(program, cs.callee_name.as_str(), cs.caller) {
                let vnode = self.var_node_id(v);
                proof {
                    lemma_ctn_grows(s1, *self, cs.id);
                    lemma_ctn_bound(*self, cs.id);
                    lemma_vn_bound(*self, v);
                }
                let ghost s2 = *self;
                self.add_load(t, vnode);
                proof {
                    assert(self.constraints@[self.constraints@.len() - 1] == simple_c(ConstraintKind::Load, t, vnode));
                    lemma_grows_trans(s1, s2, *self);
                    lemma_grows_trans(s0, s1, *self);
                    lemma_ready_grows(s0, *self, *program);
                    assert forall|q: CallSiteId| q != cs.id implies #[trigger] ctn(*self, q) == ctn(s0, q) by {
                        assert(ctn(s1, q) == ctn(s0, q));
                    }
                }
            }
        }
    }

    /// Target nodes and their constraints for every indirect call site.
    fn build_call_constraints(&mut self, program: &Program)
        requires
            encode_ready(*old(self), *program),
        ensures
            lazy_kept(*old(self), *final(self), *program),
            encode_ready(*final(self), *program),
            pag_grows(*old(self), *final(self)),
            final(self).fn_locations == old(self).fn_locations,
            final(self).indices == old(self).indices,
            has_room(*final(self)) ==> forall|i: int| 0 <= i < program.symbols.call_sites@.len()
                ==> call_encoded(*program, *final(self), #[trigger] program.symbols.call_sites@[i]),
            forall|i: int| 0 <= i < program.symbols.call_sites@.len() && (#[trigger] program.symbols.call_sites@[i]).is_direct
                ==> ctn(*final(self), program.symbols.call_sites@[i].id) == ctn(*old(self), program.symbols.call_sites@[i].id),
            forall|i: int| old(self).constraints@.len() <= i < final(self).constraints@.len()
                ==> from_call(*program, *final(self), #[trigger] final(self).constraints@[i]),
    {
        let ghost s0 = *self;
        let sites = &program.symbols.call_sites;
        let mut i: usize = 0;
        while i < sites.len()
            invariant
                i <= sites@.len(),
                *sites == program.symbols.call_sites,
                lazy_kept(s0, *self, *program),
                encode_ready(*self, *program),
                pag_grows(s0, *self),
                self.fn_locations == s0.fn_locations,
                self.indices == s0.indices,
                has_room(*self) ==> forall|j: int| 0 <= j < i ==> call_encoded(*program, *self, #[trigger] sites@[j]),
                forall|j: int| 0 <= j < sites@.len() && (#[trigger] sites@[j]).is_direct
                    ==> ctn(*self, sites@[j].id) == ctn(s0, sites@[j].id),
                forall|k: int| s0.constraints@.len() <= k < self.constraints@.len()
                    ==> from_call(*program, *self, #[trigger] self.constraints@[k]),
            decreases sites@.len() - i,
        {
            let ghost s1 = *self;
            self.encode_call(program, &sites[i]);
            proof {
                assert forall|k: int| s0.constraints@.len() <= k < self.constraints@.len()
                    implies from_call(*program, *self, #[trigger] self.constraints@[k]) by {
                    if k < s1.constraints@.len() {
                        let j = choose|j: int| 0 <= j < program.symbols.call_sites@.len()
                            && #[trigger] into_target(s1, program.symbols.call_sites@[j], s1.constraints@[k]);
                        assert(self.constraints@[k] == s1.constraints@[k]);
                        lemma_ctn_grows(s1, *self, program.symbols.call_sites@[j].id);
                        assert(into_target(*self, program.symbols.call_sites@[j], self.constraints@[k]));
                    } else {
                        assert(sites@[i as int] == program.symbols.call_sites@[i as int]);
                        assert(into_target(*self, program.symbols.call_sites@[i as int], self.constraints@[k]));
                    }
                }
            }
            proof {
                assert forall|j: int| 0 <= j < sites@.len() && (#[trigger] sites@[j]).is_direct
                    implies ctn(*self, sites@[j].id) == ctn(s0, sites@[j].id) by {
                    if j != i {
                        assert(sites@[j].id.0 == j && sites@[i as int].id.0 == i);
                        assert(ctn(*self, sites@[j].id) == ctn(s1, sites@[j].id));
                    }
                }
            }
            proof {
                lemma_grows_trans(s0, s1, *self);
                if has_room(*self) {
                    lemma_grows_room(s1, *self);
                    assert forall|j: int| 0 <= j < i + 1 implies call_encoded(*program, *self, #[trigger] sites@[j]) by {
                        if j < i {
                            lemma_call_encoded_grows(*program, s1, *self, sites@[j]);
                        }
                    }
                }
            }
            i = i + 1;
        }
    }
}

/// Appends `x` to list `n`.
fn push_at<T>(v: &mut Vec<Vec<T>>, n: usize, x: T)
    requires
        n < old(v)@.len(),
    ensures
        final(v)@.len() == old(v)@.len(),
        final(v)@[n as int]@ == old(v)@[n as int]@.push(x),
        forall|j: int| 0 <= j < old(v)@.len() && j != n ==> #[trigger] final(v)@[j] == old(v)@[j],
{
    v[n].push(x);
}

/// The node a constraint is indexed under.
pub open spec fn c_key(c: Constraint, by_dst: bool) -> int {
    if by_dst { c.dst.0 as int } else { c.src.0 as int }
}

/// `idx[n]` lists exactly the positions of the constraints of `kind`
/// indexed under node `n`.
pub open spec fn idx_complete(cons: Seq<Constraint>, idx: Seq<Vec<usize>>, kind: ConstraintKind, by_dst: bool) -> bool {
    &&& forall|n: int, j: int| 0 <= n < idx.len() && 0 <= j < idx[n]@.len() ==> {
        let i = #[trigger] idx[n]@[j];
        &&& (i as int) < cons.len()
        &&& cons[i as int].kind == kind
        &&& c_key(cons[i as int], by_dst) == n
    }
    &&& forall|i: int| 0 <= i < cons.len() && (#[trigger] cons[i]).kind == kind ==> {
        &&& c_key(cons[i], by_dst) < idx.len()
        &&& idx[c_key(cons[i], by_dst)]@.contains(i as usize)
    }
}

/// `idx[n]` lists exactly the indirect call sites whose target node is `n`.
pub open spec fn indirect_complete(program: Program, p: Pag, idx: Seq<Vec<CallSiteId>>) -> bool {
    let sites = program.symbols.call_sites@;
    &&& forall|n: int, j: int| 0 <= n < idx.len() && 0 <= j < idx[n]@.len() ==> {
        let c = #[trigger] idx[n]@[j];
        &&& (c.0 as int) < sites.len()
        &&& !sites[c.0 as int].is_direct
        &&& ctn(p, c) == Some(PagNodeId(n as u32))
    }
    &&& forall|k: int| 0 <= k < sites.len() && !(#[trigger] sites[k]).is_direct && ctn(p, sites[k].id) is Some ==> {
        let t = (ctn(p, sites[k].id)->0).0 as int;
        &&& t < idx.len()
        &&& idx[t]@.contains(sites[k].id)
    }
}

/// The solver indices agree with the graph.
pub open spec fn indices_wf(program: Program, p: Pag) -> bool {
    let cons = p.constraints@;
    let ix = p.indices;
    &&& idx_complete(cons, ix.copy_src@, ConstraintKind::Copy, false)
    &&& idx_complete(cons, ix.addr_of_dst@, ConstraintKind::AddrOf, true)
    &&& idx_complete(cons, ix.load_src@, ConstraintKind::Load, false)
    &&& idx_complete(cons, ix.store_dst@, ConstraintKind::Store, true)
    &&& idx_complete(cons, ix.store_src@, ConstraintKind::Store, false)
    &&& idx_complete(cons, ix.gep_src@, ConstraintKind::Gep, false)
    &&& indirect_complete(program, p, ix.indirect_by_target@)
}

/// `n` empty lists.
fn empty_lists<T>(n: usize) -> (r: Vec<Vec<T>>)
    ensures
        r@.len() == n,
        forall|k: int| 0 <= k < n ==> (#[trigger] r@[k])@.len() == 0,
{
    let mut r: Vec<Vec<T>> = Vec::new();
    let mut k: usize = 0;
    while k < n
        invariant
            k <= n,
            r@.len() == k,
            forall|j: int| 0 <= j < k ==> (#[trigger] r@[j])@.len() == 0,
        decreases n - k,
    {
        r.push(Vec::new());
        k = k + 1;
    }
    r
}

/// The positions of the constraints of `kind`, listed under their node.
fn index_by(cons: &Vec<Constraint>, n: usize, kind: ConstraintKind, by_dst: bool) -> (r: Vec<Vec<usize>>)
    requires
        forall|i: int| 0 <= i < cons@.len() ==> 0 <= c_key(#[trigger] cons@[i], by_dst) < n,
    ensures
        r@.len() == n,
        idx_complete(cons@, r@, kind, by_dst),
{
    let mut r: Vec<Vec<usize>> = empty_lists(n);
    let mut i: usize = 0;
    while i < cons.len()
        invariant
            i <= cons@.len(),
            r@.len() == n,
            forall|i2: int| 0 <= i2 < cons@.len() ==> 0 <= c_key(#[trigger] cons@[i2], by_dst) < n,
            forall|m: int, j: int| 0 <= m < r@.len() && 0 <= j < r@[m]@.len() ==> {
                let q = #[trigger] r@[m]@[j];
                &&& q < i
                &&& cons@[q as int].kind == kind
                &&& c_key(cons@[q as int], by_dst) == m
            },
            forall|q: int| 0 <= q < i && (#[trigger] cons@[q]).kind == kind ==> r@[c_key(cons@[q], by_dst)]@.contains(q as usize),
        decreases cons@.len() - i,
    {
        let c = cons[i];
        if c.kind == kind {
            let key: usize = if by_dst { c.dst.0 as usize } else { c.src.0 as usize };
            let ghost before = r@;
            push_at(&mut r, key, i);
            proof {
                assert(r@[key as int]@[r@[key as int]@.len() - 1] == i);
                assert forall|m: int, j: int| 0 <= m < r@.len() && 0 <= j < r@[m]@.len() implies {
                    let q = #[trigger] r@[m]@[j];
                    &&& q < i + 1
                    &&& cons@[q as int].kind == kind
                    &&& c_key(cons@[q as int], by_dst) == m
                } by {
                    if m != key as int || j < before[m]@.len() {
                        assert(r@[m]@[j] == before[m]@[j]);
                    }
                }
                assert forall|q: int| 0 <= q < i + 1 && (#[trigger] cons@[q]).kind == kind
                    implies r@[c_key(cons@[q], by_dst)]@.contains(q as usize) by {
                    if q < i {
                        let m = c_key(cons@[q], by_dst);
                        assert(before[m]@.contains(q as usize));
                        let w = choose|w: int| 0 <= w < before[m]@.len() && before[m]@[w] == q as usize;
                        assert(r@[m]@[w] == q as usize);
                    } else {
                        assert(r@[key as int]@[r@[key as int]@.len() - 1] == q as usize);
                    }
                }
            }
        }
        i = i + 1;
    }
    r
}

/// What `Pag::build` guarantees of the graph it returns for `program`.
pub open spec fn pag_built(program: Program, p: Pag) -> bool {
    let s = program.symbols;
    &&& forall|i: int| 0 <= i < s.variables@.len() ==> {
        &&& vn(p, #[trigger] s.variables@[i].id) is Some
        &&& (is_static_storage(s.variables@[i].storage) ==> vloc(p, s.variables@[i].id) is Some)
    }
    &&& fn_locs_complete(p, program)
    &&& forall|i: int| 0 <= i < program.flow@.len() ==> flow_encoded(program, p, #[trigger] program.flow@[i])
    &&& forall|i: int| 0 <= i < s.call_sites@.len() ==> call_encoded(program, p, #[trigger] s.call_sites@[i])
}

impl Pag {
    /// Indirect call sites listed under their target node.
    fn index_indirect(&self, program: &Program) -> (r: Vec<Vec<CallSiteId>>)
        requires
            pag_wf(*self),
            program_wf(*program),
        ensures
            r@.len() == self.nodes@.len(),
            indirect_complete(*program, *self, r@),
    {
        let n = self.nodes.len();
        let mut r: Vec<Vec<CallSiteId>> = empty_lists(n);
        let sites = &program.symbols.call_sites;
        let mut k: usize = 0;
        while k < sites.len()
            invariant
                k <= sites@.len(),
                *sites == program.symbols.call_sites,
                program_wf(*program),
                pag_wf(*self),
                n == self.nodes@.len(),
                r@.len() == n,
                forall|m: int, j: int| 0 <= m < r@.len() && 0 <= j < r@[m]@.len() ==> {
                    let c = #[trigger] r@[m]@[j];
                    &&& (c.0 as int) < k
                    &&& !sites@[c.0 as int].is_direct
                    &&& ctn(*self, c) == Some(PagNodeId(m as u32))
                },
                forall|q: int| 0 <= q < k && !(#[trigger] sites@[q]).is_direct && ctn(*self, sites@[q].id) is Some
                    ==> ((ctn(*self, sites@[q].id)->0).0 as int) < n
                        && r@[(ctn(*self, sites@[q].id)->0).0 as int]@.contains(sites@[q].id),
            decreases sites@.len() - k,
        {
            let cs = &sites[k];
            proof { assert(cs.id.0 == k); }
            if !cs.is_direct {
                if let Some(t) = self.call_targets.get(cs.id.0 as u64) {
                    proof {
                        lemma_ctn_bound(*self, cs.id);
                        assert(self.nodes@[t.0 as int].id.0 == t.0);
                    }
                    let ghost before = r@;
                    push_at(&mut r, t.0 as usize, cs.id);
                    proof {
                        assert(r@[t.0 as int]@[r@[t.0 as int]@.len() - 1] == cs.id);
                        assert forall|m: int, j: int| 0 <= m < r@.len() && 0 <= j < r@[m]@.len() implies {
                            let c = #[trigger] r@[m]@[j];
                            &&& (c.0 as int) < k + 1
                            &&& !sites@[c.0 as int].is_direct
                            &&& ctn(*self, c) == Some(PagNodeId(m as u32))
                        } by {
                            if m != t.0 as int || j < before[m]@.len() {
                                assert(r@[m]@[j] == before[m]@[j]);
                            }
                        }
                        assert forall|q: int| 0 <= q < k + 1 && !(#[trigger] sites@[q]).is_direct && ctn(*self, sites@[q].id) is Some
                            implies ((ctn(*self, sites@[q].id)->0).0 as int) < n
                                && r@[(ctn(*self, sites@[q].id)->0).0 as int]@.contains(sites@[q].id) by {
                            if q < k {
                                lemma_ctn_bound(*self, sites@[q].id);
                                let m = (ctn(*self, sites@[q].id)->0).0 as int;
                                assert(before[m]@.contains(sites@[q].id));
                                let w = choose|w: int| 0 <= w < before[m]@.len() && before[m]@[w] == sites@[q].id;
                                assert(r@[m]@[w] == sites@[q].id);
                            } else {
                                assert(r@[t.0 as int]@[r@[t.0 as int]@.len() - 1] == sites@[q].id);
                            }
                        }
                    }
                }
            }
            k = k + 1;
        }
        r
    }

    /// Fills the solver indices from the constraints and call targets.
    fn build_indices(&mut self, program: &Program)
        requires
            pag_wf(*old(self)),
            program_wf(*program),
        ensures
            pag_wf(*final(self)),
            indices_wf(*program, *final(self)),
            pag_grows(*old(self), *final(self)),
            final(self).nodes == old(self).nodes,
            final(self).locations == old(self).locations,
            final(self).constraints == old(self).constraints,
            final(self).var_node == old(self).var_node,
            final(self).var_location == old(self).var_location,
            final(self).fn_locations == old(self).fn_locations,
            final(self).call_targets == old(self).call_targets,
            final(self).loc_node == old(self).loc_node,
            final(self).field_loc == old(self).field_loc,
            final(self).field_summary == old(self).field_summary,
            final(self).field_depth == old(self).field_depth,
            final(self).field_loc_to_summary == old(self).field_loc_to_summary,
            final(self).array_fn_members == old(self).array_fn_members,
    {
        let n = self.nodes.len();
        proof {
            assert forall|i: int| 0 <= i < self.constraints@.len() implies 0 <= c_key(#[trigger] self.constraints@[i], true) < n by {}
            assert forall|i: int| 0 <= i < self.constraints@.len() implies 0 <= c_key(#[trigger] self.constraints@[i], false) < n by {}
        }
        let copy_src = index_by(&self.constraints, n, ConstraintKind::Copy, false);
        let addr_of_dst = index_by(&self.constraints, n, ConstraintKind::AddrOf, true);
        let load_src = index_by(&self.constraints, n, ConstraintKind::Load, false);
        let store_dst = index_by(&self.constraints, n, ConstraintKind::Store, true);
        let store_src = index_by(&self.constraints, n, ConstraintKind::Store, false);
        let gep_src = index_by(&self.constraints, n, ConstraintKind::Gep, false);
        let indirect_by_target = self.index_indirect(program);
        self.indices = SolverIndices { copy_src, addr_of_dst, load_src, store_dst, store_src, gep_src, indirect_by_target };
    }

    /// The graph of `program`: a node per variable, locations for globals,
    /// statics and functions, the constraints of every flow fact (return
    /// values of called functions expanded), the constraints feeding each
    /// indirect call target, and the solver indices. The guarantees on
    /// contents hold while the graph has room for more ids.
    pub fn build(program: &Program) -> (p: Pag)
        requires
            program_wf(*program),
        ensures
            pag_wf(p),
            locs_ok(p, *program),
            indices_wf(*program, p),
            has_room(p) ==> pag_built(*program, p),
            forall|i: int| 0 <= i < program.symbols.call_sites@.len() && (#[trigger] program.symbols.call_sites@[i]).is_direct
                ==> ctn(p, program.symbols.call_sites@[i].id) is None,
            lazy_locs(p, *program),
            forall|i: int| 0 <= i < p.constraints@.len()
                ==> from_flow(*program, p, #[trigger] p.constraints@[i]) || from_call(*program, p, p.constraints@[i]),
    {
        let mut pag = Pag::new();
        pag.build_variables(program);
        let ghost s1 = pag;
        pag.build_function_locations(program);
        let ghost s2 = pag;
        proof {
            lemma_grows_trans(s1, s1, s2);
        }
        if pag.room() {
            proof {
                assert(has_room(s1));
            }
            pag.build_flow_constraints(program);
            let ghost s3 = pag;
            pag.build_call_constraints(program);
            let ghost s4 = pag;
            proof {
                assert forall|k: int| 0 <= k < s4.constraints@.len()
                    implies from_flow(*program, s4, #[trigger] s4.constraints@[k]) || from_call(*program, s4, s4.constraints@[k]) by {
                    if k < s3.constraints@.len() {
                        let j = choose|j: int| 0 <= j < program.flow@.len() && #[trigger] flow_makes(s3, program.flow@[j], s3.constraints@[k]);
                        assert(s4.constraints@[k] == s3.constraints@[k]);
                        lemma_flow_makes_grows(s3, s4, program.flow@[j], s3.constraints@[k]);
                        assert(flow_makes(s4, program.flow@[j], s4.constraints@[k]));
                    }
                }
            }
            proof {
                lemma_grows_trans(s2, s3, s4);
                lemma_grows_trans(s1, s2, s4);
                if has_room(s4) {
                    lemma_grows_room(s3, s4);
                    lemma_grows_room(s2, s3);
                    let s = program.symbols;
                    assert forall|i: int| 0 <= i < s.variables@.len() implies {
                        &&& vn(s4, #[trigger] s.variables@[i].id) is Some
                        &&& (is_static_storage(s.variables@[i].storage) ==> vloc(s4, s.variables@[i].id) is Some)
                    } by {
                        assert(km_lookup(s1.var_node.entries@, s.variables@[i].id.0 as u64) is Some);
                        if is_static_storage(s.variables@[i].storage) {
                            assert(km_lookup(s1.var_location.entries@, s.variables@[i].id.0 as u64) is Some);
                        }
                    }
                    assert forall|i: int| 0 <= i < program.flow@.len() implies
                        flow_encoded(*program, s4, #[trigger] program.flow@[i]) by {
                        lemma_flow_encoded_grows(*program, s3, s4, program.flow@[i]);
                    }
                }
            }
        }
        let ghost s5 = pag;
        proof {
            assert forall|k: int| 0 <= k < s5.constraints@.len()
                implies from_flow(*program, s5, #[trigger] s5.constraints@[k]) || from_call(*program, s5, s5.constraints@[k]) by {
                assert(s2.constraints@.len() == 0);
            }
        }
        pag.build_indices(program);
        proof {
            assert forall|k: int| 0 <= k < pag.constraints@.len()
                implies from_flow(*program, pag, #[trigger] pag.constraints@[k]) || from_call(*program, pag, pag.constraints@[k]) by {
                assert(pag.constraints@[k] == s5.constraints@[k]);
                if from_flow(*program, s5, s5.constraints@[k]) {
                    let j = choose|j: int| 0 <= j < program.flow@.len() && #[trigger] flow_makes(s5, program.flow@[j], s5.constraints@[k]);
                    assert(flow_makes(pag, program.flow@[j], pag.constraints@[k]));
                } else {
                    let j = choose|j: int| 0 <= j < program.symbols.call_sites@.len()
                        && #[trigger] into_target(s5, program.symbols.call_sites@[j], s5.constraints@[k]);
                    assert(into_target(pag, program.symbols.call_sites@[j], pag.constraints@[k]));
                }
            }
        }
        proof {
            lemma_grows_trans(s1, s5, pag);
            if has_room(pag) {
                let s = program.symbols;
                assert(has_room(s5));
                assert forall|i: int| 0 <= i < s.variables@.len() implies {
                    &&& vn(pag, #[trigger] s.variables@[i].id) is Some
                    &&& (is_static_storage(s.variables@[i].storage) ==> vloc(pag, s.variables@[i].id) is Some)
                } by {
                    assert(km_lookup(s5.var_node.entries@, s.variables@[i].id.0 as u64) is Some);
                    if is_static_storage(s.variables@[i].storage) {
                        assert(km_lookup(s5.var_location.entries@, s.variables@[i].id.0 as u64) is Some);
                    }
                }
                assert forall|i: int| 0 <= i < program.flow@.len() implies
                    flow_encoded(*program, pag, #[trigger] program.flow@[i]) by {
                    lemma_flow_encoded_grows(*program, s5, pag, program.flow@[i]);
                }
                assert forall|i: int| 0 <= i < s.call_sites@.len() implies
                    call_encoded(*program, pag, #[trigger] s.call_sites@[i]) by {
                    lemma_call_encoded_grows(*program, s5, pag, s.call_sites@[i]);
                }
            }
        }
        pag
    }
}

/// Some type carries the tag `name` of `kind`.
pub open spec fn tag_carried(types: Seq<TypeInfo>, name: Seq<char>, kind: TypeKind) -> bool {
    exists|j: int| 0 <= j < types.len() && tag_matches(#[trigger] types[j].desc, name, kind)
}

/// The type a pointer to `inner` leads to: the most complete type with
/// the tag of a struct or union, else the interned type for `inner`.
pub open spec fn ptr_target(types: Seq<TypeInfo>, inner: TypeDesc) -> int {
    match inner {
        TypeDesc::Struct { name, .. } => if tag_carried(types, name@, TypeKind::Struct) {
            tag_pick(types, name@, TypeKind::Struct)
        } else {
            resolve_spec(types, inner)
        },
        TypeDesc::Union { name, .. } => if tag_carried(types, name@, TypeKind::Union) {
            tag_pick(types, name@, TypeKind::Union)
        } else {
            resolve_spec(types, inner)
        },
        _ => resolve_spec(types, inner),
    }
}

/// The pointee or element of a pointer or array description; others as is.
pub open spec fn inner_or_elem_spec(d: TypeDesc) -> TypeDesc {
    match d {
        TypeDesc::Ptr(inner) => *inner,
        TypeDesc::Array { elem, .. } => *elem,
        _ => d,
    }
}

/// One step from a pointer to its target, or from an array to its element.
pub open spec fn peel_step(types: Seq<TypeInfo>, t: int) -> Option<int> {
    match types[t].desc {
        TypeDesc::Ptr(inner) => Some(ptr_target(types, *inner)),
        TypeDesc::Array { elem, .. } => Some(resolve_spec(types, inner_or_elem_spec(*elem))),
        _ => None,
    }
}

/// At most `n` pointer and array steps from `t`.
pub open spec fn peel(types: Seq<TypeInfo>, t: int, n: nat) -> int
    decreases n,
{
    if n == 0 {
        t
    } else {
        match peel_step(types, t) {
            Some(t2) => peel(types, t2, (n - 1) as nat),
            None => t,
        }
    }
}

/// At most `n` pointer steps from `t`, each to the interned pointee.
pub open spec fn peel_ptr(types: Seq<TypeInfo>, t: int, n: nat) -> int
    decreases n,
{
    if n == 0 {
        t
    } else {
        match types[t].desc {
            TypeDesc::Ptr(inner) => peel_ptr(types, resolve_spec(types, *inner), (n - 1) as nat),
            _ => t,
        }
    }
}

/// The struct or union reached from `t` within `n` pointer and array steps.
pub open spec fn struct_from(types: Seq<TypeInfo>, t: int, n: nat) -> Option<int>
    decreases n,
{
    if n == 0 {
        None
    } else {
        match types[t].desc {
            TypeDesc::Struct { .. } => Some(t),
            TypeDesc::Union { .. } => Some(t),
            _ => match peel_step(types, t) {
                Some(t2) => struct_from(types, t2, (n - 1) as nat),
                None => None,
            },
        }
    }
}

/// The type whose fields the location `loc`'s fields are: for a variable's
/// storage, its type past up to four pointer or array steps; otherwise the
/// location's type past up to four pointer steps.
pub open spec fn struct_type_for_loc_spec(p: Pag, program: Program, loc: LocId) -> Option<int> {
    let types = program.types.types@;
    match p.locations@[loc.0 as int].var {
        Some(v) => if (v.0 as int) < program.symbols.variables@.len() {
            Some(peel(types, program.symbols.variables@[v.0 as int].type_id.0 as int, 4))
        } else {
            None
        },
        None => Some(peel_ptr(types, p.locations@[loc.0 as int].type_id.0 as int, 4)),
    }
}

/// The pointee or element of a pointer or array description.
fn inner_or_elem(desc: &TypeDesc) -> (r: &TypeDesc)
    ensures
        *r == inner_or_elem_spec(*desc),
{
    match desc {
        TypeDesc::Ptr(inner) => &**inner,
        TypeDesc::Array { elem, .. } => &**elem,
        _ => desc,
    }
}

/// The type a pointer to `inner` leads to.
fn ptr_target_id(types: &TypeTable, inner: &TypeDesc) -> (r: TypeId)
    requires
        table_wf(*types),
    ensures
        r.0 as int == ptr_target(types.types@, *inner),
        (r.0 as int) < types.types@.len(),
{
    let ghost ts = types.types@;
    match inner {
        TypeDesc::Struct { name, .. } => match types.type_id_by_tag(name.as_str(), TypeKind::Struct) {
            Some(id) => {
                proof {
                    assert(tag_matches(ts[id.0 as int].desc, name@, TypeKind::Struct));
                    assert(tag_carried(ts, name@, TypeKind::Struct));
                    let k = tag_pick(ts, name@, TypeKind::Struct);
                    assert(is_tag_pick(ts, name@, TypeKind::Struct, k));
                    lemma_tag_pick_unique(ts, name@, TypeKind::Struct, id.0 as int, k);
                }
                id
            },
            None => types.resolve_type_id(inner),
        },
        TypeDesc::Union { name, .. } => match types.type_id_by_tag(name.as_str(), TypeKind::Union) {
            Some(id) => {
                proof {
                    assert(tag_matches(ts[id.0 as int].desc, name@, TypeKind::Union));
                    assert(tag_carried(ts, name@, TypeKind::Union));
                    let k = tag_pick(ts, name@, TypeKind::Union);
                    assert(is_tag_pick(ts, name@, TypeKind::Union, k));
                    lemma_tag_pick_unique(ts, name@, TypeKind::Union, id.0 as int, k);
                }
                id
            },
            None => types.resolve_type_id(inner),
        },
        _ => types.resolve_type_id(inner),
    }
}

/// One pointer or array step from `t`, if `t` is either.
fn peel_step_exec(types: &TypeTable, t: TypeId) -> (r: Option<TypeId>)
    requires
        table_wf(*types),
        (t.0 as int) < types.types@.len(),
    ensures
        match peel_step(types.types@, t.0 as int) {
            Some(t2) => r matches Some(x) && x.0 as int == t2 && t2 < types.types@.len(),
            None => r is None,
        },
{
    match &types.get(t).desc {
        TypeDesc::Ptr(inner) => Some(ptr_target_id(types, inner)),
        TypeDesc::Array { elem, .. } => Some(types.resolve_type_id(inner_or_elem(elem))),
        _ => None,
    }
}

/// The struct (or union) whose fields a location's fields are.
fn struct_type_for_loc(pag: &Pag, program: &Program, loc: LocId) -> (r: Option<TypeId>)
    requires
        pag_wf(*pag),
        program_wf(*program),
        locs_ok(*pag, *program),
        (loc.0 as int) < pag.locations@.len(),
    ensures
        match struct_type_for_loc_spec(*pag, *program, loc) {
            Some(t) => r matches Some(x) && x.0 as int == t && t < program.types.types@.len(),
            None => r is None,
        },
{
    let types = &program.types;
    let ghost ts = types.types@;
    match pag.locations[loc.0 as usize].var {
        Some(var) => {
            let v = match program.symbols.variable_by_id(var) {
                Some(v) => v,
                None => {
                    proof {
                        if (var.0 as int) < program.symbols.variables@.len() {
                            assert(program.symbols.variables@[var.0 as int].id.0 == var.0);
                        }
                    }
                    return None;
                },
            };
            let mut type_id = v.type_id;
            let mut n: usize = 4;
            while n > 0
                invariant
                    n <= 4,
                    table_wf(*types),
                    (type_id.0 as int) < ts.len(),
                    ts == types.types@,
                    ts == program.types.types@,
                    pag.locations@[loc.0 as int].var == Some(var),
                    (var.0 as int) < program.symbols.variables@.len(),
                    *v == program.symbols.variables@[var.0 as int],
                    peel(ts, v.type_id.0 as int, 4) == peel(ts, type_id.0 as int, n as nat),
                decreases n,
            {
                match peel_step_exec(types, type_id) {
                    Some(next) => {
                        type_id = next;
                    },
                    None => {
                        return Some(type_id);
                    },
                }
                n = n - 1;
            }
            Some(type_id)
        },
        None => {
            let mut type_id = pag.locations[loc.0 as usize].type_id;
            let ghost t0 = type_id.0 as int;
            let mut n: usize = 4;
            while n > 0
                invariant
                    n <= 4,
                    table_wf(*types),
                    (type_id.0 as int) < ts.len(),
                    ts == types.types@,
                    ts == program.types.types@,
                    pag.locations@[loc.0 as int].var is None,
                    t0 == pag.locations@[loc.0 as int].type_id.0 as int,
                    peel_ptr(ts, t0, 4) == peel_ptr(ts, type_id.0 as int, n as nat),
                decreases n,
            {
                match &types.get(type_id).desc {
                    TypeDesc::Ptr(inner) => {
                        type_id = types.resolve_type_id(inner);
                    },
                    _ => {
                        return Some(type_id);
                    },
                }
                n = n - 1;
            }
            Some(type_id)
        },
    }
}

/// The struct or union that `type_id` is, or leads to within six pointer
/// and array steps.
fn struct_type_from_type_id(program: &Program, type_id: TypeId) -> (r: Option<TypeId>)
    requires
        program_wf(*program),
        (type_id.0 as int) < program.types.types@.len(),
    ensures
        match struct_from(program.types.types@, type_id.0 as int, 6) {
            Some(t) => r matches Some(x) && x.0 as int == t && t < program.types.types@.len(),
            None => r is None,
        },
{
    let types = &program.types;
    let ghost ts = types.types@;
    let mut t = type_id;
    let mut n: usize = 6;
    while n > 0
        invariant
            n <= 6,
            table_wf(*types),
            (t.0 as int) < ts.len(),
            ts == types.types@,
            ts == program.types.types@,
            struct_from(ts, type_id.0 as int, 6) == struct_from(ts, t.0 as int, n as nat),
        decreases n,
    {
        match &types.get(t).desc {
            TypeDesc::Struct { .. } => {
                return Some(t);
            },
            TypeDesc::Union { .. } => {
                return Some(t);
            },
            _ => {},
        }
        match peel_step_exec(types, t) {
            Some(next) => {
                t = next;
            },
            None => {
                return None;
            },
        }
        n = n - 1;
    }
    None
}

/// Key of a field location: parent location and field.
pub open spec fn field_key(parent: LocId, field: FieldId) -> u64 {
    pair_key_spec(parent.0, field.0)
}

/// Key of a field summary: struct type and field.
pub open spec fn summary_key(t: TypeId, field: FieldId) -> u64 {
    pair_key_spec(t.0, field.0)
}

/// `b` differs from `a` in its locations and field tables only.
pub open spec fn same_flow_tables(a: Pag, b: Pag) -> bool {
    &&& b.constraints == a.constraints
    &&& b.var_node == a.var_node
    &&& b.var_location == a.var_location
    &&& b.fn_locations == a.fn_locations
    &&& b.call_targets == a.call_targets
    &&& b.array_fn_members == a.array_fn_members
    &&& b.indices == a.indices
    &&& forall|i: int| 0 <= i < a.locations@.len() ==> #[trigger] b.field_loc_to_summary@[i] == a.field_loc_to_summary@[i]
}

/// The description of a field summary location.
fn summary_desc(program: &Program, struct_type: TypeId, name: &String) -> (r: String)
    requires
        (struct_type.0 as int) < program.types.types@.len(),
    ensures
        r@ == summary_text(program.types.types@[struct_type.0 as int].desc, struct_type, name@),
{
    let mut out: Vec<char> = Vec::new();
    proof {
        reveal_strlit("summary:");
        reveal_strlit("type");
    }
    push_all(&mut out, str_chars("summary:").as_slice());
    match &program.types.get(struct_type).desc {
        TypeDesc::Struct { name: sn, .. } => push_all(&mut out, str_chars(sn.as_str()).as_slice()),
        TypeDesc::Union { name: sn, .. } => push_all(&mut out, str_chars(sn.as_str()).as_slice()),
        _ => {
            push_all(&mut out, str_chars("type").as_slice());
            push_all(&mut out, u32_decimal(struct_type.0).as_slice());
        },
    }
    out.push('.');
    push_all(&mut out, str_chars(name.as_str()).as_slice());
    proof {
        let d = program.types.types@[struct_type.0 as int].desc;
        assert(out@ =~= summary_text(d, struct_type, name@));
    }
    chars_to_string(out.as_slice())
}

/// `summary:<tag>.<field>` (with `type<id>` for a type that has no tag).
pub open spec fn summary_text(d: TypeDesc, ty: TypeId, field: Seq<char>) -> Seq<char> {
    let tag = match d {
        TypeDesc::Struct { name, .. } => name@,
        TypeDesc::Union { name, .. } => name@,
        _ => seq!['t', 'y', 'p', 'e'] + crate::text::decimal(ty.0 as nat),
    };
    seq!['s', 'u', 'm', 'm', 'a', 'r', 'y', ':'] + tag + seq!['.'] + field
}

impl Pag {
    /// The summary location of field `field` of struct type `struct_type`,
    /// created on first use with type `field_type`.
    fn ensure_field_summary_loc(&mut self, program: &Program, struct_type: TypeId, field: FieldId,
        field_type: TypeId, name: &String) -> (r: LocId)
        requires
            pag_wf(*old(self)),
            old(self).nodes@.len() < u32::MAX,
            old(self).locations@.len() < u32::MAX,
            locs_ok(*old(self), *program),
            (struct_type.0 as int) < program.types.types@.len(),
            (field_type.0 as int) < program.types.types@.len(),
        ensures
            pag_wf(*final(self)),
            pag_grows(*old(self), *final(self)),
            locs_ok(*final(self), *program),
            same_flow_tables(*old(self), *final(self)),
            final(self).field_loc == old(self).field_loc,
            forall|i: int| 0 <= i < old(self).field_loc_to_summary@.len()
                ==> #[trigger] final(self).field_loc_to_summary@[i] == old(self).field_loc_to_summary@[i],
            forall|i: int| 0 <= i < old(self).field_depth@.len()
                ==> #[trigger] final(self).field_depth@[i] == old(self).field_depth@[i],
            km_lookup(final(self).field_summary.entries@, summary_key(struct_type, field)) == Some(r),
            (r.0 as int) < final(self).locations@.len(),
            final(self).locations@[r.0 as int].kind == LocKind::FieldSummary,
            km_lookup(old(self).field_summary.entries@, summary_key(struct_type, field)) is Some ==> *final(self) == *old(self),
            final(self).locations@.len() <= old(self).locations@.len() + 1,
            final(self).nodes@.len() <= old(self).nodes@.len() + 1,
    {
        let key = pair_key(struct_type.0, field.0);
        if let Some(loc) = self.field_summary.get(key) {
            proof {
                lemma_km_lookup_entry(self.field_summary.entries@, key);
                let i = choose|i: int| 0 <= i < self.field_summary.entries@.len()
                    && (#[trigger] self.field_summary.entries@[i]) == (key, loc);
                assert(self.field_summary.entries@[i] == (key, loc));
            }
            return loc;
        }
        let desc = summary_desc(program, struct_type, name);
        let loc_id = LocId(self.locations.len() as u32);
        let ghost s0 = *self;
        self.alloc_loc(AbstractLocation {
            id: loc_id,
            kind: LocKind::FieldSummary,
            var: None,
            fn_id: None,
            field: Some(field),
            type_id: field_type,
            desc,
        }, 0);
        let ghost s1 = *self;
        self.field_summary.insert_new(key, loc_id);
        proof {
            let p = *self;
            assert forall|i: int| 0 <= i < p.field_summary.entries@.len() implies {
                let e = #[trigger] p.field_summary.entries@[i];
                &&& (e.1.0 as int) < p.locations@.len()
                &&& p.locations@[e.1.0 as int].kind == LocKind::FieldSummary
            } by {
                if i < p.field_summary.entries@.len() - 1 {
                    assert(p.field_summary.entries@[i] == s1.field_summary.entries@[i]);
                }
            }
            assert forall|k: u64| #[trigger] km_lookup(s1.field_summary.entries@, k) is Some implies
                km_lookup(p.field_summary.entries@, k) == km_lookup(s1.field_summary.entries@, k) by {
                assert(k != key);
            }
            lemma_grows_trans(s0, s1, p);
            assert forall|i: int| 0 <= i < p.locations@.len() implies loc_ok(*program, #[trigger] p.locations@[i]) by {
                if i < s0.locations@.len() {
                    assert(p.locations@[i] == s0.locations@[i]);
                }
            }
        }
        loc_id
    }

    /// Appends the field location `parent.field`, one level deeper than
    /// `parent`.
    fn alloc_field_loc(&mut self, program: &Program, parent: LocId, field: FieldId, field_type: TypeId, name: &String) -> (r: LocId)
        requires
            pag_wf(*old(self)),
            old(self).nodes@.len() < u32::MAX,
            old(self).locations@.len() < u32::MAX,
            locs_ok(*old(self), *program),
            (field_type.0 as int) < program.types.types@.len(),
            (parent.0 as int) < old(self).locations@.len(),
            old(self).field_depth@[parent.0 as int] < FIELD_LOC_DEPTH_CAP,
            km_lookup(old(self).field_loc.entries@, field_key(parent, field)) is None,
        ensures
            pag_wf(*final(self)),
            pag_grows(*old(self), *final(self)),
            locs_ok(*final(self), *program),
            same_flow_tables(*old(self), *final(self)),
            final(self).field_summary == old(self).field_summary,
            r.0 as int == old(self).locations@.len(),
            final(self).locations@.len() == old(self).locations@.len() + 1,
            final(self).nodes@.len() == old(self).nodes@.len() + 1,
            final(self).locations@[r.0 as int].kind == LocKind::Field,
            final(self).locations@[r.0 as int].field == Some(field),
            final(self).field_depth@[r.0 as int] == old(self).field_depth@[parent.0 as int] + 1,
            final(self).field_loc_to_summary@[r.0 as int] is None,
            km_lookup(final(self).field_loc.entries@, field_key(parent, field)) == Some(r),
    {
        let key = pair_key(parent.0, field.0);
        let base_var = self.locations[parent.0 as usize].var;
        let depth = self.field_depth[parent.0 as usize] + 1;
        let loc_id = LocId(self.locations.len() as u32);
        let ghost s0 = *self;
        self.alloc_loc(AbstractLocation {
            id: loc_id,
            kind: LocKind::Field,
            var: base_var,
            fn_id: None,
            field: Some(field),
            type_id: field_type,
            desc: name.clone(),
        }, depth);
        let ghost s1 = *self;
        self.field_loc.insert_new(key, loc_id);
        proof {
            let p = *self;
            assert forall|i: int| 0 <= i < p.field_loc.entries@.len() implies {
                let e = #[trigger] p.field_loc.entries@[i];
                &&& (e.1.0 as int) < p.locations@.len()
                &&& p.locations@[e.1.0 as int].kind == LocKind::Field
            } by {
                if i < p.field_loc.entries@.len() - 1 {
                    assert(p.field_loc.entries@[i] == s1.field_loc.entries@[i]);
                }
            }
            assert forall|k: u64| #[trigger] km_lookup(s1.field_loc.entries@, k) is Some implies
                km_lookup(p.field_loc.entries@, k) == km_lookup(s1.field_loc.entries@, k) by {
                assert(k != key);
            }
            lemma_grows_trans(s0, s1, p);
            assert forall|i: int| 0 <= i < p.locations@.len() implies loc_ok(*program, #[trigger] p.locations@[i]) by {
                if i < s0.locations@.len() {
                    assert(p.locations@[i] == s0.locations@[i]);
                }
            }
        }
        loc_id
    }

    /// The summary location of a field location, if it has one.
    pub fn summary_for_field_loc(&self, field_loc: LocId) -> (r: Option<LocId>)
        ensures
            (field_loc.0 as int) < self.field_loc_to_summary@.len() ==> r == self.field_loc_to_summary@[field_loc.0 as int],
            (field_loc.0 as int) >= self.field_loc_to_summary@.len() ==> r is None,
    {
        if (field_loc.0 as usize) < self.field_loc_to_summary.len() {
            self.field_loc_to_summary[field_loc.0 as usize]
        } else {
            None
        }
    }

    /// The field location `parent.field`, if created.
    pub fn field_loc_for_parent(&self, parent_loc: LocId, field: FieldId) -> (r: Option<LocId>)
        ensures
            r == km_lookup(self.field_loc.entries@, field_key(parent_loc, field)),
    {
        self.field_loc.get(pair_key(parent_loc.0, field.0))
    }

    /// The location of field `field` of the object at `parent_loc`, created
    /// on first use: below the nesting cap a location of its own (linked to
    /// the field's summary), at the cap the summary itself. `None` when
    /// the parent's struct type or the field is unknown, or when the graph
    /// has no room left.
    pub fn ensure_field_loc(&mut self, program: &Program, parent_loc: LocId, field: FieldId) -> (r: Option<LocId>)
        requires
            pag_wf(*old(self)),
            program_wf(*program),
            locs_ok(*old(self), *program),
            (parent_loc.0 as int) < old(self).locations@.len(),
        ensures
            pag_wf(*final(self)),
            pag_grows(*old(self), *final(self)),
            locs_ok(*final(self), *program),
            same_flow_tables(*old(self), *final(self)),
            forall|i: int| 0 <= i < final(self).field_depth@.len() ==> #[trigger] final(self).field_depth@[i] <= FIELD_LOC_DEPTH_CAP,
            match r {
                Some(l) => (l.0 as int) < final(self).locations@.len()
                    && (final(self).locations@[l.0 as int].kind == LocKind::Field
                        || final(self).locations@[l.0 as int].kind == LocKind::FieldSummary),
                None => *final(self) == *old(self),
            },
            km_lookup(old(self).field_loc.entries@, field_key(parent_loc, field)) is Some
                ==> r == km_lookup(old(self).field_loc.entries@, field_key(parent_loc, field)) && *final(self) == *old(self),
            km_lookup(old(self).field_loc.entries@, field_key(parent_loc, field)) is None ==>
                match struct_type_for_loc_spec(*old(self), *program, parent_loc) {
                    Some(t) => {
                        let fs = program.types.types@[t].layout.fields@;
                        if (field.0 as int) < fs.len() && has_room(*old(self)) {
                            if old(self).field_depth@[parent_loc.0 as int] >= FIELD_LOC_DEPTH_CAP {
                                &&& r == km_lookup(final(self).field_summary.entries@, summary_key(TypeId(t as u32), field))
                                &&& r is Some
                                &&& final(self).field_loc == old(self).field_loc
                                &&& (km_lookup(old(self).field_summary.entries@, summary_key(TypeId(t as u32), field)) is Some
                                    ==> *final(self) == *old(self))
                                &&& final(self).locations@.len() <= old(self).locations@.len() + 1
                            } else {
                                &&& r == km_lookup(final(self).field_loc.entries@, field_key(parent_loc, field))
                                &&& r is Some
                                &&& final(self).field_loc_to_summary@[(r->0).0 as int]
                                    == km_lookup(final(self).field_summary.entries@, summary_key(TypeId(t as u32), field))
                                &&& final(self).field_depth@[(r->0).0 as int] == old(self).field_depth@[parent_loc.0 as int] + 1
                            }
                        } else {
                            r is None
                        }
                    },
                    None => r is None,
                },
    {
        let key = pair_key(parent_loc.0, field.0);
        if let Some(loc) = self.field_loc.get(key) {
            proof {
                lemma_km_lookup_entry(self.field_loc.entries@, key);
                let i = choose|i: int| 0 <= i < self.field_loc.entries@.len()
                    && (#[trigger] self.field_loc.entries@[i]) == (key, loc);
                assert(self.field_loc.entries@[i] == (key, loc));
            }
            return Some(loc);
        }
        let parent_type = match struct_type_for_loc(self, program, parent_loc) {
            Some(t) => t,
            None => {
                return None;
            },
        };
        let fields = &program.types.get(parent_type).layout.fields;
        if (field.0 as usize) >= fields.len() || !self.room() {
            return None;
        }
        let fl = &fields[field.0 as usize];
        proof {
            assert(table_wf(program.types));
            assert(fl.type_id == program.types.types@[parent_type.0 as int].layout.fields@[field.0 as int].type_id);
        }
        let ghost s0 = *self;
        if self.field_depth[parent_loc.0 as usize] >= FIELD_LOC_DEPTH_CAP {
            let summary = self.ensure_field_summary_loc(program, parent_type, field, fl.type_id, &fl.name);
            return Some(summary);
        }
        let field_loc = self.alloc_field_loc(program, parent_loc, field, fl.type_id, &fl.name);
        let ghost s1 = *self;
        let summary = self.ensure_field_summary_loc(program, parent_type, field, fl.type_id, &fl.name);
        let ghost s2 = *self;
        proof {
            assert(s2.locations@.len() <= s1.locations@.len() + 1);
            assert(s2.field_loc_to_summary@[field_loc.0 as int] is None);
        }
        self.field_loc_to_summary.set(field_loc.0 as usize, Some(summary));
        proof {
            let p = *self;
            assert forall|i: int| 0 <= i < p.locations@.len() && (#[trigger] p.field_loc_to_summary@[i]) is Some implies {
                let s = p.field_loc_to_summary@[i]->0;
                &&& (s.0 as int) < p.locations@.len()
                &&& p.locations@[s.0 as int].kind == LocKind::FieldSummary
            } by {
                if i != field_loc.0 as int {
                    assert(p.field_loc_to_summary@[i] == s2.field_loc_to_summary@[i]);
                }
            }
            assert(pag_grows(s2, p));
            lemma_grows_trans(s0, s1, s2);
            lemma_grows_trans(s0, s2, p);
        }
        Some(field_loc)
    }

    /// The summary location of field `field` of the struct type of `var`
    /// (past pointers and arrays), created on first use. `None` when that
    /// type or field is unknown, or when the graph has no room left.
    pub fn ensure_field_summary_for_var(&mut self, program: &Program, var: VarId, field: FieldId) -> (r: Option<LocId>)
        requires
            pag_wf(*old(self)),
            program_wf(*program),
            locs_ok(*old(self), *program),
        ensures
            pag_wf(*final(self)),
            pag_grows(*old(self), *final(self)),
            locs_ok(*final(self), *program),
            same_flow_tables(*old(self), *final(self)),
            final(self).field_loc == old(self).field_loc,
            match r {
                Some(l) => (l.0 as int) < final(self).locations@.len()
                    && final(self).locations@[l.0 as int].kind == LocKind::FieldSummary,
                None => *final(self) == *old(self),
            },
            ({
                let vars = program.symbols.variables@;
                let types = program.types.types@;
                if (var.0 as int) < vars.len() && has_room(*old(self)) {
                    match struct_from(types, vars[var.0 as int].type_id.0 as int, 6) {
                        Some(t) => if (field.0 as int) < types[t].layout.fields@.len() {
                            r is Some && r == km_lookup(final(self).field_summary.entries@, summary_key(TypeId(t as u32), field))
                        } else {
                            r is None
                        },
                        None => r is None,
                    }
                } else {
                    r is None
                }
            }),
    {
        let v = match program.symbols.variable_by_id(var) {
            Some(v) => v,
            None => {
                proof {
                    if (var.0 as int) < program.symbols.variables@.len() {
                        assert(program.symbols.variables@[var.0 as int].id.0 == var.0);
                    }
                }
                return None;
            },
        };
        if !self.room() {
            return None;
        }
        let st = match struct_type_from_type_id(program, v.type_id) {
            Some(t) => t,
            None => {
                return None;
            },
        };
        let fields = &program.types.get(st).layout.fields;
        if (field.0 as usize) >= fields.len() {
            return None;
        }
        let fl = &fields[field.0 as usize];
        proof { assert(table_wf(program.types)); }
        let summary = self.ensure_field_summary_loc(program, st, field, fl.type_id, &fl.name);
        Some(summary)
    }
}
} // verus!

//! Inclusion-based (Andersen-style) points-to solving over the pointer
//! assignment graph, with on-the-fly call graph construction.

use vstd::prelude::*;
use crate::constraints::{ArgFlowEdge, CallGraphEdge, ConstraintKind, LocKind, ResolutionKind};
use crate::ids::{CallSiteId, FieldId, FnId, LocId, PagNodeId, VarId};
use crate::summaries::apply_call_summary;
use crate::keymap::{km_lookup, lemma_km_lookup_entry};
use crate::pag::{Pag, PagNodeKind, pag_wf, pag_grows, vn, vloc, floc, ctn, has_room, locs_ok, indices_wf, pag_built, is_candidate, idx_complete, indirect_complete, c_key, field_path, loc_ok, is_field_path, lemma_grows_trans, same_flow_tables};
use crate::program::{Program, program_wf};
use crate::symbol::{CallSite, fn_index, lemma_fn_index, name_lookup, scope_pick, lemma_first_in_file_found};

verus! {

/// Options of an analysis run.
#[derive(Debug, Clone, Copy)]
pub struct AnalyzeOptions {
    /// Keep the points-to sets on the result.
    pub retain_points_to: bool,
}

impl Default for AnalyzeOptions {
    fn default() -> (r: AnalyzeOptions)
        ensures
            !r.retain_points_to,
    {
        AnalyzeOptions { retain_points_to: false }
    }
}

/// What an analysis run found.
#[derive(Debug)]
pub struct AnalysisResult {
    /// Points-to sets by node (only when retained; nodes with an empty set
    /// are left out).
    pub points_to: Vec<(PagNodeId, Vec<LocId>)>,
    pub call_edges: Vec<CallGraphEdge>,
    pub arg_flow_edges: Vec<ArgFlowEdge>,
    /// (call site, argument position, callee) of every wired argument.
    pub wired_arg_flow: Vec<(CallSiteId, u32, FnId)>,
}

/// Solver state: points-to sets by node, stored pointer values by
/// location, which nodes point to each location, and the worklist.
pub struct SolverState {
    pub pts: Vec<Vec<LocId>>,
    pub memory_pts: Vec<Vec<LocId>>,
    pub loc_nodes: Vec<Vec<PagNodeId>>,
    pub worklist: Vec<PagNodeId>,
    pub queued: Vec<bool>,
}

/// `l` is in the points-to set of node `n`.
pub open spec fn in_pts(st: SolverState, n: int, l: LocId) -> bool {
    0 <= n < st.pts@.len() && st.pts@[n]@.contains(l)
}

/// `x` is stored at location `l`.
pub open spec fn in_mem(st: SolverState, l: int, x: LocId) -> bool {
    0 <= l < st.memory_pts@.len() && st.memory_pts@[l]@.contains(x)
}

pub open spec fn is_queued(st: SolverState, n: int) -> bool {
    0 <= n < st.queued@.len() && st.queued@[n]
}

/// The state's invariant, for a graph with `nn` nodes and `nl` locations.
pub open spec fn st_wf(st: SolverState, nn: int, nl: int) -> bool {
    &&& nn <= u32::MAX
    &&& st.pts@.len() == nn
    &&& st.queued@.len() == nn
    &&& st.memory_pts@.len() == nl
    &&& st.loc_nodes@.len() == nl
    &&& forall|n: int, j: int| 0 <= n < nn && 0 <= j < st.pts@[n]@.len() ==> ((#[trigger] st.pts@[n]@[j]).0 as int) < nl
    &&& forall|l: int, j: int| 0 <= l < nl && 0 <= j < st.memory_pts@[l]@.len() ==> ((#[trigger] st.memory_pts@[l]@[j]).0 as int) < nl
    &&& forall|l: int, j: int| 0 <= l < nl && 0 <= j < st.loc_nodes@[l]@.len() ==> ((#[trigger] st.loc_nodes@[l]@[j]).0 as int) < nn
    &&& forall|j: int| 0 <= j < st.worklist@.len() ==> ((#[trigger] st.worklist@[j]).0 as int) < nn
    &&& forall|n: int| 0 <= n < nn && #[trigger] st.queued@[n] ==> st.worklist@.contains(PagNodeId(n as u32))
    &&& forall|n: int, l: LocId| #[trigger] in_pts(st, n, l) ==> st.loc_nodes@[l.0 as int]@.contains(PagNodeId(n as u32))
}

/// From `a` to `b`, points-to sets and memory only grew, every node whose
/// set grew is queued, and queued nodes stayed queued.
pub open spec fn st_step(a: SolverState, b: SolverState) -> bool {
    &&& a.pts@.len() <= b.pts@.len()
    &&& a.memory_pts@.len() <= b.memory_pts@.len()
    &&& a.queued@.len() <= b.queued@.len()
    &&& forall|n: int, l: LocId| #[trigger] in_pts(a, n, l) ==> in_pts(b, n, l)
    &&& forall|m: int, x: LocId| #[trigger] in_mem(a, m, x) ==> in_mem(b, m, x)
    &&& forall|n: int, l: LocId| #[trigger] in_pts(b, n, l) && !in_pts(a, n, l) ==> is_queued(b, n)
    &&& forall|n: int| #[trigger] is_queued(a, n) ==> is_queued(b, n)
}

pub proof fn lemma_step_trans(a: SolverState, b: SolverState, c: SolverState)
    requires
        st_step(a, b),
        st_step(b, c),
    ensures
        st_step(a, c),
{
    assert forall|n: int, l: LocId| #[trigger] in_pts(c, n, l) && !in_pts(a, n, l) implies is_queued(c, n) by {
        if in_pts(b, n, l) {
            assert(is_queued(b, n));
        }
    }
    assert forall|n: int, l: LocId| #[trigger] in_pts(a, n, l) implies in_pts(c, n, l) by {
        assert(in_pts(b, n, l));
    }
    assert forall|m: int, x: LocId| #[trigger] in_mem(a, m, x) implies in_mem(c, m, x) by {
        assert(in_mem(b, m, x));
    }
    assert forall|n: int| #[trigger] is_queued(a, n) implies is_queued(c, n) by {
        assert(is_queued(b, n));
    }
}

/// Whether `v` holds `x`.
fn contains_loc(v: &Vec<LocId>, x: LocId) -> (r: bool)
    ensures
        r == v@.contains(x),
{
    let mut i: usize = 0;
    while i < v.len()
        invariant
            i <= v@.len(),
            forall|j: int| 0 <= j < i ==> v@[j] != x,
        decreases v@.len() - i,
    {
        if v[i] == x {
            assert(v@[i as int] == x);
            return true;
        }
        i = i + 1;
    }
    false
}

/// Whether `v` holds `x`.
fn contains_node(v: &Vec<PagNodeId>, x: PagNodeId) -> (r: bool)
    ensures
        r == v@.contains(x),
{
    let mut i: usize = 0;
    while i < v.len()
        invariant
            i <= v@.len(),
            forall|j: int| 0 <= j < i ==> v@[j] != x,
        decreases v@.len() - i,
    {
        if v[i] == x {
            assert(v@[i as int] == x);
            return true;
        }
        i = i + 1;
    }
    false
}

/// Appends `x` to list `n`.
fn push_into<T>(v: &mut Vec<Vec<T>>, n: usize, x: T)
    requires
        n < old(v)@.len(),
    ensures
        final(v)@.len() == old(v)@.len(),
        final(v)@[n as int]@ == old(v)@[n as int]@.push(x),
        forall|j: int| 0 <= j < old(v)@.len() && j != n ==> #[trigger] final(v)@[j] == old(v)@[j],
{
    v[n].push(x);
}

impl SolverState {
    /// An empty state for `nn` nodes and `nl` locations.
    fn new(nn: usize, nl: usize) -> (st: SolverState)
        requires
            nn <= u32::MAX,
        ensures
            st_wf(st, nn as int, nl as int),
            st.worklist@.len() == 0,
            forall|n: int, l: LocId| !(#[trigger] in_pts(st, n, l)),
            forall|m: int, x: LocId| !(#[trigger] in_mem(st, m, x)),
            forall|n: int| !(#[trigger] is_queued(st, n)),
    {
        let mut pts: Vec<Vec<LocId>> = Vec::new();
        let mut queued: Vec<bool> = Vec::new();
        let mut i: usize = 0;
        while i < nn
            invariant
                i <= nn,
                pts@.len() == i,
                queued@.len() == i,
                forall|j: int| 0 <= j < i ==> (#[trigger] pts@[j])@.len() == 0,
                forall|j: int| 0 <= j < i ==> !(#[trigger] queued@[j]),
            decreases nn - i,
        {
            pts.push(Vec::new());
            queued.push(false);
            i = i + 1;
        }
        let mut memory_pts: Vec<Vec<LocId>> = Vec::new();
        let mut loc_nodes: Vec<Vec<PagNodeId>> = Vec::new();
        let mut k: usize = 0;
        while k < nl
            invariant
                k <= nl,
                memory_pts@.len() == k,
                loc_nodes@.len() == k,
                forall|j: int| 0 <= j < k ==> (#[trigger] memory_pts@[j])@.len() == 0,
                forall|j: int| 0 <= j < k ==> (#[trigger] loc_nodes@[j])@.len() == 0,
            decreases nl - k,
        {
            memory_pts.push(Vec::new());
            loc_nodes.push(Vec::new());
            k = k + 1;
        }
        let st = SolverState { pts, memory_pts, loc_nodes, worklist: Vec::new(), queued };
        proof {
            assert forall|n: int, l: LocId| !(#[trigger] in_pts(st, n, l)) by {
                if 0 <= n < st.pts@.len() {
                    assert(st.pts@[n]@.len() == 0);
                }
            }
            assert forall|m: int, x: LocId| !(#[trigger] in_mem(st, m, x)) by {
                if 0 <= m < st.memory_pts@.len() {
                    assert(st.memory_pts@[m]@.len() == 0);
                }
            }
        }
        st
    }

    /// Extends the state to `nn` nodes and `nl` locations.
    fn cover(&mut self, nn: usize, nl: usize)
        requires
            st_wf(*old(self), old(self).pts@.len() as int, old(self).memory_pts@.len() as int),
            old(self).pts@.len() <= nn,
            old(self).memory_pts@.len() <= nl,
            nn <= u32::MAX,
        ensures
            st_wf(*final(self), nn as int, nl as int),
            st_step(*old(self), *final(self)),
            final(self).worklist == old(self).worklist,
            forall|n: int, l: LocId| #[trigger] in_pts(*final(self), n, l) == in_pts(*old(self), n, l),
            forall|m: int, x: LocId| #[trigger] in_mem(*final(self), m, x) == in_mem(*old(self), m, x),
            forall|n: int| #[trigger] is_queued(*final(self), n) == is_queued(*old(self), n),
    {
        let ghost a = *self;
        while self.pts.len() < nn
            invariant
                a.pts@.len() <= self.pts@.len() <= nn,
                self.queued@.len() == self.pts@.len(),
                self.memory_pts == a.memory_pts,
                self.loc_nodes == a.loc_nodes,
                self.worklist == a.worklist,
                forall|j: int| 0 <= j < a.pts@.len() ==> #[trigger] self.pts@[j] == a.pts@[j],
                forall|j: int| 0 <= j < a.pts@.len() ==> #[trigger] self.queued@[j] == a.queued@[j],
                forall|j: int| a.pts@.len() <= j < self.pts@.len() ==> (#[trigger] self.pts@[j])@.len() == 0,
                forall|j: int| a.pts@.len() <= j < self.pts@.len() ==> !(#[trigger] self.queued@[j]),
            decreases nn - self.pts@.len(),
        {
            self.pts.push(Vec::new());
            self.queued.push(false);
        }
        while self.memory_pts.len() < nl
            invariant
                a.memory_pts@.len() <= self.memory_pts@.len() <= nl,
                self.loc_nodes@.len() == self.memory_pts@.len(),
                self.pts@.len() == nn,
                self.queued@.len() == nn,
                forall|j: int| 0 <= j < a.pts@.len() ==> #[trigger] self.pts@[j] == a.pts@[j],
                forall|j: int| 0 <= j < a.pts@.len() ==> #[trigger] self.queued@[j] == a.queued@[j],
                forall|j: int| a.pts@.len() <= j < nn ==> (#[trigger] self.pts@[j])@.len() == 0,
                forall|j: int| a.pts@.len() <= j < nn ==> !(#[trigger] self.queued@[j]),
                self.worklist == a.worklist,
                forall|j: int| 0 <= j < a.memory_pts@.len() ==> #[trigger] self.memory_pts@[j] == a.memory_pts@[j],
                forall|j: int| 0 <= j < a.memory_pts@.len() ==> #[trigger] self.loc_nodes@[j] == a.loc_nodes@[j],
                forall|j: int| a.memory_pts@.len() <= j < self.memory_pts@.len() ==> (#[trigger] self.memory_pts@[j])@.len() == 0,
                forall|j: int| a.memory_pts@.len() <= j < self.memory_pts@.len() ==> (#[trigger] self.loc_nodes@[j])@.len() == 0,
            decreases nl - self.memory_pts@.len(),
        {
            self.memory_pts.push(Vec::new());
            self.loc_nodes.push(Vec::new());
        }
        proof {
            let b = *self;
            assert forall|n: int, l: LocId| #[trigger] in_pts(b, n, l) == in_pts(a, n, l) by {
                if a.pts@.len() <= n < b.pts@.len() {
                    assert(b.pts@[n]@.len() == 0);
                }
            }
            assert forall|m: int, x: LocId| #[trigger] in_mem(b, m, x) == in_mem(a, m, x) by {
                if a.memory_pts@.len() <= m < b.memory_pts@.len() {
                    assert(b.memory_pts@[m]@.len() == 0);
                }
            }
            assert forall|n: int| #[trigger] is_queued(b, n) == is_queued(a, n) by {}
            assert forall|n: int, j: int| 0 <= n < nn && 0 <= j < b.pts@[n]@.len() implies ((#[trigger] b.pts@[n]@[j]).0 as int) < nl by {
                if n >= a.pts@.len() {
                    assert(b.pts@[n]@.len() == 0);
                }
            }
            assert forall|l: int, j: int| 0 <= l < nl && 0 <= j < b.memory_pts@[l]@.len() implies ((#[trigger] b.memory_pts@[l]@[j]).0 as int) < nl by {
                if l >= a.memory_pts@.len() {
                    assert(b.memory_pts@[l]@.len() == 0);
                }
            }
            assert forall|l: int, j: int| 0 <= l < nl && 0 <= j < b.loc_nodes@[l]@.len() implies ((#[trigger] b.loc_nodes@[l]@[j]).0 as int) < nn by {
                if l >= a.memory_pts@.len() {
                    assert(b.loc_nodes@[l]@.len() == 0);
                }
            }
            assert forall|n: int| 0 <= n < nn && #[trigger] b.queued@[n] implies b.worklist@.contains(PagNodeId(n as u32)) by {
                if n >= a.pts@.len() {
                    assert(!b.queued@[n]);
                }
            }
            assert forall|n: int, l: LocId| #[trigger] in_pts(b, n, l) implies b.loc_nodes@[l.0 as int]@.contains(PagNodeId(n as u32)) by {
                assert(in_pts(a, n, l));
            }
        }
    }

    /// Queues `node` unless it is queued.
    fn push(&mut self, node: PagNodeId)
        requires
            st_wf(*old(self), old(self).pts@.len() as int, old(self).memory_pts@.len() as int),
            (node.0 as int) < old(self).pts@.len(),
        ensures
            st_wf(*final(self), old(self).pts@.len() as int, old(self).memory_pts@.len() as int),
            st_step(*old(self), *final(self)),
            is_queued(*final(self), node.0 as int),
            forall|n: int, l: LocId| #[trigger] in_pts(*final(self), n, l) == in_pts(*old(self), n, l),
            forall|m: int, x: LocId| #[trigger] in_mem(*final(self), m, x) == in_mem(*old(self), m, x),
            forall|n: int| n != node.0 ==> #[trigger] is_queued(*final(self), n) == is_queued(*old(self), n),
            final(self).pts == old(self).pts,
            final(self).memory_pts == old(self).memory_pts,
            final(self).loc_nodes == old(self).loc_nodes,
    {
        let ghost a = *self;
        if !self.queued[node.0 as usize] {
            self.queued.set(node.0 as usize, true);
            self.worklist.push(node);
            proof {
                let b = *self;
                assert(b.worklist@[b.worklist@.len() - 1] == node);
                assert forall|n: int| 0 <= n < b.pts@.len() && #[trigger] b.queued@[n] implies b.worklist@.contains(PagNodeId(n as u32)) by {
                    if n != node.0 as int {
                        assert(a.queued@[n]);
                        let w = choose|w: int| 0 <= w < a.worklist@.len() && a.worklist@[w] == PagNodeId(n as u32);
                        assert(b.worklist@[w] == PagNodeId(n as u32));
                    } else {
                        assert(b.worklist@[b.worklist@.len() - 1] == PagNodeId(n as u32));
                    }
                }
                assert forall|j: int| 0 <= j < b.worklist@.len() implies ((#[trigger] b.worklist@[j]).0 as int) < b.pts@.len() by {
                    if j < a.worklist@.len() {
                        assert(b.worklist@[j] == a.worklist@[j]);
                    }
                }
            }
        }
        proof {
            let b = *self;
            assert forall|n: int, l: LocId| #[trigger] in_pts(b, n, l) implies b.loc_nodes@[l.0 as int]@.contains(PagNodeId(n as u32)) by {
                assert(in_pts(a, n, l));
            }
            assert forall|n: int, l: LocId| #[trigger] in_pts(b, n, l) == in_pts(a, n, l) by {}
            assert forall|m: int, x: LocId| #[trigger] in_mem(b, m, x) == in_mem(a, m, x) by {}
        }
    }

    /// Adds `loc` to the points-to set of `node`; queues `node` if it grew.
    fn add_pts(&mut self, node: PagNodeId, loc: LocId)
        requires
            st_wf(*old(self), old(self).pts@.len() as int, old(self).memory_pts@.len() as int),
            (node.0 as int) < old(self).pts@.len(),
            (loc.0 as int) < old(self).memory_pts@.len(),
        ensures
            st_wf(*final(self), old(self).pts@.len() as int, old(self).memory_pts@.len() as int),
            st_step(*old(self), *final(self)),
            in_pts(*final(self), node.0 as int, loc),
            in_pts(*old(self), node.0 as int, loc) ==> *final(self) == *old(self),
            forall|n: int, l: LocId| #[trigger] in_pts(*final(self), n, l) ==> in_pts(*old(self), n, l) || (n == node.0 && l == loc),
            forall|m: int, x: LocId| #[trigger] in_mem(*final(self), m, x) == in_mem(*old(self), m, x),
            final(self).memory_pts == old(self).memory_pts,
    {
        let ghost a = *self;
        if contains_loc(&self.pts[node.0 as usize], loc) {
            return;
        }
        push_into(&mut self.pts, node.0 as usize, loc);
        let ghost a1 = *self;
        if !contains_node(&self.loc_nodes[loc.0 as usize], node) {
            push_into(&mut self.loc_nodes, loc.0 as usize, node);
            proof {
                assert(self.loc_nodes@[loc.0 as int]@[self.loc_nodes@[loc.0 as int]@.len() - 1] == node);
            }
        }
        proof {
            let b = *self;
            assert(b.pts@[node.0 as int]@[b.pts@[node.0 as int]@.len() - 1] == loc);
            assert(b.loc_nodes@[loc.0 as int]@.contains(node));
            assert forall|n: int, l: LocId| #[trigger] in_pts(b, n, l) implies in_pts(a, n, l) || (n == node.0 && l == loc) by {
                if n != node.0 as int {
                    assert(b.pts@[n] == a.pts@[n]);
                } else if l != loc {
                    let j = choose|j: int| 0 <= j < b.pts@[n]@.len() && b.pts@[n]@[j] == l;
                    assert(a.pts@[n]@[j] == l);
                }
            }
            assert forall|n: int, l: LocId| #[trigger] in_pts(a, n, l) implies in_pts(b, n, l) by {
                if n == node.0 as int {
                    let j = choose|j: int| 0 <= j < a.pts@[n]@.len() && a.pts@[n]@[j] == l;
                    assert(b.pts@[n]@[j] == l);
                }
            }
            assert forall|n: int, l: LocId| #[trigger] in_pts(b, n, l) implies b.loc_nodes@[l.0 as int]@.contains(PagNodeId(n as u32)) by {
                if in_pts(a, n, l) {
                    let ln = a.loc_nodes@[l.0 as int]@;
                    assert(ln.contains(PagNodeId(n as u32)));
                    if l != loc {
                        assert(b.loc_nodes@[l.0 as int] == a.loc_nodes@[l.0 as int]);
                    } else {
                        let j = choose|j: int| 0 <= j < ln.len() && ln[j] == PagNodeId(n as u32);
                        assert(b.loc_nodes@[l.0 as int]@[j] == PagNodeId(n as u32));
                    }
                } else {
                    assert(n == node.0 && l == loc);
                }
            }
            assert forall|n: int, j: int| 0 <= n < b.pts@.len() && 0 <= j < b.pts@[n]@.len() implies ((#[trigger] b.pts@[n]@[j]).0 as int) < b.memory_pts@.len() by {
                if n != node.0 as int || j < a.pts@[n]@.len() {
                    assert(b.pts@[n]@[j] == a.pts@[n]@[j]);
                }
            }
            assert forall|l: int, j: int| 0 <= l < b.memory_pts@.len() && 0 <= j < b.loc_nodes@[l]@.len() implies ((#[trigger] b.loc_nodes@[l]@[j]).0 as int) < b.pts@.len() by {
                if l != loc.0 as int || j < a.loc_nodes@[l]@.len() {
                    assert(b.loc_nodes@[l]@[j] == a.loc_nodes@[l]@[j]);
                }
            }
        }
        self.push(node);
        proof {
            assert forall|n: int, l: LocId| #[trigger] in_pts(*self, n, l) && !in_pts(a, n, l) implies is_queued(*self, n) by {
                assert(n == node.0);
            }
        }
    }
}


/// Copy of a list of locations.
fn copy_locs(v: &Vec<LocId>) -> (r: Vec<LocId>)
    ensures
        r@ == v@,
{
    let mut r: Vec<LocId> = Vec::new();
    let mut k: usize = 0;
    while k < v.len()
        invariant
            k <= v@.len(),
            r@ == v@.subrange(0, k as int),
        decreases v@.len() - k,
    {
        r.push(v[k]);
        k = k + 1;
        assert(r@ =~= v@.subrange(0, k as int));
    }
    r
}

/// Copy of a list of nodes.
fn copy_nodes(v: &Vec<PagNodeId>) -> (r: Vec<PagNodeId>)
    ensures
        r@ == v@,
{
    let mut r: Vec<PagNodeId> = Vec::new();
    let mut k: usize = 0;
    while k < v.len()
        invariant
            k <= v@.len(),
            r@ == v@.subrange(0, k as int),
        decreases v@.len() - k,
    {
        r.push(v[k]);
        k = k + 1;
        assert(r@ =~= v@.subrange(0, k as int));
    }
    r
}

impl SolverState {
    /// Adds every location of `locs` to the points-to set of `dst`.
    fn propagate(&mut self, dst: PagNodeId, locs: &Vec<LocId>)
        requires
            st_wf(*old(self), old(self).pts@.len() as int, old(self).memory_pts@.len() as int),
            (dst.0 as int) < old(self).pts@.len(),
            forall|j: int| 0 <= j < locs@.len() ==> ((#[trigger] locs@[j]).0 as int) < old(self).memory_pts@.len(),
        ensures
            st_wf(*final(self), old(self).pts@.len() as int, old(self).memory_pts@.len() as int),
            st_step(*old(self), *final(self)),
            forall|l: LocId| #[trigger] locs@.contains(l) ==> in_pts(*final(self), dst.0 as int, l),
            (forall|l: LocId| #[trigger] locs@.contains(l) ==> in_pts(*old(self), dst.0 as int, l)) ==> *final(self) == *old(self),
            forall|n: int, l: LocId| #[trigger] in_pts(*final(self), n, l) ==> in_pts(*old(self), n, l) || (n == dst.0 && locs@.contains(l)),
            forall|m: int, x: LocId| #[trigger] in_mem(*final(self), m, x) == in_mem(*old(self), m, x),
            final(self).memory_pts == old(self).memory_pts,
    {
        let ghost a = *self;
        let mut k: usize = 0;
        while k < locs.len()
            invariant
                k <= locs@.len(),
                st_wf(*self, a.pts@.len() as int, a.memory_pts@.len() as int),
                st_step(a, *self),
                (dst.0 as int) < a.pts@.len(),
                forall|j: int| 0 <= j < locs@.len() ==> ((#[trigger] locs@[j]).0 as int) < a.memory_pts@.len(),
                forall|j: int| 0 <= j < k ==> in_pts(*self, dst.0 as int, #[trigger] locs@[j]),
                forall|n: int, l: LocId| #[trigger] in_pts(*self, n, l) ==> in_pts(a, n, l) || (n == dst.0 && locs@.contains(l)),
                self.memory_pts == a.memory_pts,
                (forall|l: LocId| #[trigger] locs@.contains(l) ==> in_pts(a, dst.0 as int, l)) ==> *self == a,
            decreases locs@.len() - k,
        {
            let ghost b = *self;
            self.add_pts(dst, locs[k]);
            proof {
                lemma_step_trans(a, b, *self);
                assert forall|j: int| 0 <= j < k + 1 implies in_pts(*self, dst.0 as int, #[trigger] locs@[j]) by {
                    if j < k {
                        assert(in_pts(b, dst.0 as int, locs@[j]));
                    }
                }
                assert forall|n: int, l: LocId| #[trigger] in_pts(*self, n, l) implies in_pts(a, n, l) || (n == dst.0 && locs@.contains(l)) by {
                    if !in_pts(b, n, l) {
                        assert(locs@[k as int] == l);
                    }
                }
            }
            k = k + 1;
        }
        proof {
            assert forall|l: LocId| #[trigger] locs@.contains(l) implies in_pts(*self, dst.0 as int, l) by {
                let j = choose|j: int| 0 <= j < locs@.len() && locs@[j] == l;
                assert(in_pts(*self, dst.0 as int, locs@[j]));
            }
            assert forall|m: int, x: LocId| #[trigger] in_mem(*self, m, x) == in_mem(a, m, x) by {}
        }
    }

    /// The points-to set of `node` (empty beyond the known nodes).
    fn pts_of(&self, node: PagNodeId) -> (r: Vec<LocId>)
        ensures
            forall|l: LocId| #[trigger] r@.contains(l) == in_pts(*self, node.0 as int, l),
            (node.0 as int) < self.pts@.len() ==> r@ == self.pts@[node.0 as int]@,
    {
        if (node.0 as usize) < self.pts.len() {
            copy_locs(&self.pts[node.0 as usize])
        } else {
            Vec::new()
        }
    }

    /// The values stored at `loc` (empty beyond the known locations).
    fn mem_of(&self, loc: LocId) -> (r: Vec<LocId>)
        ensures
            forall|x: LocId| #[trigger] r@.contains(x) == in_mem(*self, loc.0 as int, x),
            (loc.0 as int) < self.memory_pts@.len() ==> r@ == self.memory_pts@[loc.0 as int]@,
    {
        if (loc.0 as usize) < self.memory_pts.len() {
            copy_locs(&self.memory_pts[loc.0 as usize])
        } else {
            Vec::new()
        }
    }

    /// Adds what is stored at `mem_loc` to the points-to set of `dst`.
    fn merge_memory_into(&mut self, dst: PagNodeId, mem_loc: LocId)
        requires
            st_wf(*old(self), old(self).pts@.len() as int, old(self).memory_pts@.len() as int),
            (dst.0 as int) < old(self).pts@.len(),
        ensures
            st_wf(*final(self), old(self).pts@.len() as int, old(self).memory_pts@.len() as int),
            st_step(*old(self), *final(self)),
            forall|x: LocId| #[trigger] in_mem(*old(self), mem_loc.0 as int, x) ==> in_pts(*final(self), dst.0 as int, x),
            (forall|x: LocId| #[trigger] in_mem(*old(self), mem_loc.0 as int, x) ==> in_pts(*old(self), dst.0 as int, x))
                ==> *final(self) == *old(self),
            forall|n: int, l: LocId| #[trigger] in_pts(*final(self), n, l)
                ==> in_pts(*old(self), n, l) || (n == dst.0 && in_mem(*old(self), mem_loc.0 as int, l)),
            forall|m: int, x: LocId| #[trigger] in_mem(*final(self), m, x) == in_mem(*old(self), m, x),
            final(self).memory_pts == old(self).memory_pts,
    {
        let stored = self.mem_of(mem_loc);
        proof {
            if (mem_loc.0 as int) < self.memory_pts@.len() {
                assert forall|j: int| 0 <= j < stored@.len() implies ((#[trigger] stored@[j]).0 as int) < self.memory_pts@.len() by {
                    assert(stored@[j] == self.memory_pts@[mem_loc.0 as int]@[j]);
                    assert(((self.memory_pts@[mem_loc.0 as int]@[j]).0 as int) < self.memory_pts@.len());
                }
            } else {
                assert(stored@.len() == 0) by {
                    if stored@.len() > 0 {
                        assert(stored@.contains(stored@[0]));
                    }
                }
            }
        }
        self.propagate(dst, &stored);
    }

    /// Queues every node whose points-to set holds `loc`.
    fn requeue_loc(&mut self, loc: LocId)
        requires
            st_wf(*old(self), old(self).pts@.len() as int, old(self).memory_pts@.len() as int),
        ensures
            st_wf(*final(self), old(self).pts@.len() as int, old(self).memory_pts@.len() as int),
            st_step(*old(self), *final(self)),
            forall|n: int| #[trigger] in_pts(*old(self), n, loc) ==> is_queued(*final(self), n),
            forall|n: int, l: LocId| #[trigger] in_pts(*final(self), n, l) == in_pts(*old(self), n, l),
            forall|m: int, x: LocId| #[trigger] in_mem(*final(self), m, x) == in_mem(*old(self), m, x),
            final(self).pts == old(self).pts,
            final(self).memory_pts == old(self).memory_pts,
    {
        let ghost a = *self;
        if (loc.0 as usize) >= self.loc_nodes.len() {
            proof {
                assert forall|n: int| #[trigger] in_pts(a, n, loc) implies is_queued(*self, n) by {
                    assert(a.pts@[n]@.contains(loc));
                    let j = choose|j: int| 0 <= j < a.pts@[n]@.len() && a.pts@[n]@[j] == loc;
                    assert(a.pts@[n]@[j] == loc);
                }
            }
            return;
        }
        let nodes = copy_nodes(&self.loc_nodes[loc.0 as usize]);
        let mut k: usize = 0;
        while k < nodes.len()
            invariant
                k <= nodes@.len(),
                nodes@ == a.loc_nodes@[loc.0 as int]@,
                (loc.0 as int) < a.loc_nodes@.len(),
                st_wf(*self, a.pts@.len() as int, a.memory_pts@.len() as int),
                st_step(a, *self),
                st_wf(a, a.pts@.len() as int, a.memory_pts@.len() as int),
                self.pts == a.pts,
                self.memory_pts == a.memory_pts,
                self.loc_nodes == a.loc_nodes,
                forall|j: int| 0 <= j < k ==> is_queued(*self, (#[trigger] nodes@[j]).0 as int),
            decreases nodes@.len() - k,
        {
            let ghost b = *self;
            proof { assert(((nodes@[k as int]).0 as int) < a.pts@.len()); }
            self.push(nodes[k]);
            proof {
                lemma_step_trans(a, b, *self);
                assert forall|j: int| 0 <= j < k + 1 implies is_queued(*self, (#[trigger] nodes@[j]).0 as int) by {
                    if j < k {
                        assert(is_queued(b, nodes@[j].0 as int));
                    }
                }
            }
            k = k + 1;
        }
        proof {
            assert forall|n: int| #[trigger] in_pts(a, n, loc) implies is_queued(*self, n) by {
                assert(a.loc_nodes@[loc.0 as int]@.contains(PagNodeId(n as u32)));
                let j = choose|j: int| 0 <= j < nodes@.len() && nodes@[j] == PagNodeId(n as u32);
                assert(is_queued(*self, nodes@[j].0 as int));
            }
            assert forall|n: int, l: LocId| #[trigger] in_pts(*self, n, l) == in_pts(a, n, l) by {}
            assert forall|m: int, x: LocId| #[trigger] in_mem(*self, m, x) == in_mem(a, m, x) by {}
        }
    }
}

/// The function whose entry location `l` is, if it is one.
pub open spec fn fn_of(pag: Pag, l: LocId) -> Option<FnId> {
    if (l.0 as int) < pag.locations@.len() && pag.locations@[l.0 as int].kind == LocKind::Function {
        pag.locations@[l.0 as int].fn_id
    } else {
        None
    }
}

/// The function whose entry location `loc` is, if it is one.
fn fn_for_loc(pag: &Pag, loc: LocId) -> (r: Option<FnId>)
    ensures
        r == fn_of(*pag, loc),
{
    if (loc.0 as usize) < pag.locations.len() && pag.locations[loc.0 as usize].kind == LocKind::Function {
        pag.locations[loc.0 as usize].fn_id
    } else {
        None
    }
}

/// The own storage location of the variable behind node `n`, if any.
pub open spec fn self_loc(pag: Pag, n: PagNodeId) -> Option<LocId> {
    if (n.0 as int) < pag.nodes@.len() {
        match pag.nodes@[n.0 as int].kind {
            PagNodeKind::Var(v) => vloc(pag, v),
            _ => None,
        }
    } else {
        None
    }
}

/// The summary location linked to field location `l`, if any.
pub open spec fn summary_of(pag: Pag, l: LocId) -> Option<LocId> {
    if (l.0 as int) < pag.field_loc_to_summary@.len() { pag.field_loc_to_summary@[l.0 as int] } else { None }
}

/// Every location whose memory grew from `a` to `b` has had the nodes
/// pointing to it queued.
pub open spec fn mem_requeued(a: SolverState, b: SolverState) -> bool {
    forall|m: int, x: LocId, n: int| #[trigger] in_mem(b, m, x) && !in_mem(a, m, x) && #[trigger] in_pts(b, n, LocId(m as u32))
        ==> is_queued(b, n)
}

/// What `apply_store` of a store `*dst = src` leaves in memory: for each
/// non-function object `o` that `dst` points to, the values of `src` (and
/// `src`'s own storage location) are stored at `o` and at `o`'s summary.
pub open spec fn store_applied(pag: Pag, st: SolverState, dst: PagNodeId, src: PagNodeId) -> bool {
    forall|o: LocId| #[trigger] in_pts(st, dst.0 as int, o) && fn_of(pag, o) is None ==> {
        &&& forall|x: LocId| #[trigger] in_pts(st, src.0 as int, x) ==> in_mem(st, o.0 as int, x)
            && (summary_of(pag, o) matches Some(sm) ==> in_mem(st, sm.0 as int, x))
        &&& (self_loc(pag, src) matches Some(sl) ==> in_mem(st, o.0 as int, sl)
            && (summary_of(pag, o) matches Some(sm) ==> in_mem(st, sm.0 as int, sl)))
    }
}

/// `x` is a value a store from `src` writes: a location `src` points to, or
/// `src`'s own storage.
pub open spec fn stored_from(pag: Pag, st: SolverState, src: PagNodeId, x: LocId) -> bool {
    in_pts(st, src.0 as int, x) || self_loc(pag, src) == Some(x)
}

/// `m` is memory a store through `dst` writes: an object (not a function)
/// that `dst` points to, or that object's field summary.
pub open spec fn stored_into(pag: Pag, st: SolverState, dst: PagNodeId, m: int) -> bool {
    exists|o: LocId| #[trigger] in_pts(st, dst.0 as int, o) && fn_of(pag, o) is None
        && (m == o.0 || (summary_of(pag, o) matches Some(sm) && m == sm.0))
}

/// A store through `dst` of `src` has nothing to do: `dst` points to no
/// object but functions, or `src` gives no value.
pub open spec fn nothing_to_store(pag: Pag, st: SolverState, dst: PagNodeId, src: PagNodeId) -> bool {
    ||| forall|o: LocId| #[trigger] in_pts(st, dst.0 as int, o) ==> fn_of(pag, o) is Some
    ||| (forall|x: LocId| !#[trigger] in_pts(st, src.0 as int, x)) && self_loc(pag, src) is None
}

impl SolverState {
    /// Stores `x` at `loc`; whether it was new.
    fn add_mem(&mut self, loc: LocId, x: LocId) -> (changed: bool)
        requires
            st_wf(*old(self), old(self).pts@.len() as int, old(self).memory_pts@.len() as int),
            (loc.0 as int) < old(self).memory_pts@.len(),
            (x.0 as int) < old(self).memory_pts@.len(),
        ensures
            st_wf(*final(self), old(self).pts@.len() as int, old(self).memory_pts@.len() as int),
            st_step(*old(self), *final(self)),
            in_mem(*final(self), loc.0 as int, x),
            changed == !in_mem(*old(self), loc.0 as int, x),
            forall|m: int, y: LocId| #[trigger] in_mem(*final(self), m, y) ==> in_mem(*old(self), m, y) || (m == loc.0 && y == x),
            final(self).pts == old(self).pts,
            final(self).queued == old(self).queued,
            final(self).worklist == old(self).worklist,
            final(self).loc_nodes == old(self).loc_nodes,
    {
        let ghost a = *self;
        if contains_loc(&self.memory_pts[loc.0 as usize], x) {
            return false;
        }
        push_into(&mut self.memory_pts, loc.0 as usize, x);
        proof {
            let b = *self;
            assert(b.memory_pts@[loc.0 as int]@[b.memory_pts@[loc.0 as int]@.len() - 1] == x);
            assert forall|m: int, y: LocId| #[trigger] in_mem(b, m, y) implies in_mem(a, m, y) || (m == loc.0 && y == x) by {
                if m != loc.0 as int {
                    assert(b.memory_pts@[m] == a.memory_pts@[m]);
                } else if y != x {
                    let j = choose|j: int| 0 <= j < b.memory_pts@[m]@.len() && b.memory_pts@[m]@[j] == y;
                    assert(a.memory_pts@[m]@[j] == y);
                }
            }
            assert forall|m: int, y: LocId| #[trigger] in_mem(a, m, y) implies in_mem(b, m, y) by {
                if m == loc.0 as int {
                    let j = choose|j: int| 0 <= j < a.memory_pts@[m]@.len() && a.memory_pts@[m]@[j] == y;
                    assert(b.memory_pts@[m]@[j] == y);
                }
            }
            assert forall|l: int, j: int| 0 <= l < b.memory_pts@.len() && 0 <= j < b.memory_pts@[l]@.len()
                implies ((#[trigger] b.memory_pts@[l]@[j]).0 as int) < b.memory_pts@.len() by {
                if l != loc.0 as int || j < a.memory_pts@[l]@.len() {
                    assert(b.memory_pts@[l]@[j] == a.memory_pts@[l]@[j]);
                }
            }
            assert forall|n: int, l: LocId| #[trigger] in_pts(b, n, l) implies b.loc_nodes@[l.0 as int]@.contains(PagNodeId(n as u32)) by {
                assert(in_pts(a, n, l));
            }
            assert forall|n: int, l: LocId| #[trigger] in_pts(b, n, l) == in_pts(a, n, l) by {}
            assert forall|n: int| #[trigger] is_queued(b, n) == is_queued(a, n) by {}
        }
        true
    }
}

/// The own storage location of the variable behind node `n`, if any.
fn self_loc_of(pag: &Pag, n: PagNodeId) -> (r: Option<LocId>)
    requires
        pag_wf(*pag),
    ensures
        r == self_loc(*pag, n),
        r matches Some(l) ==> (l.0 as int) < pag.locations@.len(),
{
    if (n.0 as usize) < pag.nodes.len() {
        match pag.nodes[n.0 as usize].kind {
            PagNodeKind::Var(v) => {
                let r = pag.var_location.get(v.0 as u64);
                proof {
                    if let Some(l) = r {
                        lemma_km_lookup_entry(pag.var_location.entries@, v.0 as u64);
                        let i = choose|i: int| 0 <= i < pag.var_location.entries@.len()
                            && (#[trigger] pag.var_location.entries@[i]) == (v.0 as u64, l);
                        assert(pag.var_location.entries@[i] == (v.0 as u64, l));
                    }
                }
                r
            },
            _ => None,
        }
    } else {
        None
    }
}

/// Solver preconditions tying the state to the graph.
pub open spec fn st_fits(st: SolverState, pag: Pag) -> bool {
    &&& pag_wf(pag)
    &&& st_wf(st, pag.nodes@.len() as int, pag.locations@.len() as int)
}

impl SolverState {
    /// Stores the values of `src` (and `src`'s own storage) at `o` and at
    /// `o`'s summary; whether anything was new.
    fn store_into(&mut self, pag: &Pag, o: LocId, src_set: &Vec<LocId>, sl: Option<LocId>, summary: Option<LocId>) -> (changed: bool)
        requires
            st_fits(*old(self), *pag),
            (o.0 as int) < pag.locations@.len(),
            forall|j: int| 0 <= j < src_set@.len() ==> ((#[trigger] src_set@[j]).0 as int) < pag.locations@.len(),
            sl matches Some(l) ==> (l.0 as int) < pag.locations@.len(),
            summary matches Some(l) ==> (l.0 as int) < pag.locations@.len(),
        ensures
            st_fits(*final(self), *pag),
            st_step(*old(self), *final(self)),
            final(self).pts == old(self).pts,
            final(self).queued == old(self).queued,
            final(self).worklist == old(self).worklist,
            forall|x: LocId| #[trigger] src_set@.contains(x) ==> in_mem(*final(self), o.0 as int, x)
                && (summary matches Some(sm) ==> in_mem(*final(self), sm.0 as int, x)),
            sl matches Some(x) ==> in_mem(*final(self), o.0 as int, x)
                && (summary matches Some(sm) ==> in_mem(*final(self), sm.0 as int, x)),
            forall|m: int, x: LocId| #[trigger] in_mem(*final(self), m, x) && !in_mem(*old(self), m, x)
                ==> changed && (m == o.0 || (summary matches Some(sm) && m == sm.0))
                    && (src_set@.contains(x) || sl == Some(x)),
    {
        let ghost a = *self;
        let mut changed = false;
        let mut k: usize = 0;
        while k < src_set.len()
            invariant
                k <= src_set@.len(),
                st_fits(*self, *pag),
                st_step(a, *self),
                self.pts == a.pts,
                self.queued == a.queued,
                self.worklist == a.worklist,
                (o.0 as int) < pag.locations@.len(),
                forall|j: int| 0 <= j < src_set@.len() ==> ((#[trigger] src_set@[j]).0 as int) < pag.locations@.len(),
                summary matches Some(l) ==> (l.0 as int) < pag.locations@.len(),
                forall|j: int| 0 <= j < k ==> in_mem(*self, o.0 as int, #[trigger] src_set@[j])
                    && (summary matches Some(sm) ==> in_mem(*self, sm.0 as int, src_set@[j])),
                forall|m: int, x: LocId| #[trigger] in_mem(*self, m, x) && !in_mem(a, m, x)
                    ==> changed && (m == o.0 || (summary matches Some(sm) && m == sm.0)) && src_set@.contains(x),
            decreases src_set@.len() - k,
        {
            let ghost b = *self;
            let x = src_set[k];
            let c1 = self.add_mem(o, x);
            let ghost b1 = *self;
            proof { lemma_step_trans(a, b, b1); }
            let mut c2 = false;
            if let Some(sm) = summary {
                c2 = self.add_mem(sm, x);
                proof { lemma_step_trans(a, b1, *self); }
            }
            changed = changed || c1 || c2;
            proof {
                assert forall|j: int| 0 <= j < k + 1 implies in_mem(*self, o.0 as int, #[trigger] src_set@[j])
                    && (summary matches Some(sm) ==> in_mem(*self, sm.0 as int, src_set@[j])) by {
                    if j < k {
                        assert(in_mem(b, o.0 as int, src_set@[j]));
                    }
                }
                assert forall|m: int, y: LocId| #[trigger] in_mem(*self, m, y) && !in_mem(a, m, y)
                    implies changed && (m == o.0 || (summary matches Some(sm) && m == sm.0)) && src_set@.contains(y) by {
                    if in_mem(b, m, y) {
                    } else if in_mem(b1, m, y) {
                        assert(y == src_set@[k as int]);
                    } else {
                        assert(y == src_set@[k as int]);
                    }
                }
            }
            k = k + 1;
        }
        if let Some(x) = sl {
            let ghost b = *self;
            let c1 = self.add_mem(o, x);
            let ghost b1 = *self;
            proof { lemma_step_trans(a, b, b1); }
            let mut c2 = false;
            if let Some(sm) = summary {
                c2 = self.add_mem(sm, x);
                proof { lemma_step_trans(a, b1, *self); }
            }
            changed = changed || c1 || c2;
            proof {
                assert forall|j: int| 0 <= j < src_set@.len() implies in_mem(*self, o.0 as int, #[trigger] src_set@[j])
                    && (summary matches Some(sm) ==> in_mem(*self, sm.0 as int, src_set@[j])) by {
                    assert(in_mem(b, o.0 as int, src_set@[j]));
                }
            }
        }
        proof {
            assert forall|x: LocId| #[trigger] src_set@.contains(x) implies in_mem(*self, o.0 as int, x)
                && (summary matches Some(sm) ==> in_mem(*self, sm.0 as int, x)) by {
                let j = choose|j: int| 0 <= j < src_set@.len() && src_set@[j] == x;
                assert(in_mem(*self, o.0 as int, src_set@[j]));
            }
        }
        changed
    }

    /// Applies store constraint `idx` (`*dst = src`) for the objects `dst`
    /// points to, and queues the nodes that point to any object whose
    /// stored values grew.
    fn apply_store(&mut self, pag: &Pag, idx: usize)
        requires
            st_fits(*old(self), *pag),
            idx < pag.constraints@.len(),
        ensures
            st_fits(*final(self), *pag),
            st_step(*old(self), *final(self)),
            forall|n: int, l: LocId| #[trigger] in_pts(*final(self), n, l) == in_pts(*old(self), n, l),
            store_applied(*pag, *final(self), pag.constraints@[idx as int].dst, pag.constraints@[idx as int].src),
            mem_requeued(*old(self), *final(self)),
            forall|m: int, x: LocId| #[trigger] in_mem(*final(self), m, x) && !in_mem(*old(self), m, x)
                ==> stored_from(*pag, *old(self), pag.constraints@[idx as int].src, x)
                    && stored_into(*pag, *old(self), pag.constraints@[idx as int].dst, m),
            nothing_to_store(*pag, *old(self), pag.constraints@[idx as int].dst, pag.constraints@[idx as int].src)
                ==> *final(self) == *old(self),
    {
        let ghost a = *self;
        let c = pag.constraints[idx];
        let dst_pts = self.pts_of(c.dst);
        let src_set = self.pts_of(c.src);
        let sl = self_loc_of(pag, c.src);
        proof {
            assert forall|j: int| 0 <= j < dst_pts@.len() implies ((#[trigger] dst_pts@[j]).0 as int) < pag.locations@.len() by {
                assert(dst_pts@.contains(dst_pts@[j]));
                assert(in_pts(a, c.dst.0 as int, dst_pts@[j]));
                assert(a.pts@[c.dst.0 as int] == a.pts@[c.dst.0 as int]);
                let q = choose|q: int| 0 <= q < a.pts@[c.dst.0 as int]@.len() && a.pts@[c.dst.0 as int]@[q] == dst_pts@[j];
                assert(((a.pts@[c.dst.0 as int]@[q]).0 as int) < pag.locations@.len());
            }
            assert forall|j: int| 0 <= j < src_set@.len() implies ((#[trigger] src_set@[j]).0 as int) < pag.locations@.len() by {
                assert(src_set@.contains(src_set@[j]));
                assert(in_pts(a, c.src.0 as int, src_set@[j]));
                let q = choose|q: int| 0 <= q < a.pts@[c.src.0 as int]@.len() && a.pts@[c.src.0 as int]@[q] == src_set@[j];
                assert(((a.pts@[c.src.0 as int]@[q]).0 as int) < pag.locations@.len());
            }
        }
        let mut requeues: Vec<LocId> = Vec::new();
        let ghost mut called = false;
        let mut k: usize = 0;
        while k < dst_pts.len()
            invariant
                k <= dst_pts@.len(),
                !called ==> *self == a && requeues@.len() == 0,
                called ==> exists|j: int| 0 <= j < k && fn_of(*pag, #[trigger] dst_pts@[j]) is None
                    && (src_set@.len() > 0 || sl is Some),
                forall|m: int, x: LocId| #[trigger] in_mem(*self, m, x) && !in_mem(a, m, x)
                    ==> stored_from(*pag, a, c.src, x) && stored_into(*pag, a, c.dst, m),
                st_fits(*self, *pag),
                st_step(a, *self),
                self.pts == a.pts,
                self.queued == a.queued,
                self.worklist == a.worklist,
                c == pag.constraints@[idx as int],
                forall|l: LocId| #[trigger] dst_pts@.contains(l) == in_pts(a, c.dst.0 as int, l),
                forall|l: LocId| #[trigger] src_set@.contains(l) == in_pts(a, c.src.0 as int, l),
                forall|j: int| 0 <= j < dst_pts@.len() ==> ((#[trigger] dst_pts@[j]).0 as int) < pag.locations@.len(),
                forall|j: int| 0 <= j < src_set@.len() ==> ((#[trigger] src_set@[j]).0 as int) < pag.locations@.len(),
                sl == self_loc(*pag, c.src),
                sl matches Some(l) ==> (l.0 as int) < pag.locations@.len(),
                forall|j: int| 0 <= j < requeues@.len() ==> ((#[trigger] requeues@[j]).0 as int) < pag.locations@.len(),
                forall|j: int| 0 <= j < k && fn_of(*pag, #[trigger] dst_pts@[j]) is None ==> {
                    &&& forall|x: LocId| #[trigger] src_set@.contains(x) ==> in_mem(*self, dst_pts@[j].0 as int, x)
                        && (summary_of(*pag, dst_pts@[j]) matches Some(sm) ==> in_mem(*self, sm.0 as int, x))
                    &&& (sl matches Some(x) ==> in_mem(*self, dst_pts@[j].0 as int, x)
                        && (summary_of(*pag, dst_pts@[j]) matches Some(sm) ==> in_mem(*self, sm.0 as int, x)))
                },
                forall|m: int, x: LocId| #[trigger] in_mem(*self, m, x) && !in_mem(a, m, x) ==> requeues@.contains(LocId(m as u32)),
            decreases dst_pts@.len() - k,
        {
            let o = dst_pts[k];
            if fn_for_loc(pag, o).is_none() && (src_set.len() > 0 || sl.is_some()) {
                let summary = pag.summary_for_field_loc(o);
                proof {
                    if let Some(sm) = summary {
                        assert(pag.field_loc_to_summary@[o.0 as int] is Some);
                    }
                    assert(summary == summary_of(*pag, o));
                }
                let ghost b = *self;
                let changed = self.store_into(pag, o, &src_set, sl, summary);
                proof {
                    lemma_step_trans(a, b, *self);
                    assert(fn_of(*pag, dst_pts@[k as int]) is None);
                    called = true;
                    assert(dst_pts@.contains(o));
                    assert(in_pts(a, c.dst.0 as int, o));
                    assert forall|m: int, x: LocId| #[trigger] in_mem(*self, m, x) && !in_mem(a, m, x)
                        implies stored_from(*pag, a, c.src, x) && stored_into(*pag, a, c.dst, m) by {
                        if !in_mem(b, m, x) {
                            if src_set@.contains(x) {
                                assert(in_pts(a, c.src.0 as int, x));
                            }
                            assert(in_pts(a, c.dst.0 as int, o) && fn_of(*pag, o) is None
                                && (m == o.0 || (summary_of(*pag, o) matches Some(sm) && m == sm.0)));
                        }
                    }
                }
                let ghost rq0 = requeues@;
                if changed {
                    requeues.push(o);
                    assert(requeues@[requeues@.len() - 1] == o);
                    assert(requeues@.contains(o));
                    if let Some(sm) = summary {
                        requeues.push(sm);
                        assert(requeues@[requeues@.len() - 1] == sm);
                        assert(requeues@[requeues@.len() - 2] == o);
                        assert(requeues@.contains(sm));
                        assert(requeues@.contains(o));
                    }
                }
                assert(forall|l: LocId| rq0.contains(l) ==> requeues@.contains(l)) by {
                    assert forall|l: LocId| rq0.contains(l) implies requeues@.contains(l) by {
                        let w = choose|w: int| 0 <= w < rq0.len() && rq0[w] == l;
                        assert(requeues@[w] == l);
                    }
                }
                proof {
                    assert forall|j: int| 0 <= j < requeues@.len() implies ((#[trigger] requeues@[j]).0 as int) < pag.locations@.len() by {}
                    assert forall|m: int, x: LocId| #[trigger] in_mem(*self, m, x) && !in_mem(a, m, x) implies requeues@.contains(LocId(m as u32)) by {
                        if in_mem(b, m, x) {
                            assert(rq0.contains(LocId(m as u32)));
                        } else {
                            if m == o.0 {
                                assert(requeues@.contains(o));
                            } else {
                                let sm = summary->0;
                                assert(requeues@.contains(sm));
                            }
                        }
                    }
                    assert forall|j: int| 0 <= j < k + 1 && fn_of(*pag, #[trigger] dst_pts@[j]) is None implies {
                        &&& forall|x: LocId| #[trigger] src_set@.contains(x) ==> in_mem(*self, dst_pts@[j].0 as int, x)
                            && (summary_of(*pag, dst_pts@[j]) matches Some(sm) ==> in_mem(*self, sm.0 as int, x))
                        &&& (sl matches Some(x) ==> in_mem(*self, dst_pts@[j].0 as int, x)
                            && (summary_of(*pag, dst_pts@[j]) matches Some(sm) ==> in_mem(*self, sm.0 as int, x)))
                    } by {
                        if j < k {
                            assert forall|x: LocId| #[trigger] src_set@.contains(x) implies in_mem(*self, dst_pts@[j].0 as int, x)
                                && (summary_of(*pag, dst_pts@[j]) matches Some(sm) ==> in_mem(*self, sm.0 as int, x)) by {
                                assert(in_mem(b, dst_pts@[j].0 as int, x));
                                if let Some(sm) = summary_of(*pag, dst_pts@[j]) {
                                    assert(in_mem(b, sm.0 as int, x));
                                }
                            }
                            if let Some(x) = sl {
                                assert(in_mem(b, dst_pts@[j].0 as int, x));
                                if let Some(sm) = summary_of(*pag, dst_pts@[j]) {
                                    assert(in_mem(b, sm.0 as int, x));
                                }
                            }
                        }
                    }
                }
            }
            k = k + 1;
        }
        let ghost mid = *self;
        let mut r: usize = 0;
        while r < requeues.len()
            invariant
                r <= requeues@.len(),
                r == 0 ==> *self == mid,
                st_fits(*self, *pag),
                st_step(mid, *self),
                self.pts == mid.pts,
                self.memory_pts == mid.memory_pts,
                forall|j: int| 0 <= j < requeues@.len() ==> ((#[trigger] requeues@[j]).0 as int) < pag.locations@.len(),
                forall|j: int, n: int| 0 <= j < r && #[trigger] in_pts(mid, n, requeues@[j]) ==> is_queued(*self, n),
            decreases requeues@.len() - r,
        {
            let ghost b = *self;
            self.requeue_loc(requeues[r]);
            proof {
                lemma_step_trans(mid, b, *self);
                assert forall|j: int, n: int| 0 <= j < r + 1 && #[trigger] in_pts(mid, n, requeues@[j]) implies is_queued(*self, n) by {
                    if j < r {
                        assert(is_queued(b, n));
                    } else {
                        assert(in_pts(b, n, requeues@[j]));
                    }
                }
            }
            r = r + 1;
        }
        proof {
            lemma_step_trans(a, mid, *self);
            assert forall|n: int, l: LocId| #[trigger] in_pts(*self, n, l) == in_pts(a, n, l) by {}
            assert forall|m: int, x: LocId, n: int| #[trigger] in_mem(*self, m, x) && !in_mem(a, m, x) && #[trigger] in_pts(*self, n, LocId(m as u32))
                implies is_queued(*self, n) by {
                assert(in_mem(mid, m, x));
                assert(requeues@.contains(LocId(m as u32)));
                let j = choose|j: int| 0 <= j < requeues@.len() && requeues@[j] == LocId(m as u32);
                assert(in_pts(mid, n, requeues@[j]));
            }
            assert forall|o: LocId| #[trigger] in_pts(*self, c.dst.0 as int, o) && fn_of(*pag, o) is None implies {
                &&& forall|x: LocId| #[trigger] in_pts(*self, c.src.0 as int, x) ==> in_mem(*self, o.0 as int, x)
                    && (summary_of(*pag, o) matches Some(sm) ==> in_mem(*self, sm.0 as int, x))
                &&& (self_loc(*pag, c.src) matches Some(sl) ==> in_mem(*self, o.0 as int, sl)
                    && (summary_of(*pag, o) matches Some(sm) ==> in_mem(*self, sm.0 as int, sl)))
            } by {
                assert(dst_pts@.contains(o));
                let j = choose|j: int| 0 <= j < dst_pts@.len() && dst_pts@[j] == o;
                assert(fn_of(*pag, dst_pts@[j]) is None);
                assert forall|x: LocId| #[trigger] in_pts(*self, c.src.0 as int, x) implies in_mem(*self, o.0 as int, x)
                    && (summary_of(*pag, o) matches Some(sm) ==> in_mem(*self, sm.0 as int, x)) by {
                    assert(src_set@.contains(x));
                    assert(in_mem(mid, o.0 as int, x));
                    if let Some(sm) = summary_of(*pag, o) {
                        assert(in_mem(mid, sm.0 as int, x));
                    }
                }
                if let Some(x) = sl {
                    assert(in_mem(mid, o.0 as int, x));
                    if let Some(sm) = summary_of(*pag, o) {
                        assert(in_mem(mid, sm.0 as int, x));
                    }
                }
            }
        }
        proof {
            assert forall|m: int, x: LocId| #[trigger] in_mem(*self, m, x) && !in_mem(a, m, x)
                implies stored_from(*pag, a, c.src, x) && stored_into(*pag, a, c.dst, m) by {
                assert(in_mem(mid, m, x));
            }
            if nothing_to_store(*pag, a, c.dst, c.src) && called {
                let j = choose|j: int| 0 <= j < k && fn_of(*pag, #[trigger] dst_pts@[j]) is None
                    && (src_set@.len() > 0 || sl is Some);
                assert(dst_pts@.contains(dst_pts@[j]));
                assert(in_pts(a, c.dst.0 as int, dst_pts@[j]));
                if src_set@.len() > 0 {
                    assert(src_set@.contains(src_set@[0]));
                    assert(in_pts(a, c.src.0 as int, src_set@[0]));
                }
            }
        }
    }
}

/// The first argument at position `idx` of an argument list.
pub open spec fn first_arg<T>(args: Seq<(u32, T)>, idx: u32) -> Option<T>
    decreases args.len(),
{
    if args.len() == 0 {
        None
    } else if args[0].0 == idx {
        Some(args[0].1)
    } else {
        first_arg(args.drop_first(), idx)
    }
}

/// The first variable argument at position `idx`.
fn find_var_arg(args: &Vec<(u32, VarId)>, idx: u32) -> (r: Option<VarId>)
    ensures
        r == first_arg(args@, idx),
        r matches Some(v) ==> args@.contains((idx, v)),
{
    let mut k: usize = 0;
    assert(args@.subrange(0, args@.len() as int) =~= args@);
    while k < args.len()
        invariant
            k <= args@.len(),
            first_arg(args@, idx) == first_arg(args@.subrange(k as int, args@.len() as int), idx),
        decreases args@.len() - k,
    {
        let ghost rest = args@.subrange(k as int, args@.len() as int);
        assert(rest[0] == args@[k as int]);
        if args[k].0 == idx {
            assert(args@.contains(args@[k as int]));
            return Some(args[k].1);
        }
        assert(rest.drop_first() =~= args@.subrange(k + 1, args@.len() as int));
        k = k + 1;
    }
    assert(args@.subrange(k as int, args@.len() as int).len() == 0);
    None
}

/// The first function argument at position `idx`.
fn find_fn_arg(args: &Vec<(u32, FnId)>, idx: u32) -> (r: Option<FnId>)
    ensures
        r == first_arg(args@, idx),
{
    let mut k: usize = 0;
    assert(args@.subrange(0, args@.len() as int) =~= args@);
    while k < args.len()
        invariant
            k <= args@.len(),
            first_arg(args@, idx) == first_arg(args@.subrange(k as int, args@.len() as int), idx),
        decreases args@.len() - k,
    {
        let ghost rest = args@.subrange(k as int, args@.len() as int);
        assert(rest[0] == args@[k as int]);
        if args[k].0 == idx {
            return Some(args[k].1);
        }
        assert(rest.drop_first() =~= args@.subrange(k + 1, args@.len() as int));
        k = k + 1;
    }
    assert(args@.subrange(k as int, args@.len() as int).len() == 0);
    None
}

/// Whether `wired` holds `w`.
fn wired_contains(wired: &Vec<(CallSiteId, u32, FnId)>, w: (CallSiteId, u32, FnId)) -> (r: bool)
    ensures
        r == wired@.contains(w),
{
    let mut k: usize = 0;
    while k < wired.len()
        invariant
            k <= wired@.len(),
            forall|j: int| 0 <= j < k ==> wired@[j] != w,
        decreases wired@.len() - k,
    {
        if wired[k].0 == w.0 && wired[k].1 == w.1 && wired[k].2 == w.2 {
            assert(wired@[k as int] == w);
            return true;
        }
        k = k + 1;
    }
    false
}

/// The parameters of a known function.
pub open spec fn params_of(program: Program, f: FnId) -> Seq<VarId> {
    program.symbols.functions@[fn_index(program.symbols.functions@, f)].params@
}

/// Argument `idx` of `cs` is a variable or a function.
pub open spec fn has_arg(cs: CallSite, idx: u32) -> bool {
    first_arg(cs.var_args@, idx) is Some || first_arg(cs.fn_args@, idx) is Some
}

/// Every variable of the program has its node.
pub open spec fn vars_have_nodes(program: Program, pag: Pag) -> bool {
    forall|i: int| 0 <= i < program.symbols.variables@.len() ==> vn(pag, #[trigger] program.symbols.variables@[i].id) is Some
}

/// The node of a variable of the program.
proof fn lemma_var_node(program: Program, pag: Pag, v: VarId)
    requires
        program_wf(program),
        pag_wf(pag),
        vars_have_nodes(program, pag),
        (v.0 as int) < program.symbols.variables@.len(),
    ensures
        vn(pag, v) is Some,
        ((vn(pag, v)->0).0 as int) < pag.nodes@.len(),
{
    assert(program.symbols.variables@[v.0 as int].id == v);
    assert(vn(pag, program.symbols.variables@[v.0 as int].id) is Some);
    lemma_km_lookup_entry(pag.var_node.entries@, v.0 as u64);
    let i = choose|i: int| 0 <= i < pag.var_node.entries@.len()
        && (#[trigger] pag.var_node.entries@[i]) == (v.0 as u64, vn(pag, v)->0);
    assert(pag.var_node.entries@[i] == (v.0 as u64, vn(pag, v)->0));
}

/// Wiring `cs` to `callee` at position `idx` is done in `st`: the actual
/// variable's values are in the formal's set, or the actual function's
/// location is.
pub open spec fn wired_at(program: Program, pag: Pag, before: SolverState, st: SolverState, cs: CallSite, callee: FnId, idx: int) -> bool {
    let formal = params_of(program, callee)[idx];
    let fnode = vn(pag, formal)->0;
    match first_arg(cs.var_args@, idx as u32) {
        Some(a) => forall|l: LocId| #[trigger] in_pts(before, (vn(pag, a)->0).0 as int, l) ==> in_pts(st, fnode.0 as int, l),
        None => match first_arg(cs.fn_args@, idx as u32) {
            Some(f) => floc(pag, f) matches Some(fl) ==> in_pts(st, fnode.0 as int, fl),
            None => true,
        },
    }
}

/// Wires the arguments of `cs` to the parameters of `callee`: each
/// variable argument's values flow into the parameter, each function
/// argument's location is added to it; each wired position is recorded.
fn wire_params(pag: &Pag, program: &Program, cs: &CallSite, callee: FnId, st: &mut SolverState,
    wired: &mut Vec<(CallSiteId, u32, FnId)>)
    requires
        st_fits(*old(st), *pag),
        program_wf(*program),
        locs_ok(*pag, *program),
        vars_have_nodes(*program, *pag),
        fn_index(program.symbols.functions@, callee) >= 0,
        exists|k: int| 0 <= k < program.symbols.call_sites@.len() && program.symbols.call_sites@[k] == *cs,
    ensures
        st_fits(*final(st), *pag),
        st_step(*old(st), *final(st)),
        forall|m: int, x: LocId| #[trigger] in_mem(*final(st), m, x) == in_mem(*old(st), m, x),
        forall|i: int| 0 <= i < params_of(*program, callee).len() && i <= u32::MAX
            ==> #[trigger] wired_at(*program, *pag, *old(st), *final(st), *cs, callee, i),
        forall|i: int| 0 <= i < params_of(*program, callee).len() && i <= u32::MAX && #[trigger] has_arg(*cs, i as u32)
            ==> final(wired)@.contains((cs.id, i as u32, callee)),
        forall|w: (CallSiteId, u32, FnId)| #[trigger] final(wired)@.contains(w) ==> old(wired)@.contains(w)
            || (w.0 == cs.id && w.2 == callee && (w.1 as int) < params_of(*program, callee).len() && has_arg(*cs, w.1)),
{
    let ghost st0 = *st;
    let ghost w0 = wired@;
    let callee_fn = program.symbols.function(callee);
    let ghost ps = params_of(*program, callee);
    let params = &callee_fn.params;
    proof {
        lemma_fn_index(program.symbols.functions@, callee);
        let k = choose|k: int| 0 <= k < program.symbols.call_sites@.len() && program.symbols.call_sites@[k] == *cs;
        assert(program.symbols.call_sites@[k] == *cs);
    }
    let mut i: usize = 0;
    while i < params.len() && i <= 0xffff_ffff
        invariant
            i <= params@.len(),
            params@ == ps,
            ps == params_of(*program, callee),
            st_fits(*st, *pag),
            st_step(st0, *st),
            program_wf(*program),
            vars_have_nodes(*program, *pag),
            forall|j: int| 0 <= j < ps.len() ==> (#[trigger] ps[j].0 as int) < program.symbols.variables@.len(),
            forall|j: int| 0 <= j < cs.var_args@.len() ==> (#[trigger] cs.var_args@[j].1.0 as int) < program.symbols.variables@.len(),
            forall|m: int, x: LocId| #[trigger] in_mem(*st, m, x) == in_mem(st0, m, x),
            forall|j: int| 0 <= j < i && j <= u32::MAX ==> #[trigger] wired_at(*program, *pag, st0, *st, *cs, callee, j),
            forall|j: int| 0 <= j < i && j <= u32::MAX && #[trigger] has_arg(*cs, j as u32) ==> wired@.contains((cs.id, j as u32, callee)),
            forall|w: (CallSiteId, u32, FnId)| #[trigger] wired@.contains(w) ==> w0.contains(w)
                || (w.0 == cs.id && w.2 == callee && (w.1 as int) < ps.len() && has_arg(*cs, w.1)),
        decreases params@.len() - i,
    {
        let idx = i as u32;
        let formal = params[i];
        let ghost s1 = *st;
        let ghost wv1 = wired@;
        proof { lemma_var_node(*program, *pag, formal); }
        let formal_node = match pag.var_node.get(formal.0 as u64) {
            Some(n) => n,
            None => {
                proof { assert(false); }
                PagNodeId(0)
            },
        };
        let mut did = false;
        match find_var_arg(&cs.var_args, idx) {
            Some(actual) => {
                proof {
                    let q = choose|q: int| 0 <= q < cs.var_args@.len() && cs.var_args@[q] == (idx, actual);
                    assert(cs.var_args@[q].1 == actual);
                    lemma_var_node(*program, *pag, actual);
                }
                let actual_node = match pag.var_node.get(actual.0 as u64) {
                    Some(n) => n,
                    None => {
                        proof { assert(false); }
                        PagNodeId(0)
                    },
                };
                let ap = st.pts_of(actual_node);
                proof {
                    assert forall|j: int| 0 <= j < ap@.len() implies ((#[trigger] ap@[j]).0 as int) < st.memory_pts@.len() by {
                        assert(ap@[j] == st.pts@[actual_node.0 as int]@[j]);
                        assert(((st.pts@[actual_node.0 as int]@[j]).0 as int) < st.memory_pts@.len());
                    }
                }
                st.propagate(formal_node, &ap);
                did = true;
            },
            None => {
                match find_fn_arg(&cs.fn_args, idx) {
                    Some(f) => {
                        if let Some(fl) = pag.fn_locations.get(f.0 as u64) {
                            proof {
                                lemma_km_lookup_entry(pag.fn_locations.entries@, f.0 as u64);
                                let q = choose|q: int| 0 <= q < pag.fn_locations.entries@.len()
                                    && (#[trigger] pag.fn_locations.entries@[q]) == (f.0 as u64, fl);
                                assert(pag.fn_locations.entries@[q] == (f.0 as u64, fl));
                            }
                            st.add_pts(formal_node, fl);
                        }
                        did = true;
                    },
                    None => {},
                }
            },
        }
        if did {
            let w = (cs.id, idx, callee);
            if !wired_contains(wired, w) {
                wired.push(w);
            }
            proof {
                assert(wired@.contains(w)) by {
                    if !wv1.contains(w) {
                        assert(wired@[wired@.len() - 1] == w);
                    }
                }
            }
        }
        proof {
            lemma_step_trans(st0, s1, *st);
            assert(has_arg(*cs, idx) == did);
            assert forall|w: (CallSiteId, u32, FnId)| #[trigger] wired@.contains(w) implies w0.contains(w)
                || (w.0 == cs.id && w.2 == callee && (w.1 as int) < ps.len() && has_arg(*cs, w.1)) by {
                if wv1.contains(w) {
                } else {
                    assert(w == (cs.id, idx, callee)) by {
                        if w != (cs.id, idx, callee) {
                            let q = choose|q: int| 0 <= q < wired@.len() && wired@[q] == w;
                            assert(wv1[q] == w);
                        }
                    }
                }
            }
            assert forall|j: int| 0 <= j < i + 1 && j <= u32::MAX && #[trigger] has_arg(*cs, j as u32)
                implies wired@.contains((cs.id, j as u32, callee)) by {
                if j < i {
                    let w = (cs.id, j as u32, callee);
                    assert(wv1.contains(w));
                    let q = choose|q: int| 0 <= q < wv1.len() && wv1[q] == w;
                    assert(wired@[q] == w);
                }
            }
            assert forall|j: int| 0 <= j < i + 1 && j <= u32::MAX implies #[trigger] wired_at(*program, *pag, st0, *st, *cs, callee, j) by {
                if j < i {
                    assert(wired_at(*program, *pag, st0, s1, *cs, callee, j));
                    let formal_j = ps[j];
                    let fnode_j = vn(*pag, formal_j)->0;
                    match first_arg(cs.var_args@, j as u32) {
                        Some(a) => {
                            assert forall|l: LocId| #[trigger] in_pts(st0, (vn(*pag, a)->0).0 as int, l) implies in_pts(*st, fnode_j.0 as int, l) by {
                                assert(in_pts(s1, fnode_j.0 as int, l));
                            }
                        },
                        None => {
                            if let Some(f) = first_arg(cs.fn_args@, j as u32) {
                                if let Some(fl) = floc(*pag, f) {
                                    assert(in_pts(s1, fnode_j.0 as int, fl));
                                }
                            }
                        },
                    }
                } else {
                    match first_arg(cs.var_args@, idx) {
                        Some(a) => {
                            assert forall|l: LocId| #[trigger] in_pts(st0, (vn(*pag, a)->0).0 as int, l) implies in_pts(*st, formal_node.0 as int, l) by {
                                assert(in_pts(s1, (vn(*pag, a)->0).0 as int, l));
                            }
                        },
                        None => {},
                    }
                }
            }
        }
        i = i + 1;
    }
}

/// List `n` of an index (empty beyond it).
pub open spec fn ix_list(idx: Seq<Vec<usize>>, n: int) -> Seq<usize> {
    if 0 <= n < idx.len() { idx[n]@ } else { Seq::empty() }
}

/// A copy of list `n` of an index.
fn index_list(idx: &Vec<Vec<usize>>, n: PagNodeId) -> (r: Vec<usize>)
    ensures
        r@ == ix_list(idx@, n.0 as int),
{
    if (n.0 as usize) < idx.len() {
        let src = &idx[n.0 as usize];
        let mut r: Vec<usize> = Vec::new();
        let mut k: usize = 0;
        while k < src.len()
            invariant
                k <= src@.len(),
                r@ == src@.subrange(0, k as int),
            decreases src@.len() - k,
        {
            r.push(src[k]);
            k = k + 1;
            assert(r@ =~= src@.subrange(0, k as int));
        }
        assert(r@ =~= src@);
        r
    } else {
        Vec::new()
    }
}

/// Locations in a points-to set of `st` are locations of the graph.
proof fn lemma_pts_bound(st: SolverState, pag: Pag, n: int, l: LocId)
    requires
        st_fits(st, pag),
        in_pts(st, n, l),
    ensures
        (l.0 as int) < pag.locations@.len(),
{
    let j = choose|j: int| 0 <= j < st.pts@[n]@.len() && st.pts@[n]@[j] == l;
    assert(((st.pts@[n]@[j]).0 as int) < pag.locations@.len());
}

/// A copy of a points-to set, whose locations are locations of the graph.
fn pts_list(st: &SolverState, pag: &Pag, node: PagNodeId) -> (r: Vec<LocId>)
    requires
        st_fits(*st, *pag),
    ensures
        forall|l: LocId| #[trigger] r@.contains(l) == in_pts(*st, node.0 as int, l),
        forall|j: int| 0 <= j < r@.len() ==> ((#[trigger] r@[j]).0 as int) < pag.locations@.len(),
{
    let r = st.pts_of(node);
    proof {
        assert forall|j: int| 0 <= j < r@.len() implies ((#[trigger] r@[j]).0 as int) < pag.locations@.len() by {
            assert(r@.contains(r@[j]));
            lemma_pts_bound(*st, *pag, node.0 as int, r@[j]);
        }
    }
    r
}

/// Positions listed in an index are constraints of the graph.
proof fn lemma_ix_bound(pag: Pag, idx: Seq<Vec<usize>>, kind: ConstraintKind, by_dst: bool, n: int, j: int)
    requires
        idx_complete(pag.constraints@, idx, kind, by_dst),
        0 <= j < ix_list(idx, n).len(),
    ensures
        (ix_list(idx, n)[j] as int) < pag.constraints@.len(),
        pag.constraints@[ix_list(idx, n)[j] as int].kind == kind,
        c_key(pag.constraints@[ix_list(idx, n)[j] as int], by_dst) == n,
{
    assert(idx[n]@[j] == ix_list(idx, n)[j]);
}

/// Copy constraints of `node`: everything `node` points to flows to each
/// destination.
fn process_copy(pag: &Pag, st: &mut SolverState, node: PagNodeId)
    requires
        st_fits(*old(st), *pag),
        idx_complete(pag.constraints@, pag.indices.copy_src@, ConstraintKind::Copy, false),
    ensures
        st_fits(*final(st), *pag),
        st_step(*old(st), *final(st)),
        forall|m: int, x: LocId| #[trigger] in_mem(*final(st), m, x) == in_mem(*old(st), m, x),
        forall|j: int, l: LocId| 0 <= j < ix_list(pag.indices.copy_src@, node.0 as int).len()
            && #[trigger] in_pts(*old(st), node.0 as int, l)
            ==> in_pts(*final(st), pag.constraints@[#[trigger] ix_list(pag.indices.copy_src@, node.0 as int)[j] as int].dst.0 as int, l),
{
    let ghost a = *st;
    let idxs = index_list(&pag.indices.copy_src, node);
    let node_pts = pts_list(st, pag, node);
    let mut k: usize = 0;
    while k < idxs.len()
        invariant
            k <= idxs@.len(),
            idxs@ == ix_list(pag.indices.copy_src@, node.0 as int),
            idx_complete(pag.constraints@, pag.indices.copy_src@, ConstraintKind::Copy, false),
            st_fits(*st, *pag),
            st_step(a, *st),
            forall|m: int, x: LocId| #[trigger] in_mem(*st, m, x) == in_mem(a, m, x),
            forall|l: LocId| #[trigger] node_pts@.contains(l) == in_pts(a, node.0 as int, l),
            forall|j: int| 0 <= j < node_pts@.len() ==> ((#[trigger] node_pts@[j]).0 as int) < pag.locations@.len(),
            forall|j: int, l: LocId| 0 <= j < k && #[trigger] in_pts(a, node.0 as int, l)
                ==> in_pts(*st, pag.constraints@[#[trigger] idxs@[j] as int].dst.0 as int, l),
        decreases idxs@.len() - k,
    {
        proof { lemma_ix_bound(*pag, pag.indices.copy_src@, ConstraintKind::Copy, false, node.0 as int, k as int); }
        let dst = pag.constraints[idxs[k]].dst;
        let ghost b = *st;
        st.propagate(dst, &node_pts);
        proof {
            lemma_step_trans(a, b, *st);
            assert forall|j: int, l: LocId| 0 <= j < k + 1 && #[trigger] in_pts(a, node.0 as int, l)
                implies in_pts(*st, pag.constraints@[#[trigger] idxs@[j] as int].dst.0 as int, l) by {
                if j < k {
                    assert(in_pts(b, pag.constraints@[idxs@[j] as int].dst.0 as int, l));
                } else {
                    assert(node_pts@.contains(l));
                }
            }
        }
        k = k + 1;
    }
}

/// Address-of constraints into `node`: each named location is in `node`'s
/// set.
fn process_addr(pag: &Pag, st: &mut SolverState, node: PagNodeId)
    requires
        st_fits(*old(st), *pag),
        idx_complete(pag.constraints@, pag.indices.addr_of_dst@, ConstraintKind::AddrOf, true),
    ensures
        st_fits(*final(st), *pag),
        st_step(*old(st), *final(st)),
        forall|m: int, x: LocId| #[trigger] in_mem(*final(st), m, x) == in_mem(*old(st), m, x),
        forall|n: int, l: LocId| #[trigger] in_pts(*final(st), n, l) && !in_pts(*old(st), n, l) ==> n == node.0,
        forall|j: int| 0 <= j < ix_list(pag.indices.addr_of_dst@, node.0 as int).len() ==>
            (pag.nodes@[pag.constraints@[#[trigger] ix_list(pag.indices.addr_of_dst@, node.0 as int)[j] as int].src.0 as int].kind
                matches PagNodeKind::Loc(l) ==> in_pts(*final(st), node.0 as int, l)),
{
    let ghost a = *st;
    let idxs = index_list(&pag.indices.addr_of_dst, node);
    let mut k: usize = 0;
    while k < idxs.len()
        invariant
            k <= idxs@.len(),
            idxs@ == ix_list(pag.indices.addr_of_dst@, node.0 as int),
            idx_complete(pag.constraints@, pag.indices.addr_of_dst@, ConstraintKind::AddrOf, true),
            st_fits(*st, *pag),
            st_step(a, *st),
            forall|m: int, x: LocId| #[trigger] in_mem(*st, m, x) == in_mem(a, m, x),
            forall|n: int, l: LocId| #[trigger] in_pts(*st, n, l) && !in_pts(a, n, l) ==> n == node.0,
            forall|j: int| 0 <= j < k ==>
                (pag.nodes@[pag.constraints@[#[trigger] idxs@[j] as int].src.0 as int].kind
                    matches PagNodeKind::Loc(l) ==> in_pts(*st, node.0 as int, l)),
        decreases idxs@.len() - k,
    {
        proof { lemma_ix_bound(*pag, pag.indices.addr_of_dst@, ConstraintKind::AddrOf, true, node.0 as int, k as int); }
        let c = pag.constraints[idxs[k]];
        let ghost b = *st;
        if let PagNodeKind::Loc(loc) = pag.nodes[c.src.0 as usize].kind {
            st.add_pts(node, loc);
        }
        proof {
            lemma_step_trans(a, b, *st);
            assert forall|j: int| 0 <= j < k + 1 implies
                (pag.nodes@[pag.constraints@[#[trigger] idxs@[j] as int].src.0 as int].kind
                    matches PagNodeKind::Loc(l) ==> in_pts(*st, node.0 as int, l)) by {
                if j < k {
                    if let PagNodeKind::Loc(l) = pag.nodes@[pag.constraints@[idxs@[j] as int].src.0 as int].kind {
                        assert(in_pts(b, node.0 as int, l));
                    }
                }
            }
        }
        k = k + 1;
    }
}

/// Load constraints from `node`: for each object `node` points to, a
/// function location flows to the destination as is, any other object's
/// stored values do.
fn process_load(pag: &Pag, st: &mut SolverState, node: PagNodeId)
    requires
        st_fits(*old(st), *pag),
        idx_complete(pag.constraints@, pag.indices.load_src@, ConstraintKind::Load, false),
    ensures
        st_fits(*final(st), *pag),
        st_step(*old(st), *final(st)),
        forall|m: int, x: LocId| #[trigger] in_mem(*final(st), m, x) == in_mem(*old(st), m, x),
        forall|j: int, o: LocId| 0 <= j < ix_list(pag.indices.load_src@, node.0 as int).len()
            && #[trigger] in_pts(*old(st), node.0 as int, o) ==> {
                let d = pag.constraints@[#[trigger] ix_list(pag.indices.load_src@, node.0 as int)[j] as int].dst.0 as int;
                &&& (fn_of(*pag, o) is Some ==> in_pts(*final(st), d, o))
                &&& (fn_of(*pag, o) is None ==> forall|x: LocId| #[trigger] in_mem(*old(st), o.0 as int, x) ==> in_pts(*final(st), d, x))
            },
{
    let ghost a = *st;
    let idxs = index_list(&pag.indices.load_src, node);
    let node_pts = pts_list(st, pag, node);
    let mut k: usize = 0;
    while k < idxs.len()
        invariant
            k <= idxs@.len(),
            idxs@ == ix_list(pag.indices.load_src@, node.0 as int),
            idx_complete(pag.constraints@, pag.indices.load_src@, ConstraintKind::Load, false),
            st_fits(*st, *pag),
            st_step(a, *st),
            forall|m: int, x: LocId| #[trigger] in_mem(*st, m, x) == in_mem(a, m, x),
            forall|l: LocId| #[trigger] node_pts@.contains(l) == in_pts(a, node.0 as int, l),
            forall|j: int| 0 <= j < node_pts@.len() ==> ((#[trigger] node_pts@[j]).0 as int) < pag.locations@.len(),
            forall|j: int, o: LocId| 0 <= j < k && #[trigger] in_pts(a, node.0 as int, o) ==> {
                let d = pag.constraints@[#[trigger] idxs@[j] as int].dst.0 as int;
                &&& (fn_of(*pag, o) is Some ==> in_pts(*st, d, o))
                &&& (fn_of(*pag, o) is None ==> forall|x: LocId| #[trigger] in_mem(a, o.0 as int, x) ==> in_pts(*st, d, x))
            },
        decreases idxs@.len() - k,
    {
        proof { lemma_ix_bound(*pag, pag.indices.load_src@, ConstraintKind::Load, false, node.0 as int, k as int); }
        let dst = pag.constraints[idxs[k]].dst;
        let ghost b = *st;
        let mut q: usize = 0;
        while q < node_pts.len()
            invariant
                q <= node_pts@.len(),
                st_fits(*st, *pag),
                st_step(b, *st),
                st_step(a, b),
                (dst.0 as int) < pag.nodes@.len(),
                forall|m: int, x: LocId| #[trigger] in_mem(*st, m, x) == in_mem(a, m, x),
                forall|j: int| 0 <= j < node_pts@.len() ==> ((#[trigger] node_pts@[j]).0 as int) < pag.locations@.len(),
                forall|j: int| 0 <= j < q ==> {
                    let o = #[trigger] node_pts@[j];
                    &&& (fn_of(*pag, o) is Some ==> in_pts(*st, dst.0 as int, o))
                    &&& (fn_of(*pag, o) is None ==> forall|x: LocId| #[trigger] in_mem(a, o.0 as int, x) ==> in_pts(*st, dst.0 as int, x))
                },
            decreases node_pts@.len() - q,
        {
            let o = node_pts[q];
            let ghost c0 = *st;
            if fn_for_loc(pag, o).is_some() {
                st.add_pts(dst, o);
            } else {
                st.merge_memory_into(dst, o);
            }
            proof {
                lemma_step_trans(b, c0, *st);
                assert forall|j: int| 0 <= j < q + 1 implies {
                    let o2 = #[trigger] node_pts@[j];
                    &&& (fn_of(*pag, o2) is Some ==> in_pts(*st, dst.0 as int, o2))
                    &&& (fn_of(*pag, o2) is None ==> forall|x: LocId| #[trigger] in_mem(a, o2.0 as int, x) ==> in_pts(*st, dst.0 as int, x))
                } by {
                    let o2 = node_pts@[j];
                    if j < q {
                        if fn_of(*pag, o2) is Some {
                            assert(in_pts(c0, dst.0 as int, o2));
                        } else {
                            assert forall|x: LocId| #[trigger] in_mem(a, o2.0 as int, x) implies in_pts(*st, dst.0 as int, x) by {
                                assert(in_pts(c0, dst.0 as int, x));
                            }
                        }
                    } else {
                        if fn_of(*pag, o2) is None {
                            assert forall|x: LocId| #[trigger] in_mem(a, o2.0 as int, x) implies in_pts(*st, dst.0 as int, x) by {
                                assert(in_mem(c0, o2.0 as int, x));
                            }
                        }
                    }
                }
            }
            q = q + 1;
        }
        proof {
            lemma_step_trans(a, b, *st);
            assert forall|j: int, o: LocId| 0 <= j < k + 1 && #[trigger] in_pts(a, node.0 as int, o) implies {
                let d = pag.constraints@[#[trigger] idxs@[j] as int].dst.0 as int;
                &&& (fn_of(*pag, o) is Some ==> in_pts(*st, d, o))
                &&& (fn_of(*pag, o) is None ==> forall|x: LocId| #[trigger] in_mem(a, o.0 as int, x) ==> in_pts(*st, d, x))
            } by {
                let d = pag.constraints@[idxs@[j] as int].dst.0 as int;
                if j < k {
                    if fn_of(*pag, o) is Some {
                        assert(in_pts(b, d, o));
                    } else {
                        assert forall|x: LocId| #[trigger] in_mem(a, o.0 as int, x) implies in_pts(*st, d, x) by {
                            assert(in_pts(b, d, x));
                        }
                    }
                } else {
                    assert(node_pts@.contains(o));
                    let w = choose|w: int| 0 <= w < node_pts@.len() && node_pts@[w] == o;
                    assert(node_pts@[w] == o);
                }
            }
        }
        k = k + 1;
    }
}

/// A call site recoverable as a direct call by name: lowering recorded no
/// callee variable and the callee text is a plain identifier.
pub open spec fn direct_by_name_spec(cs: CallSite) -> bool {
    cs.callee_var is None && !is_field_path(cs.callee_name@)
}

/// Whether `cs` is a direct call recoverable by name: lowering recorded no
/// callee variable and the callee text is a plain identifier (cross-unit
/// calls are of this kind, since lowering marks them indirect only because
/// the definition was not visible in the unit).
pub fn direct_by_name(cs: &CallSite) -> (r: bool)
    ensures
        r == direct_by_name_spec(*cs),
{
    cs.callee_var.is_none() && !field_path(cs.callee_name.as_str())
}

/// Edge `e` is justified: its call site exists and is its caller's; a
/// direct edge goes to a function the callee name may denote from the
/// site's file (for a direct site, or one recoverable by name); an
/// indirect edge goes to a function whose location the site's target node
/// points to.
pub open spec fn edge_sound(program: Program, pag: Pag, st: SolverState, e: CallGraphEdge) -> bool {
    let sites = program.symbols.call_sites@;
    let cs = sites[e.call_site.0 as int];
    &&& (e.call_site.0 as int) < sites.len()
    &&& e.caller == cs.caller
    &&& fn_index(program.symbols.functions@, e.callee) >= 0
    &&& match e.resolution {
        ResolutionKind::Direct => direct_ok(program, cs, e.callee),
        ResolutionKind::Indirect => !cs.is_direct && ctn(pag, cs.id) is Some
            && exists|l: LocId| #[trigger] in_pts(st, (ctn(pag, cs.id)->0).0 as int, l) && fn_of(pag, l) == Some(e.callee),
        _ => false,
    }
}

/// `g` is what the call at `cs` denotes by name: for a call lowering saw
/// as direct, the function in scope; for one recovered by name, any
/// function the name may denote from the call's file.
pub open spec fn direct_ok(program: Program, cs: CallSite, g: FnId) -> bool {
    &&& is_candidate(program.symbols, cs.callee_name@, Some(cs.span.file), g)
    &&& if cs.is_direct {
        scope_pick(program.symbols.functions@, program.symbols.fn_by_name@, cs.callee_name@, Some(cs.span.file)) == Some(g)
    } else {
        direct_by_name_spec(cs)
    }
}

/// No call site has two direct edges to the same callee.
pub open spec fn direct_unique(edges: Seq<CallGraphEdge>) -> bool {
    forall|i: int, j: int| 0 <= i < j < edges.len() && (#[trigger] edges[i]).resolution == ResolutionKind::Direct
        && (#[trigger] edges[j]).resolution == ResolutionKind::Direct && edges[i].call_site == edges[j].call_site
        ==> edges[i].callee != edges[j].callee
}

/// The indirect edges of the call site at position `k`.
pub open spec fn has_indirect(edges: Seq<CallGraphEdge>, k: int, f: FnId) -> bool {
    exists|i: int| 0 <= i < edges.len() && (#[trigger] edges[i]).resolution == ResolutionKind::Indirect
        && edges[i].call_site.0 == k && edges[i].callee == f
}

/// Invariant of the call graph under construction.
pub open spec fn edges_ok(program: Program, pag: Pag, st: SolverState, edges: Seq<CallGraphEdge>,
    resolved: Seq<Vec<FnId>>, wired: Seq<(CallSiteId, u32, FnId)>) -> bool {
    let sites = program.symbols.call_sites@;
    &&& forall|i: int| 0 <= i < edges.len() ==> edge_sound(program, pag, st, #[trigger] edges[i])
    &&& forall|i: int, j: int| 0 <= i < j < edges.len() && (#[trigger] edges[i]).resolution == ResolutionKind::Indirect
        && (#[trigger] edges[j]).resolution == ResolutionKind::Indirect && edges[i].call_site == edges[j].call_site
        ==> edges[i].callee != edges[j].callee
    &&& direct_unique(edges)
    &&& resolved.len() == sites.len()
    &&& forall|i: int| 0 <= i < edges.len() && (#[trigger] edges[i]).resolution == ResolutionKind::Indirect
        ==> resolved[edges[i].call_site.0 as int]@.contains(edges[i].callee)
    &&& forall|k: int, f: FnId| 0 <= k < resolved.len() && #[trigger] resolved[k]@.contains(f) ==> has_indirect(edges, k, f)
    &&& forall|w: (CallSiteId, u32, FnId)| #[trigger] wired.contains(w) ==> {
        &&& (w.0.0 as int) < sites.len()
        &&& exists|i: int| 0 <= i < edges.len() && (#[trigger] edges[i]).call_site == w.0 && edges[i].callee == w.2
        &&& fn_index(program.symbols.functions@, w.2) >= 0
        &&& (w.1 as int) < params_of(program, w.2).len()
        &&& has_arg(sites[w.0.0 as int], w.1)
    }
}

/// Edge soundness survives solver steps and graph growth.
proof fn lemma_edge_sound_step(program: Program, pa: Pag, pb: Pag, a: SolverState, b: SolverState, e: CallGraphEdge)
    requires
        pag_grows(pa, pb),
        same_flow_tables(pa, pb),
        st_step(a, b),
        edge_sound(program, pa, a, e),
    ensures
        edge_sound(program, pb, b, e),
{
    if e.resolution == ResolutionKind::Indirect {
        let cs = program.symbols.call_sites@[e.call_site.0 as int];
        let t = (ctn(pa, cs.id)->0).0 as int;
        let l = choose|l: LocId| #[trigger] in_pts(a, t, l) && fn_of(pa, l) == Some(e.callee);
        assert(in_pts(b, t, l));
        assert(pb.locations@[l.0 as int] == pa.locations@[l.0 as int]);
        assert(fn_of(pb, l) == Some(e.callee));
    }
}

proof fn lemma_edges_ok_step(program: Program, pa: Pag, pb: Pag, a: SolverState, b: SolverState,
    edges: Seq<CallGraphEdge>, resolved: Seq<Vec<FnId>>, wired: Seq<(CallSiteId, u32, FnId)>)
    requires
        pag_grows(pa, pb),
        same_flow_tables(pa, pb),
        st_step(a, b),
        edges_ok(program, pa, a, edges, resolved, wired),
    ensures
        edges_ok(program, pb, b, edges, resolved, wired),
{
    assert forall|i: int| 0 <= i < edges.len() implies edge_sound(program, pb, b, #[trigger] edges[i]) by {
        lemma_edge_sound_step(program, pa, pb, a, b, edges[i]);
    }
}

/// Whether `node` points anywhere or is a variable with its own storage.
fn has_values_or_self_loc(pag: &Pag, st: &SolverState, node: PagNodeId) -> (r: bool)
    requires
        pag_wf(*pag),
    ensures
        r == ((exists|l: LocId| #[trigger] in_pts(*st, node.0 as int, l)) || self_loc(*pag, node) is Some),
{
    if (node.0 as usize) < st.pts.len() && st.pts[node.0 as usize].len() > 0 {
        proof { assert(in_pts(*st, node.0 as int, st.pts@[node.0 as int]@[0])); }
        return true;
    }
    proof {
        assert forall|l: LocId| !(#[trigger] in_pts(*st, node.0 as int, l)) by {}
    }
    self_loc_of(pag, node).is_some()
}

/// Store constraints of `node` (as destination, and as source when it has
/// anything to store).
fn process_store(pag: &Pag, st: &mut SolverState, node: PagNodeId)
    requires
        st_fits(*old(st), *pag),
        idx_complete(pag.constraints@, pag.indices.store_dst@, ConstraintKind::Store, true),
        idx_complete(pag.constraints@, pag.indices.store_src@, ConstraintKind::Store, false),
    ensures
        st_fits(*final(st), *pag),
        st_step(*old(st), *final(st)),
        forall|n: int, l: LocId| #[trigger] in_pts(*final(st), n, l) == in_pts(*old(st), n, l),
        mem_requeued(*old(st), *final(st)),
        forall|j: int| 0 <= j < ix_list(pag.indices.store_dst@, node.0 as int).len() ==> {
            let c = pag.constraints@[#[trigger] ix_list(pag.indices.store_dst@, node.0 as int)[j] as int];
            store_applied(*pag, *final(st), c.dst, c.src)
        },
        forall|j: int| 0 <= j < ix_list(pag.indices.store_src@, node.0 as int).len() ==> {
            let c = pag.constraints@[#[trigger] ix_list(pag.indices.store_src@, node.0 as int)[j] as int];
            store_applied(*pag, *final(st), c.dst, c.src)
        },
{
    let ghost a = *st;
    let d_idxs = index_list(&pag.indices.store_dst, node);
    let mut k: usize = 0;
    while k < d_idxs.len()
        invariant
            k <= d_idxs@.len(),
            d_idxs@ == ix_list(pag.indices.store_dst@, node.0 as int),
            idx_complete(pag.constraints@, pag.indices.store_dst@, ConstraintKind::Store, true),
            st_fits(*st, *pag),
            st_step(a, *st),
            forall|n: int, l: LocId| #[trigger] in_pts(*st, n, l) == in_pts(a, n, l),
            mem_requeued(a, *st),
            forall|j: int| 0 <= j < k ==> {
                let c = pag.constraints@[#[trigger] d_idxs@[j] as int];
                store_applied(*pag, *st, c.dst, c.src)
            },
        decreases d_idxs@.len() - k,
    {
        proof { lemma_ix_bound(*pag, pag.indices.store_dst@, ConstraintKind::Store, true, node.0 as int, k as int); }
        let ghost b = *st;
        st.apply_store(pag, d_idxs[k]);
        proof {
            lemma_step_trans(a, b, *st);
            lemma_mem_requeued_trans(a, b, *st);
            assert forall|j: int| 0 <= j < k + 1 implies {
                let c = pag.constraints@[#[trigger] d_idxs@[j] as int];
                store_applied(*pag, *st, c.dst, c.src)
            } by {
                if j < k {
                    let c = pag.constraints@[d_idxs@[j] as int];
                    lemma_store_applied_grows(*pag, b, *st, c.dst, c.src);
                }
            }
        }
        k = k + 1;
    }
    let ghost mid = *st;
    let s_idxs = index_list(&pag.indices.store_src, node);
    let active = has_values_or_self_loc(pag, st, node);
    let mut k2: usize = 0;
    while k2 < s_idxs.len()
        invariant
            k2 <= s_idxs@.len(),
            s_idxs@ == ix_list(pag.indices.store_src@, node.0 as int),
            d_idxs@ == ix_list(pag.indices.store_dst@, node.0 as int),
            idx_complete(pag.constraints@, pag.indices.store_src@, ConstraintKind::Store, false),
            active == ((exists|l: LocId| #[trigger] in_pts(mid, node.0 as int, l)) || self_loc(*pag, node) is Some),
            st_fits(*st, *pag),
            st_step(a, *st),
            st_step(mid, *st),
            forall|n: int, l: LocId| #[trigger] in_pts(*st, n, l) == in_pts(a, n, l),
            forall|n: int, l: LocId| #[trigger] in_pts(mid, n, l) == in_pts(a, n, l),
            mem_requeued(a, *st),
            forall|j: int| 0 <= j < d_idxs@.len() ==> {
                let c = pag.constraints@[#[trigger] d_idxs@[j] as int];
                store_applied(*pag, *st, c.dst, c.src)
            },
            forall|j: int| 0 <= j < k2 ==> {
                let c = pag.constraints@[#[trigger] s_idxs@[j] as int];
                store_applied(*pag, *st, c.dst, c.src)
            },
        decreases s_idxs@.len() - k2,
    {
        proof { lemma_ix_bound(*pag, pag.indices.store_src@, ConstraintKind::Store, false, node.0 as int, k2 as int); }
        let ghost b = *st;
        if active {
            st.apply_store(pag, s_idxs[k2]);
            proof {
                lemma_step_trans(a, b, *st);
                lemma_step_trans(mid, b, *st);
                lemma_mem_requeued_trans(a, b, *st);
            }
        } else {
            proof {
                let c = pag.constraints@[s_idxs@[k2 as int] as int];
                assert(c.src == node);
                assert forall|o: LocId| #[trigger] in_pts(*st, c.dst.0 as int, o) && fn_of(*pag, o) is None implies {
                    &&& forall|x: LocId| #[trigger] in_pts(*st, c.src.0 as int, x) ==> in_mem(*st, o.0 as int, x)
                        && (summary_of(*pag, o) matches Some(sm) ==> in_mem(*st, sm.0 as int, x))
                    &&& (self_loc(*pag, c.src) matches Some(sl) ==> in_mem(*st, o.0 as int, sl)
                        && (summary_of(*pag, o) matches Some(sm) ==> in_mem(*st, sm.0 as int, sl)))
                } by {
                    assert forall|x: LocId| #[trigger] in_pts(*st, c.src.0 as int, x) implies in_mem(*st, o.0 as int, x) by {
                        assert(in_pts(mid, node.0 as int, x));
                    }
                }
            }
        }
        proof {
            assert forall|j: int| 0 <= j < d_idxs@.len() implies {
                let c = pag.constraints@[#[trigger] d_idxs@[j] as int];
                store_applied(*pag, *st, c.dst, c.src)
            } by {
                let c = pag.constraints@[d_idxs@[j] as int];
                lemma_store_applied_grows(*pag, b, *st, c.dst, c.src);
            }
            assert forall|j: int| 0 <= j < k2 + 1 implies {
                let c = pag.constraints@[#[trigger] s_idxs@[j] as int];
                store_applied(*pag, *st, c.dst, c.src)
            } by {
                if j < k2 {
                    let c = pag.constraints@[s_idxs@[j] as int];
                    lemma_store_applied_grows(*pag, b, *st, c.dst, c.src);
                }
            }
        }
        k2 = k2 + 1;
    }
}

/// Stored values only grow while points-to sets stay.
proof fn lemma_store_applied_grows(pag: Pag, a: SolverState, b: SolverState, dst: PagNodeId, src: PagNodeId)
    requires
        st_step(a, b),
        forall|n: int, l: LocId| #[trigger] in_pts(b, n, l) == in_pts(a, n, l),
        store_applied(pag, a, dst, src),
    ensures
        store_applied(pag, b, dst, src),
{
    assert forall|o: LocId| #[trigger] in_pts(b, dst.0 as int, o) && fn_of(pag, o) is None implies {
        &&& forall|x: LocId| #[trigger] in_pts(b, src.0 as int, x) ==> in_mem(b, o.0 as int, x)
            && (summary_of(pag, o) matches Some(sm) ==> in_mem(b, sm.0 as int, x))
        &&& (self_loc(pag, src) matches Some(sl) ==> in_mem(b, o.0 as int, sl)
            && (summary_of(pag, o) matches Some(sm) ==> in_mem(b, sm.0 as int, sl)))
    } by {
        assert(in_pts(a, dst.0 as int, o));
        assert forall|x: LocId| #[trigger] in_pts(b, src.0 as int, x) implies in_mem(b, o.0 as int, x)
            && (summary_of(pag, o) matches Some(sm) ==> in_mem(b, sm.0 as int, x)) by {
            assert(in_pts(a, src.0 as int, x));
            assert(in_mem(a, o.0 as int, x));
            if let Some(sm) = summary_of(pag, o) {
                assert(in_mem(a, sm.0 as int, x));
            }
        }
        if let Some(sl) = self_loc(pag, src) {
            assert(in_mem(a, o.0 as int, sl));
            if let Some(sm) = summary_of(pag, o) {
                assert(in_mem(a, sm.0 as int, sl));
            }
        }
    }
}

/// Requeueing on memory growth composes.
proof fn lemma_mem_requeued_trans(a: SolverState, b: SolverState, c: SolverState)
    requires
        st_step(a, b),
        st_step(b, c),
        forall|n: int, l: LocId| #[trigger] in_pts(c, n, l) == in_pts(b, n, l),
        forall|n: int, l: LocId| #[trigger] in_pts(b, n, l) == in_pts(a, n, l),
        mem_requeued(a, b),
        mem_requeued(b, c),
    ensures
        mem_requeued(a, c),
{
    assert forall|m: int, x: LocId, n: int| #[trigger] in_mem(c, m, x) && !in_mem(a, m, x) && #[trigger] in_pts(c, n, LocId(m as u32))
        implies is_queued(c, n) by {
        if in_mem(b, m, x) {
            assert(in_pts(b, n, LocId(m as u32)));
            assert(is_queued(b, n));
        }
    }
}

/// The function locations parked in array variable `owner`, in order.
fn array_members_of(pag: &Pag, owner: VarId) -> (r: Vec<LocId>)
    requires
        pag_wf(*pag),
    ensures
        forall|j: int| 0 <= j < r@.len() ==> ((#[trigger] r@[j]).0 as int) < pag.locations@.len(),
        r@ == members_of(pag.array_fn_members@, owner),
{
    let mut r: Vec<LocId> = Vec::new();
    let mut k: usize = 0;
    while k < pag.array_fn_members.len()
        invariant
            k <= pag.array_fn_members@.len(),
            pag_wf(*pag),
            forall|j: int| 0 <= j < r@.len() ==> ((#[trigger] r@[j]).0 as int) < pag.locations@.len(),
            r@ == members_of(pag.array_fn_members@.subrange(0, k as int), owner),
        decreases pag.array_fn_members@.len() - k,
    {
        let e = pag.array_fn_members[k];
        proof {
            assert(pag.array_fn_members@.subrange(0, k + 1).drop_last() =~= pag.array_fn_members@.subrange(0, k as int));
        }
        if e.0 == owner {
            proof { assert(pag.array_fn_members@[k as int] == e); }
            r.push(e.1);
        }
        k = k + 1;
    }
    proof { assert(pag.array_fn_members@.subrange(0, k as int) =~= pag.array_fn_members@); }
    r
}

/// The locations recorded for `owner` among `members`, in order.
pub open spec fn members_of(members: Seq<(VarId, LocId)>, owner: VarId) -> Seq<LocId>
    decreases members.len(),
{
    if members.len() == 0 {
        seq![]
    } else if members.last().0 == owner {
        members_of(members.drop_last(), owner).push(members.last().1)
    } else {
        members_of(members.drop_last(), owner)
    }
}

/// Preconditions of the solver steps that change the graph.
pub open spec fn step_ready(pag: Pag, program: Program, st: SolverState) -> bool {
    &&& st_fits(st, pag)
    &&& program_wf(program)
    &&& locs_ok(pag, program)
}

/// What the field projection `dst = &src->field` adds for object `loc`
/// of `src`: function locations pass as is; otherwise the field's
/// location (and its summary) and their stored values, and the functions
/// parked in the object's array variable.
fn gep_object(pag: &mut Pag, program: &Program, st: &mut SolverState, dst: PagNodeId, loc: LocId, field: FieldId)
    requires
        step_ready(*old(pag), *program, *old(st)),
        (dst.0 as int) < old(pag).nodes@.len(),
        (loc.0 as int) < old(pag).locations@.len(),
    ensures
        step_ready(*final(pag), *program, *final(st)),
        pag_grows(*old(pag), *final(pag)),
        same_flow_tables(*old(pag), *final(pag)),
        st_step(*old(st), *final(st)),
        forall|m: int, x: LocId| #[trigger] in_mem(*final(st), m, x) == in_mem(*old(st), m, x),
        fn_of(*old(pag), loc) is Some ==> in_pts(*final(st), dst.0 as int, loc),
{
    let ghost p0 = *pag;
    let ghost s0 = *st;
    if fn_for_loc(pag, loc).is_some() {
        st.add_pts(dst, loc);
        return;
    }
    let r = pag.ensure_field_loc(program, loc, field);
    if let Some(field_loc) = r {
        let ghost p1 = *pag;
        st.cover(pag.nodes.len(), pag.locations.len());
        let ghost s1 = *st;
        let summary = pag.summary_for_field_loc(field_loc);
        let mut targets: Vec<LocId> = Vec::new();
        targets.push(field_loc);
        if let Some(sm) = summary {
            proof { assert(pag.field_loc_to_summary@[field_loc.0 as int] is Some); }
            targets.push(sm);
        }
        proof {
            assert forall|j: int| 0 <= j < targets@.len() implies ((#[trigger] targets@[j]).0 as int) < st.memory_pts@.len() by {}
        }
        st.propagate(dst, &targets);
        let ghost s2 = *st;
        let mut q: usize = 0;
        while q < targets.len()
            invariant
                q <= targets@.len(),
                st_fits(*st, *pag),
                st_step(s2, *st),
                (dst.0 as int) < pag.nodes@.len(),
                forall|m: int, x: LocId| #[trigger] in_mem(*st, m, x) == in_mem(s0, m, x),
            decreases targets@.len() - q,
        {
            let ghost b = *st;
            st.merge_memory_into(dst, targets[q]);
            proof { lemma_step_trans(s2, b, *st); }
            q = q + 1;
        }
        if let Some(owner) = pag.locations[loc.0 as usize].var {
            let members = array_members_of(pag, owner);
            let ghost s3 = *st;
            let mut q2: usize = 0;
            while q2 < members.len()
                invariant
                    q2 <= members@.len(),
                    st_fits(*st, *pag),
                    st_step(s3, *st),
                    (dst.0 as int) < pag.nodes@.len(),
                    forall|j: int| 0 <= j < members@.len() ==> ((#[trigger] members@[j]).0 as int) < pag.locations@.len(),
                    forall|m: int, x: LocId| #[trigger] in_mem(*st, m, x) == in_mem(s0, m, x),
                decreases members@.len() - q2,
            {
                let ghost b = *st;
                st.add_pts(dst, members[q2]);
                proof { lemma_step_trans(s3, b, *st); }
                q2 = q2 + 1;
            }
            proof { lemma_step_trans(s2, s3, *st); }
        }
        proof {
            lemma_step_trans(s0, s1, s2);
            lemma_step_trans(s0, s2, *st);
        }
    }
}

/// For the first `count` field projections from `node` (in index order):
/// every function location `node` pointed to before flows to the
/// projection's destination.
pub open spec fn gep_fns_passed(p0: Pag, s0: SolverState, s1: SolverState, node: int, count: int) -> bool {
    forall|kk: int, l: LocId| 0 <= kk < count
        && p0.constraints@[ix_list(p0.indices.gep_src@, node)[kk] as int].field is Some
        && in_pts(s0, node, l) && fn_of(p0, l) is Some
        ==> #[trigger] in_pts(s1, p0.constraints@[ix_list(p0.indices.gep_src@, node)[kk] as int].dst.0 as int, l)
}

/// Points-to facts only grow, so what was passed stays passed.
proof fn lemma_passed_mono(p0: Pag, s0: SolverState, s1: SolverState, s2: SolverState, node: int, count: int)
    requires
        gep_fns_passed(p0, s0, s1, node, count),
        st_step(s1, s2),
    ensures
        gep_fns_passed(p0, s0, s2, node, count),
{
    assert forall|kk: int, l: LocId| 0 <= kk < count
        && p0.constraints@[ix_list(p0.indices.gep_src@, node)[kk] as int].field is Some
        && in_pts(s0, node, l) && fn_of(p0, l) is Some
        implies #[trigger] in_pts(s2, p0.constraints@[ix_list(p0.indices.gep_src@, node)[kk] as int].dst.0 as int, l) by {
        assert(in_pts(s1, p0.constraints@[ix_list(p0.indices.gep_src@, node)[kk] as int].dst.0 as int, l));
    }
}

/// Field projections from `node`: for each object it points to, the
/// field's locations flow to the destination; with nothing to point to, a
/// variable's field summary does.
fn process_gep(pag: &mut Pag, program: &Program, st: &mut SolverState, node: PagNodeId)
    requires
        step_ready(*old(pag), *program, *old(st)),
        idx_complete(old(pag).constraints@, old(pag).indices.gep_src@, ConstraintKind::Gep, false),
    ensures
        step_ready(*final(pag), *program, *final(st)),
        pag_grows(*old(pag), *final(pag)),
        same_flow_tables(*old(pag), *final(pag)),
        st_step(*old(st), *final(st)),
        forall|m: int, x: LocId| #[trigger] in_mem(*final(st), m, x) == in_mem(*old(st), m, x),
        gep_fns_passed(*old(pag), *old(st), *final(st), node.0 as int, ix_list(old(pag).indices.gep_src@, node.0 as int).len() as int),
{
    let ghost p0 = *pag;
    let ghost s0 = *st;
    let idxs = index_list(&pag.indices.gep_src, node);
    let node_pts = pts_list(st, pag, node);
    let mut k: usize = 0;
    while k < idxs.len()
        invariant
            k <= idxs@.len(),
            idxs@ == ix_list(p0.indices.gep_src@, node.0 as int),
            idx_complete(p0.constraints@, p0.indices.gep_src@, ConstraintKind::Gep, false),
            step_ready(*pag, *program, *st),
            pag_grows(p0, *pag),
            same_flow_tables(p0, *pag),
            st_step(s0, *st),
            forall|m: int, x: LocId| #[trigger] in_mem(*st, m, x) == in_mem(s0, m, x),
            forall|j: int| 0 <= j < node_pts@.len() ==> ((#[trigger] node_pts@[j]).0 as int) < p0.locations@.len(),
            forall|l: LocId| #[trigger] node_pts@.contains(l) == in_pts(s0, node.0 as int, l),
            gep_fns_passed(p0, s0, *st, node.0 as int, k as int),
        decreases idxs@.len() - k,
    {
        proof { lemma_ix_bound(p0, p0.indices.gep_src@, ConstraintKind::Gep, false, node.0 as int, k as int); }
        let c = pag.constraints[idxs[k]];
        let dst = c.dst;
        let src = c.src;
        let ghost pk = *pag;
        let ghost sk = *st;
        if let Some(field) = c.field {
            if node_pts.len() > 0 {
                let mut q: usize = 0;
                while q < node_pts.len()
                    invariant
                        q <= node_pts@.len(),
                        step_ready(*pag, *program, *st),
                        pag_grows(pk, *pag),
                        same_flow_tables(pk, *pag),
                        pag_grows(p0, pk),
                        same_flow_tables(p0, pk),
                        st_step(sk, *st),
                        (dst.0 as int) < pk.nodes@.len(),
                        forall|m: int, x: LocId| #[trigger] in_mem(*st, m, x) == in_mem(s0, m, x),
                        forall|j: int| 0 <= j < node_pts@.len() ==> ((#[trigger] node_pts@[j]).0 as int) < p0.locations@.len(),
                        gep_fns_passed(p0, s0, *st, node.0 as int, k as int),
                        st_step(s0, *st),
                        forall|j: int| 0 <= j < q && fn_of(p0, node_pts@[j]) is Some
                            ==> in_pts(*st, dst.0 as int, #[trigger] node_pts@[j]),
                    decreases node_pts@.len() - q,
                {
                    let ghost pq = *pag;
                    let ghost sq = *st;
                    gep_object(pag, program, st, dst, node_pts[q], field);
                    proof {
                        lemma_grows_trans(pk, pq, *pag);
                        lemma_step_trans(sk, sq, *st);
                        lemma_step_trans(s0, sq, *st);
                        lemma_passed_mono(p0, s0, sq, *st, node.0 as int, k as int);
                        assert(fn_of(pq, node_pts@[q as int]) == fn_of(p0, node_pts@[q as int]));
                    }
                    q = q + 1;
                }
                proof {
                    assert forall|l: LocId| in_pts(s0, node.0 as int, l) && fn_of(p0, l) is Some
                        implies #[trigger] in_pts(*st, dst.0 as int, l) by {
                        assert(node_pts@.contains(l));
                        let j = choose|j: int| 0 <= j < node_pts@.len() && node_pts@[j] == l;
                    }
                }
            } else {
                proof {
                    assert forall|l: LocId| in_pts(s0, node.0 as int, l) && fn_of(p0, l) is Some
                        implies #[trigger] in_pts(sk, dst.0 as int, l) by {
                        assert(node_pts@.contains(l));
                    }
                }
                if let PagNodeKind::Var(base_var) = pag.nodes[src.0 as usize].kind {
                    let r = pag.ensure_field_summary_for_var(program, base_var, field);
                    if let Some(summary) = r {
                        st.cover(pag.nodes.len(), pag.locations.len());
                        let ghost s1 = *st;
                        let mut targets: Vec<LocId> = Vec::new();
                        targets.push(summary);
                        proof {
                            assert forall|j: int| 0 <= j < targets@.len() implies ((#[trigger] targets@[j]).0 as int) < st.memory_pts@.len() by {}
                        }
                        st.propagate(dst, &targets);
                        let ghost s2 = *st;
                        st.merge_memory_into(dst, summary);
                        proof {
                            lemma_step_trans(sk, s1, s2);
                            lemma_step_trans(sk, s2, *st);
                        }
                    }
                }
            }
        }
        proof {
            lemma_grows_trans(p0, pk, *pag);
            lemma_step_trans(s0, sk, *st);
            lemma_passed_mono(p0, s0, sk, *st, node.0 as int, k as int);
            if c.field is Some {
                assert forall|l: LocId| in_pts(s0, node.0 as int, l) && fn_of(p0, l) is Some
                    implies #[trigger] in_pts(*st, dst.0 as int, l) by {
                    if node_pts@.len() == 0 {
                        assert(node_pts@.contains(l));
                    }
                }
            }
            assert(p0.constraints@[idxs@[k as int] as int] == c);
            assert forall|kk: int, l: LocId| 0 <= kk < k + 1
                && p0.constraints@[ix_list(p0.indices.gep_src@, node.0 as int)[kk] as int].field is Some
                && in_pts(s0, node.0 as int, l) && fn_of(p0, l) is Some
                implies #[trigger] in_pts(*st, p0.constraints@[ix_list(p0.indices.gep_src@, node.0 as int)[kk] as int].dst.0 as int, l) by {
                if kk == k {
                    assert(in_pts(*st, dst.0 as int, l));
                }
            }
        }
        k = k + 1;
    }
}

/// List `n` of the indirect-call index (empty beyond it).
pub open spec fn cs_list(idx: Seq<Vec<CallSiteId>>, n: int) -> Seq<CallSiteId> {
    if 0 <= n < idx.len() { idx[n]@ } else { Seq::empty() }
}

/// A copy of list `n` of the indirect-call index.
fn site_list(idx: &Vec<Vec<CallSiteId>>, n: PagNodeId) -> (r: Vec<CallSiteId>)
    ensures
        r@ == cs_list(idx@, n.0 as int),
{
    if (n.0 as usize) < idx.len() {
        let src = &idx[n.0 as usize];
        let mut r: Vec<CallSiteId> = Vec::new();
        let mut k: usize = 0;
        while k < src.len()
            invariant
                k <= src@.len(),
                r@ == src@.subrange(0, k as int),
            decreases src@.len() - k,
        {
            r.push(src[k]);
            k = k + 1;
            assert(r@ =~= src@.subrange(0, k as int));
        }
        assert(r@ =~= src@);
        r
    } else {
        Vec::new()
    }
}

/// Whether `v` holds `f`.
fn contains_fn(v: &Vec<FnId>, f: FnId) -> (r: bool)
    ensures
        r == v@.contains(f),
{
    crate::symbol::fn_ids_contain(v, f)
}

/// The indirect edge of call site `cs` to `f`.
pub open spec fn ind_edge(program: Program, cs: CallSiteId, f: FnId) -> CallGraphEdge {
    CallGraphEdge {
        call_site: cs,
        caller: program.symbols.call_sites@[cs.0 as int].caller,
        callee: f,
        resolution: ResolutionKind::Indirect,
    }
}

/// Every function `node` points to is an indirect callee of each call site
/// whose target `node` is.
pub open spec fn indirect_done(program: Program, pag: Pag, st: SolverState, edges: Seq<CallGraphEdge>, node: int) -> bool {
    forall|j: int, l: LocId| 0 <= j < cs_list(pag.indices.indirect_by_target@, node).len()
        && #[trigger] in_pts(st, node, l) && fn_of(pag, l) is Some
        ==> edges.contains(ind_edge(program, #[trigger] cs_list(pag.indices.indirect_by_target@, node)[j], fn_of(pag, l)->0))
}

/// The functions `node` points to become indirect callees of each call
/// site whose target `node` is (each site and callee once), with the
/// arguments wired to the parameters.
fn process_indirect(pag: &Pag, program: &Program, st: &mut SolverState, node: PagNodeId,
    edges: &mut Vec<CallGraphEdge>, resolved: &mut Vec<Vec<FnId>>, wired: &mut Vec<(CallSiteId, u32, FnId)>)
    requires
        step_ready(*pag, *program, *old(st)),
        vars_have_nodes(*program, *pag),
        indirect_complete(*program, *pag, pag.indices.indirect_by_target@),
        edges_ok(*program, *pag, *old(st), old(edges)@, old(resolved)@, old(wired)@),
    ensures
        step_ready(*pag, *program, *final(st)),
        st_step(*old(st), *final(st)),
        forall|m: int, x: LocId| #[trigger] in_mem(*final(st), m, x) == in_mem(*old(st), m, x),
        edges_ok(*program, *pag, *final(st), final(edges)@, final(resolved)@, final(wired)@),
        forall|i: int| 0 <= i < old(edges)@.len() ==> #[trigger] final(edges)@[i] == old(edges)@[i],
        old(edges)@.len() <= final(edges)@.len(),
        forall|i: int| old(edges)@.len() <= i < final(edges)@.len() ==> (#[trigger] final(edges)@[i]).resolution == ResolutionKind::Indirect,
        indirect_done(*program, *pag, *old(st), final(edges)@, node.0 as int),
{
    let ghost s0 = *st;
    let ghost e0 = edges@;
    let sites = site_list(&pag.indices.indirect_by_target, node);
    let target_pts = pts_list(st, pag, node);
    if target_pts.len() == 0 {
        proof {
            assert forall|j: int, l: LocId| 0 <= j < cs_list(pag.indices.indirect_by_target@, node.0 as int).len()
                && #[trigger] in_pts(s0, node.0 as int, l) && fn_of(*pag, l) is Some
                implies edges@.contains(ind_edge(*program, #[trigger] cs_list(pag.indices.indirect_by_target@, node.0 as int)[j], fn_of(*pag, l)->0)) by {
                assert(target_pts@.contains(l));
            }
        }
        return;
    }
    let mut k: usize = 0;
    while k < sites.len()
        invariant
            k <= sites@.len(),
            sites@ == cs_list(pag.indices.indirect_by_target@, node.0 as int),
            indirect_complete(*program, *pag, pag.indices.indirect_by_target@),
            step_ready(*pag, *program, *st),
            vars_have_nodes(*program, *pag),
            st_step(s0, *st),
            forall|m: int, x: LocId| #[trigger] in_mem(*st, m, x) == in_mem(s0, m, x),
            forall|l: LocId| #[trigger] target_pts@.contains(l) == in_pts(s0, node.0 as int, l),
            edges_ok(*program, *pag, *st, edges@, resolved@, wired@),
            forall|i: int| 0 <= i < e0.len() ==> #[trigger] edges@[i] == e0[i],
            e0.len() <= edges@.len(),
            forall|i: int| e0.len() <= i < edges@.len() ==> (#[trigger] edges@[i]).resolution == ResolutionKind::Indirect,
            forall|j: int, l: LocId| 0 <= j < k && #[trigger] in_pts(s0, node.0 as int, l) && fn_of(*pag, l) is Some
                ==> edges@.contains(ind_edge(*program, #[trigger] sites@[j], fn_of(*pag, l)->0)),
        decreases sites@.len() - k,
    {
        let cs_id = sites[k];
        proof {
            assert(pag.indices.indirect_by_target@[node.0 as int]@[k as int] == cs_id);
            assert(program.symbols.call_sites@[cs_id.0 as int].id.0 == cs_id.0);
        }
        let cs = &program.symbols.call_sites[cs_id.0 as usize];
        let ghost ek = edges@;
        let mut q: usize = 0;
        while q < target_pts.len()
            invariant
                q <= target_pts@.len(),
                k < sites@.len(),
                cs_id == sites@[k as int],
                *cs == program.symbols.call_sites@[cs_id.0 as int],
                cs.id == cs_id,
                (cs_id.0 as int) < program.symbols.call_sites@.len(),
                !cs.is_direct,
                ctn(*pag, cs_id) == Some(node),
                step_ready(*pag, *program, *st),
                vars_have_nodes(*program, *pag),
                st_step(s0, *st),
                forall|m: int, x: LocId| #[trigger] in_mem(*st, m, x) == in_mem(s0, m, x),
                forall|l: LocId| #[trigger] target_pts@.contains(l) == in_pts(s0, node.0 as int, l),
                edges_ok(*program, *pag, *st, edges@, resolved@, wired@),
                forall|i: int| 0 <= i < ek.len() ==> #[trigger] edges@[i] == ek[i],
                ek.len() <= edges@.len(),
                forall|i: int| 0 <= i < e0.len() ==> #[trigger] ek[i] == e0[i],
                e0.len() <= ek.len(),
                forall|i: int| e0.len() <= i < edges@.len() ==> (#[trigger] edges@[i]).resolution == ResolutionKind::Indirect,
                forall|j: int| 0 <= j < q && fn_of(*pag, #[trigger] target_pts@[j]) is Some
                    ==> edges@.contains(ind_edge(*program, cs_id, fn_of(*pag, target_pts@[j])->0)),
            decreases target_pts@.len() - q,
        {
            let loc = target_pts[q];
            let ghost eq = edges@;
            if let Some(callee) = fn_for_loc(pag, loc) {
                proof {
                    assert(loc_ok(*program, pag.locations@[loc.0 as int]));
                }
                if !contains_fn(&resolved[cs_id.0 as usize], callee) {
                    let ghost r0 = resolved@;
                    let ghost w0 = wired@;
                    push_into(resolved, cs_id.0 as usize, callee);
                    let e = CallGraphEdge { call_site: cs.id, caller: cs.caller, callee, resolution: ResolutionKind::Indirect };
                    edges.push(e);
                    proof {
                        assert(edges@[edges@.len() - 1] == e);
                        assert(e == ind_edge(*program, cs_id, callee));
                        assert(target_pts@.contains(loc));
                        assert(in_pts(*st, node.0 as int, loc));
                        assert(in_pts(*st, (ctn(*pag, cs.id)->0).0 as int, loc));
                        assert(fn_index(program.symbols.functions@, callee) >= 0);
                        assert(edge_sound(*program, *pag, *st, e));
                        let es = edges@;
                        assert forall|i: int| 0 <= i < es.len() implies edge_sound(*program, *pag, *st, #[trigger] es[i]) by {
                            if i < es.len() - 1 {
                                assert(es[i] == eq[i]);
                            }
                        }
                        assert forall|i: int, j: int| 0 <= i < j < es.len() && (#[trigger] es[i]).resolution == ResolutionKind::Indirect
                            && (#[trigger] es[j]).resolution == ResolutionKind::Indirect && es[i].call_site == es[j].call_site
                            implies es[i].callee != es[j].callee by {
                            if j == es.len() - 1 {
                                assert(es[i] == eq[i]);
                                assert(r0[cs_id.0 as int]@.contains(es[i].callee));
                            } else {
                                assert(es[i] == eq[i]);
                                assert(es[j] == eq[j]);
                            }
                        }
                        assert forall|i: int| 0 <= i < es.len() && (#[trigger] es[i]).resolution == ResolutionKind::Indirect
                            implies resolved@[es[i].call_site.0 as int]@.contains(es[i].callee) by {
                            if i < es.len() - 1 {
                                assert(es[i] == eq[i]);
                                let m = es[i].call_site.0 as int;
                                assert(r0[m]@.contains(es[i].callee));
                                let w = choose|w: int| 0 <= w < r0[m]@.len() && r0[m]@[w] == es[i].callee;
                                assert(resolved@[m]@[w] == es[i].callee);
                            } else {
                                assert(resolved@[cs_id.0 as int]@[resolved@[cs_id.0 as int]@.len() - 1] == callee);
                            }
                        }
                        assert forall|m: int, f: FnId| 0 <= m < resolved@.len() && #[trigger] resolved@[m]@.contains(f)
                            implies has_indirect(es, m, f) by {
                            if m == cs_id.0 as int && f == callee {
                                assert(es[es.len() - 1] == e);
                            } else {
                                let w = choose|w: int| 0 <= w < resolved@[m]@.len() && resolved@[m]@[w] == f;
                                if m == cs_id.0 as int {
                                    assert(w < r0[m]@.len());
                                    assert(r0[m]@[w] == f);
                                } else {
                                    assert(r0[m] == resolved@[m]);
                                }
                                assert(r0[m]@.contains(f));
                                assert(has_indirect(eq, m, f));
                                let i = choose|i: int| 0 <= i < eq.len() && (#[trigger] eq[i]).resolution == ResolutionKind::Indirect
                                    && eq[i].call_site.0 == m && eq[i].callee == f;
                                assert(es[i] == eq[i]);
                            }
                        }
                        assert forall|w: (CallSiteId, u32, FnId)| #[trigger] wired@.contains(w) implies
                            exists|i: int| 0 <= i < es.len() && (#[trigger] es[i]).call_site == w.0 && es[i].callee == w.2 by {
                            let i = choose|i: int| 0 <= i < eq.len() && (#[trigger] eq[i]).call_site == w.0 && eq[i].callee == w.2;
                            assert(es[i] == eq[i]);
                        }
                        assert(edges_ok(*program, *pag, *st, edges@, resolved@, wired@));
                    }
                    let ghost sw = *st;
                    let ghost ww = wired@;
                    proof {
                        assert(program.symbols.call_sites@[cs_id.0 as int] == *cs);
                    }
                    wire_params(pag, program, cs, callee, st, wired);
                    apply_call_summary(cs, callee, program);
                    proof {
                        lemma_step_trans(s0, sw, *st);
                        lemma_edges_ok_step(*program, *pag, *pag, sw, *st, edges@, resolved@, ww);
                        let es = edges@;
                        assert forall|w: (CallSiteId, u32, FnId)| #[trigger] wired@.contains(w) implies {
                            &&& (w.0.0 as int) < program.symbols.call_sites@.len()
                            &&& exists|i: int| 0 <= i < es.len() && (#[trigger] es[i]).call_site == w.0 && es[i].callee == w.2
                            &&& fn_index(program.symbols.functions@, w.2) >= 0
                            &&& (w.1 as int) < params_of(*program, w.2).len()
                            &&& has_arg(program.symbols.call_sites@[w.0.0 as int], w.1)
                        } by {
                            if !ww.contains(w) {
                                assert(es[es.len() - 1].call_site == w.0 && es[es.len() - 1].callee == w.2);
                            }
                        }
                    }
                } else {
                    proof {
                        assert(has_indirect(edges@, cs_id.0 as int, callee));
                        let i = choose|i: int| 0 <= i < edges@.len() && (#[trigger] edges@[i]).resolution == ResolutionKind::Indirect
                            && edges@[i].call_site.0 == cs_id.0 && edges@[i].callee == callee;
                        assert(edge_sound(*program, *pag, *st, edges@[i]));
                        assert(edges@[i] == ind_edge(*program, cs_id, callee));
                    }
                }
            }
            proof {
                assert forall|j: int| 0 <= j < q + 1 && fn_of(*pag, #[trigger] target_pts@[j]) is Some
                    implies edges@.contains(ind_edge(*program, cs_id, fn_of(*pag, target_pts@[j])->0)) by {
                    if j < q {
                        let e = ind_edge(*program, cs_id, fn_of(*pag, target_pts@[j])->0);
                        assert(eq.contains(e));
                        let w = choose|w: int| 0 <= w < eq.len() && eq[w] == e;
                        assert(edges@[w] == e);
                    } else if edges@.len() > eq.len() {
                        assert(edges@[edges@.len() - 1] == ind_edge(*program, cs_id, fn_of(*pag, target_pts@[j])->0));
                    }
                }
            }
            q = q + 1;
        }
        proof {
            assert forall|j: int, l: LocId| 0 <= j < k + 1 && #[trigger] in_pts(s0, node.0 as int, l) && fn_of(*pag, l) is Some
                implies edges@.contains(ind_edge(*program, #[trigger] sites@[j], fn_of(*pag, l)->0)) by {
                if j < k {
                    let e = ind_edge(*program, sites@[j], fn_of(*pag, l)->0);
                    assert(ek.contains(e));
                    let w = choose|w: int| 0 <= w < ek.len() && ek[w] == e;
                    assert(edges@[w] == e);
                } else {
                    assert(target_pts@.contains(l));
                    let w = choose|w: int| 0 <= w < target_pts@.len() && target_pts@[w] == l;
                    assert(fn_of(*pag, target_pts@[w]) is Some);
                }
            }
        }
        k = k + 1;
    }
}

/// The constraints of `pag` hold in `st`, except those whose triggering
/// node is queued or is `skip`: copies are included, address-of locations
/// are in, loads see the objects' stored values, stores reached the
/// objects, and each indirect call site has an edge to every function its
/// target points to.
pub open spec fn closure(program: Program, pag: Pag, st: SolverState, edges: Seq<CallGraphEdge>, skip: int) -> bool {
    let cons = pag.constraints@;
    let sites = program.symbols.call_sites@;
    &&& forall|i: int, l: LocId| 0 <= i < cons.len() && (#[trigger] cons[i]).kind == ConstraintKind::Copy
        && cons[i].src.0 != skip && !is_queued(st, cons[i].src.0 as int) && #[trigger] in_pts(st, cons[i].src.0 as int, l)
        ==> in_pts(st, cons[i].dst.0 as int, l)
    &&& forall|i: int| 0 <= i < cons.len() && (#[trigger] cons[i]).kind == ConstraintKind::AddrOf
        && cons[i].dst.0 != skip && !is_queued(st, cons[i].dst.0 as int)
        ==> (pag.nodes@[cons[i].src.0 as int].kind matches PagNodeKind::Loc(l) ==> in_pts(st, cons[i].dst.0 as int, l))
    &&& forall|i: int, o: LocId| 0 <= i < cons.len() && (#[trigger] cons[i]).kind == ConstraintKind::Load
        && cons[i].src.0 != skip && !is_queued(st, cons[i].src.0 as int) && #[trigger] in_pts(st, cons[i].src.0 as int, o)
        ==> (fn_of(pag, o) is Some ==> in_pts(st, cons[i].dst.0 as int, o))
            && (fn_of(pag, o) is None ==> forall|x: LocId| #[trigger] in_mem(st, o.0 as int, x) ==> in_pts(st, cons[i].dst.0 as int, x))
    &&& forall|i: int| 0 <= i < cons.len() && (#[trigger] cons[i]).kind == ConstraintKind::Store
        && cons[i].dst.0 != skip && cons[i].src.0 != skip
        && !is_queued(st, cons[i].dst.0 as int) && !is_queued(st, cons[i].src.0 as int)
        ==> store_applied(pag, st, cons[i].dst, cons[i].src)
    &&& forall|k: int, l: LocId| 0 <= k < sites.len() && !(#[trigger] sites[k]).is_direct && ctn(pag, sites[k].id) is Some
        && (ctn(pag, sites[k].id)->0).0 != skip && !is_queued(st, (ctn(pag, sites[k].id)->0).0 as int)
        && #[trigger] in_pts(st, (ctn(pag, sites[k].id)->0).0 as int, l) && fn_of(pag, l) is Some
        ==> edges.contains(ind_edge(program, sites[k].id, fn_of(pag, l)->0))
}

/// Points-to sets of nodes that are not queued did not grow.
pub open spec fn unqueued_same(a: SolverState, b: SolverState) -> bool {
    forall|n: int, l: LocId| !is_queued(b, n) && #[trigger] in_pts(b, n, l) ==> in_pts(a, n, l)
}

/// Edge soundness only needs points-to sets that did not shrink.
proof fn lemma_edges_ok_pts(program: Program, pag: Pag, a: SolverState, b: SolverState,
    edges: Seq<CallGraphEdge>, resolved: Seq<Vec<FnId>>, wired: Seq<(CallSiteId, u32, FnId)>)
    requires
        forall|n: int, l: LocId| #[trigger] in_pts(a, n, l) ==> in_pts(b, n, l),
        edges_ok(program, pag, a, edges, resolved, wired),
    ensures
        edges_ok(program, pag, b, edges, resolved, wired),
{
    assert forall|i: int| 0 <= i < edges.len() implies edge_sound(program, pag, b, #[trigger] edges[i]) by {
        let e = edges[i];
        assert(edge_sound(program, pag, a, e));
        if e.resolution == ResolutionKind::Indirect {
            let cs = program.symbols.call_sites@[e.call_site.0 as int];
            let t = (ctn(pag, cs.id)->0).0 as int;
            let l = choose|l: LocId| #[trigger] in_pts(a, t, l) && fn_of(pag, l) == Some(e.callee);
            assert(in_pts(b, t, l));
        }
    }
}

/// The closure survives a solver step that requeues on memory growth,
/// with the graph growing and edges kept.
proof fn lemma_closure_step(program: Program, pa: Pag, pb: Pag, a: SolverState, b: SolverState,
    ea: Seq<CallGraphEdge>, eb: Seq<CallGraphEdge>, skip: int)
    requires
        pag_wf(pa),
        pag_wf(pb),
        st_fits(a, pa),
        pag_grows(pa, pb),
        same_flow_tables(pa, pb),
        st_step(a, b),
        mem_requeued(a, b),
        forall|e: CallGraphEdge| #[trigger] ea.contains(e) ==> eb.contains(e),
        closure(program, pa, a, ea, skip),
    ensures
        closure(program, pb, b, eb, skip),
{
    let cons = pa.constraints@;
    let sites = program.symbols.call_sites@;
    assert forall|i: int, l: LocId| 0 <= i < cons.len() && (#[trigger] cons[i]).kind == ConstraintKind::Copy
        && cons[i].src.0 != skip && !is_queued(b, cons[i].src.0 as int) && #[trigger] in_pts(b, cons[i].src.0 as int, l)
        implies in_pts(b, cons[i].dst.0 as int, l) by {
        assert(in_pts(a, cons[i].src.0 as int, l));
        assert(in_pts(a, cons[i].dst.0 as int, l));
    }
    assert forall|i: int| 0 <= i < cons.len() && (#[trigger] cons[i]).kind == ConstraintKind::AddrOf
        && cons[i].dst.0 != skip && !is_queued(b, cons[i].dst.0 as int)
        implies (pb.nodes@[cons[i].src.0 as int].kind matches PagNodeKind::Loc(l) ==> in_pts(b, cons[i].dst.0 as int, l)) by {
        assert(pb.nodes@[cons[i].src.0 as int] == pa.nodes@[cons[i].src.0 as int]);
        if let PagNodeKind::Loc(l) = pa.nodes@[cons[i].src.0 as int].kind {
            assert(in_pts(a, cons[i].dst.0 as int, l));
        }
    }
    assert forall|i: int, o: LocId| 0 <= i < cons.len() && (#[trigger] cons[i]).kind == ConstraintKind::Load
        && cons[i].src.0 != skip && !is_queued(b, cons[i].src.0 as int) && #[trigger] in_pts(b, cons[i].src.0 as int, o)
        implies (fn_of(pb, o) is Some ==> in_pts(b, cons[i].dst.0 as int, o))
            && (fn_of(pb, o) is None ==> forall|x: LocId| #[trigger] in_mem(b, o.0 as int, x) ==> in_pts(b, cons[i].dst.0 as int, x)) by {
        assert(in_pts(a, cons[i].src.0 as int, o));
        lemma_pts_bound(a, pa, cons[i].src.0 as int, o);
        assert(pb.locations@[o.0 as int] == pa.locations@[o.0 as int]);
        if fn_of(pa, o) is Some {
            assert(in_pts(a, cons[i].dst.0 as int, o));
        } else {
            assert forall|x: LocId| #[trigger] in_mem(b, o.0 as int, x) implies in_pts(b, cons[i].dst.0 as int, x) by {
                if !in_mem(a, o.0 as int, x) {
                    assert(o.0 as int as u32 == o.0);
                    assert(in_pts(b, cons[i].src.0 as int, LocId((o.0 as int) as u32)));
                }
                assert(in_pts(a, cons[i].dst.0 as int, x));
            }
        }
    }
    assert forall|i: int| 0 <= i < cons.len() && (#[trigger] cons[i]).kind == ConstraintKind::Store
        && cons[i].dst.0 != skip && cons[i].src.0 != skip
        && !is_queued(b, cons[i].dst.0 as int) && !is_queued(b, cons[i].src.0 as int)
        implies store_applied(pb, b, cons[i].dst, cons[i].src) by {
        let c = cons[i];
        assert(store_applied(pa, a, c.dst, c.src));
        assert(pb.nodes@[c.src.0 as int] == pa.nodes@[c.src.0 as int]);
        assert(self_loc(pb, c.src) == self_loc(pa, c.src));
        assert forall|o: LocId| #[trigger] in_pts(b, c.dst.0 as int, o) && fn_of(pb, o) is None implies {
            &&& forall|x: LocId| #[trigger] in_pts(b, c.src.0 as int, x) ==> in_mem(b, o.0 as int, x)
                && (summary_of(pb, o) matches Some(sm) ==> in_mem(b, sm.0 as int, x))
            &&& (self_loc(pb, c.src) matches Some(sl) ==> in_mem(b, o.0 as int, sl)
                && (summary_of(pb, o) matches Some(sm) ==> in_mem(b, sm.0 as int, sl)))
        } by {
            assert(in_pts(a, c.dst.0 as int, o));
            lemma_pts_bound(a, pa, c.dst.0 as int, o);
            assert(pb.locations@[o.0 as int] == pa.locations@[o.0 as int]);
            assert(pb.field_loc_to_summary@[o.0 as int] == pa.field_loc_to_summary@[o.0 as int]);
            assert(summary_of(pb, o) == summary_of(pa, o));
            assert forall|x: LocId| #[trigger] in_pts(b, c.src.0 as int, x) implies in_mem(b, o.0 as int, x)
                && (summary_of(pb, o) matches Some(sm) ==> in_mem(b, sm.0 as int, x)) by {
                assert(in_pts(a, c.src.0 as int, x));
                assert(in_mem(a, o.0 as int, x));
                if let Some(sm) = summary_of(pa, o) {
                    assert(in_mem(a, sm.0 as int, x));
                }
            }
            if let Some(sl) = self_loc(pa, c.src) {
                assert(in_mem(a, o.0 as int, sl));
                if let Some(sm) = summary_of(pa, o) {
                    assert(in_mem(a, sm.0 as int, sl));
                }
            }
        }
    }
    assert forall|k: int, l: LocId| 0 <= k < sites.len() && !(#[trigger] sites[k]).is_direct && ctn(pb, sites[k].id) is Some
        && (ctn(pb, sites[k].id)->0).0 != skip && !is_queued(b, (ctn(pb, sites[k].id)->0).0 as int)
        && #[trigger] in_pts(b, (ctn(pb, sites[k].id)->0).0 as int, l) && fn_of(pb, l) is Some
        implies eb.contains(ind_edge(program, sites[k].id, fn_of(pb, l)->0)) by {
        let t = (ctn(pa, sites[k].id)->0).0 as int;
        assert(in_pts(a, t, l));
        lemma_pts_bound(a, pa, t, l);
        assert(pb.locations@[l.0 as int] == pa.locations@[l.0 as int]);
        assert(ea.contains(ind_edge(program, sites[k].id, fn_of(pa, l)->0)));
    }
}

/// A state step that leaves memory as it is requeues trivially.
proof fn lemma_mem_same_requeued(a: SolverState, b: SolverState)
    requires
        forall|m: int, x: LocId| #[trigger] in_mem(b, m, x) == in_mem(a, m, x),
    ensures
        mem_requeued(a, b),
{
}

/// A store reached its objects in `a`; the two nodes' sets are the same in
/// `b`, memory only grew, and the graph grew: it still has.
proof fn lemma_store_applied_keep(pa: Pag, pb: Pag, a: SolverState, b: SolverState, dst: PagNodeId, src: PagNodeId)
    requires
        pag_wf(pa),
        pag_wf(pb),
        st_fits(a, pa),
        pag_grows(pa, pb),
        same_flow_tables(pa, pb),
        st_step(a, b),
        forall|l: LocId| #[trigger] in_pts(b, dst.0 as int, l) ==> in_pts(a, dst.0 as int, l),
        forall|l: LocId| #[trigger] in_pts(b, src.0 as int, l) ==> in_pts(a, src.0 as int, l),
        (src.0 as int) < pa.nodes@.len(),
        store_applied(pa, a, dst, src),
    ensures
        store_applied(pb, b, dst, src),
{
    assert(pb.nodes@[src.0 as int] == pa.nodes@[src.0 as int]);
    assert(self_loc(pb, src) == self_loc(pa, src));
    assert forall|o: LocId| #[trigger] in_pts(b, dst.0 as int, o) && fn_of(pb, o) is None implies {
        &&& forall|x: LocId| #[trigger] in_pts(b, src.0 as int, x) ==> in_mem(b, o.0 as int, x)
            && (summary_of(pb, o) matches Some(sm) ==> in_mem(b, sm.0 as int, x))
        &&& (self_loc(pb, src) matches Some(sl) ==> in_mem(b, o.0 as int, sl)
            && (summary_of(pb, o) matches Some(sm) ==> in_mem(b, sm.0 as int, sl)))
    } by {
        assert(in_pts(a, dst.0 as int, o));
        lemma_pts_bound(a, pa, dst.0 as int, o);
        assert(pb.locations@[o.0 as int] == pa.locations@[o.0 as int]);
        assert(pb.field_loc_to_summary@[o.0 as int] == pa.field_loc_to_summary@[o.0 as int]);
        assert(summary_of(pb, o) == summary_of(pa, o));
        assert forall|x: LocId| #[trigger] in_pts(b, src.0 as int, x) implies in_mem(b, o.0 as int, x)
            && (summary_of(pb, o) matches Some(sm) ==> in_mem(b, sm.0 as int, x)) by {
            assert(in_mem(a, o.0 as int, x));
            if let Some(sm) = summary_of(pa, o) {
                assert(in_mem(a, sm.0 as int, x));
            }
        }
        if let Some(sl) = self_loc(pa, src) {
            assert(in_mem(a, o.0 as int, sl));
            if let Some(sm) = summary_of(pa, o) {
                assert(in_mem(a, sm.0 as int, sl));
            }
        }
    }
}

/// Handles a node taken off the worklist: its copies, address-of
/// constraints, loads, stores, field projections and indirect calls.
/// Afterwards every constraint holds unless its triggering node is queued.
fn process_node(pag: &mut Pag, program: &Program, st: &mut SolverState, node: PagNodeId,
    edges: &mut Vec<CallGraphEdge>, resolved: &mut Vec<Vec<FnId>>, wired: &mut Vec<(CallSiteId, u32, FnId)>)
    requires
        step_ready(*old(pag), *program, *old(st)),
        vars_have_nodes(*program, *old(pag)),
        indices_wf(*program, *old(pag)),
        edges_ok(*program, *old(pag), *old(st), old(edges)@, old(resolved)@, old(wired)@),
        closure(*program, *old(pag), *old(st), old(edges)@, node.0 as int),
        (node.0 as int) < old(pag).nodes@.len(),
    ensures
        step_ready(*final(pag), *program, *final(st)),
        pag_grows(*old(pag), *final(pag)),
        same_flow_tables(*old(pag), *final(pag)),
        st_step(*old(st), *final(st)),
        edges_ok(*program, *final(pag), *final(st), final(edges)@, final(resolved)@, final(wired)@),
        forall|i: int| 0 <= i < old(edges)@.len() ==> #[trigger] final(edges)@[i] == old(edges)@[i],
        old(edges)@.len() <= final(edges)@.len(),
        forall|i: int| old(edges)@.len() <= i < final(edges)@.len() ==> (#[trigger] final(edges)@[i]).resolution == ResolutionKind::Indirect,
        closure(*program, *final(pag), *final(st), final(edges)@, -1),
{
    let ghost p0 = *pag;
    let ghost s0 = *st;
    let ghost e0 = edges@;
    let ghost skip = node.0 as int;
    process_copy(pag, st, node);
    let ghost s1 = *st;
    proof { lemma_mem_same_requeued(s0, s1); lemma_closure_step(*program, p0, p0, s0, s1, e0, e0, skip); }
    process_addr(pag, st, node);
    let ghost s2 = *st;
    proof { lemma_mem_same_requeued(s1, s2); lemma_closure_step(*program, p0, p0, s1, s2, e0, e0, skip); }
    process_load(pag, st, node);
    let ghost s3 = *st;
    proof { lemma_mem_same_requeued(s2, s3); lemma_closure_step(*program, p0, p0, s2, s3, e0, e0, skip); }
    process_store(pag, st, node);
    let ghost s4 = *st;
    proof { lemma_closure_step(*program, p0, p0, s3, s4, e0, e0, skip); }
    process_gep(pag, program, st, node);
    let ghost s5 = *st;
    let ghost p5 = *pag;
    proof {
        lemma_mem_same_requeued(s4, s5);
        lemma_closure_step(*program, p0, p5, s4, s5, e0, e0, skip);
        lemma_step_trans(s0, s1, s2);
        lemma_step_trans(s0, s2, s3);
        lemma_step_trans(s0, s3, s4);
        lemma_step_trans(s0, s4, s5);
        lemma_edges_ok_step(*program, p0, p5, s0, s5, e0, resolved@, wired@);
        assert(indirect_complete(*program, p5, p5.indices.indirect_by_target@));
    }
    process_indirect(pag, program, st, node, edges, resolved, wired);
    let ghost s6 = *st;
    let ghost e6 = edges@;
    proof {
        lemma_step_trans(s0, s5, s6);
        lemma_mem_same_requeued(s5, s6);
        assert forall|e: CallGraphEdge| #[trigger] e0.contains(e) implies e6.contains(e) by {
            let w = choose|w: int| 0 <= w < e0.len() && e0[w] == e;
            assert(e6[w] == e);
        }
        lemma_closure_step(*program, p5, p5, s5, s6, e0, e6, skip);
        let cons = p0.constraints@;
        let sites = program.symbols.call_sites@;
        let q = !is_queued(s6, skip);
        assert(p0.constraints.len() == cons.len());
        // What `node` points to at the end, it pointed to after each step.
        assert forall|l: LocId| q && #[trigger] in_pts(s6, skip, l) implies in_pts(s0, skip, l) && in_pts(s2, skip, l)
            && in_pts(s4, skip, l) && in_pts(s5, skip, l) by {
            lemma_step_trans(s2, s3, s4);
            lemma_step_trans(s2, s4, s6);
            lemma_step_trans(s4, s5, s6);
        }
        assert forall|i: int, l: LocId| 0 <= i < cons.len() && (#[trigger] cons[i]).kind == ConstraintKind::Copy
            && !is_queued(s6, cons[i].src.0 as int) && #[trigger] in_pts(s6, cons[i].src.0 as int, l)
            implies in_pts(s6, cons[i].dst.0 as int, l) by {
            if cons[i].src.0 == skip {
                let cp = p0.indices.copy_src@;
                assert(cp[skip]@.contains(i as usize));
                let j = choose|j: int| 0 <= j < cp[skip]@.len() && cp[skip]@[j] == i as usize;
                assert(ix_list(cp, skip)[j] == i as usize);
                assert(in_pts(s0, skip, l));
                assert(in_pts(s1, cons[i].dst.0 as int, l));
            }
        }
        assert forall|i: int| 0 <= i < cons.len() && (#[trigger] cons[i]).kind == ConstraintKind::AddrOf
            && !is_queued(s6, cons[i].dst.0 as int)
            implies (p5.nodes@[cons[i].src.0 as int].kind matches PagNodeKind::Loc(l) ==> in_pts(s6, cons[i].dst.0 as int, l)) by {
            if cons[i].dst.0 == skip {
                let ad = p0.indices.addr_of_dst@;
                assert(ad[skip]@.contains(i as usize));
                let j = choose|j: int| 0 <= j < ad[skip]@.len() && ad[skip]@[j] == i as usize;
                assert(ix_list(ad, skip)[j] == i as usize);
                assert(p5.nodes@[cons[i].src.0 as int] == p0.nodes@[cons[i].src.0 as int]);
                if let PagNodeKind::Loc(l) = p0.nodes@[cons[i].src.0 as int].kind {
                    assert(in_pts(s2, skip, l));
                }
            }
        }
        assert forall|i: int, o: LocId| 0 <= i < cons.len() && (#[trigger] cons[i]).kind == ConstraintKind::Load
            && !is_queued(s6, cons[i].src.0 as int) && #[trigger] in_pts(s6, cons[i].src.0 as int, o)
            implies (fn_of(p5, o) is Some ==> in_pts(s6, cons[i].dst.0 as int, o))
                && (fn_of(p5, o) is None ==> forall|x: LocId| #[trigger] in_mem(s6, o.0 as int, x) ==> in_pts(s6, cons[i].dst.0 as int, x)) by {
            if cons[i].src.0 == skip {
                let ld = p0.indices.load_src@;
                assert(ld[skip]@.contains(i as usize));
                let j = choose|j: int| 0 <= j < ld[skip]@.len() && ld[skip]@[j] == i as usize;
                assert(ix_list(ld, skip)[j] == i as usize);
                assert(in_pts(s2, skip, o));
                lemma_pts_bound(s2, p0, skip, o);
                assert(p5.locations@[o.0 as int] == p0.locations@[o.0 as int]);
                let d = cons[i].dst.0 as int;
                if fn_of(p0, o) is None {
                    assert forall|x: LocId| #[trigger] in_mem(s6, o.0 as int, x) implies in_pts(s6, d, x) by {
                        assert(in_mem(s4, o.0 as int, x));
                        if !in_mem(s3, o.0 as int, x) {
                            assert(in_pts(s4, skip, o));
                            assert(o.0 as int as u32 == o.0);
                            assert(in_pts(s4, skip, LocId((o.0 as int) as u32)));
                            assert(is_queued(s4, skip));
                        }
                        assert(in_mem(s2, o.0 as int, x));
                        assert(in_pts(s3, d, x));
                    }
                } else {
                    assert(in_pts(s3, d, o));
                }
            }
        }
        assert forall|i: int| 0 <= i < cons.len() && (#[trigger] cons[i]).kind == ConstraintKind::Store
            && !is_queued(s6, cons[i].dst.0 as int) && !is_queued(s6, cons[i].src.0 as int)
            implies store_applied(p5, s6, cons[i].dst, cons[i].src) by {
            let c = cons[i];
            if c.dst.0 == skip || c.src.0 == skip {
                if c.dst.0 == skip {
                    let sd = p0.indices.store_dst@;
                    assert(sd[skip]@.contains(i as usize));
                    let j = choose|j: int| 0 <= j < sd[skip]@.len() && sd[skip]@[j] == i as usize;
                    assert(ix_list(sd, skip)[j] == i as usize);
                } else {
                    let ss = p0.indices.store_src@;
                    assert(ss[skip]@.contains(i as usize));
                    let j = choose|j: int| 0 <= j < ss[skip]@.len() && ss[skip]@[j] == i as usize;
                    assert(ix_list(ss, skip)[j] == i as usize);
                }
                assert(store_applied(p0, s4, c.dst, c.src));
                lemma_step_trans(s4, s5, s6);
                lemma_store_applied_keep(p0, p5, s4, s6, c.dst, c.src);
            }
        }
        assert forall|k: int, l: LocId| 0 <= k < sites.len() && !(#[trigger] sites[k]).is_direct && ctn(p5, sites[k].id) is Some
            && !is_queued(s6, (ctn(p5, sites[k].id)->0).0 as int)
            && #[trigger] in_pts(s6, (ctn(p5, sites[k].id)->0).0 as int, l) && fn_of(p5, l) is Some
            implies e6.contains(ind_edge(*program, sites[k].id, fn_of(p5, l)->0)) by {
            let t = (ctn(p5, sites[k].id)->0).0 as int;
            if t == skip {
                let ib = p5.indices.indirect_by_target@;
                assert(ib[t]@.contains(sites[k].id));
                let j = choose|j: int| 0 <= j < ib[t]@.len() && ib[t]@[j] == sites[k].id;
                assert(cs_list(ib, t)[j] == sites[k].id);
                assert(in_pts(s5, skip, l));
            }
        }
    }
}

/// The direct edge of call site `cs` to `f`.
pub open spec fn dir_edge(cs: CallSite, f: FnId) -> CallGraphEdge {
    CallGraphEdge { call_site: cs.id, caller: cs.caller, callee: f, resolution: ResolutionKind::Direct }
}

/// A direct call site has its edge: to the external function the name
/// denotes, else to one so named in the site's file (when there is one);
/// a site recoverable by name has an edge to every function the name may
/// denote from the site's file.
pub open spec fn site_direct_ok(program: Program, edges: Seq<CallGraphEdge>, cs: CallSite) -> bool {
    let s = program.symbols;
    &&& cs.is_direct ==> match scope_pick(s.functions@, s.fn_by_name@, cs.callee_name@, Some(cs.span.file)) {
        Some(f) => edges.contains(dir_edge(cs, f)),
        None => true,
    }
    &&& (!cs.is_direct && direct_by_name_spec(cs)) ==> forall|g: FnId|
        is_candidate(s, cs.callee_name@, Some(cs.span.file), g) ==> #[trigger] edges.contains(dir_edge(cs, g))
}

/// Every call site has its direct edges.
pub open spec fn direct_complete(program: Program, edges: Seq<CallGraphEdge>) -> bool {
    forall|k: int| 0 <= k < program.symbols.call_sites@.len() ==> site_direct_ok(program, edges, #[trigger] program.symbols.call_sites@[k])
}

/// Edges appended after `a` keep `a`'s positions.
pub open spec fn edges_extend(a: Seq<CallGraphEdge>, b: Seq<CallGraphEdge>) -> bool {
    &&& a.len() <= b.len()
    &&& forall|i: int| 0 <= i < a.len() ==> #[trigger] b[i] == a[i]
}

proof fn lemma_extend_contains(a: Seq<CallGraphEdge>, b: Seq<CallGraphEdge>, e: CallGraphEdge)
    requires
        edges_extend(a, b),
        a.contains(e),
    ensures
        b.contains(e),
{
    let w = choose|w: int| 0 <= w < a.len() && a[w] == e;
    assert(b[w] == e);
}

/// Every static variable points to its own storage.
fn seed_statics(pag: &Pag, program: &Program, st: &mut SolverState)
    requires
        step_ready(*pag, *program, *old(st)),
        vars_have_nodes(*program, *pag),
    ensures
        step_ready(*pag, *program, *final(st)),
        st_step(*old(st), *final(st)),
        forall|m: int, x: LocId| #[trigger] in_mem(*final(st), m, x) == in_mem(*old(st), m, x),
        forall|i: int| 0 <= i < program.symbols.variables@.len() ==> static_seeded(*program, *pag, *final(st), #[trigger] program.symbols.variables@[i]),
{
    let ghost s0 = *st;
    let vars = &program.symbols.variables;
    let mut i: usize = 0;
    while i < vars.len()
        invariant
            i <= vars@.len(),
            *vars == program.symbols.variables,
            step_ready(*pag, *program, *st),
            vars_have_nodes(*program, *pag),
            st_step(s0, *st),
            forall|m: int, x: LocId| #[trigger] in_mem(*st, m, x) == in_mem(s0, m, x),
            forall|j: int| 0 <= j < i ==> static_seeded(*program, *pag, *st, #[trigger] vars@[j]),
        decreases vars@.len() - i,
    {
        let ghost sb = *st;
        let var = &vars[i];
        if var.storage == crate::symbol::StorageClass::Global || var.storage == crate::symbol::StorageClass::FileStatic
            || var.storage == crate::symbol::StorageClass::FnStatic {
            if let Some(loc) = pag.var_location.get(var.id.0 as u64) {
                proof {
                    lemma_km_lookup_entry(pag.var_location.entries@, var.id.0 as u64);
                    let q = choose|q: int| 0 <= q < pag.var_location.entries@.len()
                        && (#[trigger] pag.var_location.entries@[q]) == (var.id.0 as u64, loc);
                    assert(pag.var_location.entries@[q] == (var.id.0 as u64, loc));
                    assert(var.id.0 == i);
                    lemma_var_node(*program, *pag, var.id);
                }
                match pag.var_node.get(var.id.0 as u64) {
                    Some(node) => {
                        let ghost b = *st;
                        st.add_pts(node, loc);
                        proof { lemma_step_trans(s0, b, *st); }
                    },
                    None => {},
                }
            }
        }
        proof {
            assert forall|j: int| 0 <= j < i + 1 implies static_seeded(*program, *pag, *st, #[trigger] vars@[j]) by {
                if j < i {
                    assert(static_seeded(*program, *pag, sb, vars@[j]));
                }
            }
        }
        i = i + 1;
    }
}

/// A static variable (global, file- or function-static) with a node and a
/// location points to that location.
pub open spec fn static_seeded(program: Program, pag: Pag, st: SolverState, v: crate::symbol::Variable) -> bool {
    (v.storage == crate::symbol::StorageClass::Global || v.storage == crate::symbol::StorageClass::FileStatic
        || v.storage == crate::symbol::StorageClass::FnStatic) ==>
    match (km_lookup(pag.var_location.entries@, v.id.0 as u64), km_lookup(pag.var_node.entries@, v.id.0 as u64)) {
        (Some(loc), Some(node)) => in_pts(st, node.0 as int, loc),
        _ => true,
    }
}

/// Direct call edges: the function a direct site's name denotes in its
/// scope, or every function a site recoverable by name may denote; each
/// with its arguments wired.
fn seed_direct(pag: &Pag, program: &Program, st: &mut SolverState,
    edges: &mut Vec<CallGraphEdge>, resolved: &Vec<Vec<FnId>>, wired: &mut Vec<(CallSiteId, u32, FnId)>)
    requires
        step_ready(*pag, *program, *old(st)),
        vars_have_nodes(*program, *pag),
        edges_ok(*program, *pag, *old(st), old(edges)@, resolved@, old(wired)@),
        old(edges)@.len() == 0,
    ensures
        step_ready(*pag, *program, *final(st)),
        st_step(*old(st), *final(st)),
        forall|m: int, x: LocId| #[trigger] in_mem(*final(st), m, x) == in_mem(*old(st), m, x),
        edges_ok(*program, *pag, *final(st), final(edges)@, resolved@, final(wired)@),
        direct_complete(*program, final(edges)@),
        forall|i: int| 0 <= i < final(edges)@.len() ==> (#[trigger] final(edges)@[i]).resolution == ResolutionKind::Direct,
{
    let ghost s0 = *st;
    let sites = &program.symbols.call_sites;
    let mut k: usize = 0;
    while k < sites.len()
        invariant
            k <= sites@.len(),
            *sites == program.symbols.call_sites,
            step_ready(*pag, *program, *st),
            vars_have_nodes(*program, *pag),
            st_step(s0, *st),
            forall|m: int, x: LocId| #[trigger] in_mem(*st, m, x) == in_mem(s0, m, x),
            edges_ok(*program, *pag, *st, edges@, resolved@, wired@),
            forall|i: int| 0 <= i < edges@.len() ==> (#[trigger] edges@[i]).resolution == ResolutionKind::Direct,
            forall|q: int| 0 <= q < k ==> site_direct_ok(*program, edges@, #[trigger] sites@[q]),
            forall|i: int| 0 <= i < edges@.len() ==> ((#[trigger] edges@[i]).call_site.0 as int) < k,
        decreases sites@.len() - k,
    {
        let cs = &sites[k];
        proof { assert(cs.id.0 == k); }
        let mut callees: Vec<FnId> = Vec::new();
        if cs.is_direct {
            if let Some(f) = program.symbols.resolve_function_in_scope(cs.callee_name.as_str(), Some(cs.span.file)) {
                callees.push(f);
            }
        } else if direct_by_name(cs) {
            callees = program.symbols.resolve_function_candidates(cs.callee_name.as_str(), Some(cs.span.file));
        }
        proof {
            assert forall|a: int, b: int| 0 <= a < b < callees@.len() implies callees@[a] != callees@[b] by {}
            assert forall|g: FnId| #[trigger] callees@.contains(g) implies direct_ok(*program, *cs, g) by {
                if cs.is_direct {
                    assert(callees@[0] == g);
                    lemma_first_in_file_found(program.symbols.functions@, cs.callee_name@, cs.span.file);
                }
            }
        }
        let ghost ek = edges@;
        let mut m: usize = 0;
        while m < callees.len()
            invariant
                m <= callees@.len(),
                k < sites@.len(),
                *cs == sites@[k as int],
                *sites == program.symbols.call_sites,
                cs.id.0 == k,
                step_ready(*pag, *program, *st),
                vars_have_nodes(*program, *pag),
                st_step(s0, *st),
                forall|m2: int, x: LocId| #[trigger] in_mem(*st, m2, x) == in_mem(s0, m2, x),
                edges_ok(*program, *pag, *st, edges@, resolved@, wired@),
                forall|i: int| 0 <= i < edges@.len() ==> (#[trigger] edges@[i]).resolution == ResolutionKind::Direct,
                edges_extend(ek, edges@),
                forall|g: FnId| #[trigger] callees@.contains(g) ==> direct_ok(*program, *cs, g),
                forall|j: int| 0 <= j < m ==> edges@.contains(dir_edge(*cs, #[trigger] callees@[j])),
                forall|a: int, b: int| 0 <= a < b < callees@.len() ==> callees@[a] != callees@[b],
                forall|i: int| 0 <= i < edges@.len() ==> ((#[trigger] edges@[i]).call_site.0 as int) < k
                    || (edges@[i].call_site.0 == k && exists|j: int| 0 <= j < m && callees@[j] == edges@[i].callee),
            decreases callees@.len() - m,
        {
            let callee = callees[m];
            proof {
                assert(callees@.contains(callee));
                crate::pag::lemma_candidate_known(*program, cs.callee_name@, Some(cs.span.file), callee);
            }
            let ghost eq = edges@;
            let e = CallGraphEdge { call_site: cs.id, caller: cs.caller, callee, resolution: ResolutionKind::Direct };
            edges.push(e);
            proof {
                assert(edges@[edges@.len() - 1] == e);
                let es = edges@;
                assert(edge_sound(*program, *pag, *st, e));
                assert forall|i: int, j: int| 0 <= i < j < es.len() && (#[trigger] es[i]).resolution == ResolutionKind::Direct
                    && (#[trigger] es[j]).resolution == ResolutionKind::Direct && es[i].call_site == es[j].call_site
                    implies es[i].callee != es[j].callee by {
                    if j == es.len() - 1 {
                        assert(es[i] == eq[i]);
                        if es[i].call_site.0 == k {
                            let a = choose|a: int| 0 <= a < m && callees@[a] == eq[i].callee;
                            assert(callees@[a] != callees@[m as int]);
                        }
                    } else {
                        assert(es[i] == eq[i] && es[j] == eq[j]);
                    }
                }
                assert forall|i: int| 0 <= i < es.len() implies ((#[trigger] es[i]).call_site.0 as int) < k
                    || (es[i].call_site.0 == k && exists|j: int| 0 <= j < m + 1 && callees@[j] == es[i].callee) by {
                    if i < es.len() - 1 {
                        assert(es[i] == eq[i]);
                    } else {
                        assert(callees@[m as int] == es[i].callee);
                    }
                }
                assert forall|i: int| 0 <= i < es.len() implies edge_sound(*program, *pag, *st, #[trigger] es[i]) by {
                    if i < es.len() - 1 {
                        assert(es[i] == eq[i]);
                    }
                }
                assert forall|i: int, j: int| 0 <= i < j < es.len() && (#[trigger] es[i]).resolution == ResolutionKind::Indirect
                    && (#[trigger] es[j]).resolution == ResolutionKind::Indirect && es[i].call_site == es[j].call_site
                    implies es[i].callee != es[j].callee by {
                    assert(es[i].resolution == ResolutionKind::Direct);
                }
                assert forall|i: int| 0 <= i < es.len() && (#[trigger] es[i]).resolution == ResolutionKind::Indirect
                    implies resolved@[es[i].call_site.0 as int]@.contains(es[i].callee) by {
                    assert(es[i].resolution == ResolutionKind::Direct);
                }
                assert forall|q: int, f: FnId| 0 <= q < resolved@.len() && #[trigger] resolved@[q]@.contains(f)
                    implies has_indirect(es, q, f) by {
                    assert(has_indirect(eq, q, f));
                    let i = choose|i: int| 0 <= i < eq.len() && (#[trigger] eq[i]).resolution == ResolutionKind::Indirect
                        && eq[i].call_site.0 == q && eq[i].callee == f;
                    assert(es[i] == eq[i]);
                }
                assert forall|w: (CallSiteId, u32, FnId)| #[trigger] wired@.contains(w) implies
                    exists|i: int| 0 <= i < es.len() && (#[trigger] es[i]).call_site == w.0 && es[i].callee == w.2 by {
                    let i = choose|i: int| 0 <= i < eq.len() && (#[trigger] eq[i]).call_site == w.0 && eq[i].callee == w.2;
                    assert(es[i] == eq[i]);
                }
            }
            let ghost sw = *st;
            let ghost ww = wired@;
            wire_params(pag, program, cs, callee, st, wired);
            proof {
                lemma_step_trans(s0, sw, *st);
                lemma_edges_ok_step(*program, *pag, *pag, sw, *st, edges@, resolved@, ww);
                let es = edges@;
                assert forall|w: (CallSiteId, u32, FnId)| #[trigger] wired@.contains(w) implies {
                    &&& (w.0.0 as int) < program.symbols.call_sites@.len()
                    &&& exists|i: int| 0 <= i < es.len() && (#[trigger] es[i]).call_site == w.0 && es[i].callee == w.2
                    &&& fn_index(program.symbols.functions@, w.2) >= 0
                    &&& (w.1 as int) < params_of(*program, w.2).len()
                    &&& has_arg(program.symbols.call_sites@[w.0.0 as int], w.1)
                } by {
                    if !ww.contains(w) {
                        assert(es[es.len() - 1].call_site == w.0 && es[es.len() - 1].callee == w.2);
                    }
                }
                assert forall|j: int| 0 <= j < m + 1 implies edges@.contains(dir_edge(*cs, #[trigger] callees@[j])) by {
                    if j < m {
                        lemma_extend_contains(eq, edges@, dir_edge(*cs, callees@[j]));
                    } else {
                        assert(edges@[edges@.len() - 1] == dir_edge(*cs, callees@[j]));
                    }
                }
            }
            m = m + 1;
        }
        proof {
            assert forall|q: int| 0 <= q < k + 1 implies site_direct_ok(*program, edges@, #[trigger] sites@[q]) by {
                let c = sites@[q];
                if q < k {
                    if c.is_direct {
                        match scope_pick(program.symbols.functions@, program.symbols.fn_by_name@, c.callee_name@, Some(c.span.file)) {
                            Some(f) => { lemma_extend_contains(ek, edges@, dir_edge(c, f)); },
                            None => {},
                        }
                    }
                    if !c.is_direct && direct_by_name_spec(c) {
                        assert forall|g: FnId| is_candidate(program.symbols, c.callee_name@, Some(c.span.file), g)
                            implies #[trigger] edges@.contains(dir_edge(c, g)) by {
                            lemma_extend_contains(ek, edges@, dir_edge(c, g));
                        }
                    }
                } else {
                    if c.is_direct {
                        match scope_pick(program.symbols.functions@, program.symbols.fn_by_name@, c.callee_name@, Some(c.span.file)) {
                            Some(f) => {
                                assert(callees@[0] == f);
                            },
                            None => {},
                        }
                    }
                    if !c.is_direct && direct_by_name_spec(c) {
                        assert forall|g: FnId| is_candidate(program.symbols, c.callee_name@, Some(c.span.file), g)
                            implies #[trigger] edges@.contains(dir_edge(c, g)) by {
                            assert(callees@.contains(g));
                            let j = choose|j: int| 0 <= j < callees@.len() && callees@[j] == g;
                            assert(edges@.contains(dir_edge(c, callees@[j])));
                        }
                    }
                }
            }
        }
        k = k + 1;
    }
}

impl SolverState {
    /// Takes the last queued node off the worklist and unmarks it.
    fn pop(&mut self) -> (r: Option<PagNodeId>)
        requires
            st_wf(*old(self), old(self).pts@.len() as int, old(self).memory_pts@.len() as int),
        ensures
            st_wf(*final(self), old(self).pts@.len() as int, old(self).memory_pts@.len() as int),
            final(self).pts == old(self).pts,
            final(self).memory_pts == old(self).memory_pts,
            final(self).loc_nodes == old(self).loc_nodes,
            match r {
                Some(n) => {
                    &&& (n.0 as int) < old(self).pts@.len()
                    &&& !is_queued(*final(self), n.0 as int)
                    &&& forall|m: int| m != n.0 ==> #[trigger] is_queued(*final(self), m) == is_queued(*old(self), m)
                },
                None => old(self).worklist@.len() == 0 && final(self).worklist@ == old(self).worklist@
                    && final(self).queued == old(self).queued,
            },
    {
        let ghost a = *self;
        match self.worklist.pop() {
            Some(n) => {
                proof {
                    assert(a.worklist@[a.worklist@.len() - 1] == n);
                    assert(((a.worklist@[a.worklist@.len() - 1]).0 as int) < a.pts@.len());
                }
                self.queued.set(n.0 as usize, false);
                proof {
                    let b = *self;
                    assert(a.worklist@[a.worklist@.len() - 1] == n);
                    assert(b.worklist@ =~= a.worklist@.drop_last());
                    assert forall|m: int| 0 <= m < b.pts@.len() && #[trigger] b.queued@[m] implies b.worklist@.contains(PagNodeId(m as u32)) by {
                        assert(a.queued@[m]);
                        let w = choose|w: int| 0 <= w < a.worklist@.len() && a.worklist@[w] == PagNodeId(m as u32);
                        assert(w != a.worklist@.len() - 1);
                        assert(b.worklist@[w] == PagNodeId(m as u32));
                    }
                    assert forall|j: int| 0 <= j < b.worklist@.len() implies ((#[trigger] b.worklist@[j]).0 as int) < b.pts@.len() by {
                        assert(b.worklist@[j] == a.worklist@[j]);
                    }
                    assert forall|m: int, l: LocId| #[trigger] in_pts(b, m, l) implies b.loc_nodes@[l.0 as int]@.contains(PagNodeId(m as u32)) by {
                        assert(in_pts(a, m, l));
                    }
                    assert forall|m: int| m != n.0 implies #[trigger] is_queued(b, m) == is_queued(a, m) by {}
                }
                Some(n)
            },
            None => {
                proof {
                    let b = *self;
                    assert forall|m: int, l: LocId| #[trigger] in_pts(b, m, l) implies b.loc_nodes@[l.0 as int]@.contains(PagNodeId(m as u32)) by {
                        assert(in_pts(a, m, l));
                    }
                }
                None
            },
        }
    }
}

/// Unmarking one node keeps the closure, with that node exempt.
proof fn lemma_closure_pop(program: Program, pag: Pag, a: SolverState, b: SolverState, edges: Seq<CallGraphEdge>, n: int)
    requires
        closure(program, pag, a, edges, -1),
        forall|m: int, l: LocId| #[trigger] in_pts(b, m, l) == in_pts(a, m, l),
        forall|m: int, x: LocId| #[trigger] in_mem(b, m, x) == in_mem(a, m, x),
        forall|m: int| m != n ==> #[trigger] is_queued(b, m) == is_queued(a, m),
    ensures
        closure(program, pag, b, edges, n),
{
    let cons = pag.constraints@;
    let sites = program.symbols.call_sites@;
    assert forall|i: int| 0 <= i < cons.len() && (#[trigger] cons[i]).kind == ConstraintKind::Store
        && cons[i].dst.0 != n && cons[i].src.0 != n
        && !is_queued(b, cons[i].dst.0 as int) && !is_queued(b, cons[i].src.0 as int)
        implies store_applied(pag, b, cons[i].dst, cons[i].src) by {
        let c = cons[i];
        assert(store_applied(pag, a, c.dst, c.src));
        assert forall|o: LocId| #[trigger] in_pts(b, c.dst.0 as int, o) && fn_of(pag, o) is None implies {
            &&& forall|x: LocId| #[trigger] in_pts(b, c.src.0 as int, x) ==> in_mem(b, o.0 as int, x)
                && (summary_of(pag, o) matches Some(sm) ==> in_mem(b, sm.0 as int, x))
            &&& (self_loc(pag, c.src) matches Some(sl) ==> in_mem(b, o.0 as int, sl)
                && (summary_of(pag, o) matches Some(sm) ==> in_mem(b, sm.0 as int, sl)))
        } by {
            assert(in_pts(a, c.dst.0 as int, o));
            assert forall|x: LocId| #[trigger] in_pts(b, c.src.0 as int, x) implies in_mem(b, o.0 as int, x)
                && (summary_of(pag, o) matches Some(sm) ==> in_mem(b, sm.0 as int, x)) by {
                assert(in_pts(a, c.src.0 as int, x));
                assert(in_mem(a, o.0 as int, x));
                if let Some(sm) = summary_of(pag, o) {
                    assert(in_mem(a, sm.0 as int, x));
                }
            }
            if let Some(sl) = self_loc(pag, c.src) {
                assert(in_mem(a, o.0 as int, sl));
                if let Some(sm) = summary_of(pag, o) {
                    assert(in_mem(a, sm.0 as int, sl));
                }
            }
        }
    }
    assert forall|i: int, o: LocId| 0 <= i < cons.len() && (#[trigger] cons[i]).kind == ConstraintKind::Load
        && cons[i].src.0 != n && !is_queued(b, cons[i].src.0 as int) && #[trigger] in_pts(b, cons[i].src.0 as int, o)
        implies (fn_of(pag, o) is Some ==> in_pts(b, cons[i].dst.0 as int, o))
            && (fn_of(pag, o) is None ==> forall|x: LocId| #[trigger] in_mem(b, o.0 as int, x) ==> in_pts(b, cons[i].dst.0 as int, x)) by {
        assert(in_pts(a, cons[i].src.0 as int, o));
        if fn_of(pag, o) is None {
            assert forall|x: LocId| #[trigger] in_mem(b, o.0 as int, x) implies in_pts(b, cons[i].dst.0 as int, x) by {
                assert(in_mem(a, o.0 as int, x));
            }
        }
    }
    assert forall|i: int, l: LocId| 0 <= i < cons.len() && (#[trigger] cons[i]).kind == ConstraintKind::Copy
        && cons[i].src.0 != n && !is_queued(b, cons[i].src.0 as int) && #[trigger] in_pts(b, cons[i].src.0 as int, l)
        implies in_pts(b, cons[i].dst.0 as int, l) by {
        assert(in_pts(a, cons[i].src.0 as int, l));
    }
    assert forall|k: int, l: LocId| 0 <= k < sites.len() && !(#[trigger] sites[k]).is_direct && ctn(pag, sites[k].id) is Some
        && (ctn(pag, sites[k].id)->0).0 != n && !is_queued(b, (ctn(pag, sites[k].id)->0).0 as int)
        && #[trigger] in_pts(b, (ctn(pag, sites[k].id)->0).0 as int, l) && fn_of(pag, l) is Some
        implies edges.contains(ind_edge(program, sites[k].id, fn_of(pag, l)->0)) by {
        assert(in_pts(a, (ctn(pag, sites[k].id)->0).0 as int, l));
    }
}

/// The constraints of `pag` hold in `st`, and each indirect call site has
/// an edge to every function its target points to.
pub open spec fn fixpoint(program: Program, pag: Pag, st: SolverState, edges: Seq<CallGraphEdge>) -> bool {
    &&& closure(program, pag, st, edges, -1)
    &&& forall|n: int| !(#[trigger] is_queued(st, n))
}

/// An empty worklist leaves nothing queued.
proof fn lemma_empty_worklist(st: SolverState, nn: int, nl: int)
    requires
        st_wf(st, nn, nl),
        st.worklist@.len() == 0,
    ensures
        forall|n: int| !(#[trigger] is_queued(st, n)),
{
    assert forall|n: int| !(#[trigger] is_queued(st, n)) by {
        if is_queued(st, n) {
            assert(st.worklist@.contains(PagNodeId(n as u32)));
        }
    }
}

/// `l` is in the retained points-to set of node `n`.
pub open spec fn rpts(r: AnalysisResult, n: int, l: LocId) -> bool {
    exists|i: int| 0 <= i < r.points_to@.len() && (#[trigger] r.points_to@[i]).0.0 == n && r.points_to@[i].1@.contains(l)
}

/// Each edge is justified: its call site exists and is its caller's, its
/// callee is a known function; a direct edge goes to a function the
/// callee name may denote from the site's file (for a direct site, or one
/// recoverable by name); an indirect edge, from a site with a target node,
/// goes to a function whose location is in the graph, and, when the
/// points-to sets are retained, in the target's set.
pub open spec fn edges_justified(program: Program, pag: Pag, r: AnalysisResult, retained: bool) -> bool {
    forall|i: int| 0 <= i < r.call_edges@.len() ==> edge_justified(program, pag, r, retained, #[trigger] r.call_edges@[i])
}

/// See `edges_justified`.
pub open spec fn edge_justified(program: Program, pag: Pag, r: AnalysisResult, retained: bool, e: CallGraphEdge) -> bool {
    let sites = program.symbols.call_sites@;
    let cs = sites[e.call_site.0 as int];
    &&& (e.call_site.0 as int) < sites.len()
    &&& e.caller == cs.caller
    &&& fn_index(program.symbols.functions@, e.callee) >= 0
    &&& match e.resolution {
        ResolutionKind::Direct => direct_ok(program, cs, e.callee),
        ResolutionKind::Indirect => !cs.is_direct && ctn(pag, cs.id) is Some
            && exists|l: LocId| #[trigger] fn_of(pag, l) == Some(e.callee)
                && (retained ==> rpts(r, (ctn(pag, cs.id)->0).0 as int, l)),
        _ => false,
    }
}

/// No call site has two indirect edges to the same callee.
pub open spec fn indirect_unique(edges: Seq<CallGraphEdge>) -> bool {
    forall|i: int, j: int| 0 <= i < j < edges.len() && (#[trigger] edges[i]).resolution == ResolutionKind::Indirect
        && (#[trigger] edges[j]).resolution == ResolutionKind::Indirect && edges[i].call_site == edges[j].call_site
        ==> edges[i].callee != edges[j].callee
}

/// Every wired argument belongs to an edge of the call graph: its call
/// site has an edge to the callee, the position is one of the callee's
/// parameters, and the site has an argument there.
pub open spec fn wired_justified(program: Program, r: AnalysisResult) -> bool {
    let sites = program.symbols.call_sites@;
    forall|w: (CallSiteId, u32, FnId)| #[trigger] r.wired_arg_flow@.contains(w) ==> {
        &&& (w.0.0 as int) < sites.len()
        &&& exists|i: int| 0 <= i < r.call_edges@.len() && (#[trigger] r.call_edges@[i]).call_site == w.0 && r.call_edges@[i].callee == w.2
        &&& fn_index(program.symbols.functions@, w.2) >= 0
        &&& (w.1 as int) < params_of(program, w.2).len()
        &&& has_arg(sites[w.0.0 as int], w.1)
    }
}

/// The retained points-to sets are closed: copies are included, address-of
/// locations are in, and every indirect call site has an edge to every
/// function its target points to.
pub open spec fn result_closed(program: Program, pag: Pag, r: AnalysisResult) -> bool {
    let cons = pag.constraints@;
    let sites = program.symbols.call_sites@;
    &&& forall|i: int, l: LocId| 0 <= i < cons.len() && (#[trigger] cons[i]).kind == ConstraintKind::Copy
        && #[trigger] rpts(r, cons[i].src.0 as int, l) ==> rpts(r, cons[i].dst.0 as int, l)
    &&& forall|i: int| 0 <= i < cons.len() && (#[trigger] cons[i]).kind == ConstraintKind::AddrOf
        ==> (pag.nodes@[cons[i].src.0 as int].kind matches PagNodeKind::Loc(l) ==> rpts(r, cons[i].dst.0 as int, l))
    &&& forall|k: int, l: LocId| 0 <= k < sites.len() && !(#[trigger] sites[k]).is_direct && ctn(pag, sites[k].id) is Some
        && #[trigger] rpts(r, (ctn(pag, sites[k].id)->0).0 as int, l) && fn_of(pag, l) is Some
        ==> r.call_edges@.contains(ind_edge(program, sites[k].id, fn_of(pag, l)->0))
}

/// The non-empty points-to sets, by node.
fn collect_points_to(st: &SolverState) -> (r: Vec<(PagNodeId, Vec<LocId>)>)
    requires
        st.pts@.len() <= u32::MAX,
    ensures
        forall|n: int, l: LocId| (exists|i: int| 0 <= i < r@.len() && (#[trigger] r@[i]).0.0 == n && r@[i].1@.contains(l))
            == in_pts(*st, n, l),
{
    let mut out: Vec<(PagNodeId, Vec<LocId>)> = Vec::new();
    let mut k: usize = 0;
    while k < st.pts.len()
        invariant
            k <= st.pts@.len(),
            st.pts@.len() <= u32::MAX,
            forall|i: int| 0 <= i < out@.len() ==> ((#[trigger] out@[i]).0.0 as int) < k
                && out@[i].1@ == st.pts@[out@[i].0.0 as int]@,
            forall|n: int| 0 <= n < k && (#[trigger] st.pts@[n])@.len() > 0
                ==> exists|i: int| 0 <= i < out@.len() && (#[trigger] out@[i]).0.0 == n,
        decreases st.pts@.len() - k,
    {
        if st.pts[k].len() > 0 {
            let ghost before = out@;
            out.push((PagNodeId(k as u32), copy_locs(&st.pts[k])));
            proof {
                assert(out@[out@.len() - 1].0.0 == k);
                assert forall|n: int| 0 <= n < k + 1 && (#[trigger] st.pts@[n])@.len() > 0
                    implies exists|i: int| 0 <= i < out@.len() && (#[trigger] out@[i]).0.0 == n by {
                    if n < k {
                        let i = choose|i: int| 0 <= i < before.len() && (#[trigger] before[i]).0.0 == n;
                        assert(out@[i] == before[i]);
                    } else {
                        assert(out@[out@.len() - 1].0.0 == n);
                    }
                }
            }
        }
        k = k + 1;
    }
    proof {
        assert forall|n: int, l: LocId| (exists|i: int| 0 <= i < out@.len() && (#[trigger] out@[i]).0.0 == n && out@[i].1@.contains(l))
            == in_pts(*st, n, l) by {
            if in_pts(*st, n, l) {
                assert(st.pts@[n]@.len() > 0);
                let i = choose|i: int| 0 <= i < out@.len() && (#[trigger] out@[i]).0.0 == n;
                assert(out@[i].1@ == st.pts@[n]@);
            }
        }
    }
    out
}

/// The invariant's edge soundness, stated over the retained sets.
proof fn lemma_final_justified(program: Program, pag: Pag, st: SolverState, res: AnalysisResult, retain: bool,
    resolved: Seq<Vec<FnId>>)
    requires
        edges_ok(program, pag, st, res.call_edges@, resolved, res.wired_arg_flow@),
        retain ==> forall|n: int, l: LocId| #[trigger] rpts(res, n, l) == in_pts(st, n, l),
    ensures
        edges_justified(program, pag, res, retain),
        indirect_unique(res.call_edges@),
        wired_justified(program, res),
{
    let es = res.call_edges@;
    assert forall|i2: int| 0 <= i2 < es.len() implies edge_justified(program, pag, res, retain, #[trigger] es[i2]) by {
        let e = es[i2];
        assert(edge_sound(program, pag, st, e));
        if e.resolution == ResolutionKind::Indirect {
            let cs = program.symbols.call_sites@[e.call_site.0 as int];
            let t = (ctn(pag, cs.id)->0).0 as int;
            let l = choose|l: LocId| #[trigger] in_pts(st, t, l) && fn_of(pag, l) == Some(e.callee);
            if retain {
                assert(rpts(res, t, l));
            }
            assert(fn_of(pag, l) == Some(e.callee) && (retain ==> rpts(res, t, l)));
        }
    }
}

/// The direct edges seeded first are still there.
proof fn lemma_final_direct(program: Program, ed: Seq<CallGraphEdge>, es: Seq<CallGraphEdge>)
    requires
        direct_complete(program, ed),
        edges_extend(ed, es),
    ensures
        direct_complete(program, es),
{
    assert forall|q: int| 0 <= q < program.symbols.call_sites@.len() implies
        site_direct_ok(program, es, #[trigger] program.symbols.call_sites@[q]) by {
        let cs = program.symbols.call_sites@[q];
        assert(site_direct_ok(program, ed, cs));
        if cs.is_direct {
            match scope_pick(program.symbols.functions@, program.symbols.fn_by_name@, cs.callee_name@, Some(cs.span.file)) {
                Some(f) => { lemma_extend_contains(ed, es, dir_edge(cs, f)); },
                None => {},
            }
        }
        if !cs.is_direct && direct_by_name_spec(cs) {
            assert forall|g: FnId| is_candidate(program.symbols, cs.callee_name@, Some(cs.span.file), g)
                implies #[trigger] es.contains(dir_edge(cs, g)) by {
                lemma_extend_contains(ed, es, dir_edge(cs, g));
            }
        }
    }
}

/// At a fixpoint the retained sets are closed.
proof fn lemma_final_closed(program: Program, pag: Pag, st: SolverState, res: AnalysisResult)
    requires
        closure(program, pag, st, res.call_edges@, -1),
        forall|n: int| !(#[trigger] is_queued(st, n)),
        forall|n: int, l: LocId| #[trigger] rpts(res, n, l) == in_pts(st, n, l),
    ensures
        result_closed(program, pag, res),
{
    let cons = pag.constraints@;
    let sites = program.symbols.call_sites@;
    assert forall|i2: int, l: LocId| 0 <= i2 < cons.len() && (#[trigger] cons[i2]).kind == ConstraintKind::Copy
        && #[trigger] rpts(res, cons[i2].src.0 as int, l) implies rpts(res, cons[i2].dst.0 as int, l) by {
        assert(!is_queued(st, cons[i2].src.0 as int));
        assert(in_pts(st, cons[i2].src.0 as int, l));
    }
    assert forall|i2: int| 0 <= i2 < cons.len() && (#[trigger] cons[i2]).kind == ConstraintKind::AddrOf
        implies (pag.nodes@[cons[i2].src.0 as int].kind matches PagNodeKind::Loc(l) ==> rpts(res, cons[i2].dst.0 as int, l)) by {
        assert(!is_queued(st, cons[i2].dst.0 as int));
        if let PagNodeKind::Loc(l) = pag.nodes@[cons[i2].src.0 as int].kind {
            assert(in_pts(st, cons[i2].dst.0 as int, l));
        }
    }
    assert forall|k2: int, l: LocId| 0 <= k2 < sites.len() && !(#[trigger] sites[k2]).is_direct && ctn(pag, sites[k2].id) is Some
        && #[trigger] rpts(res, (ctn(pag, sites[k2].id)->0).0 as int, l) && fn_of(pag, l) is Some
        implies res.call_edges@.contains(ind_edge(program, sites[k2].id, fn_of(pag, l)->0)) by {
        assert(!is_queued(st, (ctn(pag, sites[k2].id)->0).0 as int));
        assert(in_pts(st, (ctn(pag, sites[k2].id)->0).0 as int, l));
    }
}

/// Points-to solving to a fixpoint (or until `max_pops` nodes have been
/// taken off the worklist), building the call graph on the way. Returns
/// the result and whether the worklist ran empty.
fn solve(pag: &mut Pag, program: &Program, retain: bool, max_pops: u64) -> (r: (AnalysisResult, bool))
    requires
        pag_wf(*old(pag)),
        program_wf(*program),
        locs_ok(*old(pag), *program),
        indices_wf(*program, *old(pag)),
        pag_built(*program, *old(pag)),
    ensures
        pag_wf(*final(pag)),
        pag_grows(*old(pag), *final(pag)),
        same_flow_tables(*old(pag), *final(pag)),
        locs_ok(*final(pag), *program),
        edges_justified(*program, *final(pag), r.0, retain),
        direct_complete(*program, r.0.call_edges@),
        indirect_unique(r.0.call_edges@),
        direct_unique(r.0.call_edges@),
        wired_justified(*program, r.0),
        r.0.arg_flow_edges@.len() == 0,
        !retain ==> r.0.points_to@.len() == 0,
        r.1 && retain ==> result_closed(*program, *final(pag), r.0),
{
    let ghost p0 = *pag;
    let mut st = SolverState::new(pag.nodes.len(), pag.locations.len());
    let mut i: usize = 0;
    while i < pag.constraints.len()
        invariant
            i <= pag.constraints@.len(),
            *pag == p0,
            pag_wf(*pag),
            st_fits(st, *pag),
            forall|n: int, l: LocId| !(#[trigger] in_pts(st, n, l)),
            forall|m: int, x: LocId| !(#[trigger] in_mem(st, m, x)),
            forall|j: int| 0 <= j < i ==> is_queued(st, (#[trigger] pag.constraints@[j]).dst.0 as int)
                && is_queued(st, pag.constraints@[j].src.0 as int),
        decreases pag.constraints@.len() - i,
    {
        let c = pag.constraints[i];
        let ghost b = st;
        st.push(c.dst);
        let ghost b1 = st;
        st.push(c.src);
        proof {
            assert forall|j: int| 0 <= j < i + 1 implies is_queued(st, (#[trigger] pag.constraints@[j]).dst.0 as int)
                && is_queued(st, pag.constraints@[j].src.0 as int) by {
                if j < i {
                    assert(is_queued(b, pag.constraints@[j].dst.0 as int));
                    assert(is_queued(b, pag.constraints@[j].src.0 as int));
                }
            }
        }
        i = i + 1;
    }
    let mut edges: Vec<CallGraphEdge> = Vec::new();
    let mut resolved: Vec<Vec<FnId>> = Vec::new();
    let mut k: usize = 0;
    while k < program.symbols.call_sites.len()
        invariant
            k <= program.symbols.call_sites@.len(),
            resolved@.len() == k,
            forall|j: int| 0 <= j < k ==> (#[trigger] resolved@[j])@.len() == 0,
        decreases program.symbols.call_sites@.len() - k,
    {
        resolved.push(Vec::new());
        k = k + 1;
    }
    let mut wired: Vec<(CallSiteId, u32, FnId)> = Vec::new();
    proof {
        assert(vars_have_nodes(*program, *pag));
        assert(closure(*program, *pag, st, edges@, -1));
        assert(edges_ok(*program, *pag, st, edges@, resolved@, wired@));
    }
    let ghost sa = st;
    seed_statics(pag, program, &mut st);
    let ghost sb = st;
    seed_direct(pag, program, &mut st, &mut edges, &resolved, &mut wired);
    let ghost sc = st;
    let ghost ed = edges@;
    proof {
        lemma_step_trans(sa, sb, sc);
        lemma_mem_same_requeued(sa, sc);
        assert forall|e: CallGraphEdge| #[trigger] Seq::<CallGraphEdge>::empty().contains(e) implies edges@.contains(e) by {}
        lemma_closure_step(*program, p0, p0, sa, sc, Seq::empty(), edges@, -1);
    }
    let mut pops: u64 = 0;
    while pops < max_pops
        invariant
            step_ready(*pag, *program, st),
            vars_have_nodes(*program, *pag),
            indices_wf(*program, *pag),
            pag_grows(p0, *pag),
            same_flow_tables(p0, *pag),
            edges_ok(*program, *pag, st, edges@, resolved@, wired@),
            closure(*program, *pag, st, edges@, -1),
            edges_extend(ed, edges@),
            direct_complete(*program, ed),
        decreases max_pops - pops,
    {
        let ghost s0 = st;
        let popped = st.pop();
        match popped {
            None => {
                proof {
                    lemma_closure_pop(*program, *pag, s0, st, edges@, -1);
                    lemma_edges_ok_pts(*program, *pag, s0, st, edges@, resolved@, wired@);
                }
                break;
            },
            Some(node) => {
                proof {
                    lemma_closure_pop(*program, *pag, s0, st, edges@, node.0 as int);
                    lemma_edges_ok_pts(*program, *pag, s0, st, edges@, resolved@, wired@);
                }
                let ghost pb = *pag;
                let ghost eb = edges@;
                process_node(pag, program, &mut st, node, &mut edges, &mut resolved, &mut wired);
                proof {
                    lemma_grows_trans(p0, pb, *pag);
                    assert(forall|q: int| 0 <= q < eb.len() ==> #[trigger] edges@[q] == eb[q]);
                    assert forall|q: int| 0 <= q < ed.len() implies #[trigger] edges@[q] == ed[q] by {
                        assert(eb[q] == ed[q]);
                    }
                    assert forall|q: int| 0 <= q < program.symbols.call_sites@.len() implies
                        site_direct_ok(*program, ed, #[trigger] program.symbols.call_sites@[q]) by {}
                    assert forall|i2: int| 0 <= i2 < program.symbols.variables@.len() implies
                        vn(*pag, #[trigger] program.symbols.variables@[i2].id) is Some by {
                        assert(km_lookup(pb.var_node.entries@, program.symbols.variables@[i2].id.0 as u64) is Some);
                    }
                }
                pops = pops + 1;
            },
        }
    }
    let converged = st.worklist.len() == 0;
    let result_pts = if retain { collect_points_to(&st) } else { Vec::new() };
    let res = AnalysisResult {
        points_to: result_pts,
        call_edges: edges,
        arg_flow_edges: Vec::new(),
        wired_arg_flow: wired,
    };
    proof {
        assert(res.points_to@ == result_pts@);
        assert(retain ==> forall|n: int, l: LocId| #[trigger] rpts(res, n, l) == in_pts(st, n, l));
        lemma_final_justified(*program, *pag, st, res, retain, resolved@);
        lemma_final_direct(*program, ed, res.call_edges@);
        if converged && retain {
            lemma_empty_worklist(st, pag.nodes@.len() as int, pag.locations@.len() as int);
            lemma_final_closed(*program, *pag, st, res);
        }
    }
    (res, converged)
}

/// The argument-flow row of edge `e` for parameter position `i`.
pub open spec fn arg_edge(program: Program, e: CallGraphEdge, i: u32) -> ArgFlowEdge {
    let cs = program.symbols.call_sites@[e.call_site.0 as int];
    let formal = params_of(program, e.callee)[i as int];
    match first_arg(cs.var_args@, i) {
        Some(v) => ArgFlowEdge { call_site: e.call_site, arg_index: i, actual_var: Some(v), actual_fn: None, formal },
        None => ArgFlowEdge { call_site: e.call_site, arg_index: i, actual_var: None, actual_fn: first_arg(cs.fn_args@, i), formal },
    }
}

/// The argument-flow rows are those of the wired positions of the edges:
/// each row belongs to an edge and a wired position where the site has an
/// argument, and each such position of each edge has its row.
pub open spec fn arg_flow_ok(program: Program, r: AnalysisResult) -> bool {
    let es = r.call_edges@;
    let sites = program.symbols.call_sites@;
    &&& forall|j: int| 0 <= j < r.arg_flow_edges@.len() ==> exists|i: int| 0 <= i < es.len() && {
        let a = #[trigger] r.arg_flow_edges@[j];
        &&& r.wired_arg_flow@.contains((es[i].call_site, a.arg_index, es[i].callee))
        &&& (a.arg_index as int) < params_of(program, es[i].callee).len()
        &&& has_arg(sites[es[i].call_site.0 as int], a.arg_index)
        &&& a == arg_edge(program, #[trigger] es[i], a.arg_index)
    }
    &&& forall|i: int, q: int| 0 <= i < es.len() && 0 <= q < params_of(program, es[i].callee).len() && q <= u32::MAX
        && r.wired_arg_flow@.contains((es[i].call_site, q as u32, es[i].callee))
        && has_arg(sites[es[i].call_site.0 as int], q as u32)
        ==> r.arg_flow_edges@.contains(#[trigger] arg_edge(program, #[trigger] es[i], q as u32))
}

/// Argument-flow rows for the wired parameter positions of each edge.
fn extract_arg_flow(program: &Program, r: &AnalysisResult) -> (out: Vec<ArgFlowEdge>)
    requires
        program_wf(*program),
        edges_justified_sites(*program, r.call_edges@),
    ensures
        arg_flow_ok(*program, AnalysisResult { arg_flow_edges: out, ..*r }),
{
    let ghost es = r.call_edges@;
    let mut out: Vec<ArgFlowEdge> = Vec::new();
    let mut k: usize = 0;
    while k < r.call_edges.len()
        invariant
            k <= es.len(),
            es == r.call_edges@,
            program_wf(*program),
            edges_justified_sites(*program, es),
            forall|j: int| 0 <= j < out@.len() ==> exists|i: int| 0 <= i < k && {
                let a = #[trigger] out@[j];
                &&& r.wired_arg_flow@.contains((es[i].call_site, a.arg_index, es[i].callee))
                &&& (a.arg_index as int) < params_of(*program, es[i].callee).len()
                &&& has_arg(program.symbols.call_sites@[es[i].call_site.0 as int], a.arg_index)
                &&& a == arg_edge(*program, #[trigger] es[i], a.arg_index)
            },
            forall|i: int, q: int| 0 <= i < k && 0 <= q < params_of(*program, es[i].callee).len() && q <= u32::MAX
                && r.wired_arg_flow@.contains((es[i].call_site, q as u32, es[i].callee))
                && has_arg(program.symbols.call_sites@[es[i].call_site.0 as int], q as u32)
                ==> out@.contains(#[trigger] arg_edge(*program, #[trigger] es[i], q as u32)),
        decreases es.len() - k,
    {
        let e = r.call_edges[k];
        proof {
            assert(program.symbols.call_sites@[e.call_site.0 as int].id.0 == e.call_site.0);
        }
        let cs = &program.symbols.call_sites[e.call_site.0 as usize];
        let callee = program.symbols.function(e.callee);
        let params = &callee.params;
        let ghost ok = out@;
        let mut i: usize = 0;
        while i < params.len() && i <= 0xffff_ffff
            invariant
                i <= params@.len(),
                k < es.len(),
                e == es[k as int],
                *cs == program.symbols.call_sites@[e.call_site.0 as int],
                params@ == params_of(*program, e.callee),
                forall|j: int| 0 <= j < ok.len() ==> #[trigger] out@[j] == ok[j],
                ok.len() <= out@.len(),
                forall|j: int| ok.len() <= j < out@.len() ==> {
                    let a = #[trigger] out@[j];
                    &&& r.wired_arg_flow@.contains((e.call_site, a.arg_index, e.callee))
                    &&& (a.arg_index as int) < params@.len()
                    &&& has_arg(*cs, a.arg_index)
                    &&& a == arg_edge(*program, e, a.arg_index)
                },
                forall|q: int| 0 <= q < i && q <= u32::MAX && r.wired_arg_flow@.contains((e.call_site, q as u32, e.callee))
                    && has_arg(*cs, q as u32) ==> out@.contains(#[trigger] arg_edge(*program, e, q as u32)),
            decreases params@.len() - i,
        {
            let idx = i as u32;
            let ghost oi = out@;
            if wired_contains(&r.wired_arg_flow, (e.call_site, idx, e.callee)) {
                let formal = params[i];
                match find_var_arg(&cs.var_args, idx) {
                    Some(actual) => {
                        out.push(ArgFlowEdge { call_site: e.call_site, arg_index: idx, actual_var: Some(actual), actual_fn: None, formal });
                    },
                    None => {
                        if let Some(f) = find_fn_arg(&cs.fn_args, idx) {
                            out.push(ArgFlowEdge { call_site: e.call_site, arg_index: idx, actual_var: None, actual_fn: Some(f), formal });
                        }
                    },
                }
            }
            proof {
                assert forall|j: int| 0 <= j < ok.len() implies #[trigger] out@[j] == ok[j] by {
                    assert(oi[j] == ok[j]);
                }
                assert forall|q: int| 0 <= q < i + 1 && q <= u32::MAX && r.wired_arg_flow@.contains((e.call_site, q as u32, e.callee))
                    && has_arg(*cs, q as u32) implies out@.contains(#[trigger] arg_edge(*program, e, q as u32)) by {
                    if q < i {
                        let a = arg_edge(*program, e, q as u32);
                        assert(oi.contains(a));
                        let w = choose|w: int| 0 <= w < oi.len() && oi[w] == a;
                        assert(out@[w] == a);
                    } else {
                        assert(out@[out@.len() - 1] == arg_edge(*program, e, idx));
                    }
                }
            }
            i = i + 1;
        }
        proof {
            assert forall|j: int| 0 <= j < out@.len() implies exists|i2: int| 0 <= i2 < k + 1 && {
                let a = #[trigger] out@[j];
                &&& r.wired_arg_flow@.contains((es[i2].call_site, a.arg_index, es[i2].callee))
                &&& (a.arg_index as int) < params_of(*program, es[i2].callee).len()
                &&& has_arg(program.symbols.call_sites@[es[i2].call_site.0 as int], a.arg_index)
                &&& a == arg_edge(*program, #[trigger] es[i2], a.arg_index)
            } by {
                if j < ok.len() {
                    assert(out@[j] == ok[j]);
                } else {
                    assert(es[k as int] == e);
                }
            }
            assert forall|i2: int, q: int| 0 <= i2 < k + 1 && 0 <= q < params_of(*program, es[i2].callee).len() && q <= u32::MAX
                && r.wired_arg_flow@.contains((es[i2].call_site, q as u32, es[i2].callee))
                && has_arg(program.symbols.call_sites@[es[i2].call_site.0 as int], q as u32)
                implies out@.contains(#[trigger] arg_edge(*program, #[trigger] es[i2], q as u32)) by {
                if i2 < k {
                    let a = arg_edge(*program, es[i2], q as u32);
                    assert(ok.contains(a));
                    let w = choose|w: int| 0 <= w < ok.len() && ok[w] == a;
                    assert(out@[w] == a);
                } else {
                    if q >= params@.len() || q > u32::MAX {
                    }
                }
            }
        }
        k = k + 1;
    }
    out
}

/// Each edge's call site and callee exist.
pub open spec fn edges_justified_sites(program: Program, es: Seq<CallGraphEdge>) -> bool {
    forall|i: int| 0 <= i < es.len() ==> (#[trigger] es[i].call_site.0 as int) < program.symbols.call_sites@.len()
        && fn_index(program.symbols.functions@, es[i].callee) >= 0
}

/// What an analysis run guarantees of its graph and result.
pub open spec fn analysis_ok(program: Program, pag: Pag, r: AnalysisResult, retained: bool) -> bool {
    &&& pag_wf(pag)
    &&& edges_justified(program, pag, r, retained)
    &&& indirect_unique(r.call_edges@)
    &&& direct_unique(r.call_edges@)
    &&& wired_justified(program, r)
    &&& arg_flow_ok(program, r)
    &&& (!retained ==> r.points_to@.len() == 0)
    &&& (has_room(pag) ==> direct_complete(program, r.call_edges@))
}

/// A call that lowering saw as direct has exactly one edge in an analysis
/// result: a direct edge to the function its name denotes from its file
/// (a file-static definition before the external one), and none when the
/// name denotes no function.
pub proof fn lemma_direct_call_single_edge(program: Program, pag: Pag, r: AnalysisResult, retained: bool, k: int)
    requires
        program_wf(program),
        analysis_ok(program, pag, r, retained),
        has_room(pag),
        0 <= k < program.symbols.call_sites@.len(),
        program.symbols.call_sites@[k].is_direct,
    ensures
        forall|i: int| 0 <= i < r.call_edges@.len() && (#[trigger] r.call_edges@[i]).call_site == program.symbols.call_sites@[k].id
            ==> scope_pick(program.symbols.functions@, program.symbols.fn_by_name@, program.symbols.call_sites@[k].callee_name@,
                Some(program.symbols.call_sites@[k].span.file)) == Some(r.call_edges@[i].callee)
            && r.call_edges@[i] == dir_edge(program.symbols.call_sites@[k], r.call_edges@[i].callee),
        forall|i: int, j: int| 0 <= i < j < r.call_edges@.len()
            && (#[trigger] r.call_edges@[i]).call_site == program.symbols.call_sites@[k].id
            ==> (#[trigger] r.call_edges@[j]).call_site != program.symbols.call_sites@[k].id,
        scope_pick(program.symbols.functions@, program.symbols.fn_by_name@, program.symbols.call_sites@[k].callee_name@,
            Some(program.symbols.call_sites@[k].span.file)) matches Some(f)
            ==> r.call_edges@.contains(dir_edge(program.symbols.call_sites@[k], f)),
{
    let sites = program.symbols.call_sites@;
    let cs = sites[k];
    let es = r.call_edges@;
    assert(cs.id.0 == k);
    assert forall|i: int| 0 <= i < es.len() && (#[trigger] es[i]).call_site == cs.id implies
        scope_pick(program.symbols.functions@, program.symbols.fn_by_name@, cs.callee_name@, Some(cs.span.file)) == Some(es[i].callee)
        && es[i] == dir_edge(cs, es[i].callee) by {
        assert(edge_justified(program, pag, r, retained, es[i]));
    }
    assert forall|i: int, j: int| 0 <= i < j < es.len() && (#[trigger] es[i]).call_site == cs.id
        implies (#[trigger] es[j]).call_site != cs.id by {
        if es[j].call_site == cs.id {
            assert(edge_justified(program, pag, r, retained, es[i]));
            assert(edge_justified(program, pag, r, retained, es[j]));
        }
    }
    assert(site_direct_ok(program, es, sites[k]));
}

/// Analyzes `program`, taking at most `max_pops` nodes off the worklist;
/// also returns whether the worklist ran empty. When it did, and the
/// points-to sets are retained, they are closed under the copy and
/// address-of constraints and every indirect call site has an edge to
/// every function its target points to.
pub fn analyze_with_budget(program: &Program, opts: AnalyzeOptions, max_pops: u64) -> (r: (Pag, AnalysisResult, bool))
    requires
        program_wf(*program),
    ensures
        analysis_ok(*program, r.0, r.1, opts.retain_points_to),
        r.2 && opts.retain_points_to ==> result_closed(*program, r.0, r.1),
{
    let mut pag = Pag::build(program);
    if !pag.room() {
        let empty = AnalysisResult {
            points_to: Vec::new(),
            call_edges: Vec::new(),
            arg_flow_edges: Vec::new(),
            wired_arg_flow: Vec::new(),
        };
        return (pag, empty, false);
    }
    let ghost p0 = pag;
    let (result, converged) = solve(&mut pag, program, opts.retain_points_to, max_pops);
    proof {
        assert forall|i: int| 0 <= i < result.call_edges@.len() implies
            (#[trigger] result.call_edges@[i].call_site.0 as int) < program.symbols.call_sites@.len()
            && fn_index(program.symbols.functions@, result.call_edges@[i].callee) >= 0 by {
            assert(edge_justified(*program, pag, result, opts.retain_points_to, result.call_edges@[i]));
        }
    }
    let arg_flow = extract_arg_flow(program, &result);
    let ghost r0 = result;
    let AnalysisResult { points_to, call_edges, arg_flow_edges: _, wired_arg_flow } = result;
    let result = AnalysisResult { points_to, call_edges, arg_flow_edges: arg_flow, wired_arg_flow };
    proof {
        assert(result.points_to == r0.points_to);
        assert forall|n: int, l: LocId| #[trigger] rpts(result, n, l) == rpts(r0, n, l) by {
            if rpts(r0, n, l) {
                let i = choose|i: int| 0 <= i < r0.points_to@.len() && (#[trigger] r0.points_to@[i]).0.0 == n && r0.points_to@[i].1@.contains(l);
                assert(result.points_to@[i] == r0.points_to@[i]);
            }
            if rpts(result, n, l) {
                let i = choose|i: int| 0 <= i < result.points_to@.len() && (#[trigger] result.points_to@[i]).0.0 == n && result.points_to@[i].1@.contains(l);
                assert(result.points_to@[i] == r0.points_to@[i]);
            }
        }
        assert forall|i: int| 0 <= i < result.call_edges@.len() implies
            edge_justified(*program, pag, result, opts.retain_points_to, #[trigger] result.call_edges@[i]) by {
            assert(edge_justified(*program, pag, r0, opts.retain_points_to, r0.call_edges@[i]));
        }
        assert forall|w: (CallSiteId, u32, FnId)| #[trigger] result.wired_arg_flow@.contains(w) implies
            exists|i: int| 0 <= i < result.call_edges@.len() && (#[trigger] result.call_edges@[i]).call_site == w.0
                && result.call_edges@[i].callee == w.2 by {
            assert(r0.wired_arg_flow@.contains(w));
        }
    }
    (pag, result, converged)
}

/// Analyzes `program` to its fixpoint.
pub fn analyze_with_options(program: &Program, opts: AnalyzeOptions) -> (r: (Pag, AnalysisResult))
    requires
        program_wf(*program),
    ensures
        analysis_ok(*program, r.0, r.1, opts.retain_points_to),
{
    let (pag, result, _) = analyze_with_budget(program, opts, u64::MAX);
    (pag, result)
}

/// Analyzes `program` with the default options (points-to sets dropped).
pub fn analyze(program: &Program) -> (r: (Pag, AnalysisResult))
    requires
        program_wf(*program),
    ensures
        analysis_ok(*program, r.0, r.1, false),
{
    let opts = AnalyzeOptions::default();
    analyze_with_options(program, opts)
}
} // verus!

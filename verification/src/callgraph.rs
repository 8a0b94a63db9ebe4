//! The call graph that the solver builds.

use vstd::prelude::*;
use crate::constraints::CallGraphEdge;
use crate::ids::{CallSiteId, FnId};

verus! {

/// Call edges, in the order they were found.
#[derive(Debug)]
pub struct CallGraph {
    pub edges: Vec<CallGraphEdge>,
}

/// The callees of `caller`'s edges, in edge order.
pub open spec fn callees_spec(es: Seq<CallGraphEdge>, caller: FnId) -> Seq<FnId>
    decreases es.len(),
{
    if es.len() == 0 {
        Seq::empty()
    } else {
        callees_spec(es.drop_last(), caller) + if es.last().caller == caller { seq![es.last().callee] } else { Seq::empty() }
    }
}

/// The (caller, call site) of the edges into `callee`, in edge order.
pub open spec fn callers_spec(es: Seq<CallGraphEdge>, callee: FnId) -> Seq<(FnId, CallSiteId)>
    decreases es.len(),
{
    if es.len() == 0 {
        Seq::empty()
    } else {
        callers_spec(es.drop_last(), callee)
            + if es.last().callee == callee { seq![(es.last().caller, es.last().call_site)] } else { Seq::empty() }
    }
}

/// How many times `b` occurs in `s`.
pub open spec fn count_fn(s: Seq<FnId>, b: FnId) -> nat
    decreases s.len(),
{
    if s.len() == 0 { 0 } else { count_fn(s.drop_last(), b) + if s.last() == b { 1nat } else { 0nat } }
}

/// How many entries of `s` name caller `a`.
pub open spec fn count_caller(s: Seq<(FnId, CallSiteId)>, a: FnId) -> nat
    decreases s.len(),
{
    if s.len() == 0 { 0 } else { count_caller(s.drop_last(), a) + if s.last().0 == a { 1nat } else { 0nat } }
}

/// How many edges go from `a` to `b`.
pub open spec fn edge_count(es: Seq<CallGraphEdge>, a: FnId, b: FnId) -> nat
    decreases es.len(),
{
    if es.len() == 0 {
        0
    } else {
        edge_count(es.drop_last(), a, b) + if es.last().caller == a && es.last().callee == b { 1nat } else { 0nat }
    }
}

/// `b` is listed among `a`'s callees as often as `a` is listed among
/// `b`'s callers: once per edge from `a` to `b`.
pub proof fn lemma_callees_callers_agree(es: Seq<CallGraphEdge>, a: FnId, b: FnId)
    ensures
        count_fn(callees_spec(es, a), b) == edge_count(es, a, b),
        count_caller(callers_spec(es, b), a) == edge_count(es, a, b),
    decreases es.len(),
{
    if es.len() > 0 {
        lemma_callees_callers_agree(es.drop_last(), a, b);
        let e = es.last();
        let c0 = callees_spec(es.drop_last(), a);
        let r0 = callers_spec(es.drop_last(), b);
        if e.caller == a {
            assert((c0 + seq![e.callee]).drop_last() =~= c0);
        } else {
            assert(c0 + Seq::<FnId>::empty() =~= c0);
        }
        if e.callee == b {
            assert((r0 + seq![(e.caller, e.call_site)]).drop_last() =~= r0);
        } else {
            assert(r0 + Seq::<(FnId, CallSiteId)>::empty() =~= r0);
        }
    }
}

/// Some edge goes from `x.0` into `b` at call site `x.1`.
pub open spec fn edge_into(es: Seq<CallGraphEdge>, b: FnId, x: (FnId, CallSiteId)) -> bool {
    exists|i: int| 0 <= i < es.len() && (#[trigger] es[i]).callee == b && es[i].caller == x.0 && es[i].call_site == x.1
}

/// Some edge goes from `a` to `g`.
pub open spec fn edge_from(es: Seq<CallGraphEdge>, a: FnId, g: FnId) -> bool {
    exists|i: int| 0 <= i < es.len() && (#[trigger] es[i]).caller == a && es[i].callee == g
}

/// `callers_of(b)` lists exactly the edges into `b`: each entry is the
/// caller and call site of an edge whose callee is `b`, and every such edge
/// has its entry.
pub proof fn lemma_callers_are_edges(es: Seq<CallGraphEdge>, b: FnId)
    ensures
        forall|j: int| 0 <= j < callers_spec(es, b).len() ==> edge_into(es, b, #[trigger] callers_spec(es, b)[j]),
        forall|i: int| 0 <= i < es.len() && (#[trigger] es[i]).callee == b
            ==> callers_spec(es, b).contains((es[i].caller, es[i].call_site)),
    decreases es.len(),
{
    if es.len() > 0 {
        let p = es.drop_last();
        lemma_callers_are_edges(p, b);
        let e = es.last();
        let r0 = callers_spec(p, b);
        let r = callers_spec(es, b);
        let tail = if e.callee == b { seq![(e.caller, e.call_site)] } else { Seq::<(FnId, CallSiteId)>::empty() };
        assert(r == r0 + tail);
        assert forall|j: int| 0 <= j < r.len() implies edge_into(es, b, #[trigger] r[j]) by {
            if j < r0.len() {
                assert(r[j] == r0[j]);
                assert(edge_into(p, b, r0[j]));
                let i = choose|i: int| 0 <= i < p.len() && (#[trigger] p[i]).callee == b && p[i].caller == r0[j].0
                    && p[i].call_site == r0[j].1;
                assert(es[i] == p[i]);
            } else {
                assert(r[j] == (e.caller, e.call_site));
                assert(es[es.len() - 1] == e);
            }
        }
        assert forall|i: int| 0 <= i < es.len() && (#[trigger] es[i]).callee == b
            implies r.contains((es[i].caller, es[i].call_site)) by {
            if i < p.len() {
                assert(es[i] == p[i]);
                assert(r0.contains((p[i].caller, p[i].call_site)));
                let j = choose|j: int| 0 <= j < r0.len() && r0[j] == (p[i].caller, p[i].call_site);
                assert(r[j] == r0[j]);
            } else {
                assert(es[i] == e);
                assert(r[r0.len() as int] == (e.caller, e.call_site));
            }
        }
    } else {
        assert(callers_spec(es, b).len() == 0);
    }
}

/// `callees_of(a)` lists exactly the edges out of `a`: each entry is the
/// callee of an edge whose caller is `a`, and every such edge has its
/// entry.
pub proof fn lemma_callees_are_edges(es: Seq<CallGraphEdge>, a: FnId)
    ensures
        forall|j: int| 0 <= j < callees_spec(es, a).len() ==> edge_from(es, a, #[trigger] callees_spec(es, a)[j]),
        forall|i: int| 0 <= i < es.len() && (#[trigger] es[i]).caller == a
            ==> callees_spec(es, a).contains(es[i].callee),
    decreases es.len(),
{
    if es.len() > 0 {
        let p = es.drop_last();
        lemma_callees_are_edges(p, a);
        let e = es.last();
        let r0 = callees_spec(p, a);
        let r = callees_spec(es, a);
        let tail = if e.caller == a { seq![e.callee] } else { Seq::<FnId>::empty() };
        assert(r == r0 + tail);
        assert forall|j: int| 0 <= j < r.len() implies edge_from(es, a, #[trigger] r[j]) by {
            if j < r0.len() {
                assert(r[j] == r0[j]);
                assert(edge_from(p, a, r0[j]));
                let i = choose|i: int| 0 <= i < p.len() && (#[trigger] p[i]).caller == a && p[i].callee == r0[j];
                assert(es[i] == p[i]);
            } else {
                assert(r[j] == e.callee);
                assert(es[es.len() - 1] == e);
            }
        }
        assert forall|i: int| 0 <= i < es.len() && (#[trigger] es[i]).caller == a
            implies r.contains(es[i].callee) by {
            if i < p.len() {
                assert(es[i] == p[i]);
                assert(r0.contains(p[i].callee));
                let j = choose|j: int| 0 <= j < r0.len() && r0[j] == p[i].callee;
                assert(r[j] == r0[j]);
            } else {
                assert(es[i] == e);
                assert(r[r0.len() as int] == e.callee);
            }
        }
    } else {
        assert(callees_spec(es, a).len() == 0);
    }
}

impl CallGraph {
    /// The functions `caller` calls, one per edge, in edge order.
    pub fn callees_of(&self, caller: FnId) -> (r: Vec<FnId>)
        ensures
            r@ == callees_spec(self.edges@, caller),
    {
        let mut r: Vec<FnId> = Vec::new();
        let mut k: usize = 0;
        while k < self.edges.len()
            invariant
                k <= self.edges@.len(),
                r@ == callees_spec(self.edges@.subrange(0, k as int), caller),
            decreases self.edges@.len() - k,
        {
            let e = self.edges[k];
            proof {
                assert(self.edges@.subrange(0, k + 1).drop_last() =~= self.edges@.subrange(0, k as int));
            }
            if e.caller == caller {
                r.push(e.callee);
            }
            proof {
                let s = self.edges@.subrange(0, k + 1);
                assert(s.last() == e);
                assert(r@ =~= callees_spec(s, caller));
            }
            k = k + 1;
        }
        assert(self.edges@.subrange(0, k as int) =~= self.edges@);
        r
    }

    /// The callers of `callee` with the call site of each edge, in edge
    /// order.
    pub fn callers_of(&self, callee: FnId) -> (r: Vec<(FnId, CallSiteId)>)
        ensures
            r@ == callers_spec(self.edges@, callee),
    {
        let mut r: Vec<(FnId, CallSiteId)> = Vec::new();
        let mut k: usize = 0;
        while k < self.edges.len()
            invariant
                k <= self.edges@.len(),
                r@ == callers_spec(self.edges@.subrange(0, k as int), callee),
            decreases self.edges@.len() - k,
        {
            let e = self.edges[k];
            proof {
                assert(self.edges@.subrange(0, k + 1).drop_last() =~= self.edges@.subrange(0, k as int));
            }
            if e.callee == callee {
                r.push((e.caller, e.call_site));
            }
            proof {
                let s = self.edges@.subrange(0, k + 1);
                assert(s.last() == e);
                assert(r@ =~= callers_spec(s, callee));
            }
            k = k + 1;
        }
        assert(self.edges@.subrange(0, k as int) =~= self.edges@);
        r
    }
}

} // verus!

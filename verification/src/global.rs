//! Dominance analysis over the CFG: iterative dominator sets, an
//! immediate-dominator tree derived from them, and dominance frontiers.
//!
//! A dominator set is carried as a characteristic bit row over node indices.
//! `find_dominators` returns the unique family of sets pinned down by
//! `dominators_spec`: each node is in its own set, the sets satisfy the
//! defining fixed-point equation, untouched no-predecessor nodes keep their
//! initial value, and the family is the pointwise-greatest solution.

use vstd::prelude::*;

use petgraph::graph::DiGraph;

use crate::cfg::BasicBlock;
use crate::graph::{graph_edges, graph_nodes, graph_preds, graph_wf};
use crate::sets::{
    count_true, lemma_count_true_lt, lemma_total_count_nonneg, lemma_total_count_update, set_of,
    total_count,
};
use vstd::pervasive::VecAdditionalExecFns;

verus! {

/// Whether node `v` has at least one incoming edge.
pub open spec fn has_pred(edges: Seq<(usize, usize)>, v: usize) -> bool {
    exists|p: usize| #[trigger] edges.contains((p, v))
}

/// Bit `w` of `{v} ∪ (intersection of the predecessors' dominator rows)`.
pub open spec fn dom_rhs_bit(
    edges: Seq<(usize, usize)>,
    ds: Seq<Seq<bool>>,
    v: usize,
    w: int,
) -> bool {
    w == v as int || (forall|p: usize| #[trigger] edges.contains((p, v)) ==> ds[p as int][w])
}

/// All node indices.
pub open spec fn full_set(n: int) -> Set<int> {
    Set::new(|w: int| 0 <= w < n)
}

/// A family `f` of candidate dominator sets lies below one sweep of the
/// update: each member of `f[v]` is justified by `v` itself or by all of
/// `v`'s predecessors, no-predecessor nodes other than the entry are
/// unconstrained, and the entry may only hold itself.
pub open spec fn dom_postconfig(edges: Seq<(usize, usize)>, n: int, f: Seq<Set<int>>) -> bool {
    &&& f.len() == n
    &&& forall|v: usize, w: int|
        v < n && (#[trigger] f[v as int].contains(w)) ==> (0 <= w < n && (if has_pred(edges, v) {
            w == v as int || (forall|p: usize| #[trigger] edges.contains((p, v)) ==> f[
                p as int
            ].contains(w))
        } else if v == 0 {
            w == 0
        } else {
            true
        }))
}

/// The full characterization of the dominator sets the iteration returns.
pub open spec fn dominators_spec(edges: Seq<(usize, usize)>, n: int, d: Seq<Set<int>>) -> bool {
    &&& d.len() == n
    &&& forall|v: usize| v < n ==> (#[trigger] d[v as int]).contains(v as int)
    &&& forall|v: usize, w: int| v < n && (#[trigger] d[v as int].contains(w)) ==> 0 <= w < n
    &&& forall|v: usize, w: int|
        v < n && has_pred(edges, v) ==> ((#[trigger] d[v as int].contains(w)) <==> (0 <= w < n && (
        w == v as int || (forall|p: usize| #[trigger] edges.contains((p, v)) ==> d[
            p as int
        ].contains(w)))))
    &&& forall|v: usize|
        0 < v < n && !has_pred(edges, v) ==> #[trigger] d[v as int] == full_set(n)
    &&& (n > 0 && !has_pred(edges, 0) ==> d[0] == Set::new(|w: int| w == 0))
    &&& (!has_pred(edges, 0) ==> forall|f: Seq<Set<int>>, v: usize, w: int|
        #![trigger dom_postconfig(edges, n, f), f[v as int].contains(w)]
        dom_postconfig(edges, n, f) && v < n && f[v as int].contains(w) ==> d[v as int].contains(
            w,
        ))
}

/// The dominator sets as index sets, row by row.
pub open spec fn doms_view(rows: Seq<Seq<bool>>) -> Seq<Set<int>> {
    Seq::new(rows.len(), |i: int| set_of(rows[i]))
}


/// One updated dominator row for `v`: bit `w` is set iff `w == v` or every
/// predecessor's current row has bit `w`.
fn dom_row(
    ds: &Vec<Vec<bool>>,
    preds: &Vec<usize>,
    v: usize,
    n: usize,
    Ghost(e): Ghost<Seq<(usize, usize)>>,
) -> (r: Vec<bool>)
    requires
        v < n,
        ds@.len() == n,
        forall|u: int| 0 <= u < n ==> #[trigger] ds.deep_view()[u].len() == n,
        forall|j: int| 0 <= j < preds@.len() ==> #[trigger] preds@[j] < n,
        forall|p: usize| #[trigger] preds@.contains(p) <==> e.contains((p, v)),
    ensures
        r@.len() == n,
        forall|w: int| 0 <= w < n ==> r@[w] == dom_rhs_bit(e, ds.deep_view(), v, w),
{
    broadcast use crate::sets::lemma_bool_row_view;

    let mut r: Vec<bool> = Vec::new();
    let mut w: usize = 0;
    while w < n
        invariant
            w <= n,
            v < n,
            r@.len() == w,
            ds@.len() == n,
            forall|u: int| 0 <= u < n ==> #[trigger] ds.deep_view()[u].len() == n,
            forall|j: int| 0 <= j < preds@.len() ==> #[trigger] preds@[j] < n,
            forall|p: usize| #[trigger] preds@.contains(p) <==> e.contains((p, v)),
            forall|j: int| 0 <= j < w ==> r@[j] == dom_rhs_bit(e, ds.deep_view(), v, j),
        decreases n - w,
    {
        if w == v {
            r.push(true);
        } else {
            let np = preds.len();
            let mut t: usize = 0;
            let mut all = true;
            while t < np
                invariant
                    t <= np,
                    np == preds@.len(),
                    v < n,
                    w < n,
                    ds@.len() == n,
                    forall|u: int| 0 <= u < n ==> #[trigger] ds.deep_view()[u].len() == n,
                    forall|j: int| 0 <= j < preds@.len() ==> #[trigger] preds@[j] < n,
                    forall|p: usize| #[trigger] preds@.contains(p) <==> e.contains((p, v)),
                    all <==> forall|j: int|
                        0 <= j < t ==> ds.deep_view()[#[trigger] preds@[j] as int][w as int],
                decreases np - t,
            {
                let p = preds[t];
                proof {
                    assert(ds.deep_view()[p as int] == ds@[p as int]@);
                }
                if !ds[p][w] {
                    all = false;
                }
                t += 1;
            }
            proof {
                if all {
                    assert forall|p: usize| #[trigger] e.contains((p, v)) implies ds.deep_view()[
                        p as int
                    ][w as int] by {
                        assert(preds@.contains(p));
                        let j = choose|j: int| 0 <= j < preds@.len() && preds@[j] == p;
                        assert(ds.deep_view()[preds@[j] as int][w as int]);
                    }
                } else {
                    let j = choose|j: int|
                        0 <= j < preds@.len() && !ds.deep_view()[#[trigger] preds@[j] as int][
                            w as int
                        ];
                    assert(preds@.contains(preds@[j]));
                    assert(e.contains((preds@[j], v)));
                }
                assert(all == dom_rhs_bit(e, ds.deep_view(), v, w as int));
            }
            r.push(all);
        }
        w += 1;
    }
    r
}

/// Iterative dominator sets: every set starts at the full node set except
/// the entry's, which starts (and stays) at the entry alone; each sweep
/// replaces the set of every node with at least one predecessor by itself
/// plus the intersection of its predecessors' sets, until nothing changes.
/// The result is the pointwise-greatest family satisfying the equations.
pub fn find_dominators(cfg: &DiGraph<BasicBlock, ()>) -> (r: Vec<Vec<bool>>)
    requires
        graph_wf(*cfg),
        graph_nodes(*cfg).len() >= 1,
        !has_pred(graph_edges(*cfg), 0),
    ensures
        r@.len() == graph_nodes(*cfg).len(),
        forall|v: int| 0 <= v < r@.len() ==> (#[trigger] r@[v])@.len() == graph_nodes(*cfg).len(),
        dominators_spec(
            graph_edges(*cfg),
            graph_nodes(*cfg).len() as int,
            doms_view(r.deep_view()),
        ),
{
    broadcast use crate::sets::lemma_bool_row_view;

    let ghost g = *cfg;
    let ghost e = graph_edges(g);
    let n = crate::graph::graph_node_count(cfg);

    let mut predsv: Vec<Vec<usize>> = Vec::new();
    let mut v: usize = 0;
    while v < n
        invariant
            v <= n,
            n == graph_nodes(g).len(),
            g == *cfg,
            graph_wf(g),
            e == graph_edges(g),
            predsv@.len() == v,
            forall|u: int, j: int|
                0 <= u < v && 0 <= j < predsv@[u]@.len() ==> #[trigger] predsv@[u]@[j] < n,
            forall|u: int, p: usize|
                0 <= u < v ==> ((#[trigger] predsv@[u]@.contains(p)) <==> e.contains((
                    p,
                    u as usize,
                ))),
        decreases n - v,
    {
        let pr = graph_preds(cfg, v);
        proof {
            assert forall|j: int| 0 <= j < pr@.len() implies #[trigger] pr@[j] < n by {
                assert(pr@.contains(pr@[j]));
                assert(e.contains((pr@[j], v)));
                let idx = choose|idx: int| 0 <= idx < e.len() && e[idx] == (pr@[j], v);
            }
        }
        predsv.push(pr);
        v += 1;
    }

    let mut dom: Vec<Vec<bool>> = Vec::new();
    let mut v: usize = 0;
    while v < n
        invariant
            v <= n,
            n >= 1,
            dom@.len() == v,
            forall|u: int| 0 <= u < v ==> #[trigger] dom.deep_view()[u].len() == n,
            v > 0 ==> (forall|w: int|
                0 <= w < n ==> #[trigger] dom.deep_view()[0][w] == (w == 0)),
            forall|u: int, w: int|
                1 <= u < v && 0 <= w < n ==> #[trigger] dom.deep_view()[u][w],
        decreases n - v,
    {
        let ghost old_dv = dom.deep_view();
        if v == 0 {
            let mut row = crate::sets::false_row(n);
            row.set(0, true);
            dom.push(row);
            proof {
                assert(dom.deep_view() =~~= old_dv.push(dom@[v as int]@));
            }
        } else {
            let mut row: Vec<bool> = Vec::new();
            let mut w: usize = 0;
            while w < n
                invariant
                    w <= n,
                    row@.len() == w,
                    forall|j: int| 0 <= j < w ==> row@[j],
                decreases n - w,
            {
                row.push(true);
                w += 1;
            }
            dom.push(row);
            proof {
                assert(dom.deep_view() =~~= old_dv.push(dom@[v as int]@));
            }
        }
        v += 1;
    }

    loop
        invariant
            g == *cfg,
            graph_wf(g),
            e == graph_edges(g),
            n == graph_nodes(g).len(),
            n >= 1,
            !has_pred(e, 0),
            predsv@.len() == n,
            forall|u: int, j: int|
                0 <= u < n && 0 <= j < predsv@[u]@.len() ==> #[trigger] predsv@[u]@[j] < n,
            forall|u: int, p: usize|
                0 <= u < n ==> ((#[trigger] predsv@[u]@.contains(p)) <==> e.contains((
                    p,
                    u as usize,
                ))),
            dom@.len() == n,
            forall|u: int| 0 <= u < n ==> #[trigger] dom.deep_view()[u].len() == n,
            forall|w: int| 0 <= w < n ==> #[trigger] dom.deep_view()[0][w] == (w == 0),
            forall|u: usize|
                0 < u < n && !has_pred(e, u) ==> (forall|w: int|
                    0 <= w < n ==> #[trigger] dom.deep_view()[u as int][w]),
            forall|u: usize| u < n ==> #[trigger] dom.deep_view()[u as int][u as int],
            forall|u: usize, w: int|
                u < n && 0 <= w < n && has_pred(e, u) && dom_rhs_bit(e, dom.deep_view(), u, w)
                    ==> #[trigger] dom.deep_view()[u as int][w],
            forall|f: Seq<Set<int>>, u: usize, w: int|
                #![trigger dom_postconfig(e, n as int, f), f[u as int].contains(w)]
                dom_postconfig(e, n as int, f) && u < n && f[u as int].contains(w)
                    ==> dom.deep_view()[u as int][w],
        decreases total_count(dom.deep_view()),
    {
        let ghost sweep_start = dom.deep_view();
        proof {
            lemma_total_count_nonneg(sweep_start);
        }
        let mut changed = false;
        let mut v: usize = 0;
        while v < n
            invariant
                v <= n,
                g == *cfg,
                graph_wf(g),
                e == graph_edges(g),
                n == graph_nodes(g).len(),
                n >= 1,
                !has_pred(e, 0),
                predsv@.len() == n,
                forall|u: int, j: int|
                    0 <= u < n && 0 <= j < predsv@[u]@.len() ==> #[trigger] predsv@[u]@[j] < n,
                forall|u: int, p: usize|
                    0 <= u < n ==> ((#[trigger] predsv@[u]@.contains(p)) <==> e.contains((
                        p,
                        u as usize,
                    ))),
                dom@.len() == n,
                forall|u: int| 0 <= u < n ==> #[trigger] dom.deep_view()[u].len() == n,
                forall|w: int| 0 <= w < n ==> #[trigger] dom.deep_view()[0][w] == (w == 0),
                forall|u: usize|
                    0 < u < n && !has_pred(e, u) ==> (forall|w: int|
                        0 <= w < n ==> #[trigger] dom.deep_view()[u as int][w]),
                forall|u: usize| u < n ==> #[trigger] dom.deep_view()[u as int][u as int],
                forall|u: usize, w: int|
                    u < n && 0 <= w < n && has_pred(e, u) && dom_rhs_bit(e, dom.deep_view(), u, w)
                        ==> #[trigger] dom.deep_view()[u as int][w],
                forall|f: Seq<Set<int>>, u: usize, w: int|
                    #![trigger dom_postconfig(e, n as int, f), f[u as int].contains(w)]
                    dom_postconfig(e, n as int, f) && u < n && f[u as int].contains(w)
                        ==> dom.deep_view()[u as int][w],
                total_count(dom.deep_view()) <= total_count(sweep_start),
                changed ==> total_count(dom.deep_view()) < total_count(sweep_start),
                !changed ==> forall|u: usize, w: int|
                    u < v && 0 <= w < n && has_pred(e, u) ==> (#[trigger] dom.deep_view()[
                        u as int
                    ][w] == dom_rhs_bit(e, dom.deep_view(), u, w)),
            decreases n - v,
        {
            let has = predsv[v].len() > 0;
            proof {
                if predsv@[v as int]@.len() > 0 {
                    assert(predsv@[v as int]@.contains(predsv@[v as int]@[0]));
                    assert(has_pred(e, v));
                } else {
                    if has_pred(e, v) {
                        let p = choose|p: usize| e.contains((p, v));
                        assert(predsv@[v as int]@.contains(p));
                    }
                }
            }
            if has {
                let nrow = dom_row(&dom, &predsv[v], v, n, Ghost(e));
                let eq = crate::sets::bools_eq(&nrow, &dom[v]);
                proof {
                    assert(dom.deep_view()[v as int] == dom@[v as int]@);
                }
                if !eq {
                    let ghost old_dv = dom.deep_view();
                    let ghost nr = nrow@;
                    dom.set(v, nrow);
                    proof {
                        assert(dom.deep_view() =~~= old_dv.update(v as int, nr));
                        // the new row only shrinks
                        assert forall|w: int| 0 <= w < n && nr[w] implies old_dv[v as int][w] by {
                            assert(dom_rhs_bit(e, old_dv, v, w));
                        }
                        assert(exists|w: int| 0 <= w < n && nr[w] != old_dv[v as int][w]) by {
                            if forall|w: int| 0 <= w < n ==> nr[w] == old_dv[v as int][w] {
                                assert(nr =~= old_dv[v as int]);
                            }
                        }
                        let wd = choose|w: int| 0 <= w < n && nr[w] != old_dv[v as int][w];
                        lemma_count_true_lt(nr, old_dv[v as int], wd);
                        lemma_total_count_update(old_dv, v as int, nr);
                        // entry row untouched: v has predecessors, the entry has none
                        assert(v != 0);
                        // the pre-fixed-point invariant survives the shrink
                        assert forall|u: usize, w: int|
                            u < n && 0 <= w < n && has_pred(e, u) && dom_rhs_bit(
                                e,
                                dom.deep_view(),
                                u,
                                w,
                            ) implies #[trigger] dom.deep_view()[u as int][w] by {
                            assert(dom_rhs_bit(e, old_dv, u, w)) by {
                                if w != u as int {
                                    assert forall|p: usize| #[trigger] e.contains((p, u))
                                        implies old_dv[p as int][w] by {
                                        assert(dom.deep_view()[p as int][w]);
                                        if p == v {
                                            assert(nr[w]);
                                        }
                                    }
                                }
                            }
                            if u == v {
                                assert(nr[w] == dom_rhs_bit(e, old_dv, v, w));
                            } else {
                                assert(dom.deep_view()[u as int][w] == old_dv[u as int][w]);
                            }
                        }
                        // the greatest-solution invariant survives the shrink
                        assert forall|f: Seq<Set<int>>, u: usize, w: int|
                            #![trigger dom_postconfig(e, n as int, f), f[u as int].contains(w)]
                            dom_postconfig(e, n as int, f) && u < n && f[u as int].contains(w)
                            implies dom.deep_view()[u as int][w] by {
                            assert(old_dv[u as int][w]);
                            if u == v {
                                assert(0 <= w < n);
                                if w != v as int {
                                    assert forall|p: usize| #[trigger] e.contains((p, v))
                                        implies old_dv[p as int][w] by {
                                        assert(f[p as int].contains(w));
                                    }
                                    assert(dom_rhs_bit(e, old_dv, v, w));
                                }
                                assert(nr[w]);
                            }
                        }
                    }
                    changed = true;
                } else {
                    proof {
                        if !changed {
                            assert forall|u: usize, w: int|
                                u < v + 1 && 0 <= w < n && has_pred(e, u) implies (
                            #[trigger] dom.deep_view()[u as int][w] == dom_rhs_bit(
                                e,
                                dom.deep_view(),
                                u,
                                w,
                            )) by {
                                if u == v {
                                    assert(dom.deep_view()[v as int][w] == nrow@[w]);
                                }
                            }
                        }
                    }
                }
            } else {
                proof {
                    if !changed {
                        assert forall|u: usize, w: int|
                            u < v + 1 && 0 <= w < n && has_pred(e, u) implies (
                        #[trigger] dom.deep_view()[u as int][w] == dom_rhs_bit(
                            e,
                            dom.deep_view(),
                            u,
                            w,
                        )) by {}
                    }
                }
            }
            v += 1;
        }
        if !changed {
            proof {
                let dv = dom.deep_view();
                let ds = doms_view(dv);
                assert forall|u: usize| u < n implies (#[trigger] ds[u as int]).contains(
                    u as int,
                ) by {
                    assert(dv[u as int][u as int]);
                }
                assert forall|u: usize, w: int|
                    u < n && has_pred(e, u) implies ((#[trigger] ds[u as int].contains(w)) <==> (0
                    <= w < n && (w == u as int || (forall|p: usize|
                    #[trigger] e.contains((p, u)) ==> ds[p as int].contains(w))))) by {
                    if 0 <= w < n {
                        assert(dv[u as int][w] == dom_rhs_bit(e, dv, u, w));
                        assert(ds[u as int].contains(w) == dv[u as int][w]);
                        assert(dom_rhs_bit(e, dv, u, w) == (w == u as int || (forall|p: usize|
                            #[trigger] e.contains((p, u)) ==> ds[p as int].contains(w)))) by {
                            if w != u as int {
                                if forall|p: usize| #[trigger] e.contains((p, u))
                                    ==> dv[p as int][w] {
                                    assert forall|p: usize| #[trigger] e.contains((p, u))
                                        implies ds[p as int].contains(w) by {
                                        assert(dv[p as int][w]);
                                        let idx = choose|idx: int|
                                            0 <= idx < e.len() && e[idx] == (p, u);
                                        assert(p < n);
                                    }
                                }
                                if forall|p: usize| #[trigger] e.contains((p, u)) ==> ds[
                                    p as int
                                ].contains(w) {
                                    assert forall|p: usize| #[trigger] e.contains((p, u))
                                        implies dv[p as int][w] by {
                                        assert(ds[p as int].contains(w));
                                    }
                                }
                            }
                        }
                    } else {
                        assert(!ds[u as int].contains(w));
                    }
                }
                assert forall|u: usize| 0 < u < n && !has_pred(e, u) implies #[trigger] ds[
                    u as int
                ] == full_set(n as int) by {
                    assert(ds[u as int] =~= full_set(n as int));
                }
                assert(ds[0] =~= Set::new(|w: int| w == 0));
                assert forall|f: Seq<Set<int>>, u: usize, w: int|
                    #![trigger dom_postconfig(e, n as int, f), f[u as int].contains(w)]
                    dom_postconfig(e, n as int, f) && u < n && f[u as int].contains(w)
                    implies ds[u as int].contains(w) by {
                    assert(dv[u as int][w]);
                    assert(0 <= w < n);
                }
                assert(dominators_spec(e, n as int, ds));
                assert forall|u: int| 0 <= u < n implies (#[trigger] dom@[u])@.len() == n by {
                    assert(dom.deep_view()[u] == dom@[u]@);
                }
            }
            return dom;
        }
        proof {
            lemma_total_count_nonneg(dom.deep_view());
        }
    }
}


/// Dominator sets are monotone in the edge set: adding edges while keeping
/// the nodes never grows any node's dominator set. Formally, if `d1` and
/// `d2` are the characterized dominator families of two graphs on the same
/// `n` nodes whose edge sets satisfy `e1` included in `e2`, and the entry has no
/// incoming edge in the larger graph, then `d2` lies pointwise inside `d1`.
pub proof fn lemma_dominators_monotone(
    e1: Seq<(usize, usize)>,
    e2: Seq<(usize, usize)>,
    n: int,
    d1: Seq<Set<int>>,
    d2: Seq<Set<int>>,
)
    requires
        0 <= n <= usize::MAX,
        forall|p: (usize, usize)| #[trigger] e1.contains(p) ==> e2.contains(p),
        !has_pred(e2, 0),
        dominators_spec(e1, n, d1),
        dominators_spec(e2, n, d2),
    ensures
        forall|v: int| 0 <= v < n ==> (#[trigger] d2[v]).subset_of(d1[v]),
{
    assert(!has_pred(e1, 0)) by {
        if has_pred(e1, 0) {
            let p = choose|p: usize| e1.contains((p, 0usize));
            assert(e2.contains((p, 0usize)));
        }
    }
    assert(dom_postconfig(e1, n, d2)) by {
        assert forall|v: usize, w: int|
            v < n && (#[trigger] d2[v as int].contains(w)) implies (0 <= w < n && (if has_pred(
                e1,
                v,
            ) {
                w == v as int || (forall|p: usize| #[trigger] e1.contains((p, v)) ==> d2[
                    p as int
                ].contains(w))
            } else if v == 0 {
                w == 0
            } else {
                true
            })) by {
            if has_pred(e1, v) {
                assert(has_pred(e2, v)) by {
                    let p = choose|p: usize| e1.contains((p, v));
                    assert(e2.contains((p, v)));
                }
                if w != v as int {
                    assert forall|p: usize| #[trigger] e1.contains((p, v)) implies d2[
                        p as int
                    ].contains(w) by {
                        assert(e2.contains((p, v)));
                    }
                }
            } else if v == 0 {
                assert(d2[0] == Set::new(|ww: int| ww == 0));
            }
        }
    }
    assert forall|v: int| 0 <= v < n implies (#[trigger] d2[v]).subset_of(d1[v]) by {
        assert forall|w: int| #[trigger] d2[v].contains(w) implies d1[v].contains(w) by {
            assert(dom_postconfig(e1, n, d2) && (v as usize) < n && d2[(v as usize) as int
            ].contains(w));
        }
    }
}

/// The number of set bits in one row.
fn count_row(row: &Vec<bool>) -> (r: usize)
    ensures
        r == count_true(row@),
{
    let n = row.len();
    let mut acc: usize = 0;
    let mut k: usize = 0;
    proof {
        assert(row@.subrange(0, 0) =~= Seq::<bool>::empty());
    }
    while k < n
        invariant
            k <= n,
            n == row@.len(),
            acc <= k,
            acc == count_true(row@.subrange(0, k as int)),
        decreases n - k,
    {
        proof {
            assert(row@.subrange(0, k as int + 1).drop_last() =~= row@.subrange(0, k as int));
            assert(row@.subrange(0, k as int + 1).last() == row@[k as int]);
        }
        if row[k] {
            acc += 1;
        }
        k += 1;
    }
    proof {
        assert(row@.subrange(0, n as int) =~= row@);
    }
    acc
}

/// The immediate dominator of each node, derived from the dominator sets:
/// a node whose dominator set is a singleton gets none; otherwise, among its
/// dominators other than itself, the one whose own dominator set has the
/// largest cardinality is picked, the highest-numbered on a tie.
pub fn build_dominator_tree(dom: &Vec<Vec<bool>>) -> (r: Vec<Option<usize>>)
    requires
        forall|v: int| 0 <= v < dom@.len() ==> (#[trigger] dom@[v])@.len() == dom@.len(),
    ensures
        r@.len() == dom@.len(),
        forall|v: int|
            0 <= v < dom@.len() ==> match #[trigger] r@[v] {
                None => count_true(dom@[v]@) == 1 || (forall|c: int|
                    0 <= c < dom@.len() && c != v ==> !(#[trigger] dom@[v]@[c])),
                Some(u) => count_true(dom@[v]@) != 1 && u < dom@.len() && dom@[v]@[u as int] && u
                    != v && (forall|c: int|
                    0 <= c < dom@.len() && c != v && (#[trigger] dom@[v]@[c]) ==> count_true(
                        dom@[c]@,
                    ) <= count_true(dom@[u as int]@)) && (forall|c: int|
                    u < c < dom@.len() && c != v && (#[trigger] dom@[v]@[c]) ==> count_true(
                        dom@[c]@,
                    ) < count_true(dom@[u as int]@)),
            },
{
    let n = dom.len();
    let mut r: Vec<Option<usize>> = Vec::new();
    let mut v: usize = 0;
    while v < n
        invariant
            v <= n,
            n == dom@.len(),
            forall|u: int| 0 <= u < n ==> (#[trigger] dom@[u])@.len() == n,
            r@.len() == v,
            forall|u: int|
                0 <= u < v ==> match #[trigger] r@[u] {
                    None => count_true(dom@[u]@) == 1 || (forall|c: int|
                        0 <= c < n && c != u ==> !(#[trigger] dom@[u]@[c])),
                    Some(w) => count_true(dom@[u]@) != 1 && w < n && dom@[u]@[w as int] && w != u
                        && (forall|c: int|
                        0 <= c < n && c != u && (#[trigger] dom@[u]@[c]) ==> count_true(dom@[c]@)
                            <= count_true(dom@[w as int]@)) && (forall|c: int|
                        w < c < n && c != u && (#[trigger] dom@[u]@[c]) ==> count_true(dom@[c]@)
                            < count_true(dom@[w as int]@)),
                },
        decreases n - v,
    {
        let cnt = count_row(&dom[v]);
        if cnt == 1 {
            r.push(None);
        } else {
            let mut best: Option<(usize, usize)> = None;
            let mut c: usize = 0;
            while c < n
                invariant
                    c <= n,
                    v < n,
                    n == dom@.len(),
                    forall|u: int| 0 <= u < n ==> (#[trigger] dom@[u])@.len() == n,
                    match best {
                        None => forall|cc: int|
                            0 <= cc < c && cc != v ==> !(#[trigger] dom@[v as int]@[cc]),
                        Some((u, uc)) => u < c && u != v && dom@[v as int]@[u as int] && uc
                            == count_true(dom@[u as int]@) && (forall|cc: int|
                            0 <= cc < c && cc != v && (#[trigger] dom@[v as int]@[cc])
                                ==> count_true(dom@[cc]@) <= uc) && (forall|cc: int|
                            u < cc < c && cc != v && (#[trigger] dom@[v as int]@[cc])
                                ==> count_true(dom@[cc]@) < uc),
                    },
                decreases n - c,
            {
                if c != v && dom[v][c] {
                    let cc = count_row(&dom[c]);
                    match best {
                        None => {
                            best = Some((c, cc));
                        },
                        Some((_, bc)) => {
                            if cc >= bc {
                                best = Some((c, cc));
                            }
                        },
                    }
                }
                c += 1;
            }
            match best {
                None => {
                    r.push(None);
                },
                Some((u, _)) => {
                    r.push(Some(u));
                },
            }
        }
        v += 1;
    }
    r
}


/// The nodes visited by walking the immediate-dominator chain from `runner`
/// until a dominator of the join node (the set `domn`) is reached, the chain
/// ends, or `fuel` runs out.
pub open spec fn chain_visits(
    idomv: Seq<Option<usize>>,
    domn: Set<int>,
    runner: usize,
    fuel: nat,
) -> Set<int>
    decreases fuel,
{
    if fuel == 0 {
        Set::empty()
    } else if domn.contains(runner as int) {
        Set::empty()
    } else {
        match (if runner < idomv.len() {
            idomv[runner as int]
        } else {
            None
        }) {
            Some(par) => chain_visits(idomv, domn, par, (fuel - 1) as nat).insert(runner as int),
            None => Set::empty().insert(runner as int),
        }
    }
}

/// `y` lies in the dominance frontier of `x`: `y` is a join node (at least
/// two incoming edges) and the walk up the immediate-dominator chain from
/// one of `y`'s predecessors visits `x` before reaching a dominator of `y`.
pub open spec fn df_contains(
    g: DiGraph<BasicBlock, ()>,
    doms: Seq<Seq<bool>>,
    idomv: Seq<Option<usize>>,
    x: int,
    y: int,
) -> bool {
    &&& crate::graph::incoming_sources(graph_edges(g), y as usize).len() >= 2
    &&& exists|p: usize|
        #[trigger] graph_edges(g).contains((p, y as usize)) && chain_visits(
            idomv,
            set_of(doms[y]),
            p,
            (doms.len() + 1) as nat,
        ).contains(x)
}

/// Set one bit of a bit matrix.
fn set_bit(m: &mut Vec<Vec<bool>>, x: usize, c: usize)
    requires
        x < old(m)@.len(),
        c < old(m)@[x as int]@.len(),
    ensures
        final(m)@.len() == old(m)@.len(),
        forall|a: int| 0 <= a < old(m)@.len() ==> (#[trigger] final(m)@[a])@.len()
            == old(m)@[a]@.len(),
        forall|a: int, bc: int|
            0 <= a < old(m)@.len() && 0 <= bc < old(m)@[a]@.len() ==> (#[trigger] final(m)@[a]@[bc]
                == (if a == x && bc == c {
                true
            } else {
                old(m)@[a]@[bc]
            })),
{
    let mut row = crate::sets::copy_bools(&m[x]);
    row.set(c, true);
    m.set(x, row);
}

/// Dominance frontier of every node: for each join node (two or more
/// incoming edges) and each of its predecessors, the immediate-dominator
/// chain is walked upward, and the join node is added to the frontier of
/// every visited node, stopping at a dominator of the join node or at the
/// chain's end. Bit `[x][y]` of the result says that `y` is in the frontier
/// of `x`.
pub fn find_dominance_frontier(
    cfg: &DiGraph<BasicBlock, ()>,
    dom: &Vec<Vec<bool>>,
    idom: &Vec<Option<usize>>,
) -> (r: Vec<Vec<bool>>)
    requires
        graph_wf(*cfg),
        graph_nodes(*cfg).len() < 0xffff_ffff,
        dom@.len() == graph_nodes(*cfg).len(),
        forall|v: int| 0 <= v < dom@.len() ==> (#[trigger] dom@[v])@.len() == dom@.len(),
        idom@.len() == graph_nodes(*cfg).len(),
        forall|v: int|
            0 <= v < idom@.len() ==> ((#[trigger] idom@[v]) matches Some(u) ==> u
                < graph_nodes(*cfg).len()),
    ensures
        r@.len() == graph_nodes(*cfg).len(),
        forall|v: int| 0 <= v < r@.len() ==> (#[trigger] r@[v])@.len() == graph_nodes(*cfg).len(),
        forall|x: int, y: int|
            0 <= x < graph_nodes(*cfg).len() && 0 <= y < graph_nodes(*cfg).len()
                ==> ((#[trigger] r@[x]@[y]) <==> df_contains(
                *cfg,
                dom.deep_view(),
                idom@,
                x,
                y,
            )),
{
    broadcast use crate::sets::lemma_bool_row_view;

    let ghost g = *cfg;
    let ghost e = graph_edges(g);
    let ghost domv = dom.deep_view();
    let ghost idomv = idom@;
    let n = crate::graph::graph_node_count(cfg);
    proof {
        assert forall|v: int| 0 <= v < n implies #[trigger] domv[v].len() == n by {
            assert(domv[v] == dom@[v]@);
        }
    }

    let mut df: Vec<Vec<bool>> = Vec::new();
    let mut v: usize = 0;
    while v < n
        invariant
            v <= n,
            df@.len() == v,
            forall|a: int| 0 <= a < v ==> (#[trigger] df@[a])@.len() == n,
            forall|a: int, bc: int| 0 <= a < v && 0 <= bc < n ==> !(#[trigger] df@[a]@[bc]),
        decreases n - v,
    {
        df.push(crate::sets::false_row(n));
        v += 1;
    }

    let mut y: usize = 0;
    while y < n
        invariant
            y <= n,
            g == *cfg,
            graph_wf(g),
            e == graph_edges(g),
            n == graph_nodes(g).len(),
            n < 0xffff_ffff,
            domv == dom.deep_view(),
            idomv == idom@,
            dom@.len() == n,
            forall|v: int| 0 <= v < n ==> #[trigger] domv[v].len() == n,
            idomv.len() == n,
            forall|v: int|
                0 <= v < n ==> ((#[trigger] idomv[v]) matches Some(u) ==> u < n),
            df@.len() == n,
            forall|a: int| 0 <= a < n ==> (#[trigger] df@[a])@.len() == n,
            forall|x: int, c: int|
                0 <= x < n && 0 <= c < n ==> ((#[trigger] df@[x]@[c]) <==> (c < y && df_contains(
                    g,
                    domv,
                    idomv,
                    x,
                    c,
                ))),
        decreases n - y,
    {
        let preds = crate::graph::graph_preds(cfg, y);
        proof {
            assert forall|j: int| 0 <= j < preds@.len() implies #[trigger] preds@[j] < n by {
                assert(preds@.contains(preds@[j]));
                assert(e.contains((preds@[j], y)));
                let idx = choose|idx: int| 0 <= idx < e.len() && e[idx] == (preds@[j], y);
            }
        }
        if preds.len() >= 2 {
            let ghost domny = set_of(domv[y as int]);
            let ghost fuel0 = (n + 1) as nat;
            let np = preds.len();
            let mut t: usize = 0;
            while t < np
                invariant
                    t <= np,
                    np == preds@.len(),
                    np >= 2,
                    y < n,
                    g == *cfg,
                    graph_wf(g),
                    e == graph_edges(g),
                    n == graph_nodes(g).len(),
                    n < 0xffff_ffff,
                    domv == dom.deep_view(),
                    idomv == idom@,
                    dom@.len() == n,
                    forall|v: int| 0 <= v < n ==> #[trigger] domv[v].len() == n,
                    idomv.len() == n,
                    forall|v: int|
                        0 <= v < n ==> ((#[trigger] idomv[v]) matches Some(u) ==> u < n),
                    preds@ == crate::graph::incoming_sources(e, y),
                    forall|p: usize| #[trigger] preds@.contains(p) <==> e.contains((p, y)),
                    forall|j: int| 0 <= j < preds@.len() ==> #[trigger] preds@[j] < n,
                    domny == set_of(domv[y as int]),
                    fuel0 == (n + 1) as nat,
                    df@.len() == n,
                    forall|a: int| 0 <= a < n ==> (#[trigger] df@[a])@.len() == n,
                    forall|x: int, c: int|
                        0 <= x < n && 0 <= c < n && c != y ==> ((#[trigger] df@[x]@[c]) <==> (c
                            < y && df_contains(g, domv, idomv, x, c))),
                    forall|x: int|
                        0 <= x < n ==> ((#[trigger] df@[x]@[y as int]) <==> exists|j: int|
                            0 <= j < t && chain_visits(
                                idomv,
                                domny,
                                #[trigger] preds@[j],
                                fuel0,
                            ).contains(x)),
                decreases np - t,
            {
                let ghost base = df@;
                let p0 = preds[t];
                let ghost target = chain_visits(idomv, domny, p0, fuel0);
                let mut runner = p0;
                let mut fuel = n + 1;
                let ghost mut visited = Set::<int>::empty();
                proof {
                    assert(target =~= visited.union(
                        chain_visits(idomv, domny, runner, fuel as nat),
                    ));
                }
                loop
                    invariant_except_break
                        fuel <= n + 1,
                        runner < n,
                        y < n,
                        n < 0xffff_ffff,
                        domv == dom.deep_view(),
                        idomv == idom@,
                        dom@.len() == n,
                        forall|v: int| 0 <= v < n ==> #[trigger] domv[v].len() == n,
                        idomv.len() == n,
                        forall|v: int|
                            0 <= v < n ==> ((#[trigger] idomv[v]) matches Some(u) ==> u < n),
                        domny == set_of(domv[y as int]),
                        df@.len() == n,
                        forall|a: int| 0 <= a < n ==> (#[trigger] df@[a])@.len() == n,
                        base.len() == n,
                        forall|a: int| 0 <= a < n ==> (#[trigger] base[a])@.len() == n,
                        target == visited.union(chain_visits(idomv, domny, runner, fuel as nat)),
                        forall|x: int| #[trigger] visited.contains(x) ==> 0 <= x < n,
                        forall|a: int, bc: int|
                            0 <= a < n && 0 <= bc < n ==> ((#[trigger] df@[a]@[bc]) == (
                            base[a]@[bc] || (bc == y && visited.contains(a)))),
                    ensures
                        df@.len() == n,
                        forall|a: int| 0 <= a < n ==> (#[trigger] df@[a])@.len() == n,
                        target == visited,
                        forall|x: int| #[trigger] visited.contains(x) ==> 0 <= x < n,
                        forall|a: int, bc: int|
                            0 <= a < n && 0 <= bc < n ==> ((#[trigger] df@[a]@[bc]) == (
                            base[a]@[bc] || (bc == y && visited.contains(a)))),
                    decreases fuel,
                {
                    if fuel == 0 {
                        proof {
                            assert(chain_visits(idomv, domny, runner, 0) =~= Set::<int>::empty());
                            assert(target =~= visited);
                        }
                        break;
                    }
                    proof {
                        assert(domv[y as int] == dom@[y as int]@);
                    }
                    if dom[y][runner] {
                        proof {
                            assert(domny.contains(runner as int));
                            assert(chain_visits(idomv, domny, runner, fuel as nat)
                                =~= Set::<int>::empty());
                            assert(target =~= visited);
                            assert(target == visited);
                        }
                        break;
                    }
                    proof {
                        assert(!domny.contains(runner as int));
                    }
                    set_bit(&mut df, runner, y);
                    proof {
                        visited = visited.insert(runner as int);
                    }
                    let step = idom[runner];
                    match step {
                        Some(par) => {
                            proof {
                                assert(chain_visits(idomv, domny, runner, fuel as nat)
                                    == chain_visits(idomv, domny, par, (fuel - 1) as nat).insert(
                                    runner as int,
                                ));
                                assert(target =~= visited.union(
                                    chain_visits(idomv, domny, par, (fuel - 1) as nat),
                                ));
                            }
                            runner = par;
                            fuel = fuel - 1;
                        },
                        None => {
                            proof {
                                assert(chain_visits(idomv, domny, runner, fuel as nat)
                                    == Set::<int>::empty().insert(runner as int));
                                assert(target =~= visited);
                            }
                            break;
                        },
                    }
                }
                proof {
                    assert(target == visited);
                    assert(preds@[t as int] == p0);
                    assert forall|x: int|
                        0 <= x < n implies ((#[trigger] df@[x]@[y as int]) <==> exists|j: int|
                            0 <= j < t + 1 && chain_visits(
                                idomv,
                                domny,
                                #[trigger] preds@[j],
                                fuel0,
                            ).contains(x)) by {
                        if df@[x]@[y as int] {
                            if base[x]@[y as int] {
                                let j = choose|j: int|
                                    0 <= j < t && chain_visits(
                                        idomv,
                                        domny,
                                        #[trigger] preds@[j],
                                        fuel0,
                                    ).contains(x);
                                assert(0 <= j < t + 1 && chain_visits(
                                    idomv,
                                    domny,
                                    preds@[j],
                                    fuel0,
                                ).contains(x));
                            } else {
                                assert(visited.contains(x));
                                assert(chain_visits(idomv, domny, preds@[t as int], fuel0)
                                    .contains(x));
                            }
                        }
                        if exists|j: int|
                            0 <= j < t + 1 && chain_visits(
                                idomv,
                                domny,
                                #[trigger] preds@[j],
                                fuel0,
                            ).contains(x) {
                            let j = choose|j: int|
                                0 <= j < t + 1 && chain_visits(
                                    idomv,
                                    domny,
                                    #[trigger] preds@[j],
                                    fuel0,
                                ).contains(x);
                            if j < t {
                                assert(base[x]@[y as int]);
                            } else {
                                assert(visited.contains(x));
                            }
                            assert(df@[x]@[y as int]);
                        }
                    }
                }
                t += 1;
            }
            proof {
                assert forall|x: int, c: int|
                    0 <= x < n && 0 <= c < n implies ((#[trigger] df@[x]@[c]) <==> (c < y + 1
                        && df_contains(g, domv, idomv, x, c))) by {
                    if c == y {
                        if df@[x]@[c] {
                            let j = choose|j: int|
                                0 <= j < np && chain_visits(
                                    idomv,
                                    domny,
                                    #[trigger] preds@[j],
                                    fuel0,
                                ).contains(x);
                            assert(preds@.contains(preds@[j]));
                            assert(e.contains((preds@[j], y)));
                            assert(df_contains(g, domv, idomv, x, c));
                        }
                        if df_contains(g, domv, idomv, x, c) {
                            let p = choose|p: usize|
                                #[trigger] e.contains((p, y)) && chain_visits(
                                    idomv,
                                    set_of(domv[c]),
                                    p,
                                    (domv.len() + 1) as nat,
                                ).contains(x);
                            assert(preds@.contains(p));
                            let j = choose|j: int| 0 <= j < preds@.len() && preds@[j] == p;
                            assert(chain_visits(idomv, domny, preds@[j], fuel0).contains(x));
                        }
                    }
                }
            }
        } else {
            proof {
                assert forall|x: int, c: int|
                    0 <= x < n && 0 <= c < n implies ((#[trigger] df@[x]@[c]) <==> (c < y + 1
                        && df_contains(g, domv, idomv, x, c))) by {
                    if c == y {
                        assert(crate::graph::incoming_sources(e, y).len() < 2);
                        assert(!df_contains(g, domv, idomv, x, c));
                    }
                }
            }
        }
        y += 1;
    }
    df
}

} // verus!

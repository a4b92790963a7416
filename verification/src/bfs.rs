//! Breadth-first search over an abstract directed graph.
use vstd::prelude::*;

use crate::traits::DirectedGraph;
use crate::traits::VertexId;

verus! {

/// Whether `v` occurs in `s`.
fn contains_vertex(s: &Vec<VertexId>, v: VertexId) -> (r: bool)
    ensures
        r == s@.contains(v),
{
    let mut i: usize = 0;
    while i < s.len()
        invariant
            0 <= i <= s@.len(),
            forall|j: int| 0 <= j < i ==> s@[j] != v,
        decreases s@.len() - i,
    {
        if s[i] == v {
            proof {
                assert(s@[i as int] == v);
            }
            return true;
        }
        i = i + 1;
    }
    proof {
        if s@.contains(v) {
            let j = choose|j: int| 0 <= j < s@.len() && s@[j] == v;
            assert(false);
        }
    }
    false
}

/// Look `v` up in the predecessor list, returning the predecessor of the
/// first entry keyed by `v`, if any.
fn pred_lookup(preds: &Vec<(VertexId, VertexId)>, v: VertexId) -> (r: Option<VertexId>)
    ensures
        match r {
            Some(p) => exists|i: int| 0 <= i < preds@.len() && preds@[i] == (v, p),
            None => forall|i: int| 0 <= i < preds@.len() ==> (#[trigger] preds@[i]).0 != v,
        },
{
    let mut i: usize = 0;
    while i < preds.len()
        invariant
            0 <= i <= preds@.len(),
            forall|j: int| 0 <= j < i ==> (#[trigger] preds@[j]).0 != v,
        decreases preds@.len() - i,
    {
        let entry = preds[i];
        if entry.0 == v {
            proof {
                assert(preds@[i as int] == (v, entry.1));
            }
            return Some(entry.1);
        }
        i = i + 1;
    }
    None
}

/// The structural facts the search maintains about its bookkeeping: the
/// visited list starts with `start` and has no duplicates; every
/// predecessor entry pairs a later-visited vertex with an earlier-visited
/// one; and every visited vertex except `start` has an entry.
spec fn search_state_ok(
    besucht: Seq<VertexId>,
    preds: Seq<(VertexId, VertexId)>,
    start: VertexId,
) -> bool {
    &&& besucht.len() > 0
    &&& besucht[0] == start
    &&& forall|i: int, j: int| 0 <= i < j < besucht.len() ==> besucht[i] != besucht[j]
    &&& forall|i: int|
        0 <= i < preds.len() ==> exists|pk: int, pv: int|
            0 <= pv < pk < besucht.len() && besucht[pk] == (#[trigger] preds[i]).0 && besucht[pv]
                == preds[i].1
    &&& forall|i: int|
        1 <= i < besucht.len() ==> exists|e: int|
            0 <= e < preds.len() && (#[trigger] preds[e]).0 == #[trigger] besucht[i]
}

/// Breadth-first search from `start` to `target` over the outgoing edges
/// of `graph`.
///
/// On success the returned path begins at `start` and ends at `target`,
/// as reconstructed from the search's predecessor records. When `start`
/// equals `target` the search succeeds with the one-element path before
/// consulting the graph at all. Otherwise it returns `None` when the
/// queue empties without reaching `target`, and also gives up if the
/// graph reports an invalid vertex; what the abstract graph answers is up
/// to its implementor, which this library does not check, so nothing
/// further is promised about the path's steps.
#[verifier::loop_isolation(false)]
#[verifier::rlimit(100)]
pub fn bfs<T, G: DirectedGraph<T>>(graph: G, start: VertexId, target: VertexId) -> (r: Option<
    Vec<VertexId>,
>)
    ensures
        match r {
            Some(path) => path@.len() > 0 && path@[0] == start && path@[path@.len() - 1] == target,
            None => start != target,
        },
        start == target ==> r is Some && r.unwrap()@ == seq![start],
{
    let mut besucht: Vec<VertexId> = Vec::new();
    besucht.push(start);
    let mut queue: Vec<VertexId> = Vec::new();
    queue.push(start);
    let mut qh: usize = 0;
    let mut preds: Vec<(VertexId, VertexId)> = Vec::new();
    // a Vec's length is a usize, which bounds the visited list
    let n_visited = besucht.len();
    proof {
        assert(besucht@.len() == n_visited);
        assert(queue@ =~= seq![start]);
    }
    loop
        invariant
            search_state_ok(besucht@, preds@, start),
            besucht@.len() <= usize::MAX,
            qh <= queue@.len(),
            forall|i: int| qh <= i < queue@.len() ==> besucht@.contains(#[trigger] queue@[i]),
            start == target ==> qh == 0 && queue@ == seq![start] && preds@.len() == 0,
        decreases usize::MAX + 1 - besucht@.len(), queue@.len() - qh,
    {
        if qh >= queue.len() {
            proof {
                if start == target {
                    assert(qh >= 1 && queue@.len() == 1);
                    assert(false);
                }
            }
            return None;
        }
        let el = queue[qh];
        qh = qh + 1;
        proof {
            assert(besucht@.contains(el));
        }
        if el == target {
            // walk the predecessor records back to `start`
            let mut path: Vec<VertexId> = Vec::new();
            let mut curr = el;
            path.push(curr);
            proof {
                assert(path@ =~= seq![target]);
            }
            #[verifier::loop_isolation(true)]
            loop
                invariant
                    search_state_ok(besucht@, preds@, start),
                    besucht@.contains(curr),
                    path@.len() > 0,
                    path@[0] == target,
                    path@[path@.len() - 1] == curr,
                    preds@.len() == 0 ==> path@ == seq![target],
                ensures
                    path@.len() > 0,
                    path@[0] == target,
                    path@[path@.len() - 1] == start,
                    preds@.len() == 0 ==> path@ == seq![target],
                decreases besucht@.index_of(curr),
            {
                match pred_lookup(&preds, curr) {
                    Some(p) => {
                        proof {
                            let e = choose|e: int|
                                0 <= e < preds@.len() && preds@[e] == (curr, p);
                            let (pk, pv) = choose|pk: int, pv: int|
                                0 <= pv < pk < besucht@.len() && besucht@[pk] == preds@[e].0
                                    && besucht@[pv] == preds@[e].1;
                            assert(besucht@[pk] == curr && besucht@[pv] == p);
                            assert(besucht@.contains(p)) by {
                                assert(besucht@[pv] == p);
                            }
                            let ic = besucht@.index_of(curr);
                            let ip = besucht@.index_of(p);
                            assert(0 <= ic < besucht@.len() && besucht@[ic] == curr) by {
                                assert(besucht@.contains(curr));
                            }
                            assert(0 <= ip < besucht@.len() && besucht@[ip] == p);
                            assert(ic == pk);
                            assert(ip == pv);
                        }
                        curr = p;
                        path.push(curr);
                    },
                    None => {
                        proof {
                            let ic = besucht@.index_of(curr);
                            assert(0 <= ic < besucht@.len() && besucht@[ic] == curr) by {
                                assert(besucht@.contains(curr));
                            }
                            if ic >= 1 {
                                let e = choose|e: int|
                                    0 <= e < preds@.len() && (#[trigger] preds@[e]).0
                                        == besucht@[ic];
                                assert(preds@[e].0 == curr);
                                assert(false);
                            }
                            assert(curr == start);
                        }
                        break ;
                    },
                }
            }
            // reverse: the path was collected target-first
            let mut out: Vec<VertexId> = Vec::new();
            let mut k = path.len();
            while k > 0
                invariant
                    k <= path@.len(),
                    out@.len() == path@.len() - k,
                    forall|i: int|
                        0 <= i < out@.len() ==> out@[i] == path@[path@.len() - 1 - i],
                decreases k,
            {
                k = k - 1;
                out.push(path[k]);
            }
            proof {
                assert(out@[0] == path@[path@.len() - 1]);
                assert(out@[out@.len() - 1] == path@[0]);
                if start == target {
                    assert(path@ == seq![target]);
                    assert(out@.len() == 1);
                    assert(out@ =~= seq![start]);
                }
            }
            return Some(out);
        }
        let nbrs = match graph.outgoing_edges(el) {
            Ok(v) => v,
            Err(_) => {
                proof {
                    if start == target {
                        assert(el == queue@[0] && el == start);
                        assert(false);
                    }
                }
                return None;
            },
        };
        let ghost blen0 = besucht@.len();
        let ghost qlen0 = queue@.len();
        let mut t: usize = 0;
        while t < nbrs.len()
            invariant
                search_state_ok(besucht@, preds@, start),
                qh <= queue@.len(),
                forall|i: int| qh <= i < queue@.len() ==> besucht@.contains(#[trigger] queue@[i]),
                besucht@.contains(el),
                besucht@.len() - blen0 == queue@.len() - qlen0,
                besucht@.len() >= blen0,
            decreases nbrs@.len() - t,
        {
            let nb = nbrs[t].0;
            if !contains_vertex(&besucht, nb) {
                let ghost b0 = besucht@;
                let ghost p0 = preds@;
                besucht.push(nb);
                queue.push(nb);
                preds.push((nb, el));
                proof {
                    let bl = b0.len() as int;
                    assert(besucht@[bl] == nb);
                    assert forall|i: int, j: int|
                        0 <= i < j < besucht@.len() implies besucht@[i] != besucht@[j] by {
                        if j < bl {
                            assert(b0[i] != b0[j]);
                        } else {
                            if besucht@[i] == nb {
                                assert(b0.contains(b0[i]));
                                assert(false);
                            }
                        }
                    }
                    assert forall|i: int|
                        0 <= i < preds@.len() implies exists|pk: int, pv: int|
                            0 <= pv < pk < besucht@.len() && besucht@[pk] == (
                            #[trigger] preds@[i]).0 && besucht@[pv] == preds@[i].1 by {
                        if i < p0.len() {
                            assert(preds@[i] == p0[i]);
                            let (pk, pv) = choose|pk: int, pv: int|
                                0 <= pv < pk < b0.len() && b0[pk] == p0[i].0 && b0[pv]
                                    == p0[i].1;
                            assert(besucht@[pk] == p0[i].0 && besucht@[pv] == p0[i].1);
                        } else {
                            assert(preds@[i] == (nb, el));
                            let pv = choose|pv: int| 0 <= pv < b0.len() && b0[pv] == el;
                            assert(besucht@[pv] == el && besucht@[bl] == nb && pv < bl);
                        }
                    }
                    assert forall|i: int|
                        1 <= i < besucht@.len() implies exists|e: int|
                            0 <= e < preds@.len() && (#[trigger] preds@[e]).0
                                == #[trigger] besucht@[i] by {
                        if i < bl {
                            let e = choose|e: int|
                                0 <= e < p0.len() && (#[trigger] p0[e]).0 == b0[i];
                            assert(preds@[e].0 == besucht@[i]);
                        } else {
                            assert(preds@[p0.len() as int].0 == nb);
                        }
                    }
                    assert forall|i: int|
                        qh <= i < queue@.len() implies besucht@.contains(#[trigger] queue@[i]) by {
                        if i < qlen0 + (bl - blen0) {
                            let b = b0;
                        }
                        if i < queue@.len() - 1 {
                            let jj = choose|jj: int| 0 <= jj < b0.len() && b0[jj] == queue@[i];
                            assert(besucht@[jj] == queue@[i]);
                        } else {
                            assert(besucht@[bl] == queue@[i]);
                        }
                    }
                }
            }
            t = t + 1;
        }
        // a Vec's length is a usize, which bounds the visited list
        let n_now = besucht.len();
        proof {
            assert(besucht@.len() == n_now);
            if besucht@.len() == blen0 {
                assert(queue@.len() == qlen0);
            }
            if start == target {
                assert(el == start);
                assert(false);
            }
        }
    }
}

} // verus!

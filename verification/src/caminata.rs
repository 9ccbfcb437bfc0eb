//! Walks through a list of edges, their weights, and what it means for a
//! table of distances and predecessors to be the answer for an origin.

use crate::modelo::{aristas_validas, Arista};
use vstd::prelude::*;

verus! {

/// A sum of weights as the search keeps it: capped at the largest `i32`.
pub open spec fn saturar(x: int) -> int {
    if x > i32::MAX {
        i32::MAX as int
    } else {
        x
    }
}

/// The node where the walk `w`, a sequence of edge indices that starts at
/// `desde`, ends.
pub open spec fn fin(aristas: Seq<Arista>, desde: usize, w: Seq<int>) -> usize {
    if w.len() == 0 {
        desde
    } else {
        aristas[w.last()].1
    }
}

/// `w` is a walk from `desde`: each entry is the index of an edge that
/// leaves the node where the walk stood before it.
pub open spec fn es_caminata(aristas: Seq<Arista>, desde: usize, w: Seq<int>) -> bool
    decreases w.len(),
{
    if w.len() == 0 {
        true
    } else {
        &&& 0 <= w.last() < aristas.len()
        &&& es_caminata(aristas, desde, w.drop_last())
        &&& aristas[w.last()].0 == fin(aristas, desde, w.drop_last())
    }
}

/// The sum of the weights along `w`.
pub open spec fn peso(aristas: Seq<Arista>, w: Seq<int>) -> int
    decreases w.len(),
{
    if w.len() == 0 {
        0
    } else {
        peso(aristas, w.drop_last()) + aristas[w.last()].2
    }
}

/// `w` is a walk from `desde` to `hasta`.
pub open spec fn llega(aristas: Seq<Arista>, desde: usize, hasta: usize, w: Seq<int>) -> bool {
    es_caminata(aristas, desde, w) && fin(aristas, desde, w) == hasta
}

/// Some walk leads from `desde` to `hasta`.
pub open spec fn alcanzable(aristas: Seq<Arista>, desde: usize, hasta: usize) -> bool {
    exists|w: Seq<int>| llega(aristas, desde, hasta, w)
}

/// `d` is the least capped weight of a walk from `desde` to `hasta`.
pub open spec fn es_distancia_minima(aristas: Seq<Arista>, desde: usize, hasta: usize, d: int) -> bool {
    &&& exists|w: Seq<int>| #[trigger] llega(aristas, desde, hasta, w) && saturar(peso(aristas, w)) == d
    &&& forall|w: Seq<int>| #[trigger] llega(aristas, desde, hasta, w) ==> d <= saturar(peso(aristas, w))
}

/// Edge `k` goes from `u` to `v` and carries the distance of `u` exactly to
/// the distance of `v`.
pub open spec fn arista_ajustada(aristas: Seq<Arista>, dist: Seq<Option<i32>>, u: usize, v: usize, k: int) -> bool {
    &&& 0 <= k < aristas.len()
    &&& aristas[k].0 == u
    &&& aristas[k].1 == v
    &&& u < dist.len()
    &&& v < dist.len()
    &&& dist[u as int] is Some
    &&& dist[v as int] is Some
    &&& saturar(dist[u as int]->0 + aristas[k].2) == dist[v as int]->0
}

/// `u` is an immediate predecessor of `v` on some lightest walk.
pub open spec fn es_predecesor(aristas: Seq<Arista>, dist: Seq<Option<i32>>, u: usize, v: usize) -> bool {
    exists|k: int| arista_ajustada(aristas, dist, u, v, k)
}

/// `dist` holds, for each node, the least capped weight of a walk from
/// `origen`, and nothing exactly where no walk arrives.
pub open spec fn son_distancias(aristas: Seq<Arista>, n: nat, origen: usize, dist: Seq<Option<i32>>) -> bool {
    &&& dist.len() == n
    &&& forall|v: usize|
        v < n ==> match #[trigger] dist[v as int] {
            Some(d) => es_distancia_minima(aristas, origen, v, d as int),
            None => !alcanzable(aristas, origen, v),
        }
}

/// `dist` and `preds` are the answer of the search from `origen`: each
/// distance is the least capped weight of a walk from the origin, absent
/// exactly where no walk arrives, and each predecessor list holds, once
/// each, the nodes from which an edge carries their distance exactly.
pub open spec fn es_resultado(
    aristas: Seq<Arista>,
    n: nat,
    origen: usize,
    dist: Seq<Option<i32>>,
    preds: Seq<Seq<usize>>,
) -> bool {
    &&& dist.len() == n
    &&& preds.len() == n
    &&& forall|v: usize|
        v < n ==> match #[trigger] dist[v as int] {
            Some(d) => es_distancia_minima(aristas, origen, v, d as int),
            None => !alcanzable(aristas, origen, v),
        }
    &&& forall|v: int| 0 <= v < n ==> (#[trigger] preds[v]).no_duplicates()
    &&& forall|v: usize, u: usize|
        v < n ==> (#[trigger] preds[v as int].contains(u) <==> es_predecesor(aristas, dist, u, v))
}

/// A walk over valid edges stays among the nodes and weighs at least its length.
pub proof fn lema_caminata_acotada(aristas: Seq<Arista>, n: nat, desde: usize, w: Seq<int>)
    requires
        aristas_validas(aristas, n),
        desde < n,
        es_caminata(aristas, desde, w),
    ensures
        fin(aristas, desde, w) < n,
        peso(aristas, w) >= w.len(),
    decreases w.len(),
{
    if w.len() > 0 {
        lema_caminata_acotada(aristas, n, desde, w.drop_last());
    }
}

/// A walk grows by an edge that leaves its end.
pub proof fn lema_extender(aristas: Seq<Arista>, desde: usize, w: Seq<int>, k: int)
    requires
        es_caminata(aristas, desde, w),
        0 <= k < aristas.len(),
        aristas[k].0 == fin(aristas, desde, w),
    ensures
        es_caminata(aristas, desde, w.push(k)),
        fin(aristas, desde, w.push(k)) == aristas[k].1,
        peso(aristas, w.push(k)) == peso(aristas, w) + aristas[k].2,
{
    assert(w.push(k).drop_last() =~= w);
}

/// Capping twice is capping once.
pub proof fn lema_saturar_suma(x: int, c: int)
    requires
        x >= 0,
        c >= 0,
    ensures
        saturar(saturar(x) + c) == saturar(x + c),
{
}

} // verus!

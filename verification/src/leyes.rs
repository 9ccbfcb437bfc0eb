//! What follows from the contracts of the search and of the enumeration.

use crate::caminata::{
    alcanzable, arista_ajustada, es_predecesor, es_resultado, lema_caminata_acotada, lema_extender,
    lema_saturar_suma, llega, peso, saturar,
};
use crate::caminos::{emitido, es_camino};
use crate::modelo::{aristas_validas, Arista};
use vstd::prelude::*;

verus! {

/// The least weight of an edge from `u` to `v`, if there is one.
pub open spec fn peso_minimo(aristas: Seq<Arista>, u: usize, v: usize) -> Option<int>
    decreases aristas.len(),
{
    if aristas.len() == 0 {
        None
    } else {
        let resto = peso_minimo(aristas.drop_last(), u, v);
        let e = aristas.last();
        if e.0 == u && e.1 == v && (resto is None || e.2 < resto->0) {
            Some(e.2 as int)
        } else {
            resto
        }
    }
}

/// The sum, along the path `p`, of the least weight between each node and the next.
pub open spec fn costo(aristas: Seq<Arista>, p: Seq<usize>) -> int
    decreases p.len(),
{
    if p.len() <= 1 {
        0
    } else {
        costo(aristas, p.drop_last()) + match peso_minimo(aristas, p[p.len() - 2], p.last()) {
            Some(w) => w,
            None => 0,
        }
    }
}

/// The least weight between two nodes is the weight of an edge between
/// them, and no edge between them weighs less.
pub proof fn lema_peso_minimo(aristas: Seq<Arista>, u: usize, v: usize)
    ensures
        peso_minimo(aristas, u, v) matches Some(m) ==> exists|k: int|
            0 <= k < aristas.len() && #[trigger] aristas[k] == (u, v, m as i32) && aristas[k].2 == m,
        forall|k: int|
            0 <= k < aristas.len() && (#[trigger] aristas[k]).0 == u && aristas[k].1 == v ==> {
                &&& peso_minimo(aristas, u, v) is Some
                &&& peso_minimo(aristas, u, v)->0 <= aristas[k].2
            },
    decreases aristas.len(),
{
    if aristas.len() > 0 {
        let antes = aristas.drop_last();
        lema_peso_minimo(antes, u, v);
        let e = aristas.last();
        if let Some(m) = peso_minimo(aristas, u, v) {
            if peso_minimo(antes, u, v) == Some(m) && !(e.0 == u && e.1 == v && e.2 < m) {
                let k = choose|k: int| 0 <= k < antes.len() && #[trigger] antes[k] == (u, v, m as i32) && antes[k].2 == m;
                assert(aristas[k] == antes[k]);
            } else {
                assert(aristas[aristas.len() - 1] == (u, v, m as i32));
            }
        }
        assert forall|k: int| 0 <= k < aristas.len() && (#[trigger] aristas[k]).0 == u && aristas[k].1 == v implies {
            &&& peso_minimo(aristas, u, v) is Some
            &&& peso_minimo(aristas, u, v)->0 <= aristas[k].2
        } by {
            if k < antes.len() {
                assert(antes[k] == aristas[k]);
            }
        }
    }
}

/// The origin of a search has distance zero.
pub proof fn ley_origen(aristas: Seq<Arista>, n: nat, origen: usize, dist: Seq<Option<i32>>, preds: Seq<Seq<usize>>)
    requires
        aristas_validas(aristas, n),
        origen < n,
        es_resultado(aristas, n, origen, dist, preds),
    ensures
        dist[origen as int] == Some(0i32),
{
    let w = Seq::<int>::empty();
    assert(llega(aristas, origen, origen, w));
    assert(alcanzable(aristas, origen, origen));
    assert(dist[origen as int] is Some);
    let w2 = choose|w2: Seq<int>| #[trigger]
        llega(aristas, origen, origen, w2) && saturar(peso(aristas, w2)) == dist[origen as int]->0;
    lema_caminata_acotada(aristas, n, origen, w2);
}

/// Along an edge the distance grows by no more than the weight: where `u`
/// has a distance and an edge goes from `u` to `v`, `v` has a distance, of
/// at most that of `u` plus the weight, capped.
pub proof fn ley_triangulo(
    aristas: Seq<Arista>,
    n: nat,
    origen: usize,
    dist: Seq<Option<i32>>,
    preds: Seq<Seq<usize>>,
    k: int,
)
    requires
        aristas_validas(aristas, n),
        origen < n,
        es_resultado(aristas, n, origen, dist, preds),
        0 <= k < aristas.len(),
        dist[aristas[k].0 as int] is Some,
    ensures
        dist[aristas[k].1 as int] is Some,
        dist[aristas[k].1 as int]->0 <= saturar(dist[aristas[k].0 as int]->0 + aristas[k].2),
{
    let u = aristas[k].0;
    let v = aristas[k].1;
    let wu = choose|w: Seq<int>| #[trigger] llega(aristas, origen, u, w) && saturar(peso(aristas, w)) == dist[u as int]->0;
    lema_extender(aristas, origen, wu, k);
    lema_caminata_acotada(aristas, n, origen, wu);
    lema_saturar_suma(peso(aristas, wu), aristas[k].2 as int);
    let wv = wu.push(k);
    assert(llega(aristas, origen, v, wv));
    assert(alcanzable(aristas, origen, v));
}

/// Every recorded predecessor `u` of a node `v` lies one lightest edge
/// before it: the distance of `u` plus the least weight of an edge from `u`
/// to `v`, capped at the largest `i32`, is the distance of `v`. Where the
/// distance of `v` is below the cap, the sum is exact.
pub proof fn ley_predecesores(
    aristas: Seq<Arista>,
    n: nat,
    origen: usize,
    dist: Seq<Option<i32>>,
    preds: Seq<Seq<usize>>,
    u: usize,
    v: usize,
)
    requires
        aristas_validas(aristas, n),
        origen < n,
        es_resultado(aristas, n, origen, dist, preds),
        v < n,
        preds[v as int].contains(u),
    ensures
        u < n,
        dist[u as int] is Some,
        dist[v as int] is Some,
        peso_minimo(aristas, u, v) is Some,
        saturar(dist[u as int]->0 + peso_minimo(aristas, u, v)->0) == dist[v as int]->0,
        dist[v as int]->0 < i32::MAX ==> dist[u as int]->0 + peso_minimo(aristas, u, v)->0 == dist[v as int]->0,
{
    assert(es_predecesor(aristas, dist, u, v));
    let k = choose|k: int| arista_ajustada(aristas, dist, u, v, k);
    lema_peso_minimo(aristas, u, v);
    let m = peso_minimo(aristas, u, v)->0;
    let k2 = choose|k2: int| 0 <= k2 < aristas.len() && #[trigger] aristas[k2] == (u, v, m as i32) && aristas[k2].2 == m;
    ley_triangulo(aristas, n, origen, dist, preds, k2);
}

/// Every path along the recorded predecessors starts at the origin, ends
/// at the destination, passes no node twice, and weighs what the search
/// recorded for the destination: the sum of the least weights between each
/// node and the next, capped at the largest `i32`, is that distance. Where
/// the distance is below the cap, the sum is exact.
pub proof fn ley_caminos(
    aristas: Seq<Arista>,
    n: nat,
    origen: usize,
    dist: Seq<Option<i32>>,
    preds: Seq<Seq<usize>>,
    destino: usize,
    p: Seq<usize>,
)
    requires
        aristas_validas(aristas, n),
        origen < n,
        es_resultado(aristas, n, origen, dist, preds),
        es_camino(preds, origen, destino, p),
    ensures
        p[0] == origen,
        p.last() == destino,
        p.no_duplicates(),
        destino < n,
        dist[destino as int] is Some,
        saturar(costo(aristas, p)) == dist[destino as int]->0,
        dist[destino as int]->0 < i32::MAX ==> costo(aristas, p) == dist[destino as int]->0,
    decreases p.len(),
{
    if p.len() == 1 {
        ley_origen(aristas, n, origen, dist, preds);
    } else {
        let p0 = p.drop_last();
        let u = p0.last();
        let v = p.last();
        assert(p[p.len() - 1] < preds.len() && preds[p[p.len() - 1] as int].contains(p[p.len() - 2]));
        assert(es_camino(preds, origen, u, p0)) by {
            assert forall|i: int| 1 <= i < p0.len() implies (#[trigger] p0[i]) < preds.len() && preds[p0[i] as int].contains(
                p0[i - 1],
            ) by {
                assert(p0[i] == p[i] && p0[i - 1] == p[i - 1]);
            }
            assert forall|i: int, j: int| 0 <= i < p0.len() && 0 <= j < p0.len() && i != j implies p0[i] != p0[j] by {
                assert(p0[i] == p[i] && p0[j] == p[j]);
            }
        }
        ley_caminos(aristas, n, origen, dist, preds, u, p0);
        ley_predecesores(aristas, n, origen, dist, preds, u, v);
        lema_costo_no_negativo(aristas, n, p0);
        lema_saturar_suma(costo(aristas, p0), peso_minimo(aristas, u, v)->0);
        lema_peso_minimo(aristas, u, v);
    }
}

/// Over valid edges no path costs less than zero.
proof fn lema_costo_no_negativo(aristas: Seq<Arista>, n: nat, p: Seq<usize>)
    requires
        aristas_validas(aristas, n),
    ensures
        costo(aristas, p) >= 0,
    decreases p.len(),
{
    if p.len() > 1 {
        lema_costo_no_negativo(aristas, n, p.drop_last());
        lema_peso_minimo(aristas, p[p.len() - 2], p.last());
    }
}

/// The answer of a search is one: two tables that both answer the search
/// from one origin hold the same distances and, as sets, the same
/// predecessors, and they span the same paths to every destination.
pub proof fn ley_resultado_unico(
    aristas: Seq<Arista>,
    n: nat,
    origen: usize,
    dist1: Seq<Option<i32>>,
    preds1: Seq<Seq<usize>>,
    dist2: Seq<Option<i32>>,
    preds2: Seq<Seq<usize>>,
)
    requires
        n <= usize::MAX,
        es_resultado(aristas, n, origen, dist1, preds1),
        es_resultado(aristas, n, origen, dist2, preds2),
    ensures
        dist1 == dist2,
        forall|v: int| 0 <= v < n ==> (#[trigger] preds1[v]).to_set() == preds2[v].to_set(),
        forall|destino: usize, p: Seq<usize>|
            es_camino(preds1, origen, destino, p) <==> es_camino(preds2, origen, destino, p),
{
    assert forall|v: int| 0 <= v < n implies dist1[v] == dist2[v] by {
        let x = v as usize;
        assert(x < n);
        match (dist1[x as int], dist2[x as int]) {
            (Some(d1), Some(d2)) => {
                let w1 = choose|w: Seq<int>| #[trigger] llega(aristas, origen, x, w) && saturar(peso(aristas, w)) == d1;
                let w2 = choose|w: Seq<int>| #[trigger] llega(aristas, origen, x, w) && saturar(peso(aristas, w)) == d2;
                assert(d2 <= saturar(peso(aristas, w1)));
                assert(d1 <= saturar(peso(aristas, w2)));
            },
            (Some(d1), None) => {
                let w1 = choose|w: Seq<int>| #[trigger] llega(aristas, origen, x, w) && saturar(peso(aristas, w)) == d1;
                assert(alcanzable(aristas, origen, x));
            },
            (None, Some(d2)) => {
                let w2 = choose|w: Seq<int>| #[trigger] llega(aristas, origen, x, w) && saturar(peso(aristas, w)) == d2;
                assert(alcanzable(aristas, origen, x));
            },
            (None, None) => {},
        }
    }
    assert(dist1 =~= dist2);
    assert forall|v: usize, u: usize| v < n implies (#[trigger] preds1[v as int].contains(u) <==> preds2[v as int].contains(
        u,
    )) by {}
    assert forall|v: int| 0 <= v < n implies (#[trigger] preds1[v]).to_set() == preds2[v].to_set() by {
        let x = v as usize;
        assert forall|u: usize| preds1[v].to_set().contains(u) <==> preds2[v].to_set().contains(u) by {
            assert(preds1[x as int].contains(u) <==> preds2[x as int].contains(u));
        }
        assert(preds1[v].to_set() =~= preds2[v].to_set());
    }
    assert forall|destino: usize, p: Seq<usize>|
        es_camino(preds1, origen, destino, p) <==> es_camino(preds2, origen, destino, p) by {
        if es_camino(preds1, origen, destino, p) {
            assert forall|i: int| 1 <= i < p.len() implies (#[trigger] p[i]) < preds2.len() && preds2[p[i] as int].contains(
                p[i - 1],
            ) by {
                assert(preds1[p[i] as int].contains(p[i - 1]));
            }
        }
        if es_camino(preds2, origen, destino, p) {
            assert forall|i: int| 1 <= i < p.len() implies (#[trigger] p[i]) < preds1.len() && preds1[p[i] as int].contains(
                p[i - 1],
            ) by {
                assert(preds2[p[i] as int].contains(p[i - 1]));
            }
        }
    }
}

/// Doing it again changes nothing: two searches from one origin in one
/// graph, each followed by the listing of the paths to one destination, give
/// the same distances, the same predecessors as sets, and the same paths,
/// whatever the order in which they are listed.
pub proof fn ley_repeticion(
    aristas: Seq<Arista>,
    n: nat,
    origen: usize,
    destino: usize,
    dist1: Seq<Option<i32>>,
    preds1: Seq<Seq<usize>>,
    caminos1: Seq<Vec<usize>>,
    dist2: Seq<Option<i32>>,
    preds2: Seq<Seq<usize>>,
    caminos2: Seq<Vec<usize>>,
)
    requires
        n <= usize::MAX,
        es_resultado(aristas, n, origen, dist1, preds1),
        es_resultado(aristas, n, origen, dist2, preds2),
        forall|p: Seq<usize>| emitido(caminos1, 0, p) <==> es_camino(preds1, origen, destino, p),
        forall|p: Seq<usize>| emitido(caminos2, 0, p) <==> es_camino(preds2, origen, destino, p),
    ensures
        dist1 == dist2,
        forall|v: int| 0 <= v < n ==> (#[trigger] preds1[v]).to_set() == preds2[v].to_set(),
        forall|p: Seq<usize>| emitido(caminos1, 0, p) <==> emitido(caminos2, 0, p),
{
    ley_resultado_unico(aristas, n, origen, dist1, preds1, dist2, preds2);
    assert forall|p: Seq<usize>| emitido(caminos1, 0, p) <==> emitido(caminos2, 0, p) by {
        assert(es_camino(preds1, origen, destino, p) <==> es_camino(preds2, origen, destino, p));
    }
}

/// `p` is a path along the predecessors to `v` on which no node lies
/// farther from the origin than `v`.
spec fn camino_creciente(
    dist: Seq<Option<i32>>,
    preds: Seq<Seq<usize>>,
    origen: usize,
    v: usize,
    p: Seq<usize>,
) -> bool {
    &&& es_camino(preds, origen, v, p)
    &&& forall|i: int|
        0 <= i < p.len() ==> (#[trigger] p[i]) < dist.len() && dist[p[i] as int] is Some && dist[p[i] as int]->0
            <= dist[v as int]->0
}

/// A walk that weighs what the search recorded for its end, below the cap,
/// has a path along the predecessors beside it.
proof fn lema_camino_junto(
    aristas: Seq<Arista>,
    n: nat,
    origen: usize,
    dist: Seq<Option<i32>>,
    preds: Seq<Seq<usize>>,
    v: usize,
    w: Seq<int>,
)
    requires
        aristas_validas(aristas, n),
        origen < n,
        es_resultado(aristas, n, origen, dist, preds),
        llega(aristas, origen, v, w),
        dist[v as int] is Some,
        dist[v as int]->0 < i32::MAX,
        saturar(peso(aristas, w)) == dist[v as int]->0,
    ensures
        exists|p: Seq<usize>| camino_creciente(dist, preds, origen, v, p),
    decreases w.len(),
{
    lema_caminata_acotada(aristas, n, origen, w);
    if w.len() == 0 {
        let p = seq![origen];
        assert(p.no_duplicates());
        assert(camino_creciente(dist, preds, origen, v, p));
    } else {
        let w0 = w.drop_last();
        let k = w.last();
        let u = aristas[k].0;
        let c = aristas[k].2;
        lema_caminata_acotada(aristas, n, origen, w0);
        assert(llega(aristas, origen, u, w0));
        assert(alcanzable(aristas, origen, u));
        assert(dist[u as int] is Some);
        ley_triangulo(aristas, n, origen, dist, preds, k);
        assert(dist[u as int]->0 <= saturar(peso(aristas, w0)));
        assert(peso(aristas, w) == peso(aristas, w0) + c);
        assert(dist[u as int]->0 == peso(aristas, w0));
        lema_camino_junto(aristas, n, origen, dist, preds, u, w0);
        let p0 = choose|p0: Seq<usize>| camino_creciente(dist, preds, origen, u, p0);
        let p = p0.push(v);
        assert(arista_ajustada(aristas, dist, u, v, k));
        assert(es_predecesor(aristas, dist, u, v));
        assert(preds[v as int].contains(u));
        assert(es_camino(preds, origen, v, p)) by {
            assert forall|i: int| 1 <= i < p.len() implies (#[trigger] p[i]) < preds.len() && preds[p[i] as int].contains(
                p[i - 1],
            ) by {
                if i < p0.len() {
                    assert(p[i] == p0[i] && p[i - 1] == p0[i - 1]);
                } else {
                    assert(p[i - 1] == p0.last());
                }
            }
            assert forall|i: int, j: int| 0 <= i < p.len() && 0 <= j < p.len() && i != j implies p[i] != p[j] by {
                if i < p0.len() && j < p0.len() {
                    assert(p[i] == p0[i] && p[j] == p0[j]);
                } else if i < p0.len() {
                    assert(p[i] == p0[i]);
                } else {
                    assert(p[j] == p0[j]);
                }
            }
        }
        assert(camino_creciente(dist, preds, origen, v, p)) by {
            assert forall|i: int| 0 <= i < p.len() implies (#[trigger] p[i]) < dist.len() && dist[p[i] as int] is Some
                && dist[p[i] as int]->0 <= dist[v as int]->0 by {
                if i < p0.len() {
                    assert(p[i] == p0[i]);
                }
            }
        }
    }
}

/// The start of a path, up to one of its nodes, is a path to that node.
proof fn lema_tramo_inicial(preds: Seq<Seq<usize>>, origen: usize, destino: usize, p: Seq<usize>, i: int)
    requires
        es_camino(preds, origen, destino, p),
        0 <= i < p.len(),
    ensures
        es_camino(preds, origen, p[i], p.take(i + 1)),
{
    let t = p.take(i + 1);
    assert forall|k: int| 1 <= k < t.len() implies (#[trigger] t[k]) < preds.len() && preds[t[k] as int].contains(
        t[k - 1],
    ) by {
        assert(t[k] == p[k] && t[k - 1] == p[k - 1]);
    }
    assert forall|x: int, y: int| 0 <= x < t.len() && 0 <= y < t.len() && x != y implies t[x] != t[y] by {
        assert(t[x] == p[x] && t[y] == p[y]);
    }
}

/// Where a walk arrives, a path along the predecessors arrives too.
proof fn lema_camino_por_caminata(
    aristas: Seq<Arista>,
    n: nat,
    origen: usize,
    dist: Seq<Option<i32>>,
    preds: Seq<Seq<usize>>,
    v: usize,
    w: Seq<int>,
)
    requires
        aristas_validas(aristas, n),
        origen < n,
        es_resultado(aristas, n, origen, dist, preds),
        llega(aristas, origen, v, w),
    ensures
        exists|p: Seq<usize>| es_camino(preds, origen, v, p),
    decreases w.len(),
{
    lema_caminata_acotada(aristas, n, origen, w);
    assert(alcanzable(aristas, origen, v));
    assert(dist[v as int] is Some);
    if dist[v as int]->0 < i32::MAX {
        let wo = choose|wo: Seq<int>| #[trigger]
            llega(aristas, origen, v, wo) && saturar(peso(aristas, wo)) == dist[v as int]->0;
        lema_camino_junto(aristas, n, origen, dist, preds, v, wo);
        let p = choose|p: Seq<usize>| camino_creciente(dist, preds, origen, v, p);
        assert(es_camino(preds, origen, v, p));
    } else if w.len() == 0 {
        let p = seq![origen];
        assert(p.no_duplicates());
        assert(es_camino(preds, origen, v, p));
    } else {
        let w0 = w.drop_last();
        let k = w.last();
        let u = aristas[k].0;
        lema_caminata_acotada(aristas, n, origen, w0);
        assert(llega(aristas, origen, u, w0));
        assert(alcanzable(aristas, origen, u));
        assert(dist[u as int] is Some);
        ley_triangulo(aristas, n, origen, dist, preds, k);
        assert(arista_ajustada(aristas, dist, u, v, k));
        assert(es_predecesor(aristas, dist, u, v));
        assert(preds[v as int].contains(u));
        lema_camino_por_caminata(aristas, n, origen, dist, preds, u, w0);
        let p0 = choose|p0: Seq<usize>| es_camino(preds, origen, u, p0);
        if p0.contains(v) {
            let i = choose|i: int| 0 <= i < p0.len() && p0[i] == v;
            lema_tramo_inicial(preds, origen, u, p0, i);
        } else {
            let p = p0.push(v);
            assert(es_camino(preds, origen, v, p)) by {
                assert forall|i: int| 1 <= i < p.len() implies (#[trigger] p[i]) < preds.len() && preds[p[i] as int].contains(
                    p[i - 1],
                ) by {
                    if i < p0.len() {
                        assert(p[i] == p0[i] && p[i - 1] == p0[i - 1]);
                    } else {
                        assert(p[i - 1] == p0.last());
                    }
                }
                assert forall|i: int, j: int| 0 <= i < p.len() && 0 <= j < p.len() && i != j implies p[i] != p[j] by {
                    if i < p0.len() && j < p0.len() {
                        assert(p[i] == p0[i] && p[j] == p0[j]);
                    } else if i < p0.len() {
                        assert(p[i] == p0[i]);
                    } else {
                        assert(p[j] == p0[j]);
                    }
                }
            }
        }
    }
}

/// A node has a distance exactly when a path along the recorded
/// predecessors leads from the origin to it.
pub proof fn ley_camino_existe(
    aristas: Seq<Arista>,
    n: nat,
    origen: usize,
    dist: Seq<Option<i32>>,
    preds: Seq<Seq<usize>>,
    destino: usize,
)
    requires
        aristas_validas(aristas, n),
        origen < n,
        destino < n,
        es_resultado(aristas, n, origen, dist, preds),
    ensures
        dist[destino as int] is Some <==> exists|p: Seq<usize>| es_camino(preds, origen, destino, p),
{
    if dist[destino as int] is Some {
        let w = choose|w: Seq<int>| #[trigger]
            llega(aristas, origen, destino, w) && saturar(peso(aristas, w)) == dist[destino as int]->0;
        lema_camino_por_caminata(aristas, n, origen, dist, preds, destino, w);
    }
    if exists|p: Seq<usize>| es_camino(preds, origen, destino, p) {
        let p = choose|p: Seq<usize>| es_camino(preds, origen, destino, p);
        ley_caminos(aristas, n, origen, dist, preds, destino, p);
    }
}

} // verus!

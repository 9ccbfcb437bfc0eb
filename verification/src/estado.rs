//! The state of a search in progress and what holds of it between two steps.

use crate::caminata::{
    alcanzable, arista_ajustada, es_distancia_minima, es_predecesor, es_resultado,
    lema_caminata_acotada, lema_extender, lema_saturar_suma, llega, peso, saturar,
};
use crate::modelo::{aristas_validas, Arista};
use crate::traza::{informa, Paso};
use vstd::prelude::*;

verus! {

/// The order of the frontier: by distance, then by node index.
pub open spec fn antes_o_igual(x: (i32, usize), y: (i32, usize)) -> bool {
    x.0 < y.0 || (x.0 == y.0 && x.1 <= y.1)
}

/// A node of distance `dx` and index `x` is settled before one of distance
/// `dy` and index `y`: its distance is smaller, or the distances are the
/// same and either its index is smaller or the distance is the cap.
pub open spec fn antes(dx: i32, x: int, dy: i32, y: int) -> bool {
    dx < dy || (dx == dy && (x < y || dy == i32::MAX))
}

/// What a search holds at one moment. `testigo` keeps, for each node with a
/// distance, a walk of that weight; `actual` is the node whose edges are
/// being relaxed (the number of nodes when there is none) and `hechas` the
/// edges of it that were relaxed already.
pub struct Estado {
    pub dist: Seq<Option<i32>>,
    pub fijo: Seq<bool>,
    pub preds: Seq<Seq<usize>>,
    pub frontera: Seq<(i32, usize)>,
    pub testigo: Seq<Seq<int>>,
    pub actual: usize,
    pub hechas: Seq<Arista>,
}

/// The number of nodes that are not settled yet.
pub open spec fn pendientes(fijo: Seq<bool>) -> nat
    decreases fijo.len(),
{
    if fijo.len() == 0 {
        0
    } else {
        pendientes(fijo.drop_last()) + if fijo.last() {
            0nat
        } else {
            1nat
        }
    }
}

/// Edge `k` was relaxed: its source is settled, and where the source is the
/// node in hand, the edge is among those done.
pub open spec fn relajada(a: Seq<Arista>, e: Estado, k: int) -> bool {
    &&& 0 <= k < a.len()
    &&& a[k].0 < e.fijo.len()
    &&& e.fijo[a[k].0 as int]
    &&& (a[k].0 == e.actual ==> e.hechas.contains(a[k]))
}

/// The relaxed edge `k` goes from `x` to `v` and gives `v` the distance it has.
pub open spec fn sostiene(a: Seq<Arista>, e: Estado, x: usize, v: usize, k: int) -> bool {
    &&& relajada(a, e, k)
    &&& a[k].0 == x
    &&& a[k].1 == v
    &&& v < e.dist.len()
    &&& e.dist[v as int] is Some
    &&& saturar(e.dist[x as int]->0 + a[k].2) == e.dist[v as int]->0
}

/// Every edge that gives a node its distance in `e2` gave it the same
/// distance in `e`, but for the edges equal to `nueva`.
pub open spec fn hereda(a: Seq<Arista>, e: Estado, e2: Estado, nueva: Option<Arista>) -> bool {
    forall|x: usize, v: usize, k: int| #[trigger]
        sostiene(a, e2, x, v, k) ==> (sostiene(a, e, x, v, k) && e2.dist[v as int] == e.dist[v as int]) || nueva
            == Some(a[k])
}

/// Of the distances: each is the capped weight of the walk kept for it, a
/// settled node has the least there is, and the settled nodes come before
/// the others in the order of the frontier.
pub open spec fn inv_dist(a: Seq<Arista>, n: nat, s: usize, e: Estado) -> bool {
    &&& aristas_validas(a, n)
    &&& s < n
    &&& e.dist.len() == n
    &&& e.fijo.len() == n
    &&& e.preds.len() == n
    &&& e.testigo.len() == n
    &&& e.dist[s as int] == Some(0i32)
    &&& forall|v: int| 0 <= v < n && #[trigger] e.fijo[v] ==> e.dist[v] is Some
    &&& forall|v: usize|
        v < n && (#[trigger] e.dist[v as int]) is Some ==> {
            &&& e.dist[v as int]->0 >= 0
            &&& llega(a, s, v, e.testigo[v as int])
            &&& saturar(peso(a, e.testigo[v as int])) == e.dist[v as int]->0
        }
    &&& forall|v: usize, w: Seq<int>|
        v < n && e.fijo[v as int] && #[trigger] llega(a, s, v, w) ==> e.dist[v as int]->0 <= saturar(
            peso(a, w),
        )
    &&& forall|x: int, y: int|
        0 <= x < n && 0 <= y < n && #[trigger] e.fijo[x] && !e.fijo[y] && (#[trigger] e.dist[y]) is Some
            ==> antes(e.dist[x]->0, x, e.dist[y]->0, y)
}

/// Of the relaxed edges: none leads to a distance larger than that of its
/// source plus its weight, capped.
pub open spec fn inv_rel(a: Seq<Arista>, e: Estado) -> bool {
    forall|k: int| #[trigger]
        relajada(a, e, k) ==> {
            &&& e.dist[a[k].1 as int] is Some
            &&& e.dist[a[k].1 as int]->0 <= saturar(e.dist[a[k].0 as int]->0 + a[k].2)
        }
}

/// Of the predecessors: each list names, once each, the sources of the
/// relaxed edges that give the node the distance it has.
pub open spec fn inv_preds(a: Seq<Arista>, n: nat, e: Estado) -> bool {
    &&& forall|v: int| 0 <= v < n ==> (#[trigger] e.preds[v]).no_duplicates()
    &&& forall|v: usize, x: usize|
        v < n ==> (#[trigger] e.preds[v as int].contains(x) <==> exists|k: int| sostiene(a, e, x, v, k))
}

/// Of the frontier: it holds every node that has a distance and is not
/// settled, with that distance, and no entry below the distance of its node.
pub open spec fn inv_frontera(n: nat, e: Estado) -> bool {
    &&& forall|v: usize|
        v < n && (#[trigger] e.dist[v as int]) is Some && !e.fijo[v as int] ==> e.frontera.contains(
            (e.dist[v as int]->0, v),
        )
    &&& forall|i: int|
        0 <= i < e.frontera.len() ==> {
            &&& (#[trigger] e.frontera[i]).1 < n
            &&& e.dist[e.frontera[i].1 as int] is Some
            &&& e.dist[e.frontera[i].1 as int]->0 <= e.frontera[i].0
        }
}

/// What holds of the state of a search from `s` at every step.
pub open spec fn inv(a: Seq<Arista>, n: nat, s: usize, e: Estado) -> bool {
    &&& inv_dist(a, n, s, e)
    &&& inv_rel(a, e)
    &&& inv_preds(a, n, e)
    &&& inv_frontera(n, e)
}

/// What holds in addition while the edges of the settled node `e.actual`,
/// of distance `d`, are relaxed.
pub open spec fn en_curso(n: nat, e: Estado, d: i32) -> bool {
    &&& e.actual < n
    &&& e.fijo[e.actual as int]
    &&& e.dist[e.actual as int] == Some(d)
    &&& forall|x: int| 0 <= x < n && #[trigger] e.fijo[x] ==> e.dist[x]->0 <= d
}

/// Some node that is not settled has a distance of at most `cota`.
pub open spec fn abierto(n: nat, e: Estado, cota: int) -> bool {
    exists|x: int| 0 <= x < n && !(#[trigger] e.fijo[x]) && e.dist[x] is Some && e.dist[x]->0 <= cota
}

/// Settling a node leaves one node less to settle.
pub proof fn lema_pendientes(fijo: Seq<bool>, u: int)
    requires
        0 <= u < fijo.len(),
        !fijo[u],
    ensures
        pendientes(fijo.update(u, true)) + 1 == pendientes(fijo),
    decreases fijo.len(),
{
    let f2 = fijo.update(u, true);
    if u == fijo.len() - 1 {
        assert(f2.drop_last() =~= fijo.drop_last());
    } else {
        assert(f2.drop_last() =~= fijo.drop_last().update(u, true));
        lema_pendientes(fijo.drop_last(), u);
    }
}

/// The state with which a search starts.
pub proof fn lema_inicio(a: Seq<Arista>, n: nat, s: usize, e: Estado)
    requires
        aristas_validas(a, n),
        s < n,
        e.dist.len() == n,
        e.fijo.len() == n,
        e.preds.len() == n,
        e.testigo.len() == n,
        forall|v: int| 0 <= v < n ==> #[trigger] e.dist[v] == if v == s { Some(0i32) } else { None },
        forall|v: int| 0 <= v < n ==> !#[trigger] e.fijo[v],
        forall|v: int| 0 <= v < n ==> (#[trigger] e.preds[v]).len() == 0,
        forall|v: int| 0 <= v < n ==> (#[trigger] e.testigo[v]).len() == 0,
        e.frontera == seq![(0i32, s)],
        e.actual == n,
    ensures
        inv(a, n, s, e),
{
    assert(e.frontera[0] == (0i32, s));
    assert forall|v: usize| v < n && (#[trigger] e.dist[v as int]) is Some && !e.fijo[v as int] implies e.frontera.contains(
        (e.dist[v as int]->0, v),
    ) by {
        assert(v == s);
    }
}

/// A walk from the origin either ends at a settled node whose distance is
/// at most its weight, or passes a node that is not settled yet and whose
/// distance is at most its weight.
pub proof fn lema_frente(a: Seq<Arista>, n: nat, s: usize, e: Estado, y: usize, w: Seq<int>)
    requires
        inv_dist(a, n, s, e),
        inv_rel(a, e),
        e.actual == n,
        llega(a, s, y, w),
    ensures
        y < n,
        (e.fijo[y as int] && e.dist[y as int]->0 <= saturar(peso(a, w))) || abierto(n, e, saturar(peso(a, w))),
    decreases w.len(),
{
    lema_caminata_acotada(a, n, s, w);
    if w.len() == 0 {
        if !e.fijo[s as int] {
            assert(e.dist[s as int] is Some);
        }
    } else {
        let w0 = w.drop_last();
        let k = w.last();
        let y0 = a[k].0;
        let c = a[k].2;
        lema_caminata_acotada(a, n, s, w0);
        lema_frente(a, n, s, e, y0, w0);
        assert(peso(a, w) == peso(a, w0) + c);
        if e.fijo[y0 as int] && e.dist[y0 as int]->0 <= saturar(peso(a, w0)) {
            assert(relajada(a, e, k));
            lema_saturar_suma(peso(a, w0), c as int);
            if !e.fijo[y as int] {
                assert(e.dist[y as int] is Some);
            }
        } else {
            let x = choose|x: int|
                0 <= x < n && !(#[trigger] e.fijo[x]) && e.dist[x] is Some && e.dist[x]->0 <= saturar(
                    peso(a, w0),
                );
            assert(!e.fijo[x] && e.dist[x]->0 <= saturar(peso(a, w)));
        }
    }
}

/// Dropping an entry of the frontier whose node is settled already.
pub proof fn lema_descartar(a: Seq<Arista>, n: nat, s: usize, e: Estado, i: int, e2: Estado)
    requires
        inv(a, n, s, e),
        0 <= i < e.frontera.len(),
        e.fijo[e.frontera[i].1 as int],
        e2 == (Estado { frontera: e.frontera.remove(i), ..e }),
    ensures
        inv(a, n, s, e2),
        hereda(a, e, e2, None),
{
    assert forall|x: usize, v: usize, k: int| #[trigger] sostiene(a, e2, x, v, k) implies sostiene(a, e, x, v, k) by {}
    assert(inv_rel(a, e2)) by {
        assert forall|k: int| #[trigger] relajada(a, e2, k) implies relajada(a, e, k) by {}
    }
    assert(inv_preds(a, n, e2)) by {
        assert forall|v: usize, x: usize| v < n implies (#[trigger] e2.preds[v as int].contains(x) <==> exists|
            k: int,
        |
            sostiene(a, e2, x, v, k)) by {
            if e.preds[v as int].contains(x) {
                let k = choose|k: int| sostiene(a, e, x, v, k);
                assert(sostiene(a, e2, x, v, k));
            }
            if exists|k: int| sostiene(a, e2, x, v, k) {
                let k = choose|k: int| sostiene(a, e2, x, v, k);
                assert(sostiene(a, e, x, v, k));
            }
        }
    }
    lema_quitar(n, e, i, e2);
}

/// Taking entry `i` out of the frontier keeps what holds of the frontier,
/// but for the node of that entry.
proof fn lema_quitar(n: nat, e: Estado, i: int, e2: Estado)
    requires
        inv_frontera(n, e),
        0 <= i < e.frontera.len(),
        e2.frontera == e.frontera.remove(i),
        e2.dist == e.dist,
        e.dist.len() == n,
        e.fijo.len() == n,
        e2.fijo.len() == n,
        forall|v: int| 0 <= v < n && v != e.frontera[i].1 ==> e2.fijo[v] == e.fijo[v],
        e2.fijo[e.frontera[i].1 as int],
    ensures
        inv_frontera(n, e2),
{
    let f = e.frontera;
    let f2 = e2.frontera;
    assert forall|v: usize| v < n && (#[trigger] e2.dist[v as int]) is Some && !e2.fijo[v as int] implies f2.contains(
        (e2.dist[v as int]->0, v),
    ) by {
        let x = (e.dist[v as int]->0, v);
        assert(f.contains(x));
        let j = choose|j: int| 0 <= j < f.len() && f[j] == x;
        assert(j != i);
        if j < i {
            assert(f2[j] == x);
        } else {
            assert(f2[j - 1] == x);
        }
    }
    assert forall|j: int| 0 <= j < f2.len() implies {
        &&& (#[trigger] f2[j]).1 < n
        &&& e2.dist[f2[j].1 as int] is Some
        &&& e2.dist[f2[j].1 as int]->0 <= f2[j].0
    } by {
        if j < i {
            assert(f2[j] == f[j]);
        } else {
            assert(f2[j] == f[j + 1]);
        }
    }
}

/// Settling the node of the least entry of the frontier.
pub proof fn lema_asentar(a: Seq<Arista>, n: nat, s: usize, e: Estado, i: int, e2: Estado)
    requires
        inv(a, n, s, e),
        e.actual == n,
        0 <= i < e.frontera.len(),
        forall|j: int| 0 <= j < e.frontera.len() ==> antes_o_igual(e.frontera[i], #[trigger] e.frontera[j]),
        !e.fijo[e.frontera[i].1 as int],
        e2 == (Estado {
            fijo: e.fijo.update(e.frontera[i].1 as int, true),
            frontera: e.frontera.remove(i),
            actual: e.frontera[i].1,
            hechas: Seq::empty(),
            ..e
        }),
    ensures
        inv(a, n, s, e2),
        en_curso(n, e2, e.frontera[i].0),
        pendientes(e2.fijo) < pendientes(e.fijo),
        e.dist[e.frontera[i].1 as int] == Some(e.frontera[i].0),
        forall|x: int|
            0 <= x < n && #[trigger] e.fijo[x] ==> antes(e.dist[x]->0, x, e.frontera[i].0, e.frontera[i].1 as int),
        hereda(a, e, e2, None),
{
    let d = e.frontera[i].0;
    let u = e.frontera[i].1;
    assert forall|x: usize, v: usize, k: int| #[trigger] sostiene(a, e2, x, v, k) implies sostiene(a, e, x, v, k) by {
        assert(a[k].0 != u) by {
            if a[k].0 == u {
                assert(e2.hechas.contains(a[k]));
            }
        }
    }
    lema_pendientes(e.fijo, u as int);
    // The entry holds the distance of its node, which is the least of the open ones.
    assert(e.frontera.contains((e.dist[u as int]->0, u)));
    let j0 = choose|j: int| 0 <= j < e.frontera.len() && e.frontera[j] == (e.dist[u as int]->0, u);
    assert(antes_o_igual(e.frontera[i], e.frontera[j0]));
    assert(e.dist[u as int] == Some(d));
    assert forall|y: usize| y < n && !e.fijo[y as int] && (#[trigger] e.dist[y as int]) is Some implies d
        <= e.dist[y as int]->0 by {
        assert(e.frontera.contains((e.dist[y as int]->0, y)));
        let j = choose|j: int| 0 <= j < e.frontera.len() && e.frontera[j] == (e.dist[y as int]->0, y);
        assert(antes_o_igual(e.frontera[i], e.frontera[j]));
    }
    assert(inv_dist(a, n, s, e2)) by {
        assert forall|v: usize, w: Seq<int>| v < n && e2.fijo[v as int] && #[trigger] llega(a, s, v, w) implies e2.dist[v as int]->0
            <= saturar(peso(a, w)) by {
            if v == u {
                lema_frente(a, n, s, e, u, w);
                if abierto(n, e, saturar(peso(a, w))) {
                    let x = choose|x: int|
                        0 <= x < n && !(#[trigger] e.fijo[x]) && e.dist[x] is Some && e.dist[x]->0 <= saturar(
                            peso(a, w),
                        );
                    assert(d <= e.dist[x]->0);
                }
            }
        }
        assert forall|x: int, y: int|
            0 <= x < n && 0 <= y < n && #[trigger] e2.fijo[x] && !e2.fijo[y] && (#[trigger] e2.dist[y]) is Some implies antes(
            e2.dist[x]->0,
            x,
            e2.dist[y]->0,
            y,
        ) by {
            assert(!e.fijo[y]);
            if x != u {
                assert(e.fijo[x]);
            } else {
                let yy = y as usize;
                assert(e.dist[yy as int] is Some);
                assert(e.frontera.contains((e.dist[yy as int]->0, yy)));
                let j = choose|j: int| 0 <= j < e.frontera.len() && e.frontera[j] == (e.dist[yy as int]->0, yy);
                assert(antes_o_igual(e.frontera[i], e.frontera[j]));
            }
        }
    }
    assert forall|k: int| relajada(a, e2, k) <==> relajada(a, e, k) by {
        if relajada(a, e2, k) {
            assert(a[k].0 != u) by {
                if a[k].0 == u {
                    assert(e2.hechas.contains(a[k]));
                }
            }
        }
        if relajada(a, e, k) {
            assert(a[k].0 != u);
        }
    }
    assert(inv_preds(a, n, e2)) by {
        assert forall|v: usize, x: usize| v < n implies (#[trigger] e2.preds[v as int].contains(x) <==> exists|
            k: int,
        |
            sostiene(a, e2, x, v, k)) by {
            if e.preds[v as int].contains(x) {
                let k = choose|k: int| sostiene(a, e, x, v, k);
                assert(relajada(a, e2, k));
                assert(sostiene(a, e2, x, v, k));
            }
            if exists|k: int| sostiene(a, e2, x, v, k) {
                let k = choose|k: int| sostiene(a, e2, x, v, k);
                assert(relajada(a, e, k));
                assert(sostiene(a, e, x, v, k));
            }
        }
    }
    lema_quitar(n, e, i, e2);
    assert forall|x: int| 0 <= x < n && #[trigger] e2.fijo[x] implies e2.dist[x]->0 <= d by {
        if x != u {
            assert(e.fijo[x]);
        }
    }
}

/// Marking one more edge of the node in hand as done adds that edge, and
/// every edge equal to it, to the relaxed ones.
proof fn lema_relajada_mas(a: Seq<Arista>, e: Estado, e2: Estado, k0: int)
    requires
        0 <= k0 < a.len(),
        a[k0].0 == e.actual,
        e.actual < e.fijo.len(),
        e.fijo[e.actual as int],
        e2.fijo == e.fijo,
        e2.actual == e.actual,
        e2.hechas == e.hechas.push(a[k0]),
    ensures
        forall|k: int| #[trigger] relajada(a, e2, k) <==> relajada(a, e, k) || (0 <= k < a.len() && a[k] == a[k0]),
{
    assert forall|k: int| #[trigger] relajada(a, e2, k) <==> relajada(a, e, k) || (0 <= k < a.len() && a[k] == a[k0]) by {
        if 0 <= k < a.len() {
            if a[k] == a[k0] {
                assert(e2.hechas[e.hechas.len() as int] == a[k]);
            }
            if e.hechas.contains(a[k]) {
                let j = choose|j: int| 0 <= j < e.hechas.len() && e.hechas[j] == a[k];
                assert(e2.hechas[j] == a[k]);
            }
            if e2.hechas.contains(a[k]) && a[k] != a[k0] {
                let j = choose|j: int| 0 <= j < e2.hechas.len() && e2.hechas[j] == a[k];
                assert(e.hechas[j] == a[k]);
            }
        }
    }
}

/// Relaxing an edge that gives its target a first or a smaller distance.
pub proof fn lema_mejora(a: Seq<Arista>, n: nat, s: usize, e: Estado, d: i32, k0: int, e2: Estado)
    requires
        inv(a, n, s, e),
        en_curso(n, e, d),
        0 <= k0 < a.len(),
        a[k0].0 == e.actual,
        e.dist[a[k0].1 as int] is None || saturar(d + a[k0].2) < e.dist[a[k0].1 as int]->0,
        e2 == (Estado {
            dist: e.dist.update(a[k0].1 as int, Some(saturar(d + a[k0].2) as i32)),
            preds: e.preds.update(a[k0].1 as int, seq![e.actual]),
            frontera: e.frontera.push((saturar(d + a[k0].2) as i32, a[k0].1)),
            testigo: e.testigo.update(a[k0].1 as int, e.testigo[e.actual as int].push(k0)),
            hechas: e.hechas.push(a[k0]),
            ..e
        }),
    ensures
        inv(a, n, s, e2),
        en_curso(n, e2, d),
        !e.fijo[a[k0].1 as int],
        a[k0].1 != e.actual,
        hereda(a, e, e2, Some(a[k0])),
{
    let u = e.actual;
    let t = a[k0].1;
    let c = a[k0].2;
    let nd = saturar(d + c);
    assert(e.dist[u as int] is Some);
    assert(d >= 0);
    assert(!e.fijo[t as int]);
    assert(t != s);
    assert(t != u);
    lema_relajada_mas(a, e, e2, k0);
    assert forall|x: usize, v: usize, k: int| #[trigger] sostiene(a, e2, x, v, k) implies (sostiene(a, e, x, v, k)
        && e2.dist[v as int] == e.dist[v as int]) || Some(a[k0]) == Some(a[k]) by {
        if a[k] != a[k0] {
            assert(relajada(a, e, k));
            assert(x != t);
        }
    }
    let wu = e.testigo[u as int];
    assert(llega(a, s, u, wu));
    lema_extender(a, s, wu, k0);
    lema_caminata_acotada(a, n, s, wu);
    lema_saturar_suma(peso(a, wu), c as int);
    assert(inv_dist(a, n, s, e2)) by {
        assert forall|v: usize| v < n && (#[trigger] e2.dist[v as int]) is Some implies {
            &&& e2.dist[v as int]->0 >= 0
            &&& llega(a, s, v, e2.testigo[v as int])
            &&& saturar(peso(a, e2.testigo[v as int])) == e2.dist[v as int]->0
        } by {
            if v != t {
                assert(e.dist[v as int] is Some);
            }
        }
        assert forall|v: usize, w: Seq<int>| v < n && e2.fijo[v as int] && #[trigger] llega(a, s, v, w) implies e2.dist[v as int]->0
            <= saturar(peso(a, w)) by {
            assert(v != t);
        }
        assert forall|x: int, y: int|
            0 <= x < n && 0 <= y < n && #[trigger] e2.fijo[x] && !e2.fijo[y] && (#[trigger] e2.dist[y]) is Some implies antes(
            e2.dist[x]->0,
            x,
            e2.dist[y]->0,
            y,
        ) by {
            assert(e.fijo[x]);
            if y != t {
                assert(e.dist[y] is Some);
            }
        }
    }
    assert(inv_rel(a, e2)) by {
        assert forall|k: int| #[trigger] relajada(a, e2, k) implies {
            &&& e2.dist[a[k].1 as int] is Some
            &&& e2.dist[a[k].1 as int]->0 <= saturar(e2.dist[a[k].0 as int]->0 + a[k].2)
        } by {
            assert(a[k].0 != t);
            if a[k] != a[k0] {
                assert(relajada(a, e, k));
            }
        }
    }
    assert(inv_preds(a, n, e2)) by {
        assert forall|v: usize, x: usize| v < n implies (#[trigger] e2.preds[v as int].contains(x) <==> exists|
            k: int,
        |
            sostiene(a, e2, x, v, k)) by {
            if v == t {
                assert(e2.preds[v as int] == seq![u]);
                if x == u {
                    assert(seq![u][0] == u);
                    assert(relajada(a, e2, k0));
                    assert(sostiene(a, e2, x, v, k0));
                }
                if exists|k: int| sostiene(a, e2, x, v, k) {
                    let k = choose|k: int| sostiene(a, e2, x, v, k);
                    if a[k] != a[k0] {
                        assert(relajada(a, e, k));
                        assert(false);
                    }
                }
            } else {
                if e.preds[v as int].contains(x) {
                    let k = choose|k: int| sostiene(a, e, x, v, k);
                    assert(relajada(a, e2, k));
                    assert(sostiene(a, e2, x, v, k));
                }
                if exists|k: int| sostiene(a, e2, x, v, k) {
                    let k = choose|k: int| sostiene(a, e2, x, v, k);
                    assert(relajada(a, e, k));
                    assert(sostiene(a, e, x, v, k));
                }
            }
        }
    }
    assert(inv_frontera(n, e2)) by {
        let f = e.frontera;
        let f2 = e2.frontera;
        assert forall|v: usize| v < n && (#[trigger] e2.dist[v as int]) is Some && !e2.fijo[v as int] implies f2.contains(
            (e2.dist[v as int]->0, v),
        ) by {
            if v == t {
                assert(f2[f.len() as int] == (nd as i32, t));
            } else {
                let x = (e.dist[v as int]->0, v);
                assert(f.contains(x));
                let j = choose|j: int| 0 <= j < f.len() && f[j] == x;
                assert(f2[j] == x);
            }
        }
        assert forall|j: int| 0 <= j < f2.len() implies {
            &&& (#[trigger] f2[j]).1 < n
            &&& e2.dist[f2[j].1 as int] is Some
            &&& e2.dist[f2[j].1 as int]->0 <= f2[j].0
        } by {
            if j < f.len() {
                assert(f2[j] == f[j]);
            }
        }
    }
}

/// Relaxing an edge that reaches its target with the distance it has, or
/// with a larger one.
pub proof fn lema_sin_mejora(a: Seq<Arista>, n: nat, s: usize, e: Estado, d: i32, k0: int, e2: Estado)
    requires
        inv(a, n, s, e),
        en_curso(n, e, d),
        0 <= k0 < a.len(),
        a[k0].0 == e.actual,
        e.dist[a[k0].1 as int] is Some,
        saturar(d + a[k0].2) >= e.dist[a[k0].1 as int]->0,
        e2 == (Estado {
            preds: if saturar(d + a[k0].2) == e.dist[a[k0].1 as int]->0 && !e.preds[a[k0].1 as int].contains(
                e.actual,
            ) {
                e.preds.update(a[k0].1 as int, e.preds[a[k0].1 as int].push(e.actual))
            } else {
                e.preds
            },
            hechas: e.hechas.push(a[k0]),
            ..e
        }),
    ensures
        inv(a, n, s, e2),
        en_curso(n, e2, d),
        hereda(
            a,
            e,
            e2,
            if saturar(d + a[k0].2) == e.dist[a[k0].1 as int]->0 {
                Some(a[k0])
            } else {
                None
            },
        ),
{
    let u = e.actual;
    let t = a[k0].1;
    let c = a[k0].2;
    let nd = saturar(d + c);
    let empate = nd == e.dist[t as int]->0;
    lema_relajada_mas(a, e, e2, k0);
    assert forall|x: usize, v: usize, k: int| #[trigger] sostiene(a, e2, x, v, k) implies (sostiene(a, e, x, v, k)
        && e2.dist[v as int] == e.dist[v as int]) || (empate && a[k] == a[k0]) by {
        if a[k] != a[k0] {
            assert(relajada(a, e, k));
        }
    }
    assert(inv_dist(a, n, s, e2)) by {
        assert forall|v: usize, w: Seq<int>| v < n && e2.fijo[v as int] && #[trigger] llega(a, s, v, w) implies e2.dist[v as int]->0
            <= saturar(peso(a, w)) by {}
    }
    assert(inv_rel(a, e2)) by {
        assert forall|k: int| #[trigger] relajada(a, e2, k) implies {
            &&& e2.dist[a[k].1 as int] is Some
            &&& e2.dist[a[k].1 as int]->0 <= saturar(e2.dist[a[k].0 as int]->0 + a[k].2)
        } by {
            if a[k] != a[k0] {
                assert(relajada(a, e, k));
            }
        }
    }
    assert(inv_preds(a, n, e2)) by {
        assert forall|v: int| 0 <= v < n implies (#[trigger] e2.preds[v]).no_duplicates() by {
            assert(e.preds[v].no_duplicates());
        }
        assert forall|v: usize, x: usize| v < n implies (#[trigger] e2.preds[v as int].contains(x) <==> exists|
            k: int,
        |
            sostiene(a, e2, x, v, k)) by {
            let p = e.preds[v as int];
            let pn = e2.preds[v as int];
            if pn.contains(x) {
                if p.contains(x) {
                    let k = choose|k: int| sostiene(a, e, x, v, k);
                    assert(relajada(a, e2, k));
                    assert(sostiene(a, e2, x, v, k));
                } else {
                    let j = choose|j: int| 0 <= j < pn.len() && pn[j] == x;
                    assert(pn == p.push(u));
                    if j < p.len() {
                        assert(p[j] == x);
                    }
                    assert(x == u && v == t && empate);
                    assert(relajada(a, e2, k0));
                    assert(sostiene(a, e2, x, v, k0));
                }
            }
            if exists|k: int| sostiene(a, e2, x, v, k) {
                let k = choose|k: int| sostiene(a, e2, x, v, k);
                if a[k] == a[k0] {
                    assert(x == u && v == t && empate);
                    if p.contains(u) {
                        assert(pn == p);
                    } else {
                        assert(pn == p.push(u));
                        assert(pn[p.len() as int] == u);
                    }
                } else {
                    assert(relajada(a, e, k));
                    assert(sostiene(a, e, x, v, k));
                    assert(p.contains(x));
                    let j = choose|j: int| 0 <= j < p.len() && p[j] == x;
                    assert(pn[j] == x);
                }
            }
        }
    }
    assert(inv_frontera(n, e2));
}

/// When every edge of the node in hand is done, the node can be let go.
pub proof fn lema_cerrar(a: Seq<Arista>, n: nat, s: usize, e: Estado, e2: Estado)
    requires
        inv(a, n, s, e),
        e.actual < n,
        forall|k: int| 0 <= k < a.len() && a[k].0 == e.actual ==> e.hechas.contains(#[trigger] a[k]),
        e2 == (Estado { actual: e2.actual, hechas: e2.hechas, ..e }),
        e2.actual == n,
    ensures
        inv(a, n, s, e2),
        hereda(a, e, e2, None),
{
    assert forall|k: int| relajada(a, e2, k) <==> relajada(a, e, k) by {}
    assert(inv_dist(a, n, s, e2)) by {
        assert forall|v: usize, w: Seq<int>| v < n && e2.fijo[v as int] && #[trigger] llega(a, s, v, w) implies e2.dist[v as int]->0
            <= saturar(peso(a, w)) by {}
    }
    assert(inv_preds(a, n, e2)) by {
        assert forall|v: usize, x: usize| v < n implies (#[trigger] e2.preds[v as int].contains(x) <==> exists|
            k: int,
        |
            sostiene(a, e2, x, v, k)) by {
            if e.preds[v as int].contains(x) {
                let k = choose|k: int| sostiene(a, e, x, v, k);
                assert(relajada(a, e2, k));
                assert(sostiene(a, e2, x, v, k));
            }
            if exists|k: int| sostiene(a, e2, x, v, k) {
                let k = choose|k: int| sostiene(a, e2, x, v, k);
                assert(relajada(a, e, k));
                assert(sostiene(a, e, x, v, k));
            }
        }
    }
}

/// With an empty frontier the state holds the answer.
pub proof fn lema_final(a: Seq<Arista>, n: nat, s: usize, e: Estado)
    requires
        n <= usize::MAX,
        inv(a, n, s, e),
        e.actual == n,
        e.frontera.len() == 0,
    ensures
        es_resultado(a, n, s, e.dist, e.preds),
        forall|v: int| 0 <= v < n ==> (#[trigger] e.dist[v] is Some <==> e.fijo[v]),
        forall|u: usize, v: usize, k: int| #[trigger] arista_ajustada(a, e.dist, u, v, k) ==> sostiene(a, e, u, v, k),
{
    assert forall|v: usize| v < n && (#[trigger] e.dist[v as int]) is Some implies e.fijo[v as int] by {
        if !e.fijo[v as int] {
            assert(e.frontera.contains((e.dist[v as int]->0, v)));
        }
    }
    assert forall|v: int| 0 <= v < n implies (#[trigger] e.dist[v] is Some <==> e.fijo[v]) by {
        let x = v as usize;
        if e.dist[x as int] is Some {
            assert(e.fijo[x as int]);
        }
    }
    assert forall|v: usize| v < n implies match #[trigger] e.dist[v as int] {
        Some(d) => es_distancia_minima(a, s, v, d as int),
        None => !alcanzable(a, s, v),
    } by {
        match e.dist[v as int] {
            Some(d) => {
                assert(llega(a, s, v, e.testigo[v as int]));
            },
            None => {
                if alcanzable(a, s, v) {
                    let w = choose|w: Seq<int>| llega(a, s, v, w);
                    lema_frente(a, n, s, e, v, w);
                    if abierto(n, e, saturar(peso(a, w))) {
                        let x = choose|x: int|
                            0 <= x < n && !(#[trigger] e.fijo[x]) && e.dist[x] is Some && e.dist[x]->0 <= saturar(
                                peso(a, w),
                            );
                        assert(e.dist[(x as usize) as int] is Some);
                    }
                }
            },
        }
    }
    assert forall|v: usize, u: usize| v < n implies (#[trigger] e.preds[v as int].contains(u) <==> es_predecesor(
        a,
        e.dist,
        u,
        v,
    )) by {
        if e.preds[v as int].contains(u) {
            let k = choose|k: int| sostiene(a, e, u, v, k);
            assert(relajada(a, e, k));
            assert(arista_ajustada(a, e.dist, u, v, k));
        }
        if es_predecesor(a, e.dist, u, v) {
            let k = choose|k: int| arista_ajustada(a, e.dist, u, v, k);
            assert(e.dist[u as int] is Some);
            assert(e.fijo[u as int]);
            assert(relajada(a, e, k));
            assert(sostiene(a, e, u, v, k));
        }
    }
}

/// The trace reports every relaxed edge that gives its target the distance
/// it has.
pub open spec fn explicada(a: Seq<Arista>, e: Estado, pasos: Seq<Paso>) -> bool {
    forall|k: int| #[trigger]
        sostiene(a, e, a[k].0, a[k].1, k) ==> exists|i: int|
            informa(pasos, i, a[k].0, a[k].1, a[k].2, e.dist[a[k].1 as int]->0)
}

/// The trace goes on reporting every such edge after a step that reports
/// the edges that the step made such.
pub proof fn lema_explicada(
    a: Seq<Arista>,
    e: Estado,
    e2: Estado,
    pasos: Seq<Paso>,
    pasos2: Seq<Paso>,
    nueva: Option<Arista>,
)
    requires
        explicada(a, e, pasos),
        hereda(a, e, e2, nueva),
        pasos2.len() >= pasos.len(),
        forall|i: int| 0 <= i < pasos.len() ==> #[trigger] pasos2[i] == pasos[i],
        nueva matches Some(ar) ==> exists|i: int| informa(pasos2, i, ar.0, ar.1, ar.2, e2.dist[ar.1 as int]->0),
    ensures
        explicada(a, e2, pasos2),
{
    assert forall|k: int| #[trigger] sostiene(a, e2, a[k].0, a[k].1, k) implies exists|i: int|
        informa(pasos2, i, a[k].0, a[k].1, a[k].2, e2.dist[a[k].1 as int]->0) by {
        if sostiene(a, e, a[k].0, a[k].1, k) && e2.dist[a[k].1 as int] == e.dist[a[k].1 as int] {
            let i = choose|i: int| informa(pasos, i, a[k].0, a[k].1, a[k].2, e.dist[a[k].1 as int]->0);
            assert(pasos2[i] == pasos[i]);
            assert(informa(pasos2, i, a[k].0, a[k].1, a[k].2, e2.dist[a[k].1 as int]->0));
        } else {
            assert(nueva == Some(a[k]));
        }
    }
}

} // verus!

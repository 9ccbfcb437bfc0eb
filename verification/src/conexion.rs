//! Connection of a graph when the direction of its edges is left aside.

use crate::modelo::{hay_arista, Arista};
use vstd::prelude::*;

verus! {

/// An edge joins `x` and `y`, in one direction or the other.
pub open spec fn unidos(aristas: Seq<Arista>, x: usize, y: usize) -> bool {
    hay_arista(aristas, x, y) || hay_arista(aristas, y, x)
}

/// Each node of `r` is joined to the next by an edge.
pub open spec fn es_ruta(aristas: Seq<Arista>, r: Seq<usize>) -> bool {
    r.len() >= 1 && forall|i: int| 0 <= i < r.len() - 1 ==> unidos(aristas, #[trigger] r[i], r[i + 1])
}

/// A route leads from `x` to `y`.
pub open spec fn comunicados(aristas: Seq<Arista>, x: usize, y: usize) -> bool {
    exists|r: Seq<usize>| #[trigger] es_ruta(aristas, r) && r[0] == x && r.last() == y
}

/// A route leads from every node below `n` to every other.
pub open spec fn conexo(aristas: Seq<Arista>, n: nat) -> bool {
    forall|x: usize, y: usize| x < n && y < n ==> comunicados(aristas, x, y)
}

/// No two edges join the same two nodes in the same direction.
pub open spec fn sin_paralelas(aristas: Seq<Arista>) -> bool {
    forall|i: int, j: int|
        0 <= i < j < aristas.len() ==> !((#[trigger] aristas[i]).0 == (#[trigger] aristas[j]).0 && aristas[i].1
            == aristas[j].1)
}

/// `orden` names each node below `n` once.
pub open spec fn es_permutacion(orden: Seq<usize>, n: nat) -> bool {
    &&& orden.len() == n
    &&& orden.no_duplicates()
    &&& forall|i: int| 0 <= i < n ==> #[trigger] orden[i] < n
    &&& forall|v: usize| v < n ==> orden.contains(v)
}

/// Each of the first `m` nodes of `orden` is joined to the next.
pub open spec fn encadenados(aristas: Seq<Arista>, orden: Seq<usize>, m: int) -> bool {
    forall|i: int| 0 <= i < m ==> unidos(aristas, #[trigger] orden[i], orden[i + 1])
}

/// One edge more loses no edge.
pub proof fn lema_arista_mas(aristas: Seq<Arista>, e: Arista, x: usize, y: usize)
    ensures
        hay_arista(aristas, x, y) ==> hay_arista(aristas.push(e), x, y),
        e.0 == x && e.1 == y ==> hay_arista(aristas.push(e), x, y),
        hay_arista(aristas.push(e), x, y) ==> hay_arista(aristas, x, y) || (e.0 == x && e.1 == y),
{
    let a2 = aristas.push(e);
    if hay_arista(aristas, x, y) {
        let k = choose|k: int| 0 <= k < aristas.len() && (#[trigger] aristas[k]).0 == x && aristas[k].1 == y;
        assert(a2[k] == aristas[k]);
    }
    if e.0 == x && e.1 == y {
        assert(a2[aristas.len() as int] == e);
    }
    if hay_arista(a2, x, y) {
        let k = choose|k: int| 0 <= k < a2.len() && (#[trigger] a2[k]).0 == x && a2[k].1 == y;
        if k < aristas.len() {
            assert(aristas[k] == a2[k]);
        }
    }
}

/// One edge more breaks no chain.
pub proof fn lema_cadena_mas(aristas: Seq<Arista>, e: Arista, orden: Seq<usize>, m: int)
    requires
        encadenados(aristas, orden, m),
    ensures
        encadenados(aristas.push(e), orden, m),
{
    assert forall|i: int| 0 <= i < m implies unidos(aristas.push(e), #[trigger] orden[i], orden[i + 1]) by {
        lema_arista_mas(aristas, e, orden[i], orden[i + 1]);
        lema_arista_mas(aristas, e, orden[i + 1], orden[i]);
    }
}

/// Along a chain, a route leads from the node at place `i` to the node at
/// place `j`.
proof fn lema_tramo(aristas: Seq<Arista>, orden: Seq<usize>, i: int, j: int)
    requires
        0 <= i <= j < orden.len(),
        encadenados(aristas, orden, orden.len() - 1),
    ensures
        comunicados(aristas, orden[i], orden[j]),
        comunicados(aristas, orden[j], orden[i]),
{
    let r = orden.subrange(i, j + 1);
    assert(es_ruta(aristas, r)) by {
        assert forall|k: int| 0 <= k < r.len() - 1 implies unidos(aristas, #[trigger] r[k], r[k + 1]) by {
            assert(r[k] == orden[i + k] && r[k + 1] == orden[i + k + 1]);
        }
    }
    assert(r[0] == orden[i] && r.last() == orden[j]);
    let v = r.reverse();
    assert(es_ruta(aristas, v)) by {
        assert forall|k: int| 0 <= k < v.len() - 1 implies unidos(aristas, #[trigger] v[k], v[k + 1]) by {
            assert(v[k] == r[r.len() - 1 - k] && v[k + 1] == r[r.len() - 2 - k]);
            assert(unidos(aristas, r[r.len() - 2 - k], r[r.len() - 2 - k + 1]));
        }
    }
    assert(v[0] == orden[j] && v.last() == orden[i]);
}

/// A chain through all the nodes connects the graph.
pub proof fn lema_cadena_conecta(aristas: Seq<Arista>, orden: Seq<usize>, n: nat)
    requires
        es_permutacion(orden, n),
        encadenados(aristas, orden, n - 1),
    ensures
        conexo(aristas, n),
{
    assert forall|x: usize, y: usize| x < n && y < n implies comunicados(aristas, x, y) by {
        assert(orden.contains(x));
        assert(orden.contains(y));
        let i = choose|i: int| 0 <= i < orden.len() && orden[i] == x;
        let j = choose|j: int| 0 <= j < orden.len() && orden[j] == y;
        if i <= j {
            lema_tramo(aristas, orden, i, j);
        } else {
            lema_tramo(aristas, orden, j, i);
        }
    }
}

/// Exchanging two places of a permutation gives a permutation.
pub proof fn lema_intercambio(orden: Seq<usize>, n: nat, i: int, j: int)
    requires
        es_permutacion(orden, n),
        0 <= i < n,
        0 <= j < n,
    ensures
        es_permutacion(orden.update(i, orden[j]).update(j, orden[i]), n),
{
    let o2 = orden.update(i, orden[j]).update(j, orden[i]);
    let lugar = |p: int| if p == i { j } else if p == j { i } else { p };
    assert forall|p: int| 0 <= p < n implies o2[p] == orden[lugar(p)] by {}
    assert forall|p: int, q: int| 0 <= p < o2.len() && 0 <= q < o2.len() && p != q implies o2[p] != o2[q] by {
        assert(o2[p] == orden[lugar(p)] && o2[q] == orden[lugar(q)]);
    }
    assert forall|v: usize| v < n implies o2.contains(v) by {
        assert(orden.contains(v));
        let p = choose|p: int| 0 <= p < orden.len() && orden[p] == v;
        assert(o2[lugar(p)] == v);
    }
    assert forall|p: int| 0 <= p < n implies #[trigger] o2[p] < n by {
        assert(o2[p] == orden[lugar(p)]);
    }
}

/// A single node is connected.
pub proof fn lema_conexo_trivial(aristas: Seq<Arista>, n: nat)
    requires
        n <= 1,
    ensures
        conexo(aristas, n),
{
    assert forall|x: usize, y: usize| x < n && y < n implies comunicados(aristas, x, y) by {
        let r = seq![x];
        assert(es_ruta(aristas, r));
        assert(r[0] == x && r.last() == y);
    }
}

} // verus!

//! The paths that predecessor lists span between an origin and a destination.

use crate::dijkstra::vistas;
use vstd::prelude::*;

verus! {

/// `p` leads from `origen` to `destino` without passing a node twice, each
/// node but the first being preceded by one of its recorded predecessors.
pub open spec fn es_camino(preds: Seq<Seq<usize>>, origen: usize, destino: usize, p: Seq<usize>) -> bool {
    &&& p.len() >= 1
    &&& p[0] == origen
    &&& p.last() == destino
    &&& p.no_duplicates()
    &&& forall|i: int|
        1 <= i < p.len() ==> (#[trigger] p[i]) < preds.len() && preds[p[i] as int].contains(p[i - 1])
}

/// `p` is among the paths of `caminos` from position `desde` on.
pub open spec fn emitido(caminos: Seq<Vec<usize>>, desde: int, p: Seq<usize>) -> bool {
    exists|i: int| desde <= i < caminos.len() && (#[trigger] caminos[i])@ == p
}

/// No path occurs twice in `caminos` from position `desde` on.
pub open spec fn sin_repetir(caminos: Seq<Vec<usize>>, desde: int) -> bool {
    forall|i: int, j: int|
        desde <= i < j < caminos.len() ==> (#[trigger] caminos[i])@ != (#[trigger] caminos[j])@
}

/// No predecessor list names a node twice.
pub open spec fn listas_sin_repetir(preds: Seq<Seq<usize>>) -> bool {
    forall|v: int| 0 <= v < preds.len() ==> (#[trigger] preds[v]).no_duplicates()
}

/// `q` is the end of a path read backwards: it starts at the destination,
/// repeats no node, steps from each node to one of its predecessors, and
/// has not met the origin before its last node.
pub open spec fn es_cola(preds: Seq<Seq<usize>>, origen: usize, q: Seq<usize>) -> bool {
    &&& q.len() >= 1
    &&& q.no_duplicates()
    &&& forall|i: int|
        0 <= i < q.len() - 1 ==> {
            &&& (#[trigger] q[i]) < preds.len()
            &&& q[i] != origen
            &&& preds[q[i] as int].contains(q[i + 1])
        }
}

/// `p` ends with `q` read backwards.
pub open spec fn termina_con(p: Seq<usize>, q: Seq<usize>) -> bool {
    &&& p.len() >= q.len()
    &&& forall|i: int| 0 <= i < q.len() ==> #[trigger] q[i] == p[p.len() - 1 - i]
}

/// `p` is a path from `origen` that ends with `q` read backwards.
pub open spec fn completa(preds: Seq<Seq<usize>>, origen: usize, q: Seq<usize>, p: Seq<usize>) -> bool {
    es_camino(preds, origen, q[0], p) && termina_con(p, q)
}

/// Different nodes below `n` are at most `n`.
pub proof fn lema_palomar(q: Seq<usize>, n: nat)
    requires
        q.no_duplicates(),
        forall|i: int| 0 <= i < q.len() ==> #[trigger] q[i] < n,
    ensures
        q.len() <= n,
    decreases n,
{
    if n == 0 {
        if q.len() > 0 {
            assert(q[0] < n);
        }
    } else if exists|j: int| 0 <= j < q.len() && q[j] == n - 1 {
        let j = choose|j: int| 0 <= j < q.len() && q[j] == n - 1;
        let r = q.remove(j);
        assert forall|i: int| 0 <= i < r.len() implies #[trigger] r[i] < n - 1 by {
            if i < j {
                assert(r[i] == q[i]);
            } else {
                assert(r[i] == q[i + 1]);
            }
        }
        assert(r.no_duplicates()) by {
            assert forall|x: int, y: int| 0 <= x < r.len() && 0 <= y < r.len() && x != y implies r[x] != r[y] by {
                let x0 = if x < j { x } else { x + 1 };
                let y0 = if y < j { y } else { y + 1 };
                assert(r[x] == q[x0] && r[y] == q[y0]);
            }
        }
        lema_palomar(r, (n - 1) as nat);
    } else {
        assert forall|i: int| 0 <= i < q.len() implies #[trigger] q[i] < n - 1 by {
            assert(q[i] < n);
        }
        lema_palomar(q, (n - 1) as nat);
    }
}

/// A copy of `v` in the opposite order.
pub fn invertido(v: &Vec<usize>) -> (r: Vec<usize>)
    ensures
        r@ == v@.reverse(),
{
    let mut r: Vec<usize> = Vec::new();
    let mut i: usize = v.len();
    while i > 0
        invariant
            i <= v.len(),
            r.len() == v.len() - i,
            forall|j: int| 0 <= j < r.len() ==> r@[j] == v@[v.len() - 1 - j],
        decreases i,
    {
        i -= 1;
        r.push(v[i]);
    }
    assert(r@ =~= v@.reverse());
    r
}

/// Whether `x` occurs in `v`.
pub fn contiene(v: &Vec<usize>, x: usize) -> (b: bool)
    ensures
        b == v@.contains(x),
{
    let mut i: usize = 0;
    while i < v.len()
        invariant
            i <= v.len(),
            forall|j: int| 0 <= j < i ==> v@[j] != x,
        decreases v.len() - i,
    {
        if v[i] == x {
            return true;
        }
        i += 1;
    }
    false
}

/// The node of `p` that comes just before the end `q`.
pub open spec fn anterior(p: Seq<usize>, q: Seq<usize>) -> usize {
    p[p.len() - q.len() - 1]
}

/// Where the end `q` has reached the origin, it is the whole path.
pub proof fn lema_hoja(preds: Seq<Seq<usize>>, origen: usize, q: Seq<usize>)
    requires
        es_cola(preds, origen, q),
        q.last() == origen,
    ensures
        forall|p: Seq<usize>| completa(preds, origen, q, p) <==> p == q.reverse(),
{
    let r = q.reverse();
    assert(completa(preds, origen, q, r)) by {
        assert forall|i: int| 1 <= i < r.len() implies (#[trigger] r[i]) < preds.len() && preds[r[i] as int].contains(
            r[i - 1],
        ) by {
            assert(r[i] == q[q.len() - 1 - i]);
            assert(r[i - 1] == q[q.len() - 1 - i + 1]);
        }
        assert(r.no_duplicates()) by {
            assert forall|i: int, j: int| 0 <= i < r.len() && 0 <= j < r.len() && i != j implies r[i] != r[j] by {
                assert(r[i] == q[q.len() - 1 - i]);
                assert(r[j] == q[q.len() - 1 - j]);
            }
        }
        assert forall|i: int| 0 <= i < q.len() implies #[trigger] q[i] == r[r.len() - 1 - i] by {}
    }
    assert forall|p: Seq<usize>| completa(preds, origen, q, p) implies p == r by {
        if p.len() > q.len() {
            let i = q.len() - 1;
            assert(q[i] == p[p.len() - 1 - i]);
            assert(p[0] == p[p.len() - q.len()]);
            assert(false);
        }
        assert forall|i: int| 0 <= i < p.len() implies p[i] == r[i] by {
            let j = q.len() - 1 - i;
            assert(q[j] == p[p.len() - 1 - j]);
        }
        assert(p =~= r);
    }
}

/// A path that ends with `q`, where `q` has not reached the origin, goes on
/// backwards with a predecessor of the last node of `q` that `q` does not hold.
pub proof fn lema_siguiente(preds: Seq<Seq<usize>>, origen: usize, q: Seq<usize>, p: Seq<usize>)
    requires
        es_cola(preds, origen, q),
        q.last() != origen,
        completa(preds, origen, q, p),
    ensures
        p.len() > q.len(),
        q.last() < preds.len(),
        preds[q.last() as int].contains(anterior(p, q)),
        !q.contains(anterior(p, q)),
{
    let m = q.len() - 1;
    assert(q[m] == p[p.len() - 1 - m]);
    assert(p.len() > q.len());
    let i = p.len() - q.len();
    assert(p[i] < preds.len() && preds[p[i] as int].contains(p[i - 1]));
    if q.contains(anterior(p, q)) {
        let j = choose|j: int| 0 <= j < q.len() && q[j] == anterior(p, q);
        assert(q[j] == p[p.len() - 1 - j]);
        assert(false);
    }
}

/// The paths that end with `q` and one more node `x` are those that end
/// with `q` and have `x` before it.
pub proof fn lema_paso(preds: Seq<Seq<usize>>, origen: usize, q: Seq<usize>, x: usize, p: Seq<usize>)
    requires
        q.len() >= 1,
    ensures
        completa(preds, origen, q.push(x), p) <==> completa(preds, origen, q, p) && p.len() > q.len() && anterior(p, q)
            == x,
{
    let q2 = q.push(x);
    assert(q2[0] == q[0]);
    if completa(preds, origen, q2, p) {
        assert forall|i: int| 0 <= i < q.len() implies #[trigger] q[i] == p[p.len() - 1 - i] by {
            assert(q2[i] == q[i]);
        }
        assert(q2[q.len() as int] == p[p.len() - 1 - q.len()]);
    }
    if completa(preds, origen, q, p) && p.len() > q.len() && anterior(p, q) == x {
        assert forall|i: int| 0 <= i < q2.len() implies #[trigger] q2[i] == p[p.len() - 1 - i] by {
            if i < q.len() {
                assert(q2[i] == q[i]);
            }
        }
    }
}

/// The way back from the last node of `q` along the first predecessor of
/// each node, for at most `pasos` steps: it ends where it meets `origen`,
/// where a node has no predecessor, or where the steps run out.
pub open spec fn retroceso(preds: Seq<Seq<usize>>, origen: usize, q: Seq<usize>, pasos: nat) -> Seq<usize>
    decreases pasos,
{
    let actual = q.last();
    if pasos > 0 && actual < preds.len() && preds[actual as int].len() > 0 {
        let previo = preds[actual as int][0];
        if previo == origen {
            q.push(previo)
        } else {
            retroceso(preds, origen, q.push(previo), (pasos - 1) as nat)
        }
    } else {
        q
    }
}

/// The path that the first predecessors give: the way back from `destino`,
/// read from its end, where it arrives at `origen`; nothing otherwise.
pub open spec fn camino_unico(preds: Seq<Seq<usize>>, origen: usize, destino: usize) -> Seq<usize> {
    let q = retroceso(preds, origen, seq![destino], preds.len());
    if q.last() == origen {
        q.reverse()
    } else {
        Seq::empty()
    }
}

/// One path from `origen` to `destino`: from the destination back along the
/// first predecessor of each node, in no more steps than there are nodes.
/// Nothing where that way does not arrive at the origin.
pub fn reconstruir_camino(preds: &Vec<Vec<usize>>, origen: usize, destino: usize) -> (camino: Vec<usize>)
    ensures
        camino@ == camino_unico(vistas(preds@), origen, destino),
{
    let ghost pr = vistas(preds@);
    let mut q: Vec<usize> = Vec::new();
    q.push(destino);
    let mut actual = destino;
    let mut pasos: usize = preds.len();
    let mut llego = false;
    assert(q@ =~= seq![destino]);
    while pasos > 0 && !llego && actual < preds.len() && preds[actual].len() > 0
        invariant
            pr == vistas(preds@),
            q.len() >= 1,
            actual == q@.last(),
            pasos <= preds.len(),
            !llego ==> retroceso(pr, origen, seq![destino], pr.len()) == retroceso(pr, origen, q@, pasos as nat),
            llego ==> retroceso(pr, origen, seq![destino], pr.len()) == q@ && actual == origen,
        decreases pasos, (if llego { 0int } else { 1int }),
    {
        let previo = preds[actual][0];
        assert(pr[actual as int][0] == previo);
        q.push(previo);
        actual = previo;
        if previo == origen {
            llego = true;
        } else {
            pasos -= 1;
        }
    }
    if actual == origen {
        invertido(&q)
    } else {
        Vec::new()
    }
}

} // verus!

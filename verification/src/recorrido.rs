//! The listing of the paths that predecessor lists span, from the
//! destination backwards and depth first, on a stack of path ends.

use crate::caminos::{
    anterior, completa, emitido, es_camino, es_cola, invertido, contiene, lema_hoja, lema_palomar, lema_paso,
    lema_siguiente, listas_sin_repetir, sin_repetir, termina_con,
};
use crate::dijkstra::vistas;
use vstd::prelude::*;

verus! {

/// The number of ends that the traversal still has to take up below the
/// end `q`, `q` counted, where no end is longer than `q` by more than `f`.
pub open spec fn tam(preds: Seq<Seq<usize>>, origen: usize, q: Seq<usize>, f: nat) -> nat
    decreases 2 * f, 0nat,
{
    if f == 0 || q.last() == origen || q.last() >= preds.len() {
        1
    } else {
        1 + tam_lista(preds, origen, q, preds[q.last() as int], (f - 1) as nat)
    }
}

/// The same for the ends that lengthen `q` by a node of `l` that `q` does
/// not hold, together.
pub open spec fn tam_lista(preds: Seq<Seq<usize>>, origen: usize, q: Seq<usize>, l: Seq<usize>, f: nat) -> nat
    decreases 2 * f + 1, l.len(),
{
    if l.len() == 0 {
        0
    } else {
        tam_lista(preds, origen, q, l.drop_last(), f) + if q.contains(l.last()) {
            0nat
        } else {
            tam(preds, origen, q.push(l.last()), f)
        }
    }
}

/// The same for the ends of a stack, together.
pub open spec fn tam_pila(preds: Seq<Seq<usize>>, origen: usize, pila: Seq<Vec<usize>>) -> nat
    decreases pila.len(),
{
    if pila.len() == 0 {
        0
    } else {
        tam_pila(preds, origen, pila.drop_last()) + tam(
            preds,
            origen,
            pila.last()@,
            (preds.len() + 1 - pila.last()@.len()) as nat,
        )
    }
}

/// `p` ends with one of the ends of the stack.
pub open spec fn en_pila(pila: Seq<Vec<usize>>, p: Seq<usize>) -> bool {
    exists|i: int| 0 <= i < pila.len() && termina_con(p, (#[trigger] pila[i])@)
}

/// Every entry of the stack is the end of a path to `destino`.
pub open spec fn colas_validas(preds: Seq<Seq<usize>>, origen: usize, destino: usize, pila: Seq<Vec<usize>>) -> bool {
    forall|i: int| 0 <= i < pila.len() ==> es_cola(preds, origen, (#[trigger] pila[i])@) && pila[i]@[0] == destino
}

/// Every path is listed, ends with an end of the stack, or ends with `q`
/// and goes on with a node that `vistos` does not hold.
pub open spec fn cubre(
    preds: Seq<Seq<usize>>,
    origen: usize,
    destino: usize,
    pila: Seq<Vec<usize>>,
    caminos: Seq<Vec<usize>>,
    q: Option<Seq<usize>>,
    vistos: Seq<usize>,
) -> bool {
    forall|p: Seq<usize>|
        #![trigger es_camino(preds, origen, destino, p)]
        es_camino(preds, origen, destino, p) ==> emitido(caminos, 0, p) || en_pila(pila, p) || (q matches Some(c)
            && termina_con(p, c) && !vistos.contains(anterior(p, c)))
}

/// Whatever is listed is a path.
pub open spec fn fieles(preds: Seq<Seq<usize>>, origen: usize, destino: usize, caminos: Seq<Vec<usize>>) -> bool {
    forall|p: Seq<usize>| #[trigger] emitido(caminos, 0, p) ==> es_camino(preds, origen, destino, p)
}

/// Nothing that is listed ends with an end of the stack.
pub open spec fn aparte(pila: Seq<Vec<usize>>, caminos: Seq<Vec<usize>>) -> bool {
    forall|p: Seq<usize>| #[trigger] emitido(caminos, 0, p) ==> !en_pila(pila, p)
}

/// No path ends with two ends of the stack.
pub open spec fn disjuntas(preds: Seq<Seq<usize>>, origen: usize, destino: usize, pila: Seq<Vec<usize>>) -> bool {
    forall|i: int, j: int, p: Seq<usize>|
        0 <= i < j < pila.len() && es_camino(preds, origen, destino, p) ==> !(#[trigger] termina_con(p, pila[i]@)
            && #[trigger] termina_con(p, pila[j]@))
}

/// A path that ends with `q` is not listed and ends with no end of the stack.
pub open spec fn libre(
    preds: Seq<Seq<usize>>,
    origen: usize,
    destino: usize,
    pila: Seq<Vec<usize>>,
    caminos: Seq<Vec<usize>>,
    q: Seq<usize>,
) -> bool {
    forall|p: Seq<usize>|
        #![trigger termina_con(p, q)]
        es_camino(preds, origen, destino, p) && termina_con(p, q) ==> !emitido(caminos, 0, p) && !en_pila(pila, p)
}

/// Every entry of the stack from `base` on lengthens `q` by one of the
/// first `k` nodes of `lista`.
pub open spec fn son_hijos(pila: Seq<Vec<usize>>, base: int, q: Seq<usize>, lista: Seq<usize>, k: int) -> bool {
    forall|i: int|
        base <= i < pila.len() ==> exists|j: int| 0 <= j < k && (#[trigger] pila[i])@ == q.push(lista[j])
}

/// What holds between two steps of the traversal.
#[verifier::opaque]
pub open spec fn inv_pila(
    preds: Seq<Seq<usize>>,
    origen: usize,
    destino: usize,
    pila: Seq<Vec<usize>>,
    caminos: Seq<Vec<usize>>,
) -> bool {
    &&& colas_validas(preds, origen, destino, pila)
    &&& cubre(preds, origen, destino, pila, caminos, None, Seq::empty())
    &&& fieles(preds, origen, destino, caminos)
    &&& listas_sin_repetir(preds) ==> {
        &&& sin_repetir(caminos, 0)
        &&& aparte(pila, caminos)
        &&& disjuntas(preds, origen, destino, pila)
    }
}

/// What holds when the end `q` has been taken from the stack.
#[verifier::opaque]
pub open spec fn inv_tope(
    preds: Seq<Seq<usize>>,
    origen: usize,
    destino: usize,
    pila: Seq<Vec<usize>>,
    caminos: Seq<Vec<usize>>,
    q: Seq<usize>,
) -> bool {
    &&& colas_validas(preds, origen, destino, pila)
    &&& es_cola(preds, origen, q)
    &&& q[0] == destino
    &&& cubre(preds, origen, destino, pila, caminos, Some(q), Seq::empty())
    &&& fieles(preds, origen, destino, caminos)
    &&& listas_sin_repetir(preds) ==> {
        &&& sin_repetir(caminos, 0)
        &&& aparte(pila, caminos)
        &&& disjuntas(preds, origen, destino, pila)
        &&& libre(preds, origen, destino, pila, caminos, q)
    }
}

/// What holds when the first `k` predecessors of the last node of `q`
/// have been taken up: `resto` is the stack below the ends that lengthen `q`.
#[verifier::opaque]
pub open spec fn inv_hijos(
    preds: Seq<Seq<usize>>,
    origen: usize,
    destino: usize,
    resto: Seq<Vec<usize>>,
    pila: Seq<Vec<usize>>,
    caminos: Seq<Vec<usize>>,
    q: Seq<usize>,
    k: int,
) -> bool {
    &&& es_cola(preds, origen, q)
    &&& q[0] == destino
    &&& q.last() != origen
    &&& q.last() < preds.len()
    &&& q.len() <= preds.len()
    &&& 0 <= k <= preds[q.last() as int].len()
    &&& pila.len() >= resto.len()
    &&& forall|i: int| 0 <= i < resto.len() ==> #[trigger] pila[i] == resto[i]
    &&& son_hijos(pila, resto.len() as int, q, preds[q.last() as int], k)
    &&& colas_validas(preds, origen, destino, pila)
    &&& cubre(preds, origen, destino, pila, caminos, Some(q), preds[q.last() as int].take(k))
    &&& fieles(preds, origen, destino, caminos)
    &&& listas_sin_repetir(preds) ==> {
        &&& sin_repetir(caminos, 0)
        &&& aparte(pila, caminos)
        &&& disjuntas(preds, origen, destino, pila)
        &&& libre(preds, origen, destino, resto, caminos, q)
    }
}

/// The traversal starts with the destination alone on the stack.
proof fn lema_comienzo(preds: Seq<Seq<usize>>, origen: usize, destino: usize, pila: Seq<Vec<usize>>, caminos: Seq<Vec<usize>>)
    requires
        pila.len() == 1,
        pila[0]@ == seq![destino],
        caminos.len() == 0,
    ensures
        inv_pila(preds, origen, destino, pila, caminos),
{
    reveal(inv_pila);
    assert(seq![destino].no_duplicates());
    assert forall|p: Seq<usize>| es_camino(preds, origen, destino, p) implies en_pila(pila, p) by {
        assert(termina_con(p, pila[0]@));
    }
}

/// The traversal ends with an empty stack and every path listed.
proof fn lema_termino(preds: Seq<Seq<usize>>, origen: usize, destino: usize, pila: Seq<Vec<usize>>, caminos: Seq<Vec<usize>>)
    requires
        pila.len() == 0,
        inv_pila(preds, origen, destino, pila, caminos),
    ensures
        forall|p: Seq<usize>| emitido(caminos, 0, p) <==> es_camino(preds, origen, destino, p),
        listas_sin_repetir(preds) ==> sin_repetir(caminos, 0),
{
    reveal(inv_pila);
    assert forall|p: Seq<usize>| es_camino(preds, origen, destino, p) implies emitido(caminos, 0, p) by {
        assert(!en_pila(pila, p));
    }
}

/// Taking the top off the stack.
proof fn lema_sacar(
    preds: Seq<Seq<usize>>,
    origen: usize,
    destino: usize,
    antes: Seq<Vec<usize>>,
    caminos: Seq<Vec<usize>>,
)
    requires
        antes.len() >= 1,
        inv_pila(preds, origen, destino, antes, caminos),
    ensures
        inv_tope(preds, origen, destino, antes.drop_last(), caminos, antes.last()@),
        antes.last()@.len() >= 1,
        tam_pila(preds, origen, antes) == tam_pila(preds, origen, antes.drop_last()) + tam(
            preds,
            origen,
            antes.last()@,
            (preds.len() + 1 - antes.last()@.len()) as nat,
        ),
{
    reveal(inv_pila);
    reveal(inv_tope);
    let resto = antes.drop_last();
    let q = antes.last()@;
    let m = antes.len() - 1;
    assert(antes[m]@ == q);
    assert forall|i: int| 0 <= i < resto.len() implies es_cola(preds, origen, (#[trigger] resto[i])@) && resto[i]@[0]
        == destino by {
        assert(resto[i] == antes[i]);
    }
    assert forall|p: Seq<usize>|
        #![trigger es_camino(preds, origen, destino, p)]
        es_camino(preds, origen, destino, p) implies emitido(caminos, 0, p) || en_pila(resto, p) || termina_con(p, q) by {
        if !emitido(caminos, 0, p) {
            let i = choose|i: int| 0 <= i < antes.len() && termina_con(p, (#[trigger] antes[i])@);
            if i < m {
                assert(resto[i] == antes[i]);
            }
        }
    }
    if listas_sin_repetir(preds) {
        assert forall|p: Seq<usize>| #[trigger] emitido(caminos, 0, p) implies !en_pila(resto, p) by {
            if en_pila(resto, p) {
                let i = choose|i: int| 0 <= i < resto.len() && termina_con(p, (#[trigger] resto[i])@);
                assert(antes[i] == resto[i]);
                assert(en_pila(antes, p));
            }
        }
        assert forall|i: int, j: int, p: Seq<usize>|
            0 <= i < j < resto.len() && es_camino(preds, origen, destino, p) implies !(#[trigger] termina_con(
            p,
            resto[i]@,
        ) && #[trigger] termina_con(p, resto[j]@)) by {
            assert(resto[i] == antes[i] && resto[j] == antes[j]);
        }
        assert forall|p: Seq<usize>|
            #![trigger termina_con(p, q)]
            es_camino(preds, origen, destino, p) && termina_con(p, q) implies !emitido(caminos, 0, p) && !en_pila(
            resto,
            p,
        ) by {
            assert(termina_con(p, antes[m]@));
            assert(en_pila(antes, p));
            if en_pila(resto, p) {
                let i = choose|i: int| 0 <= i < resto.len() && termina_con(p, (#[trigger] resto[i])@);
                assert(antes[i] == resto[i]);
            }
        }
    }
}

/// An end that has arrived at the origin is one more path, which was not
/// listed before and ends with no end of the stack.
proof fn lema_listar(
    preds: Seq<Seq<usize>>,
    origen: usize,
    destino: usize,
    resto: Seq<Vec<usize>>,
    listados: Seq<Vec<usize>>,
    caminos: Seq<Vec<usize>>,
    q: Seq<usize>,
)
    requires
        inv_tope(preds, origen, destino, resto, listados, q),
        q.last() == origen,
        caminos.len() == listados.len() + 1,
        caminos.drop_last() == listados,
        caminos.last()@ == q.reverse(),
    ensures
        inv_pila(preds, origen, destino, resto, caminos),
        tam(preds, origen, q, (preds.len() + 1 - q.len()) as nat) == 1,
{
    reveal(inv_pila);
    reveal(inv_tope);
    lema_hoja(preds, origen, q);
    let rs = q.reverse();
    let m = listados.len() as int;
    assert(caminos[m]@ == rs);
    assert(completa(preds, origen, q, rs));
    assert forall|i: int| 0 <= i < m implies #[trigger] caminos[i] == listados[i] by {}
    assert forall|p: Seq<usize>|
        #![trigger es_camino(preds, origen, destino, p)]
        es_camino(preds, origen, destino, p) implies emitido(caminos, 0, p) || en_pila(resto, p) by {
        if emitido(listados, 0, p) {
            let i = choose|i: int| 0 <= i < listados.len() && (#[trigger] listados[i])@ == p;
            assert(caminos[i]@ == p);
        } else if !en_pila(resto, p) {
            assert(completa(preds, origen, q, p));
        }
    }
    assert forall|p: Seq<usize>| #[trigger] emitido(caminos, 0, p) implies es_camino(preds, origen, destino, p) by {
        let i = choose|i: int| 0 <= i < caminos.len() && (#[trigger] caminos[i])@ == p;
        if i < m {
            assert(listados[i]@ == p);
            assert(emitido(listados, 0, p));
        }
    }
    if listas_sin_repetir(preds) {
        assert forall|i: int, j: int| 0 <= i < j < caminos.len() implies (#[trigger] caminos[i])@ != (
        #[trigger] caminos[j])@ by {
            assert(caminos[i] == listados[i]);
            if j < m {
                assert(caminos[j] == listados[j]);
            } else {
                assert(emitido(listados, 0, listados[i]@));
            }
        }
        assert forall|p: Seq<usize>| #[trigger] emitido(caminos, 0, p) implies !en_pila(resto, p) by {
            let i = choose|i: int| 0 <= i < caminos.len() && (#[trigger] caminos[i])@ == p;
            if i < m {
                assert(listados[i]@ == p);
                assert(emitido(listados, 0, p));
            }
        }
    }
}

/// An end whose last node has no list of predecessors is the end of no path.
proof fn lema_sin_salida(
    preds: Seq<Seq<usize>>,
    origen: usize,
    destino: usize,
    resto: Seq<Vec<usize>>,
    caminos: Seq<Vec<usize>>,
    q: Seq<usize>,
)
    requires
        inv_tope(preds, origen, destino, resto, caminos, q),
        q.last() != origen,
        q.last() >= preds.len(),
    ensures
        inv_pila(preds, origen, destino, resto, caminos),
        tam(preds, origen, q, (preds.len() + 1 - q.len()) as nat) == 1,
{
    reveal(inv_pila);
    reveal(inv_tope);
    assert forall|p: Seq<usize>|
        #![trigger es_camino(preds, origen, destino, p)]
        es_camino(preds, origen, destino, p) implies emitido(caminos, 0, p) || en_pila(resto, p) by {
        if termina_con(p, q) {
            lema_siguiente(preds, origen, q, p);
        }
    }
}

/// Before the first predecessor of the last node of `q` is taken up.
proof fn lema_entrar(
    preds: Seq<Seq<usize>>,
    origen: usize,
    destino: usize,
    resto: Seq<Vec<usize>>,
    caminos: Seq<Vec<usize>>,
    q: Seq<usize>,
)
    requires
        inv_tope(preds, origen, destino, resto, caminos, q),
        q.last() != origen,
        q.last() < preds.len(),
    ensures
        inv_hijos(preds, origen, destino, resto, resto, caminos, q, 0),
        q.len() <= preds.len(),
        tam(preds, origen, q, (preds.len() + 1 - q.len()) as nat) == 1 + tam_lista(
            preds,
            origen,
            q,
            preds[q.last() as int],
            (preds.len() - q.len()) as nat,
        ),
        tam_lista(preds, origen, q, preds[q.last() as int].take(0), (preds.len() - q.len()) as nat) == 0,
{
    reveal(inv_tope);
    reveal(inv_hijos);
    assert forall|k: int| 0 <= k < q.len() implies #[trigger] q[k] < preds.len() by {}
    lema_palomar(q, preds.len());
    let lista = preds[q.last() as int];
    assert(lista.take(0) =~= Seq::<usize>::empty());
    assert forall|p: Seq<usize>|
        #![trigger es_camino(preds, origen, destino, p)]
        es_camino(preds, origen, destino, p) implies emitido(caminos, 0, p) || en_pila(resto, p) || (termina_con(p, q)
        && !lista.take(0).contains(anterior(p, q))) by {}
}

/// After the last predecessor of the last node of `q` is taken up.
proof fn lema_salir(
    preds: Seq<Seq<usize>>,
    origen: usize,
    destino: usize,
    resto: Seq<Vec<usize>>,
    pila: Seq<Vec<usize>>,
    caminos: Seq<Vec<usize>>,
    q: Seq<usize>,
    k: int,
)
    requires
        inv_hijos(preds, origen, destino, resto, pila, caminos, q, k),
        q.last() < preds.len(),
        k == preds[q.last() as int].len(),
    ensures
        inv_pila(preds, origen, destino, pila, caminos),
        tam_lista(preds, origen, q, preds[q.last() as int].take(k), (preds.len() - q.len()) as nat) == tam_lista(
            preds,
            origen,
            q,
            preds[q.last() as int],
            (preds.len() - q.len()) as nat,
        ),
{
    reveal(inv_pila);
    reveal(inv_hijos);
    let lista = preds[q.last() as int];
    assert(lista.take(k) =~= lista);
    assert forall|p: Seq<usize>|
        #![trigger es_camino(preds, origen, destino, p)]
        es_camino(preds, origen, destino, p) implies emitido(caminos, 0, p) || en_pila(pila, p) by {
        if termina_con(p, q) {
            lema_siguiente(preds, origen, q, p);
        }
    }
}

/// A predecessor that `q` holds already lengthens no path.
proof fn lema_saltar(
    preds: Seq<Seq<usize>>,
    origen: usize,
    destino: usize,
    resto: Seq<Vec<usize>>,
    pila: Seq<Vec<usize>>,
    caminos: Seq<Vec<usize>>,
    q: Seq<usize>,
    k: int,
)
    requires
        inv_hijos(preds, origen, destino, resto, pila, caminos, q, k),
        q.last() < preds.len(),
        k < preds[q.last() as int].len(),
        q.contains(preds[q.last() as int][k]),
    ensures
        inv_hijos(preds, origen, destino, resto, pila, caminos, q, k + 1),
        tam_lista(preds, origen, q, preds[q.last() as int].take(k + 1), (preds.len() - q.len()) as nat) == tam_lista(
            preds,
            origen,
            q,
            preds[q.last() as int].take(k),
            (preds.len() - q.len()) as nat,
        ),
{
    reveal(inv_hijos);
    let lista = preds[q.last() as int];
    let pre = lista.take(k);
    let sig = lista.take(k + 1);
    let base = resto.len() as int;
    assert(sig.drop_last() =~= pre);
    assert(sig.last() == lista[k]);
    assert forall|p: Seq<usize>|
        #![trigger es_camino(preds, origen, destino, p)]
        es_camino(preds, origen, destino, p) implies emitido(caminos, 0, p) || en_pila(pila, p) || (termina_con(p, q)
        && !sig.contains(anterior(p, q))) by {
        if !emitido(caminos, 0, p) && !en_pila(pila, p) {
            lema_siguiente(preds, origen, q, p);
            if sig.contains(anterior(p, q)) {
                let j = choose|j: int| 0 <= j < sig.len() && sig[j] == anterior(p, q);
                if j < k {
                    assert(pre[j] == anterior(p, q));
                }
            }
        }
    }
    assert forall|i: int| base <= i < pila.len() implies exists|j: int|
        0 <= j < k + 1 && (#[trigger] pila[i])@ == q.push(lista[j]) by {
        let j = choose|j: int| 0 <= j < k && pila[i]@ == q.push(lista[j]);
        assert(0 <= j < k + 1 && pila[i]@ == q.push(lista[j]));
    }
}

/// The new end is one, and the stack above `base` still lengthens `q`.
proof fn lema_apilar_colas(
    preds: Seq<Seq<usize>>,
    origen: usize,
    destino: usize,
    base: int,
    previa: Seq<Vec<usize>>,
    pila: Seq<Vec<usize>>,
    q: Seq<usize>,
    lista: Seq<usize>,
    k: int,
)
    requires
        es_cola(preds, origen, q),
        q[0] == destino,
        q.last() != origen,
        q.last() < preds.len(),
        lista == preds[q.last() as int],
        0 <= k < lista.len(),
        !q.contains(lista[k]),
        pila.len() == previa.len() + 1,
        pila.drop_last() == previa,
        pila.last()@ == q.push(lista[k]),
        colas_validas(preds, origen, destino, previa),
        0 <= base,
        son_hijos(previa, base, q, lista, k),
    ensures
        colas_validas(preds, origen, destino, pila),
        son_hijos(pila, base, q, lista, k + 1),
{
    let c = q.push(lista[k]);
    let m = previa.len() as int;
    assert(pila[m]@ == c);
    assert(es_cola(preds, origen, c)) by {
        assert forall|j: int| 0 <= j < c.len() - 1 implies {
            &&& (#[trigger] c[j]) < preds.len()
            &&& c[j] != origen
            &&& preds[c[j] as int].contains(c[j + 1])
        } by {
            if j < q.len() - 1 {
                assert(c[j] == q[j] && c[j + 1] == q[j + 1]);
            }
        }
    }
    assert forall|i: int| 0 <= i < pila.len() implies es_cola(preds, origen, (#[trigger] pila[i])@) && pila[i]@[0]
        == destino by {
        if i < m {
            assert(pila[i] == previa[i]);
        }
    }
    assert forall|i: int| base <= i < pila.len() implies exists|j: int|
        0 <= j < k + 1 && (#[trigger] pila[i])@ == q.push(lista[j]) by {
        if i < m {
            assert(pila[i] == previa[i]);
            let j = choose|j: int| 0 <= j < k && previa[i]@ == q.push(lista[j]);
            assert(0 <= j < k + 1 && pila[i]@ == q.push(lista[j]));
        } else {
            assert(0 <= k < k + 1 && pila[i]@ == q.push(lista[k]));
        }
    }
}

/// The paths that go on from `q` with the node just taken up end with the
/// new end.
proof fn lema_apilar_cubre(
    preds: Seq<Seq<usize>>,
    origen: usize,
    destino: usize,
    previa: Seq<Vec<usize>>,
    pila: Seq<Vec<usize>>,
    caminos: Seq<Vec<usize>>,
    q: Seq<usize>,
    lista: Seq<usize>,
    k: int,
)
    requires
        es_cola(preds, origen, q),
        q[0] == destino,
        q.last() != origen,
        q.last() < preds.len(),
        lista == preds[q.last() as int],
        0 <= k < lista.len(),
        pila.len() == previa.len() + 1,
        pila.drop_last() == previa,
        pila.last()@ == q.push(lista[k]),
        cubre(preds, origen, destino, previa, caminos, Some(q), lista.take(k)),
    ensures
        cubre(preds, origen, destino, pila, caminos, Some(q), lista.take(k + 1)),
{
    let x = lista[k];
    let m = previa.len() as int;
    let pre = lista.take(k);
    let sig = lista.take(k + 1);
    assert(pila[m]@ == q.push(x));
    assert forall|p: Seq<usize>|
        #![trigger es_camino(preds, origen, destino, p)]
        es_camino(preds, origen, destino, p) implies emitido(caminos, 0, p) || en_pila(pila, p) || (termina_con(p, q)
        && !sig.contains(anterior(p, q))) by {
        if !emitido(caminos, 0, p) {
            if en_pila(previa, p) {
                let i = choose|i: int| 0 <= i < previa.len() && termina_con(p, (#[trigger] previa[i])@);
                assert(pila[i] == previa[i]);
            } else {
                lema_siguiente(preds, origen, q, p);
                lema_paso(preds, origen, q, x, p);
                if anterior(p, q) == x {
                    assert(termina_con(p, pila[m]@));
                } else if sig.contains(anterior(p, q)) {
                    let j = choose|j: int| 0 <= j < sig.len() && sig[j] == anterior(p, q);
                    assert(pre[j] == anterior(p, q));
                }
            }
        }
    }
}

/// Nothing that is listed ends with the new end.
proof fn lema_apilar_aparte(
    preds: Seq<Seq<usize>>,
    origen: usize,
    destino: usize,
    resto: Seq<Vec<usize>>,
    previa: Seq<Vec<usize>>,
    pila: Seq<Vec<usize>>,
    caminos: Seq<Vec<usize>>,
    q: Seq<usize>,
    x: usize,
)
    requires
        q.len() >= 1,
        q[0] == destino,
        pila.len() == previa.len() + 1,
        pila.drop_last() == previa,
        pila.last()@ == q.push(x),
        fieles(preds, origen, destino, caminos),
        aparte(previa, caminos),
        libre(preds, origen, destino, resto, caminos, q),
    ensures
        aparte(pila, caminos),
{
    let m = previa.len() as int;
    assert(pila[m]@ == q.push(x));
    assert forall|p: Seq<usize>| #[trigger] emitido(caminos, 0, p) implies !en_pila(pila, p) by {
        if en_pila(pila, p) {
            let i = choose|i: int| 0 <= i < pila.len() && termina_con(p, (#[trigger] pila[i])@);
            if i < m {
                assert(pila[i] == previa[i]);
                assert(en_pila(previa, p));
            } else {
                lema_paso(preds, origen, q, x, p);
                assert(termina_con(p, q));
            }
        }
    }
}

/// No path ends with the new end and with another end of the stack.
proof fn lema_apilar_disjuntas(
    preds: Seq<Seq<usize>>,
    origen: usize,
    destino: usize,
    resto: Seq<Vec<usize>>,
    previa: Seq<Vec<usize>>,
    pila: Seq<Vec<usize>>,
    caminos: Seq<Vec<usize>>,
    q: Seq<usize>,
    lista: Seq<usize>,
    k: int,
)
    requires
        q.len() >= 1,
        q[0] == destino,
        0 <= k < lista.len(),
        lista.no_duplicates(),
        pila.len() == previa.len() + 1,
        pila.drop_last() == previa,
        pila.last()@ == q.push(lista[k]),
        previa.len() >= resto.len(),
        forall|i: int| 0 <= i < resto.len() ==> #[trigger] previa[i] == resto[i],
        son_hijos(previa, resto.len() as int, q, lista, k),
        disjuntas(preds, origen, destino, previa),
        libre(preds, origen, destino, resto, caminos, q),
    ensures
        disjuntas(preds, origen, destino, pila),
{
    let x = lista[k];
    let m = previa.len() as int;
    let base = resto.len() as int;
    assert(pila[m]@ == q.push(x));
    assert forall|i: int, j: int, p: Seq<usize>|
        0 <= i < j < pila.len() && es_camino(preds, origen, destino, p) implies !(#[trigger] termina_con(p, pila[i]@)
        && #[trigger] termina_con(p, pila[j]@)) by {
        assert(pila[i] == previa[i]);
        if j < m {
            assert(pila[j] == previa[j]);
        } else if termina_con(p, pila[i]@) && termina_con(p, pila[j]@) {
            lema_paso(preds, origen, q, x, p);
            assert(termina_con(p, q) && anterior(p, q) == x);
            if i < base {
                assert(previa[i] == resto[i]);
                assert(en_pila(resto, p));
            } else {
                let jj = choose|jj: int| 0 <= jj < k && previa[i]@ == q.push(lista[jj]);
                lema_paso(preds, origen, q, lista[jj], p);
                assert(lista[jj] == lista[k]);
            }
        }
    }
}

/// A predecessor that `q` does not hold gives one more end on the stack.
proof fn lema_apilar(
    preds: Seq<Seq<usize>>,
    origen: usize,
    destino: usize,
    resto: Seq<Vec<usize>>,
    previa: Seq<Vec<usize>>,
    pila: Seq<Vec<usize>>,
    caminos: Seq<Vec<usize>>,
    q: Seq<usize>,
    k: int,
)
    requires
        inv_hijos(preds, origen, destino, resto, previa, caminos, q, k),
        q.last() < preds.len(),
        k < preds[q.last() as int].len(),
        !q.contains(preds[q.last() as int][k]),
        pila.len() == previa.len() + 1,
        pila.drop_last() == previa,
        pila.last()@ == q.push(preds[q.last() as int][k]),
    ensures
        inv_hijos(preds, origen, destino, resto, pila, caminos, q, k + 1),
        tam_pila(preds, origen, pila) == tam_pila(preds, origen, previa) + tam(
            preds,
            origen,
            q.push(preds[q.last() as int][k]),
            (preds.len() - q.len()) as nat,
        ),
        tam_lista(preds, origen, q, preds[q.last() as int].take(k + 1), (preds.len() - q.len()) as nat) == tam_lista(
            preds,
            origen,
            q,
            preds[q.last() as int].take(k),
            (preds.len() - q.len()) as nat,
        ) + tam(preds, origen, q.push(preds[q.last() as int][k]), (preds.len() - q.len()) as nat),
{
    reveal(inv_hijos);
    let lista = preds[q.last() as int];
    let x = lista[k];
    assert(lista.take(k + 1).drop_last() =~= lista.take(k));
    assert(lista.take(k + 1).last() == x);
    assert forall|i: int| 0 <= i < resto.len() implies #[trigger] pila[i] == resto[i] by {
        assert(pila[i] == previa[i]);
    }
    lema_apilar_colas(preds, origen, destino, resto.len() as int, previa, pila, q, lista, k);
    lema_apilar_cubre(preds, origen, destino, previa, pila, caminos, q, lista, k);
    if listas_sin_repetir(preds) {
        assert(lista.no_duplicates());
        lema_apilar_aparte(preds, origen, destino, resto, previa, pila, caminos, q, x);
        lema_apilar_disjuntas(preds, origen, destino, resto, previa, pila, caminos, q, lista, k);
    }
}

/// A copy of `q` with `x` behind it.
fn alargado(q: &Vec<usize>, x: usize) -> (r: Vec<usize>)
    ensures
        r@ == q@.push(x),
{
    let mut r: Vec<usize> = Vec::new();
    let mut i: usize = 0;
    while i < q.len()
        invariant
            i <= q.len(),
            r@ == q@.take(i as int),
        decreases q.len() - i,
    {
        r.push(q[i]);
        assert(q@.take(i + 1) =~= q@.take(i as int).push(q@[i as int]));
        i += 1;
    }
    assert(q@.take(i as int) =~= q@);
    r.push(x);
    r
}

/// Every path from `origen` to `destino` along the predecessor lists, each
/// written from the origin to the destination. A path passes no node twice,
/// and where no list names a node twice, no path comes twice.
pub fn reconstruir_todos_caminos(preds: &Vec<Vec<usize>>, origen: usize, destino: usize) -> (caminos: Vec<
    Vec<usize>,
>)
    ensures
        forall|p: Seq<usize>| emitido(caminos@, 0, p) <==> es_camino(vistas(preds@), origen, destino, p),
        listas_sin_repetir(vistas(preds@)) ==> sin_repetir(caminos@, 0),
{
    let ghost pr = vistas(preds@);
    let mut caminos: Vec<Vec<usize>> = Vec::new();
    let mut pila: Vec<Vec<usize>> = Vec::new();
    let mut inicial: Vec<usize> = Vec::new();
    inicial.push(destino);
    pila.push(inicial);
    proof {
        assert(pila@[0]@ =~= seq![destino]);
        lema_comienzo(pr, origen, destino, pila@, caminos@);
    }
    while pila.len() > 0
        invariant
            pr == vistas(preds@),
            inv_pila(pr, origen, destino, pila@, caminos@),
        decreases tam_pila(pr, origen, pila@),
    {
        let ghost antes = pila@;
        let ghost listados = caminos@;
        proof {
            lema_sacar(pr, origen, destino, antes, listados);
        }
        let q = pila.pop().unwrap();
        let ghost resto = pila@;
        proof {
            assert(resto =~= antes.drop_last());
            assert(antes.last() == q);
        }
        let actual = q[q.len() - 1];
        if actual == origen {
            let r = invertido(&q);
            caminos.push(r);
            proof {
                assert(caminos@.drop_last() =~= listados);
                lema_listar(pr, origen, destino, resto, listados, caminos@, q@);
            }
        } else if actual < preds.len() {
            let ghost lista = pr[actual as int];
            let ghost f = (pr.len() - q@.len()) as nat;
            proof {
                lema_entrar(pr, origen, destino, resto, listados, q@);
            }
            let mut k: usize = 0;
            while k < preds[actual].len()
                invariant
                    pr == vistas(preds@),
                    lista == pr[actual as int],
                    actual < preds.len(),
                    actual == q@.last(),
                    q@.len() <= pr.len(),
                    f == pr.len() - q@.len(),
                    k <= lista.len(),
                    caminos@ == listados,
                    inv_hijos(pr, origen, destino, resto, pila@, listados, q@, k as int),
                    tam_pila(pr, origen, pila@) == tam_pila(pr, origen, resto) + tam_lista(
                        pr,
                        origen,
                        q@,
                        lista.take(k as int),
                        f,
                    ),
                decreases lista.len() - k,
            {
                let x = preds[actual][k];
                let ghost previa = pila@;
                assert(lista[k as int] == x);
                if !contiene(&q, x) {
                    let c = alargado(&q, x);
                    pila.push(c);
                    proof {
                        assert(pila@.drop_last() =~= previa);
                        lema_apilar(pr, origen, destino, resto, previa, pila@, listados, q@, k as int);
                    }
                } else {
                    proof {
                        lema_saltar(pr, origen, destino, resto, pila@, listados, q@, k as int);
                    }
                }
                k += 1;
            }
            proof {
                lema_salir(pr, origen, destino, resto, pila@, listados, q@, k as int);
            }
        } else {
            proof {
                lema_sin_salida(pr, origen, destino, resto, listados, q@);
            }
        }
    }
    proof {
        lema_termino(pr, origen, destino, pila@, caminos@);
    }
    caminos
}

} // verus!

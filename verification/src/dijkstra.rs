//! The search for the lightest walks from one origin, which keeps every tied
//! predecessor.

pub use crate::caminos::reconstruir_camino;
pub use crate::recorrido::reconstruir_todos_caminos;

use crate::caminata::{arista_ajustada, es_resultado, son_distancias};
use crate::caminos::{contiene, emitido, es_camino, sin_repetir};
use crate::grafo::{buscar_etiqueta, indice_de};
use crate::leyes::{ley_camino_existe, ley_caminos};
use crate::estado::{
    antes_o_igual, en_curso, explicada, inv, lema_asentar, lema_cerrar, lema_descartar, lema_explicada,
    lema_final, lema_inicio, lema_mejora, lema_sin_mejora, pendientes, sostiene, Estado,
};
use crate::modelo::{rotulos, Arista, Grafo};
use crate::traza::{
    asienta, con_distancia, entero, es_traza, escribir_entero, informa, lema_traza_inicio, lema_traza_mas,
    traza_hasta, Paso,
};
use vstd::string::StringExecFns;
use vstd::prelude::*;

verus! {

/// The predecessor lists as sequences.
pub open spec fn vistas(listas: Seq<Vec<usize>>) -> Seq<Seq<usize>> {
    Seq::new(listas.len(), |i: int| listas[i]@)
}

/// The state of a search as its variables hold it.
spec fn foto(
    dist: Seq<Option<i32>>,
    fijo: Seq<bool>,
    preds: Seq<Vec<usize>>,
    frontera: Seq<(i32, usize)>,
    testigo: Seq<Seq<int>>,
    actual: usize,
    hechas: Seq<Arista>,
) -> Estado {
    Estado { dist, fijo, preds: vistas(preds), frontera, testigo, actual, hechas }
}

/// The sum of two distances, capped at the ends of `i32`.
pub fn suma_saturada(a: i32, b: i32) -> (s: i32)
    ensures
        s == if a + b > i32::MAX {
            i32::MAX as int
        } else if a + b < i32::MIN {
            i32::MIN as int
        } else {
            a + b
        },
{
    match a.checked_add(b) {
        Some(s) => s,
        None => if b > 0 {
            i32::MAX
        } else {
            i32::MIN
        },
    }
}

/// Takes the least entry out of a frontier that is not empty.
fn extraer_minimo(frontera: &mut Vec<(i32, usize)>) -> (r: ((i32, usize), Ghost<int>))
    requires
        old(frontera).len() > 0,
    ensures
        0 <= r.1@ < old(frontera).len(),
        r.0 == old(frontera)@[r.1@],
        final(frontera)@ == old(frontera)@.remove(r.1@),
        forall|j: int| 0 <= j < old(frontera).len() ==> antes_o_igual(r.0, #[trigger] old(frontera)@[j]),
{
    let mut mejor: usize = 0;
    let mut i: usize = 1;
    while i < frontera.len()
        invariant
            0 <= mejor < i <= frontera.len(),
            forall|j: int| 0 <= j < i ==> antes_o_igual(frontera@[mejor as int], #[trigger] frontera@[j]),
        decreases frontera.len() - i,
    {
        let x = frontera[i];
        let m = frontera[mejor];
        if x.0 < m.0 || (x.0 == m.0 && x.1 < m.1) {
            mejor = i;
        }
        i += 1;
    }
    let x = frontera.remove(mejor);
    (x, Ghost(mejor as int))
}

/// The search from `origen`: for every node the least capped weight of a
/// walk from the origin, absent where none arrives, and the nodes from which
/// an edge carries their distance exactly to that of the node; with them the
/// trace of the steps taken.
pub fn dijkstra_detallado(g: &Grafo, origen: usize) -> (r: (Vec<Option<i32>>, Vec<Vec<usize>>, Vec<Paso>))
    requires
        origen < g.n(),
    ensures
        es_resultado(g.aristas(), g.n(), origen, r.0@, vistas(r.1@)),
        es_traza(g.aristas(), g.n(), origen, r.0@, r.2@),
{
    proof {
        use_type_invariant(g);
    }
    let ghost a = g.aristas();
    let n = g.cantidad_nodos();
    let mut dist: Vec<Option<i32>> = Vec::new();
    let mut preds: Vec<Vec<usize>> = Vec::new();
    let mut fijo: Vec<bool> = Vec::new();
    let mut i: usize = 0;
    while i < n
        invariant
            i <= n,
            dist.len() == i,
            preds.len() == i,
            fijo.len() == i,
            forall|v: int| 0 <= v < i ==> (#[trigger] dist@[v]) is None,
            forall|v: int| 0 <= v < i ==> !#[trigger] fijo@[v],
            forall|v: int| 0 <= v < i ==> (#[trigger] preds@[v])@.len() == 0,
        decreases n - i,
    {
        dist.push(None);
        preds.push(Vec::new());
        fijo.push(false);
        i += 1;
    }
    dist[origen] = Some(0);
    let mut frontera: Vec<(i32, usize)> = Vec::new();
    frontera.push((0, origen));
    let mut pasos: Vec<Paso> = Vec::new();
    pasos.push(Paso::Inicio { origen });
    let ghost mut testigo: Seq<Seq<int>> = Seq::new(n as nat, |v: int| Seq::<int>::empty());
    proof {
        assert(frontera@ =~= seq![(0i32, origen)]);
        assert(pasos@ =~= seq![Paso::Inicio { origen }]);
        lema_traza_inicio(a, n as nat, origen, dist@, fijo@);
        lema_inicio(
            a,
            n as nat,
            origen,
            foto(dist@, fijo@, preds@, frontera@, testigo, n, Seq::empty()),
        );
        assert(explicada(a, foto(dist@, fijo@, preds@, frontera@, testigo, n, Seq::empty()), pasos@));
    }
    while frontera.len() > 0
        invariant
            n == g.n(),
            a == g.aristas(),
            traza_hasta(a, n as nat, origen, dist@, fijo@, pasos@),
            explicada(a, foto(dist@, fijo@, preds@, frontera@, testigo, n, Seq::empty()), pasos@),
            inv(
                a,
                n as nat,
                origen,
                foto(dist@, fijo@, preds@, frontera@, testigo, n, Seq::empty()),
            ),
        decreases pendientes(fijo@), frontera.len(),
    {
        let ghost e0 = foto(dist@, fijo@, preds@, frontera@, testigo, n, Seq::empty());
        let sacado = extraer_minimo(&mut frontera);
        let d = sacado.0.0;
        let u = sacado.0.1;
        let ghost i0 = sacado.1@;
        if fijo[u] {
            proof {
                let e = Estado { frontera: frontera@, ..e0 };
                lema_descartar(a, n as nat, origen, e0, i0, e);
                lema_explicada(a, e0, e, pasos@, pasos@, None);
            }
        } else {
            fijo[u] = true;
            proof {
                let e = Estado { fijo: fijo@, frontera: frontera@, actual: u, hechas: Seq::empty(), ..e0 };
                lema_asentar(a, n as nat, origen, e0, i0, e);
                let x = Paso::Asentado { nodo: u, distancia: d };
                assert(pasos@.push(x)[pasos@.len() as int] == x);
                lema_traza_mas(a, n as nat, origen, dist@, e0.fijo, dist@, fijo@, pasos@, x);
                lema_explicada(a, e0, e, pasos@, pasos@.push(x), None);
            }
            pasos.push(Paso::Asentado { nodo: u, distancia: d });
            let salientes = g.salientes(u);
            let ghost faltan = pendientes(fijo@);
            let mut j: usize = 0;
            assert(salientes@.take(0) =~= Seq::<Arista>::empty());
            while j < salientes.len()
                invariant
                    n == g.n(),
                    a == g.aristas(),
                    u < n,
                    j <= salientes.len(),
                    faltan == pendientes(fijo@),
                    traza_hasta(a, n as nat, origen, dist@, fijo@, pasos@),
                    explicada(
                        a,
                        foto(dist@, fijo@, preds@, frontera@, testigo, u, salientes@.take(j as int)),
                        pasos@,
                    ),
                    forall|j: int|
                        0 <= j < salientes.len() ==> (#[trigger] salientes[j]).0 == u && a.contains(salientes[j]),
                    inv(
                        a,
                        n as nat,
                        origen,
                        foto(dist@, fijo@, preds@, frontera@, testigo, u, salientes@.take(j as int)),
                    ),
                    en_curso(
                        n as nat,
                        foto(dist@, fijo@, preds@, frontera@, testigo, u, salientes@.take(j as int)),
                        d,
                    ),
                decreases salientes.len() - j,
            {
                let ghost e1 = foto(dist@, fijo@, preds@, frontera@, testigo, u, salientes@.take(j as int));
                let t = salientes[j].1;
                let c = salientes[j].2;
                let ghost k0 = choose|k: int| 0 <= k < a.len() && a[k] == salientes@[j as int];
                proof {
                    assert(a.contains(salientes@[j as int]));
                    assert(salientes@.take(j + 1) =~= salientes@.take(j as int).push(a[k0]));
                    assert(dist@[u as int] is Some);
                }
                let nd = suma_saturada(d, c);
                let mejora = match dist[t] {
                    None => true,
                    Some(dt) => nd < dt,
                };
                if mejora {
                    dist[t] = Some(nd);
                    let mut unico: Vec<usize> = Vec::new();
                    unico.push(u);
                    preds[t] = unico;
                    frontera.push((nd, t));
                    proof {
                        testigo = testigo.update(t as int, testigo[u as int].push(k0));
                        assert(vistas(preds@) =~= e1.preds.update(t as int, seq![u]));
                    }
                    proof {
                        let e = foto(dist@, fijo@, preds@, frontera@, testigo, u, salientes@.take(j + 1));
                        lema_mejora(a, n as nat, origen, e1, d, k0, e);
                        let x = Paso::Mejora { desde: u, hacia: t, peso: c, distancia: nd };
                        let i = choose|i: int| asienta(pasos@, i, u, d);
                        assert(asienta(pasos@.push(x), i, u, d));
                        assert(pasos@.push(x)[pasos@.len() as int] == x);
                        lema_traza_mas(a, n as nat, origen, e1.dist, fijo@, dist@, fijo@, pasos@, x);
                        assert(informa(pasos@.push(x), pasos@.len() as int, u, t, c, nd));
                        lema_explicada(a, e1, e, pasos@, pasos@.push(x), Some(a[k0]));
                    }
                    pasos.push(Paso::Mejora { desde: u, hacia: t, peso: c, distancia: nd });
                } else {
                    let empate = nd == dist[t].unwrap();
                    let ghost antes = pasos@;
                    if empate {
                        if !contiene(&preds[t], u) {
                            preds[t].push(u);
                        }
                        proof {
                            let x = Paso::Empate { desde: u, hacia: t, peso: c, distancia: nd };
                            let i = choose|i: int| asienta(pasos@, i, u, d);
                            assert(asienta(pasos@.push(x), i, u, d));
                            assert(pasos@.push(x)[pasos@.len() as int] == x);
                            lema_traza_mas(a, n as nat, origen, dist@, fijo@, dist@, fijo@, pasos@, x);
                        }
                        pasos.push(Paso::Empate { desde: u, hacia: t, peso: c, distancia: nd });
                    }
                    proof {
                        if empate && !e1.preds[t as int].contains(u) {
                            assert(vistas(preds@) =~= e1.preds.update(t as int, e1.preds[t as int].push(u)));
                        } else {
                            assert(vistas(preds@) =~= e1.preds);
                        }
                        let e = foto(dist@, fijo@, preds@, frontera@, testigo, u, salientes@.take(j + 1));
                        lema_sin_mejora(a, n as nat, origen, e1, d, k0, e);
                        if empate {
                            assert(informa(pasos@, antes.len() as int, u, t, c, nd));
                            lema_explicada(a, e1, e, antes, pasos@, Some(a[k0]));
                        } else {
                            lema_explicada(a, e1, e, antes, pasos@, None);
                        }
                    }
                }
                j += 1;
            }
            proof {
                assert(salientes@.take(j as int) =~= salientes@);
                let e = foto(dist@, fijo@, preds@, frontera@, testigo, u, salientes@);
                let e2 = foto(dist@, fijo@, preds@, frontera@, testigo, n, Seq::empty());
                lema_cerrar(a, n as nat, origen, e, e2);
                lema_explicada(a, e, e2, pasos@, pasos@, None);
            }
        }
    }
    proof {
        let e = foto(dist@, fijo@, preds@, frontera@, testigo, n, Seq::empty());
        lema_final(a, n as nat, origen, e);
        assert(fijo@ =~= con_distancia(dist@));
        assert forall|k: int| #[trigger]
            arista_ajustada(a, dist@, a[k].0, a[k].1, k) implies exists|i: int|
            informa(pasos@, i, a[k].0, a[k].1, a[k].2, dist@[a[k].1 as int]->0) by {
            assert(sostiene(a, e, a[k].0, a[k].1, k));
        }
    }
    (dist, preds, pasos)
}

/// The search from the node that carries the label `etiqueta_origen`, the
/// first such node where several do: its distances and predecessors.
/// Two empty tables where no node carries the label.
pub fn dijkstra_con_predecesores(g: &Grafo, etiqueta_origen: &str) -> (r: (Vec<Option<i32>>, Vec<Vec<usize>>))
    ensures
        match indice_de(g.etiquetas(), etiqueta_origen@) {
            Some(origen) => es_resultado(g.aristas(), g.n(), origen, r.0@, vistas(r.1@)),
            None => r.0@.len() == 0 && r.1@.len() == 0,
        },
{
    let nodos = g.lista_etiquetas();
    let etiqueta = etiqueta_origen.to_owned();
    match buscar_etiqueta(nodos.as_slice(), &etiqueta) {
        Some(origen) => {
            let r = dijkstra_detallado(g, origen);
            (r.0, r.1)
        },
        None => (Vec::new(), Vec::new()),
    }
}

/// What one run gives: the tables of the search, its trace, and the paths
/// to the destination.
pub struct Corrida {
    pub distancias: Vec<Option<i32>>,
    pub predecesores: Vec<Vec<usize>>,
    pub pasos: Vec<Paso>,
    pub caminos: Vec<Vec<usize>>,
}

/// Searches from `origen` and lists every lightest path to `destino`, each
/// once. The list is empty exactly where the destination has no distance.
pub fn correr_dijkstra(g: &Grafo, origen: usize, destino: usize) -> (r: Corrida)
    requires
        origen < g.n(),
        destino < g.n(),
    ensures
        es_resultado(g.aristas(), g.n(), origen, r.distancias@, vistas(r.predecesores@)),
        es_traza(g.aristas(), g.n(), origen, r.distancias@, r.pasos@),
        forall|p: Seq<usize>|
            emitido(r.caminos@, 0, p) <==> es_camino(vistas(r.predecesores@), origen, destino, p),
        sin_repetir(r.caminos@, 0),
        r.distancias@[destino as int] is None <==> r.caminos@.len() == 0,
{
    proof {
        use_type_invariant(g);
    }
    let (distancias, predecesores, pasos) = dijkstra_detallado(g, origen);
    let ghost pr = vistas(predecesores@);
    if distancias[destino].is_none() {
        let caminos: Vec<Vec<usize>> = Vec::new();
        proof {
            assert forall|p: Seq<usize>| emitido(caminos@, 0, p) <==> es_camino(pr, origen, destino, p) by {
                if es_camino(pr, origen, destino, p) {
                    ley_caminos(g.aristas(), g.n(), origen, distancias@, pr, destino, p);
                }
            }
        }
        Corrida { distancias, predecesores, pasos, caminos }
    } else {
        let caminos = reconstruir_todos_caminos(&predecesores, origen, destino);
        proof {
            ley_camino_existe(g.aristas(), g.n(), origen, distancias@, pr, destino);
            let p = choose|p: Seq<usize>| es_camino(pr, origen, destino, p);
            assert(emitido(caminos@, 0, p));
        }
        Corrida { distancias, predecesores, pasos, caminos }
    }
}

/// A label with the distance of its node written behind it, `inf` where
/// the node has none.
pub open spec fn con_distancia_escrita(etiqueta: Seq<char>, d: Option<i32>) -> Seq<char> {
    etiqueta + " (d="@ + match d {
        Some(x) => entero(x as int),
        None => "inf"@,
    } + ")"@
}

/// Searches from the first node that carries the label `etiqueta_origen`
/// and writes behind the label of every node its distance. Gives the
/// distances.
pub fn aplicar_dijkstra_y_etiquetar(g: &mut Grafo, etiqueta_origen: &str) -> (dist: Vec<Option<i32>>)
    requires
        indice_de(old(g).etiquetas(), etiqueta_origen@) is Some,
    ensures
        final(g).valido(),
        final(g).aristas() == old(g).aristas(),
        son_distancias(old(g).aristas(), old(g).n(), indice_de(old(g).etiquetas(), etiqueta_origen@)->0, dist@),
        final(g).etiquetas().len() == old(g).n(),
        forall|i: int|
            0 <= i < old(g).n() ==> #[trigger] final(g).etiquetas()[i] == con_distancia_escrita(
                old(g).etiquetas()[i],
                dist@[i],
            ),
{
    let nodos = g.lista_etiquetas();
    let etiqueta = etiqueta_origen.to_owned();
    let origen = buscar_etiqueta(nodos.as_slice(), &etiqueta).unwrap();
    let r = dijkstra_detallado(&*g, origen);
    let dist = r.0;
    let n = nodos.len();
    let mut i: usize = 0;
    while i < n
        invariant
            i <= n,
            n == old(g).n(),
            dist.len() == n,
            rotulos(nodos@) == old(g).etiquetas(),
            g.aristas() == old(g).aristas(),
            g.etiquetas().len() == n,
            forall|k: int|
                0 <= k < i ==> #[trigger] g.etiquetas()[k] == con_distancia_escrita(old(g).etiquetas()[k], dist@[k]),
            forall|k: int| i <= k < n ==> #[trigger] g.etiquetas()[k] == old(g).etiquetas()[k],
        decreases n - i,
    {
        let mut s = nodos[i].clone();
        s.append(" (d=");
        match dist[i] {
            Some(d) => escribir_entero(&mut s, d),
            None => s.append("inf"),
        }
        s.append(")");
        proof {
            assert(rotulos(nodos@)[i as int] == nodos@[i as int]@);
            assert(s@ =~= con_distancia_escrita(old(g).etiquetas()[i as int], dist@[i as int]));
        }
        let hecho = g.renombrar(i, s);
        i += 1;
    }
    proof {
        use_type_invariant(&*g);
    }
    dist
}

} // verus!

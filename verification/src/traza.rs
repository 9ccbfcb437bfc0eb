//! The trace that a search leaves, and what it says of the search.

use crate::caminata::{arista_ajustada, saturar};
use crate::etiquetas::{decimal, escribir_decimal};
use crate::modelo::rotulos;
use vstd::string::StringExecFns;
use crate::modelo::Arista;
use vstd::prelude::*;

verus! {

/// One entry of the trace of a search.
#[derive(Clone, Copy, Debug, PartialEq, Eq, Structural)]
pub enum Paso {
    /// The origin got distance zero.
    Inicio { origen: usize },
    /// A node left the frontier with its final distance.
    Asentado { nodo: usize, distancia: i32 },
    /// An edge gave its target a first or a strictly smaller distance.
    Mejora { desde: usize, hacia: usize, peso: i32, distancia: i32 },
    /// An edge reached its target with the distance that the target had.
    Empate { desde: usize, hacia: usize, peso: i32, distancia: i32 },
}

/// Entry `i` of the trace settles `v` at distance `d`.
pub open spec fn asienta(pasos: Seq<Paso>, i: int, v: usize, d: i32) -> bool {
    0 <= i < pasos.len() && pasos[i] == (Paso::Asentado { nodo: v, distancia: d })
}

/// An entry at position `i` that reports the relaxation of an edge is
/// sound: the edge is one of the graph, its source was settled before, the
/// distance reported is that of the source plus the weight, capped, and the
/// target ends with a distance that is no larger.
pub open spec fn relajacion_valida(
    aristas: Seq<Arista>,
    dist: Seq<Option<i32>>,
    pasos: Seq<Paso>,
    i: int,
    desde: usize,
    hacia: usize,
    peso: i32,
    distancia: i32,
) -> bool {
    &&& aristas.contains((desde, hacia, peso))
    &&& desde < dist.len()
    &&& hacia < dist.len()
    &&& dist[desde as int] is Some
    &&& distancia == saturar(dist[desde as int]->0 + peso)
    &&& dist[hacia as int] is Some
    &&& dist[hacia as int]->0 <= distancia
    &&& exists|j: int| 0 <= j < i && asienta(pasos, j, desde, dist[desde as int]->0)
}

/// What entry `i` says holds of the distances `dist`, where `fijo` tells
/// the nodes that are settled.
pub open spec fn paso_valido(
    aristas: Seq<Arista>,
    dist: Seq<Option<i32>>,
    fijo: Seq<bool>,
    pasos: Seq<Paso>,
    i: int,
) -> bool {
    match pasos[i] {
        Paso::Inicio { origen } => true,
        Paso::Asentado { nodo, distancia } => nodo < dist.len() && fijo[nodo as int] && dist[nodo as int] == Some(
            distancia,
        ),
        Paso::Mejora { desde, hacia, peso, distancia } => relajacion_valida(
            aristas,
            dist,
            pasos,
            i,
            desde,
            hacia,
            peso,
            distancia,
        ),
        Paso::Empate { desde, hacia, peso, distancia } => relajacion_valida(
            aristas,
            dist,
            pasos,
            i,
            desde,
            hacia,
            peso,
            distancia,
        ),
    }
}

/// Entries `i` and `j`, in this order, do not settle one node twice, and
/// settle their nodes in the order of the frontier: by distance, and at one
/// distance by index, but for nodes at the cap, which may come in any order.
pub open spec fn en_orden(pasos: Seq<Paso>, i: int, j: int) -> bool {
    match (pasos[i], pasos[j]) {
        (Paso::Asentado { nodo: x, distancia: dx }, Paso::Asentado { nodo: y, distancia: dy }) => x != y && (dx < dy
            || (dx == dy && (x < y || dy == i32::MAX))),
        _ => true,
    }
}

/// `pasos` is a trace of a search from `origen` that has settled the nodes
/// that `fijo` tells: it starts with the origin, settles each of them once,
/// in the order of the frontier, and reports only sound relaxations.
pub open spec fn traza_hasta(
    aristas: Seq<Arista>,
    n: nat,
    origen: usize,
    dist: Seq<Option<i32>>,
    fijo: Seq<bool>,
    pasos: Seq<Paso>,
) -> bool {
    &&& dist.len() == n
    &&& fijo.len() == n
    &&& pasos.len() >= 1
    &&& pasos[0] == (Paso::Inicio { origen })
    &&& forall|i: int| 1 <= i < pasos.len() ==> !((#[trigger] pasos[i]) is Inicio)
    &&& forall|i: int| 0 <= i < pasos.len() ==> #[trigger] paso_valido(aristas, dist, fijo, pasos, i)
    &&& forall|v: usize|
        v < n && #[trigger] fijo[v as int] ==> dist[v as int] is Some && exists|i: int|
            asienta(pasos, i, v, dist[v as int]->0)
    &&& forall|i: int, j: int| 0 <= i < j < pasos.len() ==> #[trigger] en_orden(pasos, i, j)
}

/// Entry `i` of the trace reports the relaxation of an edge from `u` to
/// `v` of weight `w` that reached `v` at distance `d`.
pub open spec fn informa(pasos: Seq<Paso>, i: int, u: usize, v: usize, w: i32, d: i32) -> bool {
    &&& 0 <= i < pasos.len()
    &&& pasos[i] == (Paso::Mejora { desde: u, hacia: v, peso: w, distancia: d }) || pasos[i] == (Paso::Empate {
        desde: u,
        hacia: v,
        peso: w,
        distancia: d,
    })
}

/// The trace reports every edge that carries the distance of its source
/// exactly to that of its target.
pub open spec fn explica(aristas: Seq<Arista>, dist: Seq<Option<i32>>, pasos: Seq<Paso>) -> bool {
    forall|k: int| #[trigger]
        arista_ajustada(aristas, dist, aristas[k].0, aristas[k].1, k) ==> exists|i: int|
            informa(pasos, i, aristas[k].0, aristas[k].1, aristas[k].2, dist[aristas[k].1 as int]->0)
}

/// The nodes that have a distance.
pub open spec fn con_distancia(dist: Seq<Option<i32>>) -> Seq<bool> {
    Seq::new(dist.len(), |v: int| dist[v] is Some)
}

/// `pasos` is the trace of a finished search from `origen` with the
/// distances `dist`: it starts with the origin, settles each node that has
/// a distance once, at that distance and in the order of the frontier,
/// reports only sound relaxations, and among them every edge that carries a
/// distance exactly.
pub open spec fn es_traza(
    aristas: Seq<Arista>,
    n: nat,
    origen: usize,
    dist: Seq<Option<i32>>,
    pasos: Seq<Paso>,
) -> bool {
    traza_hasta(aristas, n, origen, dist, con_distancia(dist), pasos) && explica(aristas, dist, pasos)
}

/// The trace with which a search starts.
pub proof fn lema_traza_inicio(aristas: Seq<Arista>, n: nat, origen: usize, dist: Seq<Option<i32>>, fijo: Seq<bool>)
    requires
        dist.len() == n,
        fijo.len() == n,
        forall|v: int| 0 <= v < n ==> !#[trigger] fijo[v],
    ensures
        traza_hasta(aristas, n, origen, dist, fijo, seq![Paso::Inicio { origen }]),
{
}

/// Entries keep what they say when the trace grows.
proof fn lema_crece(
    aristas: Seq<Arista>,
    dist: Seq<Option<i32>>,
    dist2: Seq<Option<i32>>,
    fijo: Seq<bool>,
    fijo2: Seq<bool>,
    pasos: Seq<Paso>,
    x: Paso,
    i: int,
)
    requires
        0 <= i < pasos.len(),
        paso_valido(aristas, dist, fijo, pasos, i),
        dist.len() == dist2.len(),
        fijo.len() == dist.len(),
        fijo2.len() == dist.len(),
        forall|v: int| 0 <= v < fijo.len() && #[trigger] fijo[v] ==> fijo2[v] && dist2[v] == dist[v],
        forall|v: int|
            0 <= v < dist.len() && (#[trigger] dist[v]) is Some ==> dist2[v] is Some && dist2[v]->0 <= dist[v]->0,
        forall|j: int| 0 <= j < pasos.len() ==> #[trigger] paso_valido(aristas, dist, fijo, pasos, j),
    ensures
        paso_valido(aristas, dist2, fijo2, pasos.push(x), i),
{
    let mas = pasos.push(x);
    assert(mas[i] == pasos[i]);
    match pasos[i] {
        Paso::Inicio { origen } => {},
        Paso::Asentado { nodo, distancia } => {},
        Paso::Mejora { desde, hacia, peso, distancia } => {
            let j = choose|j: int| 0 <= j < i && asienta(pasos, j, desde, dist[desde as int]->0);
            assert(paso_valido(aristas, dist, fijo, pasos, j));
            assert(asienta(mas, j, desde, dist2[desde as int]->0));
        },
        Paso::Empate { desde, hacia, peso, distancia } => {
            let j = choose|j: int| 0 <= j < i && asienta(pasos, j, desde, dist[desde as int]->0);
            assert(paso_valido(aristas, dist, fijo, pasos, j));
            assert(asienta(mas, j, desde, dist2[desde as int]->0));
        },
    }
}

/// The trace after one more entry `x`, where the settled nodes and their
/// distances stay, the other distances do not grow, and `x` is sound and,
/// where it settles a node, settles the one node that `fijo2` adds, which
/// comes after the settled nodes in the order of the frontier.
pub proof fn lema_traza_mas(
    aristas: Seq<Arista>,
    n: nat,
    origen: usize,
    dist: Seq<Option<i32>>,
    fijo: Seq<bool>,
    dist2: Seq<Option<i32>>,
    fijo2: Seq<bool>,
    pasos: Seq<Paso>,
    x: Paso,
)
    requires
        traza_hasta(aristas, n, origen, dist, fijo, pasos),
        dist2.len() == n,
        fijo2.len() == n,
        forall|v: int| 0 <= v < n && #[trigger] fijo[v] ==> fijo2[v] && dist2[v] == dist[v],
        forall|v: int| 0 <= v < n && (#[trigger] dist[v]) is Some ==> dist2[v] is Some && dist2[v]->0 <= dist[v]->0,
        !(x is Inicio),
        paso_valido(aristas, dist2, fijo2, pasos.push(x), pasos.len() as int),
        x matches Paso::Asentado { nodo, distancia } ==> {
            &&& !fijo[nodo as int]
            &&& forall|v: int|
                0 <= v < n && #[trigger] fijo[v] ==> dist2[v] is Some && (dist2[v]->0 < distancia || (dist2[v]->0
                    == distancia && (v < nodo || distancia == i32::MAX)))
        },
        forall|v: int|
            0 <= v < n && #[trigger] fijo2[v] && !fijo[v] ==> x == (Paso::Asentado {
                nodo: v as usize,
                distancia: dist2[v]->0,
            }) && dist2[v] is Some,
    ensures
        traza_hasta(aristas, n, origen, dist2, fijo2, pasos.push(x)),
{
    let mas = pasos.push(x);
    let m = pasos.len() as int;
    assert forall|i: int| 0 <= i < mas.len() implies #[trigger] paso_valido(aristas, dist2, fijo2, mas, i) by {
        if i < m {
            lema_crece(aristas, dist, dist2, fijo, fijo2, pasos, x, i);
        }
    }
    assert forall|v: usize| v < n && #[trigger] fijo2[v as int] implies dist2[v as int] is Some && exists|i: int|
        asienta(mas, i, v, dist2[v as int]->0) by {
        if fijo[v as int] {
            let i = choose|i: int| asienta(pasos, i, v, dist[v as int]->0);
            assert(asienta(mas, i, v, dist2[v as int]->0));
        } else {
            assert(asienta(mas, m, v, dist2[v as int]->0));
        }
    }
    assert forall|i: int, j: int| 0 <= i < j < mas.len() implies #[trigger] en_orden(mas, i, j) by {
        if j < m {
            assert(en_orden(pasos, i, j));
        } else {
            assert(paso_valido(aristas, dist, fijo, pasos, i));
            assert(mas[i] == pasos[i]);
        }
    }
    assert forall|i: int| 1 <= i < mas.len() implies !((#[trigger] mas[i]) is Inicio) by {
        if i < m {
            assert(mas[i] == pasos[i]);
        }
    }
}

/// How a node is called in a text: by its label, or by its index where it
/// has none.
pub open spec fn nombre(etiquetas: Seq<Seq<char>>, i: usize) -> Seq<char> {
    if i < etiquetas.len() {
        etiquetas[i as int]
    } else {
        decimal(i as nat)
    }
}

/// A whole number in base ten, with its sign where it is below zero.
pub open spec fn entero(x: int) -> Seq<char> {
    if x < 0 {
        "-"@ + decimal((-x) as nat)
    } else {
        decimal(x as nat)
    }
}

/// The line that tells an entry of a trace.
pub open spec fn texto_de(etiquetas: Seq<Seq<char>>, paso: Paso) -> Seq<char> {
    match paso {
        Paso::Inicio { origen } => "Inicio: "@ + nombre(etiquetas, origen) + " con distancia 0"@,
        Paso::Asentado { nodo, distancia } => "Se fija "@ + nombre(etiquetas, nodo) + " con distancia "@ + entero(
            distancia as int,
        ),
        Paso::Mejora { desde, hacia, peso, distancia } => "Mejora: "@ + nombre(etiquetas, desde) + " -> "@ + nombre(
            etiquetas,
            hacia,
        ) + " con peso "@ + entero(peso as int) + " da distancia "@ + entero(distancia as int),
        Paso::Empate { desde, hacia, peso, distancia } => "Empate: "@ + nombre(etiquetas, desde) + " -> "@ + nombre(
            etiquetas,
            hacia,
        ) + " con peso "@ + entero(peso as int) + " iguala la distancia "@ + entero(distancia as int),
    }
}

/// Appends the name of node `i`.
fn escribir_nombre(s: &mut String, etiquetas: &[String], i: usize)
    ensures
        final(s)@ == old(s)@ + nombre(rotulos(etiquetas@), i),
{
    if i < etiquetas.len() {
        s.append(etiquetas[i].as_str());
    } else {
        escribir_decimal(s, i as u64);
    }
}

/// Appends a whole number.
pub fn escribir_entero(s: &mut String, x: i32)
    ensures
        final(s)@ == old(s)@ + entero(x as int),
{
    if x < 0 {
        s.append("-");
        escribir_decimal(s, (-(x as i64)) as u64);
        assert(final(s)@ =~= old(s)@ + entero(x as int));
    } else {
        escribir_decimal(s, x as u64);
    }
}

/// The line that tells an entry of a trace.
pub fn describir_paso(etiquetas: &[String], paso: &Paso) -> (s: String)
    ensures
        s@ == texto_de(rotulos(etiquetas@), *paso),
{
    let mut s = String::new();
    let ghost e = rotulos(etiquetas@);
    match *paso {
        Paso::Inicio { origen } => {
            s.append("Inicio: ");
            escribir_nombre(&mut s, etiquetas, origen);
            s.append(" con distancia 0");
            assert(s@ =~= texto_de(e, *paso));
        },
        Paso::Asentado { nodo, distancia } => {
            s.append("Se fija ");
            escribir_nombre(&mut s, etiquetas, nodo);
            s.append(" con distancia ");
            escribir_entero(&mut s, distancia);
            assert(s@ =~= texto_de(e, *paso));
        },
        Paso::Mejora { desde, hacia, peso, distancia } => {
            s.append("Mejora: ");
            escribir_nombre(&mut s, etiquetas, desde);
            s.append(" -> ");
            escribir_nombre(&mut s, etiquetas, hacia);
            s.append(" con peso ");
            escribir_entero(&mut s, peso);
            s.append(" da distancia ");
            escribir_entero(&mut s, distancia);
            assert(s@ =~= texto_de(e, *paso));
        },
        Paso::Empate { desde, hacia, peso, distancia } => {
            s.append("Empate: ");
            escribir_nombre(&mut s, etiquetas, desde);
            s.append(" -> ");
            escribir_nombre(&mut s, etiquetas, hacia);
            s.append(" con peso ");
            escribir_entero(&mut s, peso);
            s.append(" iguala la distancia ");
            escribir_entero(&mut s, distancia);
            assert(s@ =~= texto_de(e, *paso));
        },
    }
    s
}

/// The lines that tell a trace, one for each entry, and after them a note
/// where the destination was not reached.
pub fn describir_traza(etiquetas: &[String], pasos: &Vec<Paso>, alcanzado: bool) -> (r: Vec<String>)
    ensures
        r.len() == pasos.len() + if alcanzado { 0int } else { 1int },
        forall|i: int| 0 <= i < pasos.len() ==> (#[trigger] r@[i])@ == texto_de(rotulos(etiquetas@), pasos@[i]),
        !alcanzado ==> r@[pasos.len() as int]@
            == "Destino no alcanzable desde el origen indicado, intente otro destino."@,
{
    let mut r: Vec<String> = Vec::new();
    let mut i: usize = 0;
    while i < pasos.len()
        invariant
            i <= pasos.len(),
            r.len() == i,
            forall|k: int| 0 <= k < i ==> (#[trigger] r@[k])@ == texto_de(rotulos(etiquetas@), pasos@[k]),
        decreases pasos.len() - i,
    {
        r.push(describir_paso(etiquetas, &pasos[i]));
        i += 1;
    }
    if !alcanzado {
        r.push("Destino no alcanzable desde el origen indicado, intente otro destino.".to_owned());
    }
    r
}

} // verus!

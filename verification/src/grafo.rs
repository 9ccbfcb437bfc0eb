//! Building graphs: from labels and a text of edges, or from labels and chance.

pub use crate::etiquetas::{fill_vector_auto, gen_labels};

use crate::azar::{azar_entre, azar_razon};
use crate::cadenas::{en_mayusculas, mayusculas};
use crate::conexion::{
    conexo, encadenados, es_permutacion, lema_arista_mas, lema_cadena_conecta, lema_cadena_mas,
    lema_conexo_trivial, lema_intercambio, sin_paralelas, unidos,
};
use crate::lectura::{
    cadena_de, caracteres, entero_de, leer_entero, lema_cuenta_lineas, lineas, palabras, partir_lineas,
    partir_palabras, textos,
};
use crate::modelo::{hay_arista, rotulos, Arista, Grafo};
use rand::rngs::StdRng;
use vstd::prelude::*;

verus! {

/// Why a line of a text of edges cannot be read.
#[derive(Clone, Copy, Debug, PartialEq, Eq, Structural)]
pub enum Razon {
    /// The line does not hold three words.
    Formato,
    /// The third word is no whole number.
    Peso,
    /// A label names no node.
    Etiqueta,
}

/// A line that cannot be read: its number, counted from one, and the reason.
#[derive(Clone, Copy, Debug, PartialEq, Eq, Structural)]
pub struct ErrorLectura {
    pub linea: usize,
    pub razon: Razon,
}

/// What one line of a text of edges says.
#[derive(Clone, Copy, Debug, PartialEq, Eq, Structural)]
pub enum Lectura {
    /// Nothing: the line is blank, or names one node twice.
    Nada,
    /// An edge, with its weight raised to one where it was less.
    Arista { origen: usize, destino: usize, peso: i32 },
    /// The line cannot be read.
    Falla { razon: Razon },
}

/// The first node that carries the label, if any does.
pub open spec fn indice_de(nodos: Seq<Seq<char>>, etiqueta: Seq<char>) -> Option<usize>
    decreases nodos.len(),
{
    if nodos.len() == 0 {
        None
    } else {
        match indice_de(nodos.drop_last(), etiqueta) {
            Some(i) => Some(i),
            None => if nodos.last() == etiqueta {
                Some((nodos.len() - 1) as usize)
            } else {
                None
            },
        }
    }
}

/// What a line says once it is cut into words and its two labels stand in
/// upper case: `origen` and `destino` are the labels, `numero` the third word.
pub open spec fn leer_palabras(nodos: Seq<Seq<char>>, origen: Seq<char>, destino: Seq<char>, numero: Seq<char>) -> Lectura {
    match entero_de(numero) {
        None => Lectura::Falla { razon: Razon::Peso },
        Some(w) => match (indice_de(nodos, origen), indice_de(nodos, destino)) {
            (Some(a), Some(b)) => if a == b {
                Lectura::Nada
            } else {
                Lectura::Arista { origen: a, destino: b, peso: if w < 1 { 1i32 } else { w } }
            },
            _ => Lectura::Falla { razon: Razon::Etiqueta },
        },
    }
}

/// What a line says: nothing where it holds no word, a failure where it
/// does not hold three, and else what its words say, the two labels taken
/// in upper case.
pub open spec fn leer_linea(nodos: Seq<Seq<char>>, linea: Seq<char>) -> Lectura {
    let p = palabras(linea);
    if p.len() == 0 {
        Lectura::Nada
    } else if p.len() != 3 {
        Lectura::Falla { razon: Razon::Formato }
    } else {
        leer_palabras(nodos, en_mayusculas(p[0]), en_mayusculas(p[1]), p[2])
    }
}

/// The edges that the lines say, in their order, or the first line that
/// cannot be read.
pub open spec fn leer_lineas(nodos: Seq<Seq<char>>, ls: Seq<Seq<char>>) -> Result<Seq<Arista>, ErrorLectura>
    decreases ls.len(),
{
    if ls.len() == 0 {
        Ok(Seq::empty())
    } else {
        match leer_lineas(nodos, ls.drop_last()) {
            Err(e) => Err(e),
            Ok(a) => match leer_linea(nodos, ls.last()) {
                Lectura::Nada => Ok(a),
                Lectura::Arista { origen, destino, peso } => Ok(a.push((origen, destino, peso))),
                Lectura::Falla { razon } => Err(ErrorLectura { linea: ls.len() as usize, razon }),
            },
        }
    }
}

/// The edges that a text says, or its first line that cannot be read.
pub open spec fn leer_texto(nodos: Seq<Seq<char>>, texto: Seq<char>) -> Result<Seq<Arista>, ErrorLectura> {
    leer_lineas(nodos, lineas(texto))
}

/// The first node that carries the label, if any does.
pub fn buscar_etiqueta(nodos: &[String], etiqueta: &String) -> (r: Option<usize>)
    ensures
        r == indice_de(rotulos(nodos@), etiqueta@),
        r matches Some(i) ==> i < nodos.len(),
{
    let mut i: usize = 0;
    assert(rotulos(nodos@).take(0) =~= Seq::<Seq<char>>::empty());
    while i < nodos.len()
        invariant
            i <= nodos.len(),
            indice_de(rotulos(nodos@).take(i as int), etiqueta@) is None,
        decreases nodos.len() - i,
    {
        proof {
            assert(rotulos(nodos@).take(i + 1).drop_last() =~= rotulos(nodos@).take(i as int));
            assert(rotulos(nodos@).take(i + 1).last() == nodos@[i as int]@);
        }
        if nodos[i] == *etiqueta {
            proof {
                lema_indice_crece(rotulos(nodos@), etiqueta@, i + 1);
            }
            return Some(i);
        }
        i += 1;
    }
    assert(rotulos(nodos@).take(i as int) =~= rotulos(nodos@));
    None
}

/// A label found among the first `k` nodes is found there among all.
proof fn lema_indice_crece(nodos: Seq<Seq<char>>, etiqueta: Seq<char>, k: int)
    requires
        0 <= k <= nodos.len(),
        indice_de(nodos.take(k), etiqueta) is Some,
    ensures
        indice_de(nodos, etiqueta) == indice_de(nodos.take(k), etiqueta),
    decreases nodos.len() - k,
{
    if k < nodos.len() {
        assert(nodos.take(k + 1).drop_last() =~= nodos.take(k));
        lema_indice_crece(nodos, etiqueta, k + 1);
    } else {
        assert(nodos.take(k) =~= nodos);
    }
}

/// What the words of a line say, its two labels given in upper case.
pub fn interpretar_palabras(nodos: &[String], origen: &String, destino: &String, numero: &Vec<char>) -> (r:
    Lectura)
    ensures
        r == leer_palabras(rotulos(nodos@), origen@, destino@, numero@),
        r matches Lectura::Arista { origen: a, destino: b, peso } ==> a < nodos.len() && b < nodos.len() && a != b
            && peso >= 1,
{
    match leer_entero(numero) {
        None => Lectura::Falla { razon: Razon::Peso },
        Some(w) => {
            let a = buscar_etiqueta(nodos, origen);
            let b = buscar_etiqueta(nodos, destino);
            match (a, b) {
                (Some(a), Some(b)) => {
                    if a == b {
                        Lectura::Nada
                    } else {
                        Lectura::Arista { origen: a, destino: b, peso: if w < 1 { 1 } else { w } }
                    }
                },
                _ => Lectura::Falla { razon: Razon::Etiqueta },
            }
        },
    }
}

/// What a line says.
pub fn interpretar_linea(nodos: &[String], linea: &Vec<char>) -> (r: Lectura)
    ensures
        r == leer_linea(rotulos(nodos@), linea@),
        r matches Lectura::Arista { origen: a, destino: b, peso } ==> a < nodos.len() && b < nodos.len() && a != b
            && peso >= 1,
{
    let p = partir_palabras(linea);
    assert(textos(p@).len() == p.len());
    if p.len() == 0 {
        Lectura::Nada
    } else if p.len() != 3 {
        Lectura::Falla { razon: Razon::Formato }
    } else {
        assert(textos(p@)[0] == p@[0]@ && textos(p@)[1] == p@[1]@ && textos(p@)[2] == p@[2]@);
        let s0 = cadena_de(&p[0]);
        let s1 = cadena_de(&p[1]);
        let origen = mayusculas(s0.as_str());
        let destino = mayusculas(s1.as_str());
        interpretar_palabras(nodos, &origen, &destino, &p[2])
    }
}

/// The graph with the given labels as nodes and the edges that the text
/// says, one to a line as origin, destination and weight; or the first line
/// that cannot be read, with no graph.
pub fn generar_grafo_dirigido_manual(nodos: &[String], texto: &str) -> (r: Result<Grafo, ErrorLectura>)
    requires
        nodos.len() <= u32::MAX,
        texto@.len() < u32::MAX,
    ensures
        r matches Ok(g) ==> g.valido() && g.etiquetas() == rotulos(nodos@) && leer_texto(rotulos(nodos@), texto@)
            == Ok::<Seq<Arista>, ErrorLectura>(g.aristas()),
        r matches Err(e) ==> leer_texto(rotulos(nodos@), texto@) == Err::<Seq<Arista>, ErrorLectura>(e),
{
    let t = caracteres(texto);
    let ls = partir_lineas(&t);
    let mut g = Grafo::con_nodos(nodos);
    let ghost rot = rotulos(nodos@);
    let ghost todas = textos(ls@);
    proof {
        lema_cuenta_lineas(texto@);
        assert(todas.take(0) =~= Seq::<Seq<char>>::empty());
        assert(g.aristas() =~= Seq::<Arista>::empty());
        assert(todas.len() == ls.len());
    }
    let mut i: usize = 0;
    while i < ls.len()
        invariant
            i <= ls.len() <= u32::MAX,
            todas == textos(ls@),
            todas == lineas(texto@),
            rot == rotulos(nodos@),
            g.valido(),
            g.etiquetas() == rot,
            g.aristas().len() <= i,
            leer_lineas(rot, todas.take(i as int)) == Ok::<Seq<Arista>, ErrorLectura>(g.aristas()),
        decreases ls.len() - i,
    {
        proof {
            assert(todas.take(i + 1).drop_last() =~= todas.take(i as int));
            assert(todas.take(i + 1).last() == ls@[i as int]@);
        }
        match interpretar_linea(nodos, &ls[i]) {
            Lectura::Nada => {},
            Lectura::Arista { origen, destino, peso } => {
                let hecho = g.agregar_arista(origen, destino, peso);
                assert(hecho);
            },
            Lectura::Falla { razon } => {
                proof {
                    let e = ErrorLectura { linea: (i + 1) as usize, razon };
                    assert(todas.take(i + 1).len() == i + 1);
                    assert(leer_lineas(rot, todas.take(i + 1)) == Err::<Seq<Arista>, ErrorLectura>(e));
                    lema_falla_queda(rot, todas, i + 1);
                }
                return Err(ErrorLectura { linea: i + 1, razon });
            },
        }
        i += 1;
    }
    assert(todas.take(i as int) =~= todas);
    Ok(g)
}

/// A failure among the first `k` lines is the failure of all.
proof fn lema_falla_queda(nodos: Seq<Seq<char>>, ls: Seq<Seq<char>>, k: int)
    requires
        0 <= k <= ls.len(),
        leer_lineas(nodos, ls.take(k)) is Err,
    ensures
        leer_lineas(nodos, ls) == leer_lineas(nodos, ls.take(k)),
    decreases ls.len() - k,
{
    if k < ls.len() {
        assert(ls.take(k + 1).drop_last() =~= ls.take(k));
        lema_falla_queda(nodos, ls, k + 1);
    } else {
        assert(ls.take(k) =~= ls);
    }
}

/// The nodes below `n` in an order drawn by chance.
pub fn barajar(n: usize, rng: &mut StdRng) -> (orden: Vec<usize>)
    ensures
        es_permutacion(orden@, n as nat),
{
    let mut orden: Vec<usize> = Vec::new();
    let mut k: usize = 0;
    while k < n
        invariant
            k <= n,
            orden.len() == k,
            forall|i: int| 0 <= i < k ==> orden@[i] == i,
        decreases n - k,
    {
        orden.push(k);
        k += 1;
    }
    proof {
        assert forall|v: usize| v < n implies orden@.contains(v) by {
            assert(orden@[v as int] == v);
        }
    }
    if n > 1 {
        let mut i: usize = n - 1;
        while i > 0
            invariant
                i < n,
                es_permutacion(orden@, n as nat),
            decreases i,
        {
            let j = azar_entre(rng, 0, i);
            proof {
                lema_intercambio(orden@, n as nat, i as int, j as int);
            }
            let x = orden[i];
            let y = orden[j];
            orden[i] = y;
            orden[j] = x;
            i -= 1;
        }
    }
    orden
}

/// Every weight lies between one and ten.
pub open spec fn pesos_sorteados(aristas: Seq<Arista>) -> bool {
    forall|k: int| 0 <= k < aristas.len() ==> 1 <= (#[trigger] aristas[k]).2 <= 10
}

/// An edge goes from every node below `n` to every other.
pub open spec fn completo(aristas: Seq<Arista>, n: nat) -> bool {
    forall|x: usize, y: usize| x < n && y < n && x != y ==> hay_arista(aristas, x, y)
}

/// Every edge joins two of the first `m` nodes of `orden`.
spec fn entre_primeros(aristas: Seq<Arista>, orden: Seq<usize>, m: int) -> bool {
    forall|k: int|
        0 <= k < aristas.len() ==> orden.take(m).contains((#[trigger] aristas[k]).0) && orden.take(m).contains(
            aristas[k].1,
        )
}

/// Adds an edge from `a` to `b` with a weight drawn between one and ten,
/// unless an edge goes from `a` to `b` already.
fn sortear_arista(g: &mut Grafo, a: usize, b: usize, rng: &mut StdRng) -> (hecho: bool)
    requires
        a < old(g).n(),
        b < old(g).n(),
        a != b,
        old(g).aristas().len() < u32::MAX,
        sin_paralelas(old(g).aristas()),
        pesos_sorteados(old(g).aristas()),
    ensures
        final(g).valido(),
        final(g).etiquetas() == old(g).etiquetas(),
        hecho == !hay_arista(old(g).aristas(), a, b),
        !hecho ==> final(g).aristas() == old(g).aristas(),
        hecho ==> final(g).aristas().len() == old(g).aristas().len() + 1 && final(g).aristas().drop_last() == old(
            g,
        ).aristas() && final(g).aristas().last().0 == a && final(g).aristas().last().1 == b,
        sin_paralelas(final(g).aristas()),
        pesos_sorteados(final(g).aristas()),
        hay_arista(final(g).aristas(), a, b),
{
    let ghost antes = g.aristas();
    if g.peso_entre(a, b).is_none() {
        let peso = azar_entre(rng, 1, 10) as i32;
        let hecho = g.agregar_arista(a, b, peso);
        proof {
            assert(hecho);
            let e = (a, b, peso);
            assert(g.aristas().drop_last() =~= antes);
            lema_arista_mas(antes, e, a, b);
            assert forall|i: int, j: int| 0 <= i < j < g.aristas().len() implies !((#[trigger] g.aristas()[i]).0 == (
            #[trigger] g.aristas()[j]).0 && g.aristas()[i].1 == g.aristas()[j].1) by {
                assert(g.aristas()[i] == antes[i]);
                if j < antes.len() {
                    assert(g.aristas()[j] == antes[j]);
                }
            }
            assert forall|k: int| 0 <= k < g.aristas().len() implies 1 <= (#[trigger] g.aristas()[k]).2 <= 10 by {
                if k < antes.len() {
                    assert(g.aristas()[k] == antes[k]);
                }
            }
        }
        true
    } else {
        proof {
            use_type_invariant(&*g);
        }
        false
    }
}

/// An edge goes from `x` to `y` for every pair of different nodes that
/// comes before the pair (`i`, `j`), the pairs counted row by row.
spec fn cubiertos(aristas: Seq<Arista>, n: nat, i: int, j: int) -> bool {
    forall|x: usize, y: usize|
        y < n && x != y && (x < i || (x == i && y < j)) ==> #[trigger] hay_arista(aristas, x, y)
}

/// One edge more loses nothing of what the edges had.
proof fn lema_crece(antes: Seq<Arista>, e: Arista, orden: Seq<usize>, n: nat, i: int, j: int)
    requires
        encadenados(antes, orden, n - 1),
        cubiertos(antes, n, i, j),
    ensures
        encadenados(antes.push(e), orden, n - 1),
        cubiertos(antes.push(e), n, i, j),
{
    lema_cadena_mas(antes, e, orden, n - 1);
    assert forall|x: usize, y: usize| y < n && x != y && (x < i || (x == i && y < j)) implies #[trigger] hay_arista(
        antes.push(e),
        x,
        y,
    ) by {
        assert(hay_arista(antes, x, y));
        lema_arista_mas(antes, e, x, y);
    }
}

/// A graph with the given labels as nodes and edges drawn by chance. The
/// nodes are put in an order drawn by chance and each is joined to the
/// next by an edge whose direction is drawn; then, for every ordered pair of
/// different nodes, an edge is added with the odds `numerador` in
/// `denominador` unless the pair has one. Weights are drawn between one and
/// ten. Whatever is drawn, the graph is connected when directions are left
/// aside and no ordered pair has two edges; with odds zero it has one edge
/// less than nodes, and with odds one an edge for every ordered pair.
pub fn generar_grafo_dirigido_con_prob(nodos: &[String], numerador: u32, denominador: u32, rng: &mut StdRng) -> (g:
    Grafo)
    requires
        nodos.len() <= 65535,
        denominador > 0,
        numerador <= denominador,
    ensures
        g.valido(),
        g.etiquetas() == rotulos(nodos@),
        pesos_sorteados(g.aristas()),
        sin_paralelas(g.aristas()),
        conexo(g.aristas(), g.n()),
        nodos.len() == 0 ==> g.aristas().len() == 0,
        nodos.len() >= 1 && numerador == 0 ==> g.aristas().len() == nodos.len() - 1,
        numerador == denominador ==> completo(g.aristas(), g.n()),
{
    let mut g = Grafo::con_nodos(nodos);
    let n = nodos.len();
    if n <= 1 {
        proof {
            lema_conexo_trivial(g.aristas(), n as nat);
        }
        return g;
    }
    let orden = barajar(n, rng);
    let mut k: usize = 0;
    proof {
        assert(encadenados(g.aristas(), orden@, 0));
    }
    while k + 1 < n
        invariant
            n == nodos.len(),
            1 < n <= 65535,
            k < n,
            g.valido(),
            g.etiquetas() == rotulos(nodos@),
            es_permutacion(orden@, n as nat),
            g.aristas().len() == k,
            sin_paralelas(g.aristas()),
            pesos_sorteados(g.aristas()),
            encadenados(g.aristas(), orden@, k as int),
            entre_primeros(g.aristas(), orden@, k + 1),
        decreases n - k,
    {
        let a = orden[k];
        let b = orden[k + 1];
        let adelante = azar_razon(rng, 1, 2);
        let src = if adelante {
            a
        } else {
            b
        };
        let dst = if adelante {
            b
        } else {
            a
        };
        let ghost antes = g.aristas();
        let ghost primeros = orden@.take(k + 1);
        proof {
            if hay_arista(antes, src, dst) {
                let idx = choose|idx: int| 0 <= idx < antes.len() && (#[trigger] antes[idx]).0 == src && antes[idx].1 == dst;
                assert(primeros.contains(antes[idx].0) && primeros.contains(antes[idx].1));
                assert(primeros.contains(b));
                let p = choose|p: int| 0 <= p < primeros.len() && primeros[p] == b;
                assert(orden@[p] == orden@[k + 1]);
                assert(false);
            }
        }
        let hecho = sortear_arista(&mut g, src, dst, rng);
        proof {
            let e = g.aristas().last();
            assert(g.aristas() =~= antes.push(e));
            lema_cadena_mas(antes, e, orden@, k as int);
            lema_arista_mas(antes, e, src, dst);
            assert(unidos(g.aristas(), orden@[k as int], orden@[k + 1]));
            let segundos = orden@.take(k + 2);
            assert forall|idx: int| 0 <= idx < g.aristas().len() implies segundos.contains(
                (#[trigger] g.aristas()[idx]).0,
            ) && segundos.contains(g.aristas()[idx].1) by {
                assert(segundos[k as int] == a && segundos[k + 1] == b);
                if idx < antes.len() {
                    assert(g.aristas()[idx] == antes[idx]);
                    let p = choose|p: int| 0 <= p < primeros.len() && primeros[p] == antes[idx].0;
                    assert(segundos[p] == antes[idx].0);
                    let q = choose|q: int| 0 <= q < primeros.len() && primeros[q] == antes[idx].1;
                    assert(segundos[q] == antes[idx].1);
                }
            }
        }
        k += 1;
    }
    let mut i: usize = 0;
    while i < n
        invariant
            n == nodos.len(),
            1 < n <= 65535,
            i <= n,
            denominador > 0,
            numerador <= denominador,
            g.valido(),
            g.etiquetas() == rotulos(nodos@),
            sin_paralelas(g.aristas()),
            pesos_sorteados(g.aristas()),
            encadenados(g.aristas(), orden@, n - 1),
            g.aristas().len() <= n - 1 + i * n,
            numerador == 0 ==> g.aristas().len() == n - 1,
            numerador == denominador ==> cubiertos(g.aristas(), n as nat, i as int, 0),
        decreases n - i,
    {
        let mut j: usize = 0;
        while j < n
            invariant
                n == nodos.len(),
                1 < n <= 65535,
                i < n,
                j <= n,
                denominador > 0,
                numerador <= denominador,
                g.valido(),
                g.etiquetas() == rotulos(nodos@),
                sin_paralelas(g.aristas()),
                pesos_sorteados(g.aristas()),
                encadenados(g.aristas(), orden@, n - 1),
                g.aristas().len() <= n - 1 + i * n + j,
                numerador == 0 ==> g.aristas().len() == n - 1,
                numerador == denominador ==> cubiertos(g.aristas(), n as nat, i as int, j as int),
            decreases n - j,
        {
            let ghost antes = g.aristas();
            if i != j {
                if azar_razon(rng, numerador, denominador) {
                    proof {
                        assert(i * n <= 65534 * 65535) by (nonlinear_arith)
                            requires
                                i <= 65534,
                                n <= 65535,
                        ;
                    }
                    let hecho = sortear_arista(&mut g, i, j, rng);
                    proof {
                        if hecho {
                            let e = g.aristas().last();
                            assert(g.aristas() =~= antes.push(e));
                            if numerador == denominador {
                                lema_crece(antes, e, orden@, n as nat, i as int, j as int);
                            } else {
                                lema_cadena_mas(antes, e, orden@, n - 1);
                            }
                        }
                    }
                }
            }
            proof {
                if numerador == denominador {
                    assert forall|x: usize, y: usize|
                        y < n && x != y && (x < i || (x == i && y < j + 1)) implies #[trigger] hay_arista(
                        g.aristas(),
                        x,
                        y,
                    ) by {
                        if x == i && y == j {
                        } else {
                            assert(x < i || (x == i && y < j));
                        }
                    }
                }
            }
            j += 1;
        }
        proof {
            assert((i + 1) * n == i * n + n) by (nonlinear_arith);
            if numerador == denominador {
                assert forall|x: usize, y: usize| y < n && x != y && (x < i + 1 || (x == i + 1 && y < 0)) implies #[trigger] hay_arista(
                    g.aristas(),
                    x,
                    y,
                ) by {
                    assert(x < i || (x == i && y < n));
                }
            }
        }
        i += 1;
    }
    proof {
        lema_cadena_conecta(g.aristas(), orden@, n as nat);
    }
    g
}

/// `sub` holds what a walk along `camino` meets in `aristas`: for each node
/// and the next, in their order, one edge that `aristas` has from the one to
/// the other, and nothing where it has none.
pub open spec fn es_extraccion(aristas: Seq<Arista>, camino: Seq<usize>, sub: Seq<Arista>) -> bool
    decreases camino.len(),
{
    if camino.len() <= 1 {
        sub.len() == 0
    } else {
        let a = camino[camino.len() - 2];
        let b = camino.last();
        if hay_arista(aristas, a, b) {
            &&& sub.len() >= 1
            &&& sub.last().0 == a
            &&& sub.last().1 == b
            &&& aristas.contains(sub.last())
            &&& es_extraccion(aristas, camino.drop_last(), sub.drop_last())
        } else {
            es_extraccion(aristas, camino.drop_last(), sub)
        }
    }
}

/// The graph with the nodes of `g` and, of its edges, one for each step of
/// `camino` that `g` has an edge for, with the weight that the edge has in `g`.
pub fn subgrafo_de_camino(g: &Grafo, camino: &[usize]) -> (sub: Grafo)
    requires
        camino.len() <= u32::MAX,
    ensures
        sub.valido(),
        sub.etiquetas() == g.etiquetas(),
        es_extraccion(g.aristas(), camino@, sub.aristas()),
{
    proof {
        use_type_invariant(g);
    }
    let nodos = g.lista_etiquetas();
    let mut sub = Grafo::con_nodos(nodos.as_slice());
    if camino.len() <= 1 {
        return sub;
    }
    let mut i: usize = 1;
    proof {
        assert(camino@.take(1).len() == 1);
    }
    while i < camino.len()
        invariant
            1 <= i <= camino.len() <= u32::MAX,
            g.valido(),
            sub.valido(),
            sub.etiquetas() == g.etiquetas(),
            sub.aristas().len() < i,
            es_extraccion(g.aristas(), camino@.take(i as int), sub.aristas()),
        decreases camino.len() - i,
    {
        let a = camino[i - 1];
        let b = camino[i];
        let ghost antes = sub.aristas();
        proof {
            let c = camino@.take(i + 1);
            assert(c.drop_last() =~= camino@.take(i as int));
            assert(c[c.len() - 2] == a && c.last() == b);
        }
        match g.peso_entre(a, b) {
            Some(w) => {
                proof {
                    let k = choose|k: int| 0 <= k < g.aristas().len() && g.aristas()[k] == (a, b, w);
                    assert(g.aristas()[k].0 < g.n() && g.aristas()[k].2 >= 1);
                }
                let hecho = sub.agregar_arista(a, b, w);
                proof {
                    assert(hecho);
                    assert(sub.aristas().drop_last() =~= antes);
                }
            },
            None => {},
        }
        i += 1;
    }
    assert(camino@.take(i as int) =~= camino@);
    sub
}

/// The number of nodes that a text asks for: a whole number from eight to
/// sixteen with nothing but white space around it. Otherwise nothing.
pub open spec fn cantidad_pedida(texto: Seq<char>) -> Option<i32> {
    let p = palabras(texto);
    if p.len() == 1 && entero_de(p[0]) is Some && 8 <= entero_de(p[0])->0 <= 16 {
        entero_de(p[0])
    } else {
        None
    }
}

/// Reads the number of nodes that a text asks for.
pub fn validar(texto: &str) -> (r: Option<i32>)
    ensures
        r == cantidad_pedida(texto@),
{
    let t = caracteres(texto);
    let p = partir_palabras(&t);
    assert(textos(p@).len() == p.len());
    if p.len() != 1 {
        return None;
    }
    assert(textos(p@)[0] == p@[0]@);
    match leer_entero(&p[0]) {
        Some(v) => if 8 <= v && v <= 16 {
            Some(v)
        } else {
            None
        },
        None => None,
    }
}

/// How a graph is to be built.
#[derive(Clone, Copy, Debug, PartialEq, Eq, Structural)]
pub enum Modo {
    /// With edges drawn by chance.
    Aleatorio,
    /// With the edges that a text says.
    Manual,
}

/// Why no graph was built.
#[derive(Clone, Copy, Debug, PartialEq, Eq, Structural)]
pub enum ErrorConstruccion {
    /// The number of nodes is not between eight and sixteen, or there are
    /// fewer labels than nodes.
    Cantidad,
    /// A line of the text cannot be read.
    Lectura { error: ErrorLectura },
}

/// The first `n` of the given labels.
pub fn primeras(etiquetas: &[String], n: usize) -> (r: Vec<String>)
    requires
        n <= etiquetas.len(),
    ensures
        rotulos(r@) == rotulos(etiquetas@).take(n as int),
        r.len() == n,
{
    let mut r: Vec<String> = Vec::new();
    let mut i: usize = 0;
    while i < n
        invariant
            i <= n <= etiquetas.len(),
            r.len() == i,
            forall|k: int| 0 <= k < i ==> (#[trigger] r@[k])@ == etiquetas@[k]@,
        decreases n - i,
    {
        r.push(etiquetas[i].clone());
        i += 1;
    }
    assert(rotulos(r@) =~= rotulos(etiquetas@).take(n as int));
    r
}

/// Builds the graph that a user asked for, on the first `n` of the given
/// labels: by chance or from the text, as `modo` says. No graph is built
/// where `n` is not between eight and sixteen or the labels are fewer, nor
/// where a line of the text cannot be read.
pub fn construir_grafo(
    etiquetas: &[String],
    n: usize,
    modo: Modo,
    numerador: u32,
    denominador: u32,
    texto: &str,
    rng: &mut StdRng,
) -> (r: Result<Grafo, ErrorConstruccion>)
    requires
        denominador > 0,
        numerador <= denominador,
        texto@.len() < u32::MAX,
    ensures
        (n < 8 || n > 16 || n > etiquetas.len()) <==> r == Err::<Grafo, ErrorConstruccion>(
            ErrorConstruccion::Cantidad,
        ),
        r matches Ok(g) ==> {
            &&& g.valido()
            &&& g.etiquetas() == rotulos(etiquetas@).take(n as int)
            &&& modo == Modo::Aleatorio ==> {
                &&& pesos_sorteados(g.aristas())
                &&& sin_paralelas(g.aristas())
                &&& conexo(g.aristas(), g.n())
                &&& numerador == 0 ==> g.aristas().len() == n - 1
                &&& numerador == denominador ==> completo(g.aristas(), g.n())
            }
            &&& modo == Modo::Manual ==> leer_texto(rotulos(etiquetas@).take(n as int), texto@) == Ok::<
                Seq<Arista>,
                ErrorLectura,
            >(g.aristas())
        },
        r matches Err(ErrorConstruccion::Lectura { error }) ==> modo == Modo::Manual && 8 <= n <= 16 && n
            <= etiquetas.len() && leer_texto(rotulos(etiquetas@).take(n as int), texto@) == Err::<
            Seq<Arista>,
            ErrorLectura,
        >(error),
{
    if n < 8 || n > 16 || n > etiquetas.len() {
        return Err(ErrorConstruccion::Cantidad);
    }
    let nodos = primeras(etiquetas, n);
    match modo {
        Modo::Aleatorio => Ok(generar_grafo_dirigido_con_prob(nodos.as_slice(), numerador, denominador, rng)),
        Modo::Manual => match generar_grafo_dirigido_manual(nodos.as_slice(), texto) {
            Ok(g) => Ok(g),
            Err(error) => Err(ErrorConstruccion::Lectura { error }),
        },
    }
}

/// The graph on the given labels that the choice asks for: with choice one,
/// edges drawn by chance with odds of thirty in a hundred for each further
/// edge; with choice two, the edges that the text says.
pub fn generar_grafo_dirigido(nodos: &[String], eleccion: i8, texto: &str, rng: &mut StdRng) -> (r: Result<
    Grafo,
    ErrorLectura,
>)
    requires
        eleccion == 1 || eleccion == 2,
        nodos.len() <= 65535,
        texto@.len() < u32::MAX,
    ensures
        r matches Ok(g) ==> g.valido() && g.etiquetas() == rotulos(nodos@),
        eleccion == 1 ==> r is Ok,
        eleccion == 1 ==> pesos_sorteados(r->Ok_0.aristas()) && sin_paralelas(r->Ok_0.aristas()) && conexo(
            r->Ok_0.aristas(),
            r->Ok_0.n(),
        ),
        eleccion == 2 ==> leer_texto(rotulos(nodos@), texto@) == match r {
            Ok(g) => Ok::<Seq<Arista>, ErrorLectura>(g.aristas()),
            Err(e) => Err::<Seq<Arista>, ErrorLectura>(e),
        },
{
    if eleccion == 1 {
        Ok(generar_grafo_dirigido_con_prob(nodos, 30, 100, rng))
    } else {
        generar_grafo_dirigido_manual(nodos, texto)
    }
}

} // verus!

//! The graph that the library works on: a `petgraph` digraph whose edges are
//! known to join two different nodes with a weight of at least one.

use crate::red::{
    aristas_de, etiquetas_de, red_agregar_arista, red_agregar_nodo, red_buscar_arista,
    red_cuenta_aristas, red_cuenta_nodos, red_etiqueta, red_peso, red_renombrar, red_salientes, red_vacia,
    sale_de, salen_de,
};
use petgraph::graph::DiGraph;
use vstd::prelude::*;

verus! {

/// An edge as (source, target, weight).
pub type Arista = (usize, usize, i32);

/// Every edge joins two different nodes below `n` with a weight of at least one.
pub open spec fn aristas_validas(aristas: Seq<Arista>, n: nat) -> bool {
    forall|k: int|
        0 <= k < aristas.len() ==> {
            &&& (#[trigger] aristas[k]).0 < n
            &&& aristas[k].1 < n
            &&& aristas[k].0 != aristas[k].1
            &&& aristas[k].2 >= 1
        }
}

/// The labels of a list of strings.
pub open spec fn rotulos(nodos: Seq<String>) -> Seq<Seq<char>> {
    Seq::new(nodos.len(), |i: int| nodos[i]@)
}

/// Some edge of `aristas` goes from `a` to `b`.
pub open spec fn hay_arista(aristas: Seq<Arista>, a: usize, b: usize) -> bool {
    exists|k: int| 0 <= k < aristas.len() && (#[trigger] aristas[k]).0 == a && aristas[k].1 == b
}

/// A list with the same items as the edges that leave `u` holds only edges
/// that leave `u`, and each of them.
pub proof fn lema_salientes(aristas: Seq<Arista>, u: usize, r: Seq<Arista>)
    requires
        r.to_multiset() == salen_de(aristas, u).to_multiset(),
    ensures
        forall|j: int| 0 <= j < r.len() ==> (#[trigger] r[j]).0 == u && aristas.contains(r[j]),
        forall|k: int| 0 <= k < aristas.len() && aristas[k].0 == u ==> r.contains(#[trigger] aristas[k]),
{
    let pred = sale_de(u);
    let f = aristas.filter(pred);
    assert forall|j: int| 0 <= j < r.len() implies (#[trigger] r[j]).0 == u && aristas.contains(r[j]) by {
        let x = r[j];
        assert(r.contains(x));
        vstd::seq_lib::to_multiset_contains(r, x);
        vstd::seq_lib::to_multiset_contains(f, x);
        assert(f.contains(x));
        let i = choose|i: int| 0 <= i < f.len() && f[i] == x;
        aristas.lemma_filter_pred(pred, i);
        aristas.lemma_filter_contains_rev(pred, x);
    }
    assert forall|k: int| 0 <= k < aristas.len() && aristas[k].0 == u implies r.contains(
        #[trigger] aristas[k],
    ) by {
        let x = aristas[k];
        aristas.lemma_filter_contains(pred, k);
        vstd::seq_lib::to_multiset_contains(r, x);
        vstd::seq_lib::to_multiset_contains(f, x);
    }
}

/// A weighted directed multigraph with labelled nodes.
pub struct Grafo {
    red: DiGraph<String, i32>,
}

impl Grafo {
    /// The labels of the nodes, by node index.
    pub closed spec fn etiquetas(&self) -> Seq<Seq<char>> {
        etiquetas_de(self.red)
    }

    /// The edges, by edge index.
    pub closed spec fn aristas(&self) -> Seq<Arista> {
        aristas_de(self.red)
    }

    /// The number of nodes.
    pub open spec fn n(&self) -> nat {
        self.etiquetas().len()
    }

    /// What holds of every graph that executable code can hold.
    #[verifier::type_invariant]
    pub open spec fn valido(&self) -> bool {
        &&& self.n() <= u32::MAX
        &&& self.aristas().len() <= u32::MAX
        &&& aristas_validas(self.aristas(), self.n())
    }

    /// A graph with the given labels as nodes and no edges.
    pub fn con_nodos(nodos: &[String]) -> (g: Grafo)
        requires
            nodos.len() <= u32::MAX,
        ensures
            g.etiquetas() == rotulos(nodos@),
            g.aristas().len() == 0,
            g.valido(),
    {
        let mut red = red_vacia();
        let mut i: usize = 0;
        assert(rotulos(nodos@).take(0) =~= Seq::<Seq<char>>::empty());
        while i < nodos.len()
            invariant
                i <= nodos.len() <= u32::MAX,
                etiquetas_de(red) == rotulos(nodos@).take(i as int),
                aristas_de(red).len() == 0,
            decreases nodos.len() - i,
        {
            let _ = red_agregar_nodo(&mut red, nodos[i].clone());
            assert(rotulos(nodos@).take(i as int).push(nodos[i as int]@) =~= rotulos(nodos@).take(i + 1));
            i = i + 1;
        }
        assert(rotulos(nodos@).take(i as int) =~= rotulos(nodos@));
        Grafo { red }
    }

    /// Adds an edge from `a` to `b` of weight `peso` and says so, where `a`
    /// and `b` are two different nodes, the weight is at least one and the
    /// graph has room; otherwise leaves the graph as it is.
    pub fn agregar_arista(&mut self, a: usize, b: usize, peso: i32) -> (hecho: bool)
        ensures
            hecho <==> a < old(self).n() && b < old(self).n() && a != b && peso >= 1 && old(self).aristas().len()
                < u32::MAX,
            final(self).etiquetas() == old(self).etiquetas(),
            hecho ==> final(self).aristas() == old(self).aristas().push((a, b, peso)),
            !hecho ==> final(self).aristas() == old(self).aristas(),
            final(self).valido(),
    {
        proof {
            use_type_invariant(&*self);
        }
        let n = red_cuenta_nodos(&self.red);
        let m = red_cuenta_aristas(&self.red);
        if a < n && b < n && a != b && peso >= 1 && m < u32::MAX as usize {
            let _ = red_agregar_arista(&mut self.red, a, b, peso);
            true
        } else {
            false
        }
    }

    /// Gives node `i` a new label and says so; leaves the graph as it is
    /// where `i` is no node.
    pub fn renombrar(&mut self, i: usize, etiqueta: String) -> (hecho: bool)
        ensures
            hecho <==> i < old(self).n(),
            hecho ==> final(self).etiquetas() == old(self).etiquetas().update(i as int, etiqueta@),
            !hecho ==> final(self).etiquetas() == old(self).etiquetas(),
            final(self).aristas() == old(self).aristas(),
            final(self).valido(),
    {
        proof {
            use_type_invariant(&*self);
        }
        if i < red_cuenta_nodos(&self.red) {
            red_renombrar(&mut self.red, i, etiqueta);
            true
        } else {
            false
        }
    }

    /// The label of node `i`.
    pub fn etiqueta(&self, i: usize) -> (r: Option<String>)
        ensures
            i < self.n() ==> r is Some && r->0@ == self.etiquetas()[i as int],
            i >= self.n() ==> r is None,
    {
        if i < red_cuenta_nodos(&self.red) {
            match red_etiqueta(&self.red, i) {
                Some(e) => Some(e.clone()),
                None => None,
            }
        } else {
            None
        }
    }

    /// The weight of an edge from `a` to `b`, if there is one. Among several
    /// such edges it is the weight of one of them.
    pub fn peso_entre(&self, a: usize, b: usize) -> (r: Option<i32>)
        ensures
            r is Some <==> hay_arista(self.aristas(), a, b),
            r matches Some(w) ==> self.aristas().contains((a, b, w)),
    {
        proof {
            use_type_invariant(self);
        }
        let n = red_cuenta_nodos(&self.red);
        if a < n && b < n {
            match red_buscar_arista(&self.red, a, b) {
                Some(k) => {
                    let w = red_peso(&self.red, k);
                    assert(self.aristas()[k as int] == (a, b, w->0));
                    w
                },
                None => None,
            }
        } else {
            None
        }
    }

    /// The labels of the nodes, by node index.
    pub fn lista_etiquetas(&self) -> (r: Vec<String>)
        ensures
            rotulos(r@) == self.etiquetas(),
    {
        let n = red_cuenta_nodos(&self.red);
        let mut r: Vec<String> = Vec::new();
        let mut i: usize = 0;
        while i < n
            invariant
                n == self.n(),
                i <= n,
                r.len() == i,
                forall|k: int| 0 <= k < i ==> (#[trigger] r@[k])@ == self.etiquetas()[k],
            decreases n - i,
        {
            match red_etiqueta(&self.red, i) {
                Some(e) => r.push(e.clone()),
                None => r.push(String::new()),
            }
            i += 1;
        }
        assert(rotulos(r@) =~= self.etiquetas());
        r
    }

    /// The graph as `petgraph` holds it.
    pub fn red(&self) -> (r: &DiGraph<String, i32>)
        ensures
            etiquetas_de(*r) == self.etiquetas(),
            aristas_de(*r) == self.aristas(),
    {
        &self.red
    }

    /// The number of nodes.
    pub fn cantidad_nodos(&self) -> (n: usize)
        ensures
            n == self.n(),
    {
        red_cuenta_nodos(&self.red)
    }

    /// The number of edges.
    pub fn cantidad_aristas(&self) -> (m: usize)
        ensures
            m == self.aristas().len(),
    {
        red_cuenta_aristas(&self.red)
    }

    /// The edges that leave `u`, each once, in no stated order.
    pub fn salientes(&self, u: usize) -> (r: Vec<Arista>)
        requires
            u < self.n(),
        ensures
            r@.to_multiset() == salen_de(self.aristas(), u).to_multiset(),
            forall|j: int| 0 <= j < r.len() ==> (#[trigger] r[j]).0 == u && self.aristas().contains(r[j]),
            forall|k: int|
                0 <= k < self.aristas().len() && self.aristas()[k].0 == u ==> r@.contains(
                    #[trigger] self.aristas()[k],
                ),
    {
        let r = red_salientes(&self.red, u);
        proof {
            lema_salientes(self.aristas(), u, r@);
        }
        r
    }
}

} // verus!

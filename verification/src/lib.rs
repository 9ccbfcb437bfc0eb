//! Every lightest path between two nodes of a small weighted digraph.
//!
//! A graph is built from labels and either chance or a text of edges
//! (`grafo`), searched from one origin with every tied predecessor kept
//! (`dijkstra`), and the paths that the predecessors span are listed
//! (`recorrido`, over what `caminos` says a path is). What the results mean
//! is said in `caminata`, what follows from it in `leyes`. The graph itself
//! is a `petgraph` digraph (`modelo`); what is taken on trust of
//! `petgraph`, `rand` and `std` stands in `red`, `azar` and `cadenas`.

pub mod azar;
pub mod cadenas;
pub mod caminata;
pub mod caminos;
pub mod conexion;
pub mod dijkstra;
mod estado;
pub mod etiquetas;
pub mod grafo;
pub mod lectura;
pub mod leyes;
pub mod modelo;
pub mod recorrido;
pub mod red;
pub mod traza;

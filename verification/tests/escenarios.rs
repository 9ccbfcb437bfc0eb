use caminos_minimos::caminos::reconstruir_camino;
use caminos_minimos::recorrido::reconstruir_todos_caminos;
use caminos_minimos::dijkstra::dijkstra_detallado;
use caminos_minimos::etiquetas::{fill_vector_auto, gen_labels};
use caminos_minimos::grafo::{generar_grafo_dirigido_manual, ErrorLectura, Razon};
use caminos_minimos::traza::Paso;

fn ejemplo() -> caminos_minimos::modelo::Grafo {
    let nodos = gen_labels(5);
    generar_grafo_dirigido_manual(&nodos, "A B 4\nA C 2\nB D 3\nC D 1\nC B 2\nD E 5").unwrap()
}

fn ordenados(mut v: Vec<usize>) -> Vec<usize> {
    v.sort();
    v
}

#[test]
fn escenario_distancias_y_predecesores() {
    let g = ejemplo();
    let (dist, preds, pasos) = dijkstra_detallado(&g, 0);
    assert_eq!(dist, vec![Some(0), Some(4), Some(2), Some(3), Some(8)]);
    assert_eq!(ordenados(preds[0].clone()), Vec::<usize>::new());
    assert_eq!(ordenados(preds[1].clone()), vec![0, 2]);
    assert_eq!(ordenados(preds[2].clone()), vec![0]);
    assert_eq!(ordenados(preds[3].clone()), vec![2]);
    assert_eq!(ordenados(preds[4].clone()), vec![3]);
    assert_eq!(pasos[0], Paso::Inicio { origen: 0 });
}

#[test]
fn escenario_caminos() {
    let g = ejemplo();
    let (_, preds, _) = dijkstra_detallado(&g, 0);
    let a_d = reconstruir_todos_caminos(&preds, 0, 3);
    assert_eq!(a_d, vec![vec![0, 2, 3]]);
    let mut a_b = reconstruir_todos_caminos(&preds, 0, 1);
    a_b.sort();
    assert_eq!(a_b, vec![vec![0, 1], vec![0, 2, 1]]);
    let uno = reconstruir_camino(&preds, 0, 3);
    assert_eq!(uno, vec![0, 2, 3]);
}

#[test]
fn escenario_destino_inalcanzable() {
    let g = ejemplo();
    let (dist, preds, _) = dijkstra_detallado(&g, 1);
    assert_eq!(dist[0], None);
    assert!(reconstruir_todos_caminos(&preds, 1, 0).is_empty());
    assert!(reconstruir_camino(&preds, 1, 0).is_empty());
}

#[test]
fn escenario_peso_no_entero() {
    let nodos = gen_labels(5);
    let r = generar_grafo_dirigido_manual(&nodos, "A B x");
    assert_eq!(r.err(), Some(ErrorLectura { linea: 1, razon: Razon::Peso }));
}

#[test]
fn etiquetas_automaticas() {
    assert_eq!(fill_vector_auto(3), vec!["Nodo1", "Nodo2", "Nodo3"]);
    assert_eq!(fill_vector_auto(12)[11], "Nodo12");
    assert!(fill_vector_auto(0).is_empty());
    assert!(fill_vector_auto(-4).is_empty());
}

#[test]
fn etiquetas_con_letras() {
    let e = gen_labels(16);
    let esperadas: Vec<String> = "ABCDEFGHIJKLMNOP".chars().map(|c| c.to_string()).collect();
    assert_eq!(e, esperadas);
    let e = gen_labels(704);
    assert_eq!(e[25], "Z");
    assert_eq!(e[26], "AA");
    assert_eq!(e[27], "AB");
    assert_eq!(e[51], "AZ");
    assert_eq!(e[52], "BA");
    assert_eq!(e[701], "ZZ");
    assert_eq!(e[702], "AAA");
    let mut unicas = e.clone();
    unicas.sort();
    unicas.dedup();
    assert_eq!(unicas.len(), 704);
    assert!(gen_labels(0).is_empty());
}

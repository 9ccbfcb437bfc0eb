use caminos_minimos::caminos::{contiene, invertido, reconstruir_camino};
use caminos_minimos::recorrido::reconstruir_todos_caminos;
use caminos_minimos::dijkstra::{
    aplicar_dijkstra_y_etiquetar, correr_dijkstra, dijkstra_con_predecesores, dijkstra_detallado, suma_saturada,
};
use caminos_minimos::etiquetas::gen_labels;
use caminos_minimos::grafo::generar_grafo_dirigido_manual;
use caminos_minimos::lectura::{es_blanco, leer_entero, partir_lineas, partir_palabras};
use caminos_minimos::modelo::Grafo;
use caminos_minimos::traza::{describir_paso, describir_traza, Paso};

fn grafo(n: usize, texto: &str) -> Grafo {
    generar_grafo_dirigido_manual(&gen_labels(n), texto).unwrap()
}

fn peso_minimo(g: &Grafo, a: usize, b: usize) -> Option<i32> {
    g.salientes(a).iter().filter(|e| e.1 == b).map(|e| e.2).min()
}

#[test]
fn predecesores_sostienen_las_distancias() {
    let g = grafo(6, "A B 7\nA C 9\nA F 14\nB C 10\nB D 15\nC D 11\nC F 2\nD E 6\nF E 9\nB A 7\nE D 6");
    for origen in 0..6 {
        let (dist, preds, _) = dijkstra_detallado(&g, origen);
        assert_eq!(dist[origen], Some(0));
        for v in 0..6 {
            for &u in &preds[v] {
                assert_eq!(dist[u].unwrap() + peso_minimo(&g, u, v).unwrap(), dist[v].unwrap());
            }
            if dist[v].is_none() {
                assert!(preds[v].is_empty());
            }
        }
    }
    let (dist, _, _) = dijkstra_detallado(&g, 0);
    assert_eq!(dist, vec![Some(0), Some(7), Some(9), Some(20), Some(20), Some(11)]);
}

#[test]
fn caminos_pesan_la_distancia() {
    let g = grafo(7, "A B 1\nA C 1\nB D 1\nC D 1\nD E 1\nD F 1\nE G 1\nF G 1\nA G 4\nA D 3");
    let (dist, preds, _) = dijkstra_detallado(&g, 0);
    let mut caminos = reconstruir_todos_caminos(&preds, 0, 6);
    caminos.sort();
    assert_eq!(
        caminos,
        vec![
            vec![0, 1, 3, 4, 6],
            vec![0, 1, 3, 5, 6],
            vec![0, 2, 3, 4, 6],
            vec![0, 2, 3, 5, 6],
            vec![0, 6],
        ]
    );
    for c in &caminos {
        let mut suma = 0;
        for par in c.windows(2) {
            suma += peso_minimo(&g, par[0], par[1]).unwrap();
        }
        assert_eq!(Some(suma), dist[6]);
        let mut sin_repetir = c.clone();
        sin_repetir.sort();
        sin_repetir.dedup();
        assert_eq!(sin_repetir.len(), c.len());
        assert_eq!((c[0], c[c.len() - 1]), (0, 6));
    }
}

#[test]
fn repetir_da_lo_mismo() {
    let g = grafo(5, "A B 4\nA C 2\nB D 3\nC D 1\nC B 2\nD E 5");
    let primera = correr_dijkstra(&g, 0, 4);
    let segunda = correr_dijkstra(&g, 0, 4);
    assert_eq!(primera.distancias, segunda.distancias);
    assert_eq!(primera.predecesores, segunda.predecesores);
    assert_eq!(primera.caminos, segunda.caminos);
    assert_eq!(primera.pasos, segunda.pasos);
    assert_eq!(primera.caminos, vec![vec![0, 2, 3, 4]]);
}

#[test]
fn origen_igual_a_destino() {
    let g = grafo(3, "A B 1\nB A 1");
    let r = correr_dijkstra(&g, 0, 0);
    assert_eq!(r.caminos, vec![vec![0]]);
    assert_eq!(reconstruir_camino(&r.predecesores, 0, 0), vec![0]);
}

#[test]
fn destino_sin_aristas_entrantes() {
    let g = grafo(4, "A B 1\nB C 1\nD A 1");
    let r = correr_dijkstra(&g, 0, 3);
    assert_eq!(r.distancias, vec![Some(0), Some(1), Some(2), None]);
    assert!(r.caminos.is_empty());
    assert!(r.predecesores[3].is_empty());
}

#[test]
fn aristas_paralelas_cuenta_la_mas_liviana() {
    let g = grafo(3, "A B 5\nA B 3\nA B 3\nB C 1\nA C 4");
    let (dist, preds, _) = dijkstra_detallado(&g, 0);
    assert_eq!(dist, vec![Some(0), Some(3), Some(4)]);
    assert_eq!(preds[1], vec![0]);
    let mut p = preds[2].clone();
    p.sort();
    assert_eq!(p, vec![0, 1]);
}

#[test]
fn distancias_saturan() {
    let g = grafo(4, "A B 2147483647\nB C 1\nC D 2147483647\nA D 2147483646");
    let (dist, preds, _) = dijkstra_detallado(&g, 0);
    assert_eq!(dist, vec![Some(0), Some(2147483647), Some(2147483647), Some(2147483646)]);
    assert_eq!(preds[2], vec![1]);
    assert_eq!(preds[3], vec![0]);
    assert_eq!(reconstruir_todos_caminos(&preds, 0, 2), vec![vec![0, 1, 2]]);
}

#[test]
fn suma_saturada_topa() {
    assert_eq!(suma_saturada(3, 4), 7);
    assert_eq!(suma_saturada(i32::MAX, 1), i32::MAX);
    assert_eq!(suma_saturada(i32::MAX - 1, 1), i32::MAX);
    assert_eq!(suma_saturada(i32::MIN, -1), i32::MIN);
    assert_eq!(suma_saturada(-5, 2), -3);
}

#[test]
fn traza_en_orden() {
    let g = grafo(5, "A B 4\nA C 2\nB D 3\nC D 1\nC B 2\nD E 5");
    let (dist, _, pasos) = dijkstra_detallado(&g, 0);
    assert_eq!(pasos[0], Paso::Inicio { origen: 0 });
    let fijados: Vec<(usize, i32)> = pasos
        .iter()
        .filter_map(|p| match p {
            Paso::Asentado { nodo, distancia } => Some((*nodo, *distancia)),
            _ => None,
        })
        .collect();
    assert_eq!(fijados, vec![(0, 0), (2, 2), (3, 3), (1, 4), (4, 8)]);
    for (nodo, d) in fijados {
        assert_eq!(dist[nodo], Some(d));
    }
    assert!(pasos.contains(&Paso::Empate { desde: 2, hacia: 1, peso: 2, distancia: 4 }));
    assert!(pasos.contains(&Paso::Mejora { desde: 0, hacia: 1, peso: 4, distancia: 4 }));
    assert!(pasos.contains(&Paso::Mejora { desde: 3, hacia: 4, peso: 5, distancia: 8 }));
    assert_eq!(pasos.iter().filter(|p| matches!(p, Paso::Inicio { .. })).count(), 1);
}

#[test]
fn traza_en_texto() {
    let nodos = gen_labels(3);
    assert_eq!(describir_paso(&nodos, &Paso::Inicio { origen: 0 }), "Inicio: A con distancia 0");
    assert_eq!(
        describir_paso(&nodos, &Paso::Asentado { nodo: 2, distancia: 120 }),
        "Se fija C con distancia 120"
    );
    assert_eq!(
        describir_paso(&nodos, &Paso::Mejora { desde: 0, hacia: 1, peso: 4, distancia: 4 }),
        "Mejora: A -> B con peso 4 da distancia 4"
    );
    assert_eq!(
        describir_paso(&nodos, &Paso::Empate { desde: 2, hacia: 7, peso: -3, distancia: 10 }),
        "Empate: C -> 7 con peso -3 iguala la distancia 10"
    );
    let lineas = describir_traza(&nodos, &vec![Paso::Inicio { origen: 1 }], false);
    assert_eq!(
        lineas,
        vec![
            "Inicio: B con distancia 0",
            "Destino no alcanzable desde el origen indicado, intente otro destino."
        ]
    );
    assert_eq!(describir_traza(&nodos, &vec![Paso::Inicio { origen: 1 }], true).len(), 1);
}

#[test]
fn busqueda_por_etiqueta() {
    let g = grafo(5, "A B 4\nA C 2\nB D 3\nC D 1\nC B 2\nD E 5");
    let (dist, preds) = dijkstra_con_predecesores(&g, "C");
    assert_eq!(dist, vec![None, Some(2), Some(0), Some(1), Some(6)]);
    assert_eq!(preds[4], vec![3]);
    let (dist, preds) = dijkstra_con_predecesores(&g, "Q");
    assert!(dist.is_empty() && preds.is_empty());
}

#[test]
fn caminos_sobre_listas_cualesquiera() {
    let ciclo = vec![vec![1], vec![0, 2], vec![1]];
    assert_eq!(reconstruir_todos_caminos(&ciclo, 0, 2), vec![vec![0, 1, 2]]);
    assert!(reconstruir_todos_caminos(&ciclo, 5, 2).is_empty());
    assert!(reconstruir_todos_caminos(&ciclo, 0, 9).is_empty());
    assert_eq!(reconstruir_todos_caminos(&ciclo, 9, 9), vec![vec![9]]);
    let fuera = vec![vec![7], vec![0]];
    assert!(reconstruir_todos_caminos(&fuera, 3, 0).is_empty());
    assert_eq!(reconstruir_todos_caminos(&fuera, 7, 0), vec![vec![7, 0]]);
    assert_eq!(reconstruir_camino(&ciclo, 0, 2), vec![0, 1, 2]);
    assert!(reconstruir_camino(&ciclo, 9, 2).is_empty());
    assert_eq!(reconstruir_camino(&fuera, 7, 1), vec![7, 0, 1]);
}

#[test]
fn utilidades_de_listas() {
    assert_eq!(invertido(&vec![1, 2, 3]), vec![3, 2, 1]);
    assert!(invertido(&vec![]).is_empty());
    assert!(contiene(&vec![4, 5], 5));
    assert!(!contiene(&vec![4, 5], 6));
}

#[test]
fn lectura_de_texto() {
    let t: Vec<char> = "ab\n\ncd e\n".chars().collect();
    let lineas: Vec<String> = partir_lineas(&t).iter().map(|l| l.iter().collect()).collect();
    assert_eq!(lineas, vec!["ab", "", "cd e", ""]);
    let l: Vec<char> = " uno\u{a0}dos\t\ttres ".chars().collect();
    let palabras: Vec<String> = partir_palabras(&l).iter().map(|p| p.iter().collect()).collect();
    assert_eq!(palabras, vec!["uno", "dos", "tres"]);
    for c in ['\u{9}', '\n', '\u{b}', '\u{c}', '\r', ' ', '\u{85}', '\u{a0}', '\u{1680}', '\u{2000}', '\u{200a}', '\u{2028}', '\u{2029}', '\u{202f}', '\u{205f}', '\u{3000}'] {
        assert!(es_blanco(c) && c.is_whitespace());
    }
    for c in ['a', '0', '\u{200b}', '\u{feff}', '_'] {
        assert!(!es_blanco(c) && !c.is_whitespace());
    }
    let entero = |s: &str| leer_entero(&s.chars().collect());
    assert_eq!(entero("0042"), Some(42));
    assert_eq!(entero("-0"), Some(0));
    assert_eq!(entero("-2147483648"), Some(i32::MIN));
    assert_eq!(entero("2147483647"), Some(i32::MAX));
    assert_eq!(entero("2147483648"), None);
    assert_eq!(entero("99999999999999999999999"), None);
    assert_eq!(entero(""), None);
    assert_eq!(entero("+-1"), None);
    assert_eq!(entero(" 1"), None);
    for s in ["12", "-7", "+8", "x", "", "1e3", "٣"] {
        assert_eq!(entero(s), s.parse::<i32>().ok());
    }
}

#[test]
fn etiquetar_con_distancias() {
    let mut g = grafo(5, "A B 4\nA C 2\nB D 3\nC D 1\nC B 2\nD E 5");
    let dist = aplicar_dijkstra_y_etiquetar(&mut g, "C");
    assert_eq!(dist, vec![None, Some(2), Some(0), Some(1), Some(6)]);
    assert_eq!(
        g.lista_etiquetas(),
        vec!["A (d=inf)", "B (d=2)", "C (d=0)", "D (d=1)", "E (d=6)"]
    );
    assert_eq!(g.cantidad_aristas(), 6);
    assert!(g.renombrar(4, "Z".to_string()));
    assert!(!g.renombrar(5, "Y".to_string()));
    assert_eq!(g.etiqueta(4), Some("Z".to_string()));
}

#[test]
fn traza_explica_los_predecesores() {
    let g = grafo(7, "A B 1\nA C 1\nB D 1\nC D 1\nD E 1\nD F 1\nE G 1\nF G 1\nA G 4\nA D 3\nG A 2");
    let (dist, preds, pasos) = dijkstra_detallado(&g, 0);
    for v in 0..7 {
        for &u in &preds[v] {
            let w = peso_minimo(&g, u, v).unwrap();
            let d = dist[v].unwrap();
            assert!(
                pasos.contains(&Paso::Mejora { desde: u, hacia: v, peso: w, distancia: d })
                    || pasos.contains(&Paso::Empate { desde: u, hacia: v, peso: w, distancia: d })
            );
        }
    }
    for p in &pasos {
        if let Paso::Mejora { desde, hacia, peso, distancia } | Paso::Empate { desde, hacia, peso, distancia } = p {
            assert!(g.salientes(*desde).contains(&(*desde, *hacia, *peso)));
            assert_eq!(dist[*desde].unwrap() + peso, *distancia);
            assert!(dist[*hacia].unwrap() <= *distancia);
        }
    }
}

#[test]
fn camino_de_muchos_nodos() {
    let n = 3000;
    let mut preds: Vec<Vec<usize>> = vec![Vec::new()];
    for i in 1..n {
        preds.push(vec![i - 1]);
    }
    let caminos = reconstruir_todos_caminos(&preds, 0, n - 1);
    assert_eq!(caminos, vec![(0..n).collect::<Vec<usize>>()]);
    assert_eq!(reconstruir_camino(&preds, 0, n - 1), (0..n).collect::<Vec<usize>>());
}

#[test]
fn empates_en_cadena_multiplican_los_caminos() {
    let mut texto = String::new();
    let nodos = gen_labels(13);
    for capa in 0..4 {
        let a = &nodos[3 * capa];
        let (b, c, d) = (&nodos[3 * capa + 1], &nodos[3 * capa + 2], &nodos[3 * capa + 3]);
        texto.push_str(&format!("{a} {b} 1\n{a} {c} 1\n{b} {d} 1\n{c} {d} 1\n"));
    }
    let g = generar_grafo_dirigido_manual(&nodos, &texto).unwrap();
    let r = correr_dijkstra(&g, 0, 12);
    assert_eq!(r.distancias[12], Some(8));
    assert_eq!(r.caminos.len(), 16);
    let mut unicos = r.caminos.clone();
    unicos.sort();
    unicos.dedup();
    assert_eq!(unicos.len(), 16);
}

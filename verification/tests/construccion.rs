use caminos_minimos::etiquetas::{escribir_decimal, gen_labels};
use caminos_minimos::grafo::{
    barajar, buscar_etiqueta, construir_grafo, generar_grafo_dirigido, generar_grafo_dirigido_con_prob,
    generar_grafo_dirigido_manual, interpretar_linea, interpretar_palabras, primeras, subgrafo_de_camino,
    validar, ErrorConstruccion, ErrorLectura, Lectura, Modo, Razon,
};
use caminos_minimos::lectura::{cadena_de, caracteres};
use caminos_minimos::traza::escribir_entero;
use caminos_minimos::modelo::Grafo;
use petgraph::visit::EdgeRef;
use rand::rngs::StdRng;
use rand::SeedableRng;

fn aristas(g: &Grafo) -> Vec<(usize, usize, i32)> {
    g.red().edge_references().map(|e| (e.source().index(), e.target().index(), *e.weight())).collect()
}

fn conexo_sin_direccion(g: &Grafo) -> bool {
    let n = g.cantidad_nodos();
    if n == 0 {
        return true;
    }
    let lista = aristas(g);
    let mut visto = vec![false; n];
    let mut pila = vec![0usize];
    visto[0] = true;
    while let Some(u) = pila.pop() {
        for &(a, b, _) in &lista {
            let otro = if a == u {
                Some(b)
            } else if b == u {
                Some(a)
            } else {
                None
            };
            if let Some(v) = otro {
                if !visto[v] {
                    visto[v] = true;
                    pila.push(v);
                }
            }
        }
    }
    visto.iter().all(|&x| x)
}

#[test]
fn manual_lee_aristas_en_orden() {
    let nodos = gen_labels(5);
    let g = generar_grafo_dirigido_manual(&nodos, "A B 4\nA C 2\nB D 3\nC D 1\nC B 2\nD E 5").unwrap();
    assert_eq!(g.cantidad_nodos(), 5);
    assert_eq!(aristas(&g), vec![(0, 1, 4), (0, 2, 2), (1, 3, 3), (2, 3, 1), (2, 1, 2), (3, 4, 5)]);
    assert_eq!(g.etiqueta(2), Some("C".to_string()));
    assert_eq!(g.etiqueta(5), None);
}

#[test]
fn manual_salta_lineas_en_blanco_y_bucles() {
    let nodos = gen_labels(3);
    let g = generar_grafo_dirigido_manual(&nodos, "\n  \t \nA A 3\nA B 1\r\n\nB  \t C   7  \n").unwrap();
    assert_eq!(aristas(&g), vec![(0, 1, 1), (1, 2, 7)]);
}

#[test]
fn manual_pasa_etiquetas_a_mayusculas() {
    let nodos = gen_labels(3);
    let g = generar_grafo_dirigido_manual(&nodos, "a b 2\nc A +9").unwrap();
    assert_eq!(aristas(&g), vec![(0, 1, 2), (2, 0, 9)]);
}

#[test]
fn manual_sube_pesos_a_uno() {
    let nodos = gen_labels(3);
    let g = generar_grafo_dirigido_manual(&nodos, "A B 0\nB C -5\nA C 2147483647\nC A -2147483648").unwrap();
    assert_eq!(aristas(&g), vec![(0, 1, 1), (1, 2, 1), (0, 2, 2147483647), (2, 0, 1)]);
}

#[test]
fn manual_permite_aristas_paralelas() {
    let nodos = gen_labels(2);
    let g = generar_grafo_dirigido_manual(&nodos, "A B 3\nA B 5\nB A 1").unwrap();
    assert_eq!(aristas(&g), vec![(0, 1, 3), (0, 1, 5), (1, 0, 1)]);
}

#[test]
fn manual_falla_por_formato() {
    let nodos = gen_labels(3);
    let r = generar_grafo_dirigido_manual(&nodos, "A B 1\n\nA B");
    assert_eq!(r.err(), Some(ErrorLectura { linea: 3, razon: Razon::Formato }));
    let r = generar_grafo_dirigido_manual(&nodos, "A B 1 2");
    assert_eq!(r.err(), Some(ErrorLectura { linea: 1, razon: Razon::Formato }));
}

#[test]
fn manual_falla_por_peso() {
    let nodos = gen_labels(3);
    for peso in ["x", "1.5", "2147483648", "-2147483649", "+", "-", "3a", "1_000"] {
        let texto = format!("A B 1\nA C {}", peso);
        let r = generar_grafo_dirigido_manual(&nodos, &texto);
        assert_eq!(r.err(), Some(ErrorLectura { linea: 2, razon: Razon::Peso }));
    }
}

#[test]
fn manual_falla_por_etiqueta() {
    let nodos = gen_labels(3);
    let r = generar_grafo_dirigido_manual(&nodos, "A B 1\nB C 1\nA D 1");
    assert_eq!(r.err(), Some(ErrorLectura { linea: 3, razon: Razon::Etiqueta }));
    let r = generar_grafo_dirigido_manual(&nodos, "Z A 1");
    assert_eq!(r.err(), Some(ErrorLectura { linea: 1, razon: Razon::Etiqueta }));
}

#[test]
fn manual_reporta_peso_antes_que_etiqueta() {
    let nodos = gen_labels(3);
    let r = generar_grafo_dirigido_manual(&nodos, "Z Y x");
    assert_eq!(r.err(), Some(ErrorLectura { linea: 1, razon: Razon::Peso }));
}

#[test]
fn manual_texto_vacio() {
    let nodos = gen_labels(4);
    let g = generar_grafo_dirigido_manual(&nodos, "").unwrap();
    assert_eq!(g.cantidad_nodos(), 4);
    assert_eq!(g.cantidad_aristas(), 0);
}

#[test]
fn barajar_da_una_permutacion() {
    let mut rng = StdRng::seed_from_u64(7);
    for n in 0..20 {
        let mut orden = barajar(n, &mut rng);
        orden.sort();
        assert_eq!(orden, (0..n).collect::<Vec<usize>>());
    }
}

#[test]
fn aleatorio_es_conexo_y_sin_paralelas() {
    for semilla in 0..40u64 {
        let mut rng = StdRng::seed_from_u64(semilla);
        let n = 8 + (semilla as usize % 9);
        let nodos = gen_labels(n);
        let g = generar_grafo_dirigido_con_prob(&nodos, (semilla % 5) as u32, 4, &mut rng);
        assert_eq!(g.cantidad_nodos(), n);
        assert!(conexo_sin_direccion(&g));
        let lista = aristas(&g);
        for (i, &(a, b, w)) in lista.iter().enumerate() {
            assert!(a != b);
            assert!((1..=10).contains(&w));
            for &(c, d, _) in &lista[i + 1..] {
                assert!((a, b) != (c, d));
            }
        }
    }
}

#[test]
fn aleatorio_sin_extras_es_una_cadena() {
    for semilla in 0..10u64 {
        let mut rng = StdRng::seed_from_u64(semilla);
        let nodos = gen_labels(12);
        let g = generar_grafo_dirigido_con_prob(&nodos, 0, 1, &mut rng);
        assert_eq!(g.cantidad_aristas(), 11);
        assert!(conexo_sin_direccion(&g));
    }
}

#[test]
fn aleatorio_con_todos_los_extras_es_completo() {
    let mut rng = StdRng::seed_from_u64(3);
    let nodos = gen_labels(9);
    let g = generar_grafo_dirigido_con_prob(&nodos, 5, 5, &mut rng);
    assert_eq!(g.cantidad_aristas(), 9 * 8);
    for a in 0..9 {
        for b in 0..9 {
            assert_eq!(g.peso_entre(a, b).is_some(), a != b);
        }
    }
}

#[test]
fn aleatorio_con_pocos_nodos() {
    let mut rng = StdRng::seed_from_u64(1);
    let g = generar_grafo_dirigido_con_prob(&gen_labels(0), 1, 2, &mut rng);
    assert_eq!((g.cantidad_nodos(), g.cantidad_aristas()), (0, 0));
    let g = generar_grafo_dirigido_con_prob(&gen_labels(1), 1, 1, &mut rng);
    assert_eq!((g.cantidad_nodos(), g.cantidad_aristas()), (1, 0));
    let g = generar_grafo_dirigido_con_prob(&gen_labels(2), 0, 1, &mut rng);
    assert_eq!((g.cantidad_nodos(), g.cantidad_aristas()), (2, 1));
}

#[test]
fn eleccion_despacha() {
    let mut rng = StdRng::seed_from_u64(11);
    let nodos = gen_labels(8);
    let g = generar_grafo_dirigido(&nodos, 1, "", &mut rng).unwrap();
    assert!(conexo_sin_direccion(&g));
    let g = generar_grafo_dirigido(&nodos, 2, "A H 3", &mut rng).unwrap();
    assert_eq!(aristas(&g), vec![(0, 7, 3)]);
    let r = generar_grafo_dirigido(&nodos, 2, "A I 3", &mut rng);
    assert_eq!(r.err(), Some(ErrorLectura { linea: 1, razon: Razon::Etiqueta }));
}

#[test]
fn construir_valida_la_cantidad() {
    let mut rng = StdRng::seed_from_u64(5);
    let etiquetas = gen_labels(16);
    for n in [0usize, 7, 17, 100] {
        let r = construir_grafo(&etiquetas, n, Modo::Aleatorio, 1, 4, "", &mut rng);
        assert_eq!(r.err(), Some(ErrorConstruccion::Cantidad));
    }
    let pocas = gen_labels(9);
    let r = construir_grafo(&pocas, 10, Modo::Manual, 1, 4, "", &mut rng);
    assert_eq!(r.err(), Some(ErrorConstruccion::Cantidad));
    for n in 8..=16usize {
        let g = construir_grafo(&etiquetas, n, Modo::Aleatorio, 1, 4, "", &mut rng).unwrap();
        assert_eq!(g.cantidad_nodos(), n);
        assert!(conexo_sin_direccion(&g));
    }
}

#[test]
fn construir_manual() {
    let mut rng = StdRng::seed_from_u64(5);
    let etiquetas = gen_labels(16);
    let g = construir_grafo(&etiquetas, 8, Modo::Manual, 1, 4, "A B 4\nH A 2", &mut rng).unwrap();
    assert_eq!(aristas(&g), vec![(0, 1, 4), (7, 0, 2)]);
    let r = construir_grafo(&etiquetas, 8, Modo::Manual, 1, 4, "A B 4\nI A 2", &mut rng);
    assert_eq!(
        r.err(),
        Some(ErrorConstruccion::Lectura { error: ErrorLectura { linea: 2, razon: Razon::Etiqueta } })
    );
}

#[test]
fn validar_lee_la_cantidad() {
    assert_eq!(validar("8"), Some(8));
    assert_eq!(validar("  16\n"), Some(16));
    assert_eq!(validar("+12"), Some(12));
    assert_eq!(validar("7"), None);
    assert_eq!(validar("17"), None);
    assert_eq!(validar("-9"), None);
    assert_eq!(validar(""), None);
    assert_eq!(validar("doce"), None);
    assert_eq!(validar("1 2"), None);
}

#[test]
fn subgrafo_guarda_las_aristas_del_camino() {
    let nodos = gen_labels(5);
    let g = generar_grafo_dirigido_manual(&nodos, "A B 4\nA C 2\nB D 3\nC D 1\nC B 2\nD E 5").unwrap();
    let sub = subgrafo_de_camino(&g, &vec![0, 2, 1, 3, 4]);
    assert_eq!(sub.cantidad_nodos(), 5);
    assert_eq!(sub.lista_etiquetas(), nodos);
    assert_eq!(aristas(&sub), vec![(0, 2, 2), (2, 1, 2), (1, 3, 3), (3, 4, 5)]);
    let sub = subgrafo_de_camino(&g, &vec![4, 3, 9, 0, 1]);
    assert_eq!(aristas(&sub), vec![(0, 1, 4)]);
    let sub = subgrafo_de_camino(&g, &vec![2]);
    assert_eq!(sub.cantidad_aristas(), 0);
    let sub = subgrafo_de_camino(&g, &vec![]);
    assert_eq!(sub.cantidad_nodos(), 5);
}

#[test]
fn agregar_arista_rechaza_lo_invalido() {
    let mut g = Grafo::con_nodos(&gen_labels(3));
    assert!(!g.agregar_arista(0, 0, 1));
    assert!(!g.agregar_arista(0, 3, 1));
    assert!(!g.agregar_arista(3, 0, 1));
    assert!(!g.agregar_arista(0, 1, 0));
    assert!(g.agregar_arista(0, 1, 6));
    assert_eq!(aristas(&g), vec![(0, 1, 6)]);
    assert_eq!(g.peso_entre(0, 1), Some(6));
    assert_eq!(g.peso_entre(1, 0), None);
    assert_eq!(g.peso_entre(7, 0), None);
    assert_eq!(g.salientes(0), vec![(0, 1, 6)]);
    assert!(g.salientes(1).is_empty());
}

#[test]
fn los_sorteos_varian() {
    let mut rng = StdRng::seed_from_u64(2024);
    let identidad: Vec<usize> = (0..12).collect();
    let mut distintas = 0;
    for _ in 0..20 {
        if barajar(12, &mut rng) != identidad {
            distintas += 1;
        }
    }
    assert!(distintas >= 15);

    let g = generar_grafo_dirigido_con_prob(&gen_labels(16), 1, 4, &mut rng);
    let lista = aristas(&g);
    assert!(lista.len() > 15 && lista.len() < 16 * 15);
    let mut pesos: Vec<i32> = lista.iter().map(|e| e.2).collect();
    pesos.sort();
    pesos.dedup();
    assert!(pesos.len() >= 5);
    assert!(lista.iter().any(|e| e.0 < e.1) && lista.iter().any(|e| e.0 > e.1));
}

#[test]
fn lectura_por_partes() {
    let nodos = gen_labels(4);
    assert_eq!(primeras(&nodos, 2), vec!["A", "B"]);
    assert!(primeras(&nodos, 0).is_empty());
    assert_eq!(buscar_etiqueta(&nodos, &"C".to_string()), Some(2));
    assert_eq!(buscar_etiqueta(&nodos, &"c".to_string()), None);
    let repetidas = vec!["X".to_string(), "Y".to_string(), "X".to_string()];
    assert_eq!(buscar_etiqueta(&repetidas, &"X".to_string()), Some(0));
    let linea = |s: &str| interpretar_linea(&nodos, &caracteres(s));
    assert_eq!(linea("   "), Lectura::Nada);
    assert_eq!(linea("b b 3"), Lectura::Nada);
    assert_eq!(linea("b d -3"), Lectura::Arista { origen: 1, destino: 3, peso: 1 });
    assert_eq!(linea("b d 40"), Lectura::Arista { origen: 1, destino: 3, peso: 40 });
    assert_eq!(linea("b d"), Lectura::Falla { razon: Razon::Formato });
    assert_eq!(linea("b d tres"), Lectura::Falla { razon: Razon::Peso });
    assert_eq!(linea("b e 3"), Lectura::Falla { razon: Razon::Etiqueta });
    let numero: Vec<char> = "7".chars().collect();
    assert_eq!(
        interpretar_palabras(&nodos, &"a".to_string(), &"B".to_string(), &numero),
        Lectura::Falla { razon: Razon::Etiqueta }
    );
    assert_eq!(
        interpretar_palabras(&nodos, &"A".to_string(), &"B".to_string(), &numero),
        Lectura::Arista { origen: 0, destino: 1, peso: 7 }
    );
    assert_eq!(cadena_de(&vec!['h', 'o', 'l', 'a']), "hola");
    assert_eq!(caracteres("añ\n"), vec!['a', 'ñ', '\n']);
}

#[test]
fn numeros_escritos() {
    let mut s = String::from("x=");
    escribir_decimal(&mut s, 0);
    escribir_decimal(&mut s, 907);
    escribir_decimal(&mut s, u64::MAX);
    assert_eq!(s, "x=090718446744073709551615");
    let mut s = String::new();
    escribir_entero(&mut s, i32::MIN);
    escribir_entero(&mut s, 15);
    assert_eq!(s, "-214748364815");
}

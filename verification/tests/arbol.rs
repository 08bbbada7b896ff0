use aoe2_ml::arbol::{
    camino_valido, clase_mayoritaria, clave_orden, construir_arbol, igual, menor, menor_o_igual, particionar, predecir, quitar_columna,
    todas_de_una_clase, Fila, Nodo,
};
use std::collections::HashMap;

fn fila(c: &[&str], g: &str) -> Fila {
    Fila { caracteristicas: c.iter().map(|s| s.to_string()).collect(), ganador: g.to_string() }
}

fn entropia(filas: &[Fila]) -> f64 {
    let total = filas.len() as f64;
    if total == 0.0 {
        return 0.0;
    }
    let mut conteos = HashMap::new();
    for f in filas {
        *conteos.entry(&f.ganador).or_insert(0) += 1;
    }
    let mut e = 0.0;
    for &c in conteos.values() {
        let p = c as f64 / total;
        e -= p * p.log2();
    }
    e
}

fn ganancia(filas: &[Fila], col: usize) -> u64 {
    let total = entropia(filas);
    let n = filas.len() as f64;
    let mut grupos: HashMap<&String, Vec<Fila>> = HashMap::new();
    for f in filas {
        grupos.entry(&f.caracteristicas[col]).or_insert_with(Vec::new).push(f.clone());
    }
    let mut sub = 0.0;
    for g in grupos.values() {
        sub += g.len() as f64 / n * entropia(g);
    }
    (total - sub + 0.0).to_bits()
}

fn datos() -> Vec<Fila> {
    vec![
        fila(&["1", "x", "p"], "1"),
        fila(&["2", "y", "p"], "0"),
        fila(&["3", "x", "q"], "1"),
        fila(&["4", "y", "q"], "0"),
        fila(&["5", "x", "p"], "1"),
    ]
}

#[test]
fn clase_mayoritaria_de_filas() {
    assert_eq!(clase_mayoritaria(&datos()), "1");
    assert_eq!(clase_mayoritaria(&[]), "0");
    let empate = vec![fila(&["a"], "0"), fila(&["b"], "1")];
    let c = clase_mayoritaria(&empate);
    assert!(c == "0" || c == "1");
}

#[test]
fn una_sola_clase() {
    assert!(todas_de_una_clase(&[]));
    assert!(todas_de_una_clase(&[fila(&["a"], "1"), fila(&["b"], "1")]));
    assert!(!todas_de_una_clase(&datos()));
}

#[test]
fn predecir_sigue_la_rama_o_usa_el_defecto() {
    let arbol = Nodo::Decision {
        col_idx: 0,
        hijos: vec![("a".to_string(), Nodo::Hoja("1".to_string())), ("b".to_string(), Nodo::Hoja("0".to_string()))],
        prediccion_por_defecto: "7".to_string(),
    };
    assert_eq!(predecir(&arbol, &fila(&["a"], "")), "1");
    assert_eq!(predecir(&arbol, &fila(&["b"], "")), "0");
    assert_eq!(predecir(&arbol, &fila(&["c"], "")), "7");
    assert_eq!(predecir(&Nodo::Hoja("5".to_string()), &fila(&["c"], "")), "5");
}

#[test]
fn construir_arbol_elige_la_columna_de_mayor_ganancia() {
    let d = datos();
    let arbol = construir_arbol(&d, vec![1, 2], 5, 0, &ganancia);
    match &arbol {
        Nodo::Decision { col_idx, hijos, prediccion_por_defecto } => {
            assert_eq!(*col_idx, 1);
            assert_eq!(prediccion_por_defecto, "1");
            assert_eq!(hijos.len(), 2);
            assert_eq!(hijos[0].0, "x");
            assert_eq!(hijos[1].0, "y");
            assert!(matches!(&hijos[0].1, Nodo::Hoja(c) if c == "1"));
            assert!(matches!(&hijos[1].1, Nodo::Hoja(c) if c == "0"));
        }
        Nodo::Hoja(_) => panic!("se esperaba un nodo de decision"),
    }
    for f in &d {
        assert_eq!(predecir(&arbol, f), f.ganador);
    }
}

#[test]
fn construir_arbol_en_el_limite_de_profundidad_da_una_hoja() {
    let arbol = construir_arbol(&datos(), vec![1, 2], 0, 0, &ganancia);
    assert!(matches!(arbol, Nodo::Hoja(c) if c == "1"));
}

#[test]
fn construir_arbol_sin_ganancia_da_una_hoja() {
    // la columna 2 no dice nada de la clase: ganancia 0
    let d = vec![fila(&["1", "x", "p"], "1"), fila(&["2", "y", "p"], "0")];
    let arbol = construir_arbol(&d, vec![2], 3, 0, &ganancia);
    assert!(matches!(arbol, Nodo::Hoja(_)));
}

#[test]
fn construir_arbol_con_una_clase_da_una_hoja() {
    let d = vec![fila(&["1", "x"], "0"), fila(&["2", "y"], "0")];
    let arbol = construir_arbol(&d, vec![1], 3, 0, &ganancia);
    assert!(matches!(arbol, Nodo::Hoja(c) if c == "0"));
}

#[test]
fn particionar_por_valor_en_orden_de_aparicion() {
    let d = datos();
    let (valores, grupos) = particionar(&d, 2);
    assert_eq!(valores, vec!["p".to_string(), "q".to_string()]);
    assert_eq!(grupos[0].len(), 3);
    assert_eq!(grupos[1].len(), 2);
    assert_eq!(grupos[1][0].caracteristicas[0], "3");
}

#[test]
fn quitar_columna_conserva_el_orden() {
    assert_eq!(quitar_columna(&vec![3, 1, 4, 1, 5], 1), vec![3, 4, 5]);
    assert_eq!(quitar_columna(&vec![], 1), Vec::<usize>::new());
}

#[test]
fn clave_orden_sigue_el_orden_de_los_f64() {
    let valores = [-1e300, -3.5, -1.0, -1e-300, 0.0, 1e-300, 0.5, 1.0, 3.841, 1e300, f64::INFINITY];
    for a in 0..valores.len() {
        for b in 0..valores.len() {
            let ka = clave_orden(valores[a].to_bits());
            let kb = clave_orden(valores[b].to_bits());
            assert_eq!(ka < kb, valores[a] < valores[b]);
        }
    }
}

#[test]
fn arbol_de_una_clase_predice_esa_clase() {
    let d = vec![fila(&["1", "x", "a"], "1"), fila(&["2", "y", "b"], "1"), fila(&["3", "x", "c"], "1")];
    let arbol = construir_arbol(&d, vec![0, 1, 2], 4, 0, &ganancia);
    for f in [fila(&["9", "z", "q"], "0"), fila(&["1", "x", "a"], "0")] {
        assert_eq!(predecir(&arbol, &f), "1");
    }
}

#[test]
fn comparaciones_como_f64() {
    let valores = [f64::NEG_INFINITY, -1e300, -1.0, -0.0, 0.0, 1e-300, 3.841, f64::INFINITY, f64::NAN, -f64::NAN];
    for &a in &valores {
        for &b in &valores {
            assert_eq!(menor_o_igual(a.to_bits(), b.to_bits()), a <= b);
            assert_eq!(menor(a.to_bits(), b.to_bits()), a < b);
            assert_eq!(igual(a.to_bits(), b.to_bits()), a == b);
        }
    }
    assert_eq!(clave_orden((-0.0f64).to_bits()), clave_orden(0.0f64.to_bits()));
}

#[test]
fn hoja_sin_mirar_columnas() {
    // filas sin la columna 5: en el limite de profundidad no se mira ninguna columna
    let d = vec![fila(&["1"], "0"), fila(&["2"], "1"), fila(&["3"], "1")];
    let arbol = construir_arbol(&d, vec![5], 0, 0, &ganancia);
    assert!(matches!(arbol, Nodo::Hoja(c) if c == "1"));
}

#[test]
fn predecir_solo_mira_su_camino() {
    let arbol = Nodo::Decision {
        col_idx: 0,
        hijos: vec![
            ("a".to_string(), Nodo::Hoja("1".to_string())),
            (
                "b".to_string(),
                Nodo::Decision { col_idx: 7, hijos: vec![], prediccion_por_defecto: "0".to_string() },
            ),
        ],
        prediccion_por_defecto: "0".to_string(),
    };
    assert_eq!(predecir(&arbol, &fila(&["a"], "?")), "1");
    assert_eq!(predecir(&arbol, &fila(&["c"], "?")), "0");
}

#[test]
fn filas_de_entrenamiento_siguen_sus_ramas() {
    // column 1 separates the classes, so each row's branch holds only its class
    let d = datos();
    let arbol = construir_arbol(&d, vec![1, 2], 5, 0, &ganancia);
    match &arbol {
        Nodo::Decision { col_idx, hijos, .. } => {
            assert_eq!(*col_idx, 1);
            for f in &d {
                assert!(hijos.iter().any(|(v, _)| *v == f.caracteristicas[1]));
                assert_eq!(predecir(&arbol, f), f.ganador);
            }
        }
        Nodo::Hoja(_) => panic!("expected a decision node"),
    }
}

fn hijos_unicos(n: &Nodo) -> bool {
    match n {
        Nodo::Hoja(_) => true,
        Nodo::Decision { hijos, .. } => {
            let mut vistos = std::collections::HashSet::new();
            hijos.iter().all(|(v, h)| vistos.insert(v.clone()) && hijos_unicos(h))
        }
    }
}

#[test]
fn arbol_con_un_hijo_por_valor() {
    let d = vec![
        fila(&["1", "x", "p"], "1"),
        fila(&["2", "y", "p"], "0"),
        fila(&["3", "x", "q"], "0"),
        fila(&["4", "y", "q"], "1"),
        fila(&["5", "x", "p"], "1"),
        fila(&["6", "z", "q"], "0"),
    ];
    let arbol = construir_arbol(&d, vec![1, 2], 5, 0, &ganancia);
    assert!(matches!(arbol, Nodo::Decision { .. }));
    assert!(hijos_unicos(&arbol));
}

#[test]
fn camino_valido_solo_mira_el_camino_de_la_fila() {
    let arbol = Nodo::Decision {
        col_idx: 0,
        hijos: vec![
            ("a".to_string(), Nodo::Hoja("1".to_string())),
            ("b".to_string(), Nodo::Decision { col_idx: 7, hijos: vec![], prediccion_por_defecto: "0".to_string() }),
        ],
        prediccion_por_defecto: "0".to_string(),
    };
    assert!(camino_valido(&arbol, &fila(&["a"], "?")));
    assert!(camino_valido(&arbol, &fila(&["c"], "?")));
    assert!(!camino_valido(&arbol, &fila(&["b"], "?")));
    assert!(!camino_valido(&arbol, &fila(&[], "?")));
}

use aoe2_ml::arbol::{Fila, Nodo};
use aoe2_ml::evaluacion::{columnas_utiles, contar_aciertos, dividir_fold, evaluar_fold, limites_fold, separar_fila, todas_las_columnas, valores_de_columna};

fn fila(c: &[&str], g: &str) -> Fila {
    Fila { caracteristicas: c.iter().map(|s| s.to_string()).collect(), ganador: g.to_string() }
}

#[test]
fn limites_de_los_folds() {
    assert_eq!(limites_fold(25, 10, 0), (0, 2));
    assert_eq!(limites_fold(25, 10, 3), (6, 8));
    assert_eq!(limites_fold(25, 10, 9), (18, 25));
    assert_eq!(limites_fold(5, 10, 9), (0, 5));
    assert_eq!(limites_fold(5, 10, 4), (0, 0));
}

#[test]
fn folds_consecutivos_cubren_todo() {
    let n = 37;
    let k = 10;
    let mut anterior = 0;
    for i in 0..k {
        let (a, b) = limites_fold(n, k, i);
        assert_eq!(a, anterior);
        assert!(a <= b);
        anterior = b;
    }
    assert_eq!(anterior, n);
}

#[test]
fn dividir_fold_separa_prueba_y_entrenamiento() {
    let filas: Vec<Fila> = (0..6).map(|i| fila(&[&i.to_string()], "0")).collect();
    let (e, p) = dividir_fold(&filas, 2, 4);
    let ids = |v: &Vec<Fila>| v.iter().map(|f| f.caracteristicas[0].clone()).collect::<Vec<_>>();
    assert_eq!(ids(&e), vec!["0", "1", "4", "5"]);
    assert_eq!(ids(&p), vec!["2", "3"]);
}

#[test]
fn contar_aciertos_de_un_arbol() {
    let arbol = Nodo::Decision {
        col_idx: 0,
        hijos: vec![("a".to_string(), Nodo::Hoja("1".to_string()))],
        prediccion_por_defecto: "0".to_string(),
    };
    let filas = vec![fila(&["a"], "1"), fila(&["a"], "0"), fila(&["b"], "0"), fila(&["c"], "1")];
    assert_eq!(contar_aciertos(&arbol, &filas), 2);
}

#[test]
fn todas_las_columnas_en_orden() {
    assert_eq!(todas_las_columnas(4), vec![0, 1, 2, 3]);
}

#[test]
fn columnas_utiles_descarta_id_constantes_y_cardinalidad_alta() {
    let mut filas = Vec::new();
    for i in 0..30 {
        let id = i.to_string();
        let alta = (i % 25).to_string();
        let par = (i % 2).to_string();
        filas.push(fila(&[&id, "7", &par, &alta], "0"));
    }
    assert_eq!(columnas_utiles(&filas, 4), vec![2]);
    assert_eq!(valores_de_columna(&filas, 2), vec!["0".to_string(), "1".to_string()]);
}

#[test]
fn separar_fila_saca_el_ganador() {
    let campos: Vec<String> = (0..10).map(|i| format!("c{}", i)).collect();
    let f = separar_fila(&campos, 8);
    assert_eq!(f.ganador, "c8");
    assert_eq!(f.caracteristicas, vec!["c0", "c1", "c2", "c3", "c4", "c5", "c6", "c7", "c9"]);
    let corta: Vec<String> = vec!["a".to_string()];
    let g = separar_fila(&corta, 8);
    assert_eq!(g.ganador, "");
    assert_eq!(g.caracteristicas, vec!["a"]);
}

#[test]
fn evaluar_un_fold() {
    let mut filas = Vec::new();
    for i in 0..20 {
        let x = if i % 2 == 0 { "x" } else { "y" };
        let g = if i % 2 == 0 { "1" } else { "0" };
        filas.push(fila(&[&i.to_string(), x], g));
    }
    // ganancia: 1.0 para la columna 1, 0.0 para la 0
    let ganancia = |_f: &[Fila], c: usize| -> u64 { if c == 1 { 1.0f64.to_bits() } else { 0.0f64.to_bits() } };
    let (aciertos, total) = evaluar_fold(&filas, 10, 3, 5, &ganancia);
    assert_eq!(total, 2);
    assert_eq!(aciertos, 2);
}

#[test]
fn evaluar_fold_con_filas_mas_anchas() {
    let mut filas = Vec::new();
    for i in 0..20 {
        let x = if i % 2 == 0 { "x" } else { "y" };
        let g = if i % 2 == 0 { "1" } else { "0" };
        if i % 3 == 0 {
            filas.push(fila(&[&i.to_string(), x, "extra"], g));
        } else {
            filas.push(fila(&[&i.to_string(), x], g));
        }
    }
    let ganancia = |_f: &[Fila], c: usize| -> u64 { if c == 1 { 1.0f64.to_bits() } else { 0.0f64.to_bits() } };
    // fold 0: la primera fila de entrenamiento es la 2, de dos columnas
    let (aciertos, total) = evaluar_fold(&filas, 10, 0, 5, &ganancia);
    assert_eq!(total, 2);
    assert_eq!(aciertos, 2);
}

#[test]
fn columnas_utiles_con_una_columna_no_mira_las_filas() {
    let filas = vec![fila(&["1"], "0"), fila(&[], "1")];
    assert_eq!(columnas_utiles(&filas, 1), Vec::<usize>::new());
    assert_eq!(columnas_utiles(&filas, 0), Vec::<usize>::new());
}

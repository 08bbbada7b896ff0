use aoe2_ml::limpieza::{
    buscar_columna, buscar_columnas, buscar_registro, columnas_no_constantes, columnas_no_ignoradas, contar_acciones,
    es_partida_candidata, indices_de_caracteristicas, pares_de_jugadores, separar_indices,
};

fn v(x: &[&str]) -> Vec<String> {
    x.iter().map(|s| s.to_string()).collect()
}

#[test]
fn buscar_columna_primera_coincidencia() {
    let h = v(&["match_id", "winner", "avg_elo", "winner"]);
    assert_eq!(buscar_columna(&h, &"winner".to_string()), Some(1));
    assert_eq!(buscar_columna(&h, &"map".to_string()), None);
}

#[test]
fn columnas_no_ignoradas_en_orden() {
    let h = v(&["match_id", "avg_elo", "winner", "duration", "p1_civ"]);
    let ign = v(&["winner", "avg_elo", "p1_civ", "p2_civ"]);
    assert_eq!(columnas_no_ignoradas(&h, &ign), vec![0, 3]);
}

#[test]
fn indices_de_caracteristicas_sin_ganador_ni_id() {
    assert_eq!(indices_de_caracteristicas(5, 2, 0), vec![1, 3, 4]);
}

#[test]
fn buscar_registro_se_queda_con_el_ultimo() {
    let ids = v(&["a", "b", "a", "c"]);
    assert_eq!(buscar_registro(&ids, &"a".to_string()), Some(2));
    assert_eq!(buscar_registro(&ids, &"z".to_string()), None);
}

#[test]
fn columnas_no_constantes_descarta_id_y_constantes() {
    let filas = vec![v(&["1", "0", "x", "5"]), v(&["2", "0", "y", "5"]), v(&["3", "0", "x", "5"])];
    assert_eq!(columnas_no_constantes(&filas, 4), vec![2]);
    assert_eq!(columnas_no_constantes(&Vec::new(), 4), Vec::<usize>::new());
}

#[test]
fn separar_indices_fuera_y_dentro() {
    let idx = vec![9, 8, 7, 6, 5];
    assert_eq!(separar_indices(&idx, 1, 3), (vec![9, 6, 5], vec![8, 7]));
    assert_eq!(separar_indices(&idx, 3, 5), (vec![9, 8, 7], vec![6, 5]));
}

#[test]
fn contar_acciones_hasta_el_minuto_veinte() {
    // columnas: player, ts_seconds, type
    let filas = vec![
        v(&["p1", "10", "Queue"]),
        v(&["p2", "20", "Build"]),
        v(&["p1", "abc", "Order"]),
        v(&["p1", "30", "Target"]),
        v(&["p2", "1200", "Queue"]),
        v(&["p3", "1200", "Queue"]),
        v(&["p1"]),
        v(&["p1", "1201", "Queue"]),
        v(&["p1", "5", "Queue"]),
    ];
    let c = contar_acciones(&filas, 1, 2, 0);
    assert_eq!(c.p1_acciones, 4);
    assert_eq!(c.p2_acciones, 2);
    assert_eq!(c.p1_colas, 1);
    assert_eq!(c.p2_colas, 1);
    assert_eq!(c.p1_construcciones, 0);
    assert_eq!(c.p2_construcciones, 1);
    assert_eq!(c.p1_ordenes, 2);
    assert_eq!(c.p2_ordenes, 0);
}

#[test]
fn partida_candidata() {
    let r = v(&["id", "Arabia", "1500"]);
    assert!(es_partida_candidata(&r, 1, 2, true));
    assert!(!es_partida_candidata(&r, 1, 2, false));
    assert!(!es_partida_candidata(&v(&["id", "Arena", "1500"]), 1, 2, true));
    assert!(!es_partida_candidata(&v(&["id", "Arabia", "1199"]), 1, 2, true));
    assert!(!es_partida_candidata(&v(&["id", "Arabia", "x"]), 1, 2, true));
    assert!(!es_partida_candidata(&v(&["id"]), 1, 2, true));
}

#[test]
fn buscar_columnas_conserva_el_orden_de_los_nombres() {
    let h = v(&["match_id", "map", "winner", "time"]);
    let r = buscar_columnas(&h, &v(&["winner", "avg_elo", "time", "map"]));
    assert_eq!(r, vec![(2, "winner".to_string()), (3, "time".to_string()), (1, "map".to_string())]);
}

#[test]
fn pares_de_jugadores_por_sufijo() {
    let h = v(&["match_id", "p1_civ", "p2_civ", "p1_units", "p2_units", "p1_x", "p1_", "p2_"]);
    let r = pares_de_jugadores(&h);
    assert_eq!(r, vec![(3, 4, "diff_units".to_string()), (6, 7, "diff_".to_string())]);
}

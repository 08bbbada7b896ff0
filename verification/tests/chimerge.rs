use aoe2_ml::chimerge::{
    discretizar_por_umbral, ejecutar_chimerge, ejecutar_chimerge_por_umbral, fusionar, inicializar_intervalos, paso_chimerge,
    paso_chimerge_por_umbral, procesar_muestras, puntos_de_corte, transformar_a_rango, ChiPar, DatoDiscretizacion, Intervalo,
};

fn bits(x: f64) -> u64 {
    x.to_bits()
}

fn dato(v: f64, g: &str) -> DatoDiscretizacion {
    DatoDiscretizacion { valor: bits(v), ganador: g.to_string() }
}

fn intervalo(min: f64, max: f64, c0: usize, c1: usize) -> Intervalo {
    let mut conteos = Vec::new();
    if c0 > 0 {
        conteos.push(("0".to_string(), c0));
    }
    if c1 > 0 {
        conteos.push(("1".to_string(), c1));
    }
    Intervalo { min_valor: bits(min), max_valor: bits(max), conteos }
}

fn chi_cuadrado(i1: &Intervalo, i2: &Intervalo) -> f64 {
    let cero = "0".to_string();
    let uno = "1".to_string();
    let o1_0 = i1.conteo_de(&cero) as f64;
    let o1_1 = i1.conteo_de(&uno) as f64;
    let o2_0 = i2.conteo_de(&cero) as f64;
    let o2_1 = i2.conteo_de(&uno) as f64;
    let t1 = o1_0 + o1_1;
    let t2 = o2_0 + o2_1;
    let t = t1 + t2;
    if t == 0.0 {
        return 0.0;
    }
    let c0 = o1_0 + o2_0;
    let c1 = o1_1 + o2_1;
    let mut chi = 0.0;
    let e = t1 * c0 / t;
    if e > 0.0 {
        chi += (o1_0 - e).powi(2) / e;
    }
    let e = t1 * c1 / t;
    if e > 0.0 {
        chi += (o1_1 - e).powi(2) / e;
    }
    let e = t2 * c0 / t;
    if e > 0.0 {
        chi += (o2_0 - e).powi(2) / e;
    }
    let e = t2 * c1 / t;
    if e > 0.0 {
        chi += (o2_1 - e).powi(2) / e;
    }
    chi
}

fn chi(a: &Intervalo, b: &Intervalo, penalizar: bool) -> u64 {
    let c = chi_cuadrado(a, b);
    bits(if penalizar { c + 1_000_000.0 } else { c })
}

fn rango(iv: &Intervalo) -> (f64, f64, usize, usize) {
    (
        f64::from_bits(iv.min_valor),
        f64::from_bits(iv.max_valor),
        iv.conteo_de(&"0".to_string()),
        iv.conteo_de(&"1".to_string()),
    )
}

#[test]
fn inicializar_agrupa_valores_iguales() {
    let m = vec![dato(1.0, "0"), dato(1.0, "1"), dato(1.0, "1"), dato(2.5, "0"), dato(3.0, "1")];
    let iv = inicializar_intervalos(&m);
    assert_eq!(iv.len(), 3);
    assert_eq!(rango(&iv[0]), (1.0, 1.0, 1, 2));
    assert_eq!(rango(&iv[1]), (2.5, 2.5, 1, 0));
    assert_eq!(rango(&iv[2]), (3.0, 3.0, 0, 1));
    assert_eq!(iv[0].total(), 3);
    assert!(inicializar_intervalos(&[]).is_empty());
}

#[test]
fn fusionar_suma_los_conteos() {
    let mut iv = vec![intervalo(1.0, 1.0, 2, 1), intervalo(2.0, 3.0, 1, 4), intervalo(5.0, 5.0, 1, 1)];
    fusionar(&mut iv, 0);
    assert_eq!(iv.len(), 2);
    assert_eq!(rango(&iv[0]), (1.0, 3.0, 3, 5));
    assert_eq!(rango(&iv[1]), (5.0, 5.0, 1, 1));
}

fn pares(iv: &Vec<Intervalo>) -> Vec<ChiPar> {
    let mut r = Vec::new();
    for p in 0..iv.len().saturating_sub(1) {
        r.push(ChiPar {
            directo: chi(&iv[p], &iv[p + 1], false),
            inverso: chi(&iv[p + 1], &iv[p], false),
            directo_penalizado: chi(&iv[p], &iv[p + 1], true),
            inverso_penalizado: chi(&iv[p + 1], &iv[p], true),
        });
    }
    r
}

#[test]
fn paso_por_umbral_une_el_par_mas_parecido() {
    // los dos primeros son iguales en proporcion (chi 0), el tercero distinto
    let mut iv = vec![intervalo(1.0, 1.0, 5, 5), intervalo(2.0, 2.0, 5, 5), intervalo(3.0, 3.0, 10, 0)];
    let p = pares(&iv);
    assert!(paso_chimerge_por_umbral(&mut iv, &p, bits(3.841)));
    assert_eq!(iv.len(), 2);
    assert_eq!(rango(&iv[0]), (1.0, 2.0, 10, 10));
    // ahora el chi entre los dos que quedan supera el umbral
    let p = pares(&iv);
    assert!(!paso_chimerge_por_umbral(&mut iv, &p, bits(3.841)));
    assert_eq!(iv.len(), 2);
}

#[test]
fn paso_con_limites_fuerza_la_union_de_un_intervalo_pequeno() {
    // el segundo intervalo tiene menos de 5 partidas: se une con su vecino
    let mut iv = vec![intervalo(1.0, 1.0, 10, 0), intervalo(2.0, 2.0, 1, 1), intervalo(3.0, 3.0, 0, 10)];
    let p = pares(&iv);
    assert!(paso_chimerge(&mut iv, &p, bits(3.841), 5, 1000));
    assert_eq!(iv.len(), 2);
}

#[test]
fn paso_con_limites_se_detiene_con_pocos_intervalos_distintos() {
    let mut iv = vec![intervalo(1.0, 1.0, 10, 0), intervalo(2.0, 2.0, 0, 10)];
    let p = pares(&iv);
    assert!(!paso_chimerge(&mut iv, &p, bits(3.841), 5, 1000));
    assert_eq!(iv.len(), 2);
}

#[test]
fn paso_con_limites_no_une_lo_que_supera_el_maximo() {
    let mut iv = vec![intervalo(1.0, 1.0, 5, 5), intervalo(2.0, 2.0, 5, 5)];
    let p = pares(&iv);
    assert!(!paso_chimerge(&mut iv, &p, bits(3.841), 1, 15));
    assert!(paso_chimerge(&mut iv, &p, bits(3.841), 1, 20));
    assert_eq!(iv.len(), 1);
}

#[test]
fn ejecutar_chimerge_conserva_las_muestras() {
    let mut iv = Vec::new();
    for i in 0..12 {
        let c0 = if i < 6 { 9 } else { 1 };
        iv.push(intervalo(i as f64, i as f64, c0, 10 - c0));
    }
    let r = ejecutar_chimerge(iv, bits(3.841), 5, 100, &chi);
    let total: usize = r.iter().map(|x| x.total()).sum();
    assert_eq!(total, 120);
    assert!(r.len() <= 6);
    assert_eq!(f64::from_bits(r[0].min_valor), 0.0);
    assert_eq!(f64::from_bits(r[r.len() - 1].max_valor), 11.0);
    for j in 1..r.len() {
        assert!(f64::from_bits(r[j - 1].max_valor) < f64::from_bits(r[j].min_valor));
    }
}

#[test]
fn ejecutar_chimerge_por_umbral_separa_dos_grupos() {
    let mut iv = Vec::new();
    for i in 0..8 {
        let c0 = if i < 4 { 10 } else { 0 };
        iv.push(intervalo(i as f64, i as f64, c0, 10 - c0));
    }
    let r = ejecutar_chimerge_por_umbral(iv, bits(3.841), &chi);
    assert_eq!(r.len(), 2);
    assert_eq!(rango(&r[0]), (0.0, 3.0, 40, 0));
    assert_eq!(rango(&r[1]), (4.0, 7.0, 0, 40));
}

#[test]
fn procesar_muestras_da_cortes_crecientes() {
    let mut m = Vec::new();
    for i in 0..400 {
        let v = (i % 40) as f64;
        let g = if v < 20.0 { "0" } else { "1" };
        m.push(dato(v, g));
    }
    let (cortes, finales) = procesar_muestras(m, bits(3.841), 50, 50000, &chi).unwrap();
    assert_eq!(cortes.len() + 1, finales.len());
    assert_eq!(cortes, puntos_de_corte(&finales));
    for j in 1..cortes.len() {
        assert!(f64::from_bits(cortes[j - 1]) < f64::from_bits(cortes[j]));
    }
    assert!(cortes.iter().any(|&c| f64::from_bits(c) == 19.0));
    assert!(procesar_muestras(Vec::new(), bits(3.841), 50, 50000, &chi).is_none());
}

#[test]
fn discretizar_por_umbral_ordena_y_une() {
    let m = vec![dato(3.0, "1"), dato(1.0, "0"), dato(2.0, "0"), dato(4.0, "1")];
    let r = discretizar_por_umbral(m, bits(3.841), &chi);
    let total: usize = r.iter().map(|x| x.total()).sum();
    assert_eq!(total, 4);
    assert_eq!(f64::from_bits(r[0].min_valor), 1.0);
}

#[test]
fn transformar_a_rango_primer_corte_no_superado() {
    let cortes = vec![bits(1.5), bits(3.0), bits(10.0)];
    assert_eq!(transformar_a_rango(bits(-2.0), &cortes), 0);
    assert_eq!(transformar_a_rango(bits(1.5), &cortes), 0);
    assert_eq!(transformar_a_rango(bits(2.0), &cortes), 1);
    assert_eq!(transformar_a_rango(bits(3.0), &cortes), 1);
    assert_eq!(transformar_a_rango(bits(9.0), &cortes), 2);
    assert_eq!(transformar_a_rango(bits(11.0), &cortes), 3);
    assert_eq!(transformar_a_rango(bits(11.0), &[]), 0);
}

#[test]
fn puntos_de_corte_son_los_maximos_salvo_el_ultimo() {
    let iv = vec![intervalo(1.0, 2.0, 1, 1), intervalo(3.0, 4.0, 1, 1), intervalo(5.0, 6.0, 1, 1)];
    assert_eq!(puntos_de_corte(&iv), vec![bits(2.0), bits(4.0)]);
    assert_eq!(puntos_de_corte(&Vec::new()), Vec::<u64>::new());
}

#[test]
fn rango_sigue_el_orden_de_los_valores() {
    let cortes = vec![bits(-1.0), bits(0.0), bits(2.5), bits(7.0)];
    let valores = [-3.0, -1.0, -0.5, 0.0, 1.0, 2.5, 6.9, 7.0, 8.0, 100.0];
    for w in valores.windows(2) {
        assert!(transformar_a_rango(bits(w[0]), &cortes) <= transformar_a_rango(bits(w[1]), &cortes));
    }
    assert_eq!(transformar_a_rango(bits(-0.0), &cortes), 1);
}

#[test]
fn discretizar_por_umbral_no_pierde_muestras() {
    let mut m = Vec::new();
    for i in 0..30 {
        let v = (i % 6) as f64 * 0.5;
        m.push(dato(v, if i % 3 == 0 { "1" } else { "0" }));
    }
    let r = discretizar_por_umbral(m, bits(3.841), &chi);
    let total: usize = r.iter().map(|x| x.total()).sum();
    assert_eq!(total, 30);
    let unos: usize = r.iter().map(|x| x.conteo_de(&"1".to_string())).sum();
    assert_eq!(unos, 10);
}

#[test]
fn cada_intervalo_final_da_su_rango() {
    let mut m = Vec::new();
    for i in 0..300 {
        let v = (i % 30) as f64 - 10.0;
        let g = if v < 0.0 { "0" } else if v < 10.0 { "1" } else { "0" };
        m.push(dato(v, g));
    }
    let (cortes, finales) = procesar_muestras(m, bits(3.841), 20, 50000, &chi).unwrap();
    assert!(finales.len() >= 2);
    for (j, iv) in finales.iter().enumerate() {
        assert_eq!(transformar_a_rango(iv.min_valor, &cortes), j);
        assert_eq!(transformar_a_rango(iv.max_valor, &cortes), j);
    }
}

fn mapa(iv: &Intervalo) -> std::collections::HashMap<String, usize> {
    let mut m = std::collections::HashMap::new();
    for (c, k) in &iv.conteos {
        assert!(*k > 0);
        assert!(m.insert(c.clone(), *k).is_none());
    }
    m
}

fn hm(v: &[(&str, usize)]) -> std::collections::HashMap<String, usize> {
    v.iter().map(|(c, k)| (c.to_string(), *k)).collect()
}

#[test]
fn cero_negativo_y_cero_son_el_mismo_valor() {
    assert_eq!(transformar_a_rango(bits(0.0), &[bits(-0.0)]), 0);
    assert_eq!(transformar_a_rango(bits(-0.0), &[bits(0.0)]), 0);
    assert_eq!(transformar_a_rango(bits(1e-300), &[bits(-0.0)]), 1);
    let iv = inicializar_intervalos(&[dato(-0.0, "0"), dato(0.0, "1"), dato(0.0, "0")]);
    assert_eq!(iv.len(), 1);
    assert_eq!(iv[0].min_valor, bits(-0.0));
    assert_eq!(iv[0].max_valor, bits(-0.0));
    assert_eq!(mapa(&iv[0]), hm(&[("0", 2), ("1", 1)]));
}

#[test]
fn nan_nunca_es_menor_o_igual() {
    let cortes = vec![bits(1.0), bits(f64::INFINITY)];
    assert_eq!(transformar_a_rango(bits(f64::NAN), &cortes), 2);
    assert_eq!(transformar_a_rango(bits(-f64::NAN), &cortes), 2);
    assert_eq!(transformar_a_rango(bits(0.5), &[bits(f64::NAN), bits(1.0)]), 1);
}

#[test]
fn una_sola_muestra_nan_se_acepta() {
    let (cortes, finales) = procesar_muestras(vec![dato(f64::NAN, "1")], bits(3.841), 10, 100, &chi).unwrap();
    assert!(cortes.is_empty());
    assert_eq!(finales.len(), 1);
}

#[test]
fn intervalos_iniciales_de_tres_muestras() {
    let iv = inicializar_intervalos(&[dato(1.0, "0"), dato(1.0, "1"), dato(2.0, "1")]);
    assert_eq!(iv.len(), 2);
    assert_eq!((iv[0].min_valor, iv[0].max_valor), (bits(1.0), bits(1.0)));
    assert_eq!(mapa(&iv[0]), hm(&[("0", 1), ("1", 1)]));
    assert_eq!((iv[1].min_valor, iv[1].max_valor), (bits(2.0), bits(2.0)));
    assert_eq!(mapa(&iv[1]), hm(&[("1", 1)]));
}

#[test]
fn siete_intervalos_fuerzan_una_fusion() {
    let mut iv = Vec::new();
    for i in 0..7 {
        let (c0, c1) = if i % 2 == 0 { (10, 0) } else { (0, 10) };
        iv.push(intervalo((i + 1) as f64, (i + 1) as f64, c0, c1));
    }
    let r = ejecutar_chimerge(iv, bits(3.841), 0, 1000, &chi);
    assert_eq!(r.len(), 6);
    assert_eq!((r[0].min_valor, r[0].max_valor), (bits(1.0), bits(2.0)));
    assert_eq!(mapa(&r[0]), hm(&[("0", 10), ("1", 10)]));
    for j in 1..6 {
        let v = (j + 2) as f64;
        assert_eq!((r[j].min_valor, r[j].max_valor), (bits(v), bits(v)));
        let esperado = if j % 2 == 1 { hm(&[("0", 10)]) } else { hm(&[("1", 10)]) };
        assert_eq!(mapa(&r[j]), esperado);
    }
}

#[test]
fn menos_de_dos_intervalos_vuelven_igual() {
    let r = ejecutar_chimerge(vec![intervalo(1.0, 2.0, 3, 4)], bits(3.841), 100, 1000, &chi);
    assert_eq!(r.len(), 1);
    assert_eq!((r[0].min_valor, r[0].max_valor), (bits(1.0), bits(2.0)));
    assert_eq!(r[0].conteos, vec![("0".to_string(), 3), ("1".to_string(), 4)]);
    assert!(ejecutar_chimerge_por_umbral(Vec::new(), bits(3.841), &chi).is_empty());
}

#[test]
fn orden_estable_decide_el_limite_entre_ceros() {
    let m = vec![dato(1.0, "0"), dato(-0.0, "0"), dato(0.0, "1")];
    let r = discretizar_por_umbral(m, bits(100.0), &chi);
    assert_eq!(r[0].min_valor, bits(-0.0));
    let m = vec![dato(0.0, "1"), dato(1.0, "0"), dato(-0.0, "0")];
    let r = discretizar_por_umbral(m, bits(100.0), &chi);
    assert_eq!(r[0].min_valor, bits(0.0));
}

use aoe2_ml::arbol::Fila;
use aoe2_ml::azar::{elegir_companero, mezclar_y_partir, permutacion_aleatoria};

#[test]
fn permutacion_de_todos_los_indices() {
    let mut rng = rand::thread_rng();
    let mut p = permutacion_aleatoria(50, &mut rng);
    assert_eq!(p.len(), 50);
    p.sort();
    assert_eq!(p, (0..50).collect::<Vec<usize>>());
    assert!(permutacion_aleatoria(0, &mut rng).is_empty());
}

#[test]
fn mezclar_y_partir_conserva_las_filas() {
    let mut rng = rand::thread_rng();
    let filas: Vec<Fila> = (0..10).map(|i| Fila { caracteristicas: vec![i.to_string()], ganador: "0".to_string() }).collect();
    let (a, b) = mezclar_y_partir(filas, 7, &mut rng);
    assert_eq!(a.len(), 7);
    assert_eq!(b.len(), 3);
    let mut ids: Vec<usize> = a.iter().chain(b.iter()).map(|f| f.caracteristicas[0].parse().unwrap()).collect();
    ids.sort();
    assert_eq!(ids, (0..10).collect::<Vec<usize>>());
}

#[test]
fn companero_distinto_y_en_rango() {
    let mut rng = rand::thread_rng();
    let mut visto = vec![false; 4];
    for _ in 0..400 {
        let k = elegir_companero(&mut rng, 4, 2);
        assert!(k < 4);
        assert_ne!(k, 2);
        visto[k] = true;
    }
    assert!(visto[0] && visto[1] && visto[3]);
    for _ in 0..20 {
        assert_eq!(elegir_companero(&mut rng, 2, 0), 1);
    }
}

#[test]
fn permutacion_mezcla_los_indices() {
    let mut rng = rand::thread_rng();
    let p = permutacion_aleatoria(50, &mut rng);
    assert_ne!(p, (0..50).collect::<Vec<usize>>());
}

use aoe2_ml::union_find::UnionFind;
use aoe2_ml::clustering::tamanos_de_clusters;

#[test]
fn nuevo_cada_elemento_es_su_propio_representante() {
    let mut uf = UnionFind::new(5);
    assert_eq!(uf.len(), 5);
    for i in 0..5 {
        assert_eq!(uf.find(i), i);
    }
}

#[test]
fn union_junta_las_dos_clases() {
    let mut uf = UnionFind::new(4);
    uf.union(0, 1);
    assert_eq!(uf.find(0), uf.find(1));
    assert_ne!(uf.find(0), uf.find(2));
    assert_ne!(uf.find(2), uf.find(3));
}

#[test]
fn union_con_empate_cuelga_la_clase_de_j() {
    let mut uf = UnionFind::new(3);
    uf.union(0, 1);
    assert_eq!(uf.find(1), 0);
    assert_eq!(uf.find(0), 0);
}

#[test]
fn union_por_tamano_cuelga_la_clase_menor() {
    let mut uf = UnionFind::new(4);
    uf.union(0, 1);
    // la clase de 2 (tamano 1) queda bajo la de 0 (tamano 2)
    uf.union(2, 0);
    assert_eq!(uf.find(2), 0);
    uf.union(3, 2);
    assert_eq!(uf.find(3), 0);
}

#[test]
fn union_de_la_misma_clase_no_cambia_nada() {
    let mut uf = UnionFind::new(3);
    uf.union(1, 2);
    let r = uf.find(2);
    uf.union(2, 1);
    assert_eq!(uf.find(1), r);
    assert_eq!(uf.find(2), r);
    assert_eq!(uf.find(0), 0);
}

#[test]
fn union_solo_junta_dos_clases() {
    let mut uf = UnionFind::new(6);
    uf.union(0, 1);
    uf.union(2, 3);
    uf.union(1, 3);
    assert_eq!(uf.find(0), uf.find(2));
    assert_eq!(uf.find(1), uf.find(3));
    assert_ne!(uf.find(4), uf.find(0));
    assert_ne!(uf.find(4), uf.find(5));
}

#[test]
fn compresion_de_caminos_mantiene_representantes() {
    let mut uf = UnionFind::new(8);
    for i in 1..8 {
        uf.union(0, i);
    }
    let r = uf.find(7);
    for i in 0..8 {
        assert_eq!(uf.find(i), r);
    }
}

#[test]
fn tamanos_de_clusters_ordenados_de_mayor_a_menor() {
    let mut uf = UnionFind::new(6);
    uf.union(3, 4);
    uf.union(0, 1);
    uf.union(0, 2);
    let c = tamanos_de_clusters(&mut uf);
    assert_eq!(c, vec![(0, 3), (3, 2), (5, 1)]);
}

#[test]
fn tamanos_de_clusters_vacio() {
    let mut uf = UnionFind::new(0);
    assert_eq!(tamanos_de_clusters(&mut uf), Vec::<(usize, usize)>::new());
}

#[test]
fn tamanos_de_clusters_el_mayor_primero_aunque_su_raiz_sea_alta() {
    let mut uf = UnionFind::new(5);
    uf.union(3, 4);
    uf.union(3, 2);
    let c = tamanos_de_clusters(&mut uf);
    assert_eq!(c[0], (3, 3));
    let mut resto = c[1..].to_vec();
    resto.sort();
    assert_eq!(resto, vec![(0, 1), (1, 1)]);
}

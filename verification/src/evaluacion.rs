use vstd::prelude::*;
use crate::arbol::{
    Fila, FilaV, textos, valores_distintos, buscar_texto, Nodo, construido, construir_arbol, es_hoja_directa,
    lema_ruta_valida, lema_usa_columnas_rango, ley_arbol_columnas_y_profundidad, predecir, prediccion, ruta_valida,
};

verus! {

/// First position of fold `i` when `n` items are cut into `k` folds.
pub open spec fn inicio_fold(n: nat, k: nat, i: nat) -> nat {
    i * (n / k)
}

/// End (exclusive) of fold `i`: the last fold also takes what the division leaves over.
pub open spec fn fin_fold(n: nat, k: nat, i: nat) -> nat {
    if i + 1 == k {
        n
    } else {
        (i + 1) * (n / k)
    }
}

/// Bounds of fold `i` of `k` over `n` items: each fold has `n / k` items and the
/// last one also takes the remainder.
pub fn limites_fold(n: usize, k: usize, i: usize) -> (r: (usize, usize))
    requires
        0 < k,
        i < k,
    ensures
        r.0 == inicio_fold(n as nat, k as nat, i as nat),
        r.1 == fin_fold(n as nat, k as nat, i as nat),
        r.0 <= r.1 <= n,
{
    let tamano = n / k;
    proof {
        lema_fold_acotado(n as nat, k as nat, i as nat);
    }
    let inicio = i * tamano;
    let fin = if i == k - 1 { n } else { (i + 1) * tamano };
    (inicio, fin)
}

proof fn lema_fold_acotado(n: nat, k: nat, i: nat)
    requires
        0 < k,
        i < k,
    ensures
        inicio_fold(n, k, i) <= fin_fold(n, k, i) <= n,
        (i + 1) * (n / k) <= n,
{
    let t = n / k;
    assert(t * k <= n) by (nonlinear_arith)
        requires
            t == n / k,
            k > 0,
    ;
    assert((i + 1) * t <= k * t) by (nonlinear_arith)
        requires
            i + 1 <= k,
    ;
    assert(i * t <= (i + 1) * t) by (nonlinear_arith);
}

/// The `k` folds cover `0..n` one after the other: the first starts at 0, each one
/// starts where the one before it ends, the last ends at `n`, and none runs backwards.
pub proof fn ley_folds_consecutivos(n: nat, k: nat, i: nat)
    requires
        0 < k,
        i < k,
    ensures
        inicio_fold(n, k, 0) == 0,
        fin_fold(n, k, (k - 1) as nat) == n,
        inicio_fold(n, k, i) <= fin_fold(n, k, i) <= n,
        i + 1 < k ==> fin_fold(n, k, i) == inicio_fold(n, k, i + 1),
{
    lema_fold_acotado(n, k, i);
}

/// The rows outside `inicio..fin` (for training) and those inside it (for testing),
/// each in their order.
pub fn dividir_fold(filas: &[Fila], inicio: usize, fin: usize) -> (r: (Vec<Fila>, Vec<Fila>))
    requires
        inicio <= fin <= filas@.len(),
    ensures
        r.0.deep_view() == filas.deep_view().subrange(0, inicio as int) + filas.deep_view().subrange(
            fin as int,
            filas@.len() as int,
        ),
        r.1.deep_view() == filas.deep_view().subrange(inicio as int, fin as int),
{
    let ghost s = filas.deep_view();
    let mut entrenamiento: Vec<Fila> = Vec::new();
    let mut prueba: Vec<Fila> = Vec::new();
    let mut idx: usize = 0;
    while idx < filas.len()
        invariant
            idx <= filas@.len(),
            inicio <= fin <= filas@.len(),
            s == filas.deep_view(),
            prueba.deep_view() == s.subrange(
                if idx < inicio { idx as int } else { inicio as int },
                if idx < inicio { idx as int } else if idx < fin { idx as int } else { fin as int },
            ),
            entrenamiento.deep_view() == if idx <= inicio {
                s.subrange(0, idx as int)
            } else if idx <= fin {
                s.subrange(0, inicio as int)
            } else {
                s.subrange(0, inicio as int) + s.subrange(fin as int, idx as int)
            },
        decreases filas@.len() - idx,
    {
        let fila = filas[idx].copia();
        proof {
            assert(fila.deep_view() == s[idx as int]);
        }
        let ghost p0 = prueba.deep_view();
        let ghost e0 = entrenamiento.deep_view();
        if idx >= inicio && idx < fin {
            prueba.push(fila);
            proof {
                assert(prueba.deep_view() =~= p0.push(s[idx as int]));
                assert(prueba.deep_view() =~= s.subrange(inicio as int, idx + 1));
            }
        } else {
            entrenamiento.push(fila);
            proof {
                assert(entrenamiento.deep_view() =~= e0.push(s[idx as int]));
                if idx < inicio {
                    assert(entrenamiento.deep_view() =~= s.subrange(0, idx + 1));
                } else {
                    assert(entrenamiento.deep_view() =~= s.subrange(0, inicio as int) + s.subrange(
                        fin as int,
                        idx + 1,
                    ));
                }
            }
        }
        idx = idx + 1;
        proof {
            if idx <= inicio {
                assert(prueba.deep_view() =~= s.subrange(idx as int, idx as int));
            }
            if inicio < idx && idx <= fin {
                assert(entrenamiento.deep_view() =~= s.subrange(0, inicio as int));
            }
            if idx == fin + 1 && idx > inicio {
                assert(entrenamiento.deep_view() =~= s.subrange(0, inicio as int) + s.subrange(
                    fin as int,
                    idx as int,
                ));
            }
        }
    }
    proof {
        if filas@.len() == fin {
            assert(s.subrange(fin as int, fin as int) =~= Seq::<FilaV>::empty());
            assert(entrenamiento.deep_view() =~= s.subrange(0, inicio as int) + s.subrange(
                fin as int,
                filas@.len() as int,
            ));
        }
    }
    (entrenamiento, prueba)
}

/// Number of rows of `s` whose class the tree `n` predicts.
pub open spec fn aciertos(n: Nodo, s: Seq<FilaV>) -> nat
    decreases s.len(),
{
    if s.len() == 0 {
        0
    } else {
        aciertos(n, s.drop_last()) + if prediccion(n, s.last().0) == s.last().1 {
            1nat
        } else {
            0nat
        }
    }
}

/// Number of rows whose class the tree predicts.
pub fn contar_aciertos(arbol: &Nodo, filas: &[Fila]) -> (r: usize)
    requires
        forall|k: int| 0 <= k < filas@.len() ==> ruta_valida(*arbol, #[trigger] filas.deep_view()[k].0),
    ensures
        r == aciertos(*arbol, filas.deep_view()),
{
    let ghost s = filas.deep_view();
    let mut cuenta: usize = 0;
    let mut i: usize = 0;
    while i < filas.len()
        invariant
            i <= filas@.len(),
            s == filas.deep_view(),
            forall|k: int| 0 <= k < filas@.len() ==> ruta_valida(*arbol, #[trigger] s[k].0),
            cuenta == aciertos(*arbol, s.take(i as int)),
            cuenta <= i,
        decreases filas@.len() - i,
    {
        proof {
            assert(s[i as int] == filas@[i as int].deep_view());
            assert(s[i as int].0 == filas@[i as int].caracteristicas.deep_view());
        }
        let prediccion = predecir(arbol, &filas[i]);
        proof {
            assert(s.take(i + 1).drop_last() =~= s.take(i as int));
            assert(s[i as int] == filas@[i as int].deep_view());
        }
        if prediccion == filas[i].ganador {
            cuenta = cuenta + 1;
        }
        i = i + 1;
    }
    proof {
        assert(s.take(filas@.len() as int) =~= s);
    }
    cuenta
}

/// The columns `0..m`, in order.
pub open spec fn columnas_hasta(m: nat) -> Seq<usize> {
    Seq::new(m, |c: int| c as usize)
}

/// The columns `0..m`.
pub fn todas_las_columnas(m: usize) -> (r: Vec<usize>)
    ensures
        r@ == columnas_hasta(m as nat),
{
    let mut r: Vec<usize> = Vec::new();
    let mut c: usize = 0;
    while c < m
        invariant
            c <= m,
            r@ == Seq::new(c as nat, |x: int| x as usize),
        decreases m - c,
    {
        r.push(c);
        c = c + 1;
        proof {
            assert(r@ =~= Seq::new(c as nat, |x: int| x as usize));
        }
    }
    r
}

/// The rows of `s` outside fold `i` of `k`, in order: those a tree is built from.
pub open spec fn entrenamiento_de(s: Seq<FilaV>, k: nat, i: nat) -> Seq<FilaV> {
    s.subrange(0, inicio_fold(s.len(), k, i) as int) + s.subrange(fin_fold(s.len(), k, i) as int, s.len() as int)
}

/// The rows of `s` in fold `i` of `k`, in order: those the tree is tried on.
pub open spec fn prueba_de(s: Seq<FilaV>, k: nat, i: nat) -> Seq<FilaV> {
    s.subrange(inicio_fold(s.len(), k, i) as int, fin_fold(s.len(), k, i) as int)
}

/// Fold `i` of a `k`-fold cross validation: a tree is built from the rows outside
/// the fold, over the columns `0..m` where `m` is the number of features of the
/// first of those rows, from depth 0 with the depth limit `max_profundidad`, and
/// tried on the rows of the fold. Gives the number of rows of the fold whose class
/// the tree predicts, and the number of rows of the fold. The rows must have the
/// columns `0..m` unless the tree is a leaf from the start.
pub fn evaluar_fold<G: Fn(&[Fila], usize) -> u64>(
    filas: &[Fila],
    k: usize,
    i: usize,
    max_profundidad: usize,
    ganancia: &G,
) -> (r: (usize, usize))
    requires
        0 < k,
        i < k,
        entrenamiento_de(filas.deep_view(), k as nat, i as nat).len() > 0,
        ({
            let e = entrenamiento_de(filas.deep_view(), k as nat, i as nat);
            !es_hoja_directa(e, columnas_hasta(e[0].0.len()), max_profundidad as nat, 0) ==> forall|j: int|
                0 <= j < filas@.len() ==> e[0].0.len() <= (#[trigger] filas.deep_view()[j]).0.len()
        }),
        forall|r: &[Fila], c: usize| #[trigger] ganancia.requires((r, c)),
    ensures
        ({
            let e = entrenamiento_de(filas.deep_view(), k as nat, i as nat);
            let prueba = prueba_de(filas.deep_view(), k as nat, i as nat);
            exists|arbol: Nodo|
                #[trigger] construido(arbol, e, columnas_hasta(e[0].0.len()), max_profundidad as nat, 0, *ganancia)
                    && r.0 == aciertos(arbol, prueba) && r.1 == prueba.len()
        }),
{
    let ghost s = filas.deep_view();
    let (inicio, fin) = limites_fold(filas.len(), k, i);
    let (entrenamiento, prueba) = dividir_fold(filas, inicio, fin);
    let ghost e = entrenamiento.deep_view();
    proof {
        assert(e == entrenamiento_de(s, k as nat, i as nat));
        assert(entrenamiento@[0].deep_view() == e[0]);
    }
    let num_caract = entrenamiento[0].caracteristicas.len();
    let ghost m = num_caract as nat;
    let columnas = todas_las_columnas(num_caract);
    proof {
        if !es_hoja_directa(e, columnas@, max_profundidad as nat, 0) {
            assert forall|a: int, c: int| 0 <= a < e.len() && 0 <= c < columnas@.len() implies #[trigger] columnas@[c]
                < #[trigger] e[a].0.len() by {
                if a < inicio {
                    assert(e[a] == s[a]);
                } else {
                    assert(e[a] == s[a - inicio + fin]);
                }
            }
        }
    }
    let arbol = construir_arbol(entrenamiento.as_slice(), columnas, max_profundidad, 0, ganancia);
    proof {
        let q = prueba.deep_view();
        assert(q == prueba_de(s, k as nat, i as nat));
        assert forall|j: int| 0 <= j < prueba@.len() implies ruta_valida(arbol, #[trigger] q[j].0) by {
            if es_hoja_directa(e, columnas@, max_profundidad as nat, 0) {
                assert(arbol is Hoja);
            } else {
                ley_arbol_columnas_y_profundidad(arbol, e, columnas@, max_profundidad as nat, 0, *ganancia);
                lema_usa_columnas_rango(arbol, columnas@, m);
                assert(q[j] == s[inicio + j]);
                lema_ruta_valida(arbol, m, q[j].0);
            }
        }
    }
    let aciertos_fold = contar_aciertos(&arbol, prueba.as_slice());
    (aciertos_fold, prueba.len())
}

/// The distinct values of column `c` among the rows, in order of first appearance.
pub fn valores_de_columna(filas: &[Fila], c: usize) -> (r: Vec<String>)
    requires
        forall|k: int| 0 <= k < filas@.len() ==> c < #[trigger] filas@[k].caracteristicas@.len(),
    ensures
        textos(r@) == valores_distintos(filas.deep_view(), c as int),
{
    let ghost s = filas.deep_view();
    let mut valores: Vec<String> = Vec::new();
    let mut i: usize = 0;
    while i < filas.len()
        invariant
            i <= filas@.len(),
            s == filas.deep_view(),
            forall|k: int| 0 <= k < filas@.len() ==> c < #[trigger] filas@[k].caracteristicas@.len(),
            textos(valores@) == valores_distintos(s.take(i as int), c as int),
        decreases filas@.len() - i,
    {
        let valor = &filas[i].caracteristicas[c];
        proof {
            assert(s.take(i + 1).drop_last() =~= s.take(i as int));
            assert(s[i as int].0[c as int] == valor@);
        }
        match buscar_texto(&valores, valor) {
            Some(j) => {
                proof {
                    assert(textos(valores@)[j as int] == valor@);
                }
            },
            None => {
                proof {
                    assert(!textos(valores@).contains(valor@)) by {
                        if textos(valores@).contains(valor@) {
                            let j = choose|j: int| 0 <= j < textos(valores@).len() && textos(valores@)[j] == valor@;
                            assert(valores@[j]@ == valor@);
                        }
                    }
                }
                valores.push(valor.clone());
                proof {
                    assert(textos(valores@) =~= valores_distintos(s.take(i + 1), c as int));
                }
            },
        }
        i = i + 1;
    }
    proof {
        assert(s.take(filas@.len() as int) =~= s);
    }
    valores
}

/// Most distinct values that a column may have and still be used for training.
pub const MAX_VALORES_DISTINTOS: usize = 20;

/// The columns among `1..m` (column 0 holds an identifier) whose number of
/// distinct values in `s` is more than one and at most twenty, in order.
pub open spec fn columnas_utiles_hasta(s: Seq<FilaV>, m: nat) -> Seq<usize>
    decreases m,
{
    if m == 0 {
        seq![]
    } else {
        let p = columnas_utiles_hasta(s, (m - 1) as nat);
        let c = (m - 1) as nat;
        let d = valores_distintos(s, c as int).len();
        if c != 0 && 1 < d && d <= MAX_VALORES_DISTINTOS {
            p.push(c as usize)
        } else {
            p
        }
    }
}

/// The columns that the final tree may use: leaves out column 0 (an identifier),
/// the columns with a single value, and those with more than twenty distinct values.
pub fn columnas_utiles(filas: &[Fila], num_caracteristicas: usize) -> (r: Vec<usize>)
    requires
        num_caracteristicas >= 2 ==> forall|k: int|
            0 <= k < filas@.len() ==> num_caracteristicas <= #[trigger] filas@[k].caracteristicas@.len(),
    ensures
        r@ == columnas_utiles_hasta(filas.deep_view(), num_caracteristicas as nat),
{
    let mut r: Vec<usize> = Vec::new();
    let mut col: usize = 0;
    while col < num_caracteristicas
        invariant
            col <= num_caracteristicas,
            num_caracteristicas >= 2 ==> forall|k: int|
                0 <= k < filas@.len() ==> num_caracteristicas <= #[trigger] filas@[k].caracteristicas@.len(),
            r@ == columnas_utiles_hasta(filas.deep_view(), col as nat),
        decreases num_caracteristicas - col,
    {
        if col != 0 {
            let valores = valores_de_columna(filas, col);
            let d = valores.len();
            proof {
                assert(textos(valores@).len() == d);
            }
            if d > 1 && d <= MAX_VALORES_DISTINTOS {
                r.push(col);
            }
        }
        col = col + 1;
    }
    r
}

/// A row read from a record: the field at `indice_ganador` is the class (empty
/// when the record has no such field), the other fields, in order, are the features.
pub fn separar_fila(campos: &Vec<String>, indice_ganador: usize) -> (f: Fila)
    ensures
        f.ganador@ == if indice_ganador < campos@.len() {
            campos@[indice_ganador as int]@
        } else {
            Seq::<char>::empty()
        },
        f.caracteristicas.deep_view() == if indice_ganador < campos@.len() {
            textos(campos@).remove(indice_ganador as int)
        } else {
            textos(campos@)
        },
{
    let mut caracteristicas: Vec<String> = Vec::new();
    let mut ganador = String::new();
    let mut i: usize = 0;
    while i < campos.len()
        invariant
            i <= campos@.len(),
            ganador@ == if indice_ganador < i { campos@[indice_ganador as int]@ } else { Seq::<char>::empty() },
            caracteristicas.deep_view() == if indice_ganador < i {
                textos(campos@.take(i as int)).remove(indice_ganador as int)
            } else {
                textos(campos@.take(i as int))
            },
        decreases campos@.len() - i,
    {
        let ghost c0 = caracteristicas.deep_view();
        if i == indice_ganador {
            ganador = campos[i].clone();
            proof {
                assert(textos(campos@.take(i + 1)).remove(indice_ganador as int) =~= textos(campos@.take(i as int)));
            }
        } else {
            caracteristicas.push(campos[i].clone());
            proof {
                assert(caracteristicas.deep_view() =~= c0.push(campos@[i as int]@));
                if indice_ganador < i {
                    assert(caracteristicas.deep_view() =~= textos(campos@.take(i + 1)).remove(indice_ganador as int));
                } else {
                    assert(caracteristicas.deep_view() =~= textos(campos@.take(i + 1)));
                }
            }
        }
        i = i + 1;
    }
    proof {
        assert(campos@.take(campos@.len() as int) =~= campos@);
    }
    Fila { caracteristicas, ganador }
}

/// The columns the final tree may use are those among `1..m` with more than one and
/// at most twenty distinct values, in increasing order.
pub proof fn ley_columnas_utiles(s: Seq<FilaV>, m: nat)
    requires
        m <= usize::MAX + 1,
    ensures
        forall|c: usize|
            #[trigger] columnas_utiles_hasta(s, m).contains(c) <==> (1 <= c < m && 1 < valores_distintos(s, c as int).len()
                <= MAX_VALORES_DISTINTOS),
        forall|a: int, b: int|
            0 <= a < b < columnas_utiles_hasta(s, m).len() ==> #[trigger] columnas_utiles_hasta(s, m)[a]
                < #[trigger] columnas_utiles_hasta(s, m)[b],
        forall|a: int| 0 <= a < columnas_utiles_hasta(s, m).len() ==> #[trigger] columnas_utiles_hasta(s, m)[a] < m,
    decreases m,
{
    if m > 0 {
        let k = (m - 1) as nat;
        ley_columnas_utiles(s, k);
        let p = columnas_utiles_hasta(s, k);
        let r = columnas_utiles_hasta(s, m);
        let y = k as usize;
        assert(y as int == k);
        let d = valores_distintos(s, k as int).len();
        assert(r == if k != 0 && 1 < d && d <= MAX_VALORES_DISTINTOS { p.push(y) } else { p });
        assert forall|c: usize| #[trigger] r.contains(c) implies 1 <= c < m && 1 < valores_distintos(s, c as int).len()
            <= MAX_VALORES_DISTINTOS by {
            let i = choose|i: int| 0 <= i < r.len() && r[i] == c;
            if i < p.len() {
                assert(p[i] == c);
                assert(p.contains(c));
            }
        }
        assert forall|c: usize| 1 <= c < m && 1 < valores_distintos(s, c as int).len() <= MAX_VALORES_DISTINTOS implies #[trigger] r.contains(
            c,
        ) by {
            if c < y {
                assert(p.contains(c));
                let i = choose|i: int| 0 <= i < p.len() && p[i] == c;
                assert(r[i] == c);
            } else {
                assert(r[r.len() - 1] == c);
            }
        }
    }
}

} // verus!

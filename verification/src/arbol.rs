use vstd::prelude::*;

verus! {

/// A row of the discretised data set: the feature values and the class (the winner).
#[derive(Clone, Debug)]
pub struct Fila {
    pub caracteristicas: Vec<String>,
    pub ganador: String,
}

/// What a row holds, as text: its feature values and its class.
pub type FilaV = (Seq<Seq<char>>, Seq<char>);

/// A decision tree: a leaf holds the predicted class; a decision node tests one
/// column, has one child per value seen for it, and falls back on a default class
/// for values it never saw.
#[derive(Debug)]
pub enum Nodo {
    Hoja(String),
    Decision { col_idx: usize, hijos: Vec<(String, Nodo)>, prediccion_por_defecto: String },
}

impl DeepView for Fila {
    type V = FilaV;

    open spec fn deep_view(&self) -> FilaV {
        (self.caracteristicas.deep_view(), self.ganador@)
    }
}

impl Fila {
    /// A copy of the row.
    pub fn copia(&self) -> (r: Fila)
        ensures
            r.deep_view() == self.deep_view(),
    {
        let caracteristicas = self.caracteristicas.clone();
        proof {
            assert(caracteristicas.deep_view() =~= self.caracteristicas.deep_view());
        }
        Fila { caracteristicas, ganador: self.ganador.clone() }
    }
}

/// The text "0", the class of a leaf built from no rows.
pub open spec fn clase_por_omision() -> Seq<char> {
    seq!['0']
}

/// The classes of the rows of `s`, in order.
pub open spec fn clases_de(s: Seq<FilaV>) -> Seq<Seq<char>> {
    s.map_values(|f: FilaV| f.1)
}

/// The texts held by `v`.
pub open spec fn textos(v: Seq<String>) -> Seq<Seq<char>> {
    v.map_values(|s: String| s@)
}

/// Number of positions of `cs` that hold `c`.
pub open spec fn cuenta(cs: Seq<Seq<char>>, c: Seq<char>) -> nat
    decreases cs.len(),
{
    if cs.len() == 0 {
        0
    } else {
        cuenta(cs.drop_last(), c) + if cs.last() == c { 1nat } else { 0nat }
    }
}

/// Number of rows of `s` whose class is `c`.
pub open spec fn cuenta_clase(s: Seq<FilaV>, c: Seq<char>) -> nat {
    cuenta(clases_de(s), c)
}

/// `c` is a most frequent class of `s` (or "0" when `s` is empty).
pub open spec fn es_clase_mayoritaria(s: Seq<FilaV>, c: Seq<char>) -> bool {
    if s.len() == 0 {
        c == clase_por_omision()
    } else {
        &&& exists|k: int| 0 <= k < s.len() && #[trigger] s[k].1 == c
        &&& forall|k: int| 0 <= k < s.len() ==> cuenta_clase(s, #[trigger] s[k].1) <= cuenta_clase(s, c)
    }
}

/// All rows of `s` have one class (the class entropy of `s` is zero).
pub open spec fn una_sola_clase(s: Seq<FilaV>) -> bool {
    forall|i: int, j: int| 0 <= i < s.len() && 0 <= j < s.len() ==> #[trigger] s[i].1 == #[trigger] s[j].1
}

proof fn lema_cuenta_ausente(cs: Seq<Seq<char>>, c: Seq<char>)
    requires
        forall|k: int| 0 <= k < cs.len() ==> cs[k] != c,
    ensures
        cuenta(cs, c) == 0,
    decreases cs.len(),
{
    if cs.len() > 0 {
        lema_cuenta_ausente(cs.drop_last(), c);
    }
}

proof fn lema_cuenta_cota(cs: Seq<Seq<char>>, c: Seq<char>)
    ensures
        cuenta(cs, c) <= cs.len(),
    decreases cs.len(),
{
    if cs.len() > 0 {
        lema_cuenta_cota(cs.drop_last(), c);
    }
}

proof fn lema_cuenta_paso(cs: Seq<Seq<char>>, i: int, c: Seq<char>)
    requires
        0 <= i < cs.len(),
    ensures
        cuenta(cs.take(i + 1), c) == cuenta(cs.take(i), c) + if cs[i] == c { 1nat } else { 0nat },
{
    assert(cs.take(i + 1).drop_last() =~= cs.take(i));
}

/// Position of the first text of `textos` equal to `c`, if any.
pub fn buscar_texto(textos: &Vec<String>, c: &String) -> (r: Option<usize>)
    ensures
        match r {
            Some(j) => j < textos@.len() && textos@[j as int]@ == c@ && forall|k: int|
                0 <= k < j ==> textos@[k]@ != c@,
            None => forall|k: int| 0 <= k < textos@.len() ==> textos@[k]@ != c@,
        },
{
    let mut j: usize = 0;
    while j < textos.len()
        invariant
            j <= textos@.len(),
            forall|k: int| 0 <= k < j ==> textos@[k]@ != c@,
        decreases textos@.len() - j,
    {
        if textos[j] == *c {
            return Some(j);
        }
        j = j + 1;
    }
    None
}

/// The distinct classes of the rows, in order of first appearance, each with
/// the number of rows that have it.
fn contar_clases(filas: &[Fila]) -> (res: (Vec<String>, Vec<usize>))
    ensures
        res.0@.len() == res.1@.len(),
        forall|j: int| 0 <= j < res.0@.len() ==> #[trigger] res.1@[j] == cuenta_clase(filas.deep_view(), res.0@[j]@),
        forall|k: int| 0 <= k < filas@.len() ==> textos(res.0@).contains(#[trigger] clases_de(filas.deep_view())[k]),
        forall|j: int| 0 <= j < res.0@.len() ==> clases_de(filas.deep_view()).contains(#[trigger] textos(res.0@)[j]),
{
    let ghost cs = clases_de(filas.deep_view());
    assert forall|k: int| 0 <= k < filas@.len() implies #[trigger] cs[k] == filas@[k].ganador@ by {}
    assert(cs.len() == filas@.len());
    let mut clases: Vec<String> = Vec::new();
    let mut conteos: Vec<usize> = Vec::new();
    let ghost mut lugar: Seq<int> = Seq::empty();
    let ghost mut origen: Seq<int> = Seq::empty();
    let mut i: usize = 0;
    while i < filas.len()
        invariant
            i <= filas@.len(),
            cs.len() == filas@.len(),
            forall|k: int| 0 <= k < filas@.len() ==> #[trigger] cs[k] == filas@[k].ganador@,
            clases@.len() == conteos@.len(),
            origen.len() == clases@.len(),
            lugar.len() == i,
            forall|j: int| 0 <= j < clases@.len() ==> #[trigger] conteos@[j] == cuenta(cs.take(i as int), clases@[j]@),
            forall|j: int| 0 <= j < clases@.len() ==> 0 <= #[trigger] origen[j] < i && cs[origen[j]] == clases@[j]@,
            forall|k: int| 0 <= k < i ==> 0 <= #[trigger] lugar[k] < clases@.len() && clases@[lugar[k]]@ == cs[k],
            forall|a: int, b: int| 0 <= a < b < clases@.len() ==> #[trigger] clases@[a]@ != #[trigger] clases@[b]@,
        decreases filas@.len() - i,
    {
        proof {
            lema_cuenta_cota(cs.take(i as int), cs[i as int]);
        }
        match buscar_texto(&clases, &filas[i].ganador) {
            Some(j) => {
                let nuevo = conteos[j] + 1;
                conteos.set(j, nuevo);
                proof {
                    lugar = lugar.push(j as int);
                    assert forall|jj: int| 0 <= jj < clases@.len() implies #[trigger] conteos@[jj]
                        == cuenta(cs.take(i + 1), clases@[jj]@) by {
                        lema_cuenta_paso(cs, i as int, clases@[jj]@);
                    }
                }
            },
            None => {
                proof {
                    assert forall|k: int| 0 <= k < i implies cs.take(i as int)[k] != cs[i as int] by {
                        assert(clases@[lugar[k]]@ == cs[k]);
                    }
                    lema_cuenta_ausente(cs.take(i as int), cs[i as int]);
                }
                clases.push(filas[i].ganador.clone());
                conteos.push(1);
                proof {
                    lugar = lugar.push(clases@.len() - 1);
                    origen = origen.push(i as int);
                    assert forall|jj: int| 0 <= jj < clases@.len() implies #[trigger] conteos@[jj]
                        == cuenta(cs.take(i + 1), clases@[jj]@) by {
                        lema_cuenta_paso(cs, i as int, clases@[jj]@);
                    }
                }
            },
        }
        i = i + 1;
    }
    proof {
        assert(cs.take(filas@.len() as int) =~= cs);
    }
    assert forall|k: int| 0 <= k < filas@.len() implies textos(clases@).contains(#[trigger] cs[k]) by {
        let j = lugar[k];
        assert(textos(clases@)[j] == cs[k]);
    }
    assert forall|j: int| 0 <= j < clases@.len() implies cs.contains(#[trigger] textos(clases@)[j]) by {
        let k = origen[j];
        assert(cs[k] == textos(clases@)[j]);
    }
    (clases, conteos)
}

/// A most frequent class among the rows, or "0" when there are none.
pub fn clase_mayoritaria(filas: &[Fila]) -> (r: String)
    ensures
        es_clase_mayoritaria(filas.deep_view(), r@),
{
    let ghost s = filas.deep_view();
    let (clases, conteos) = contar_clases(filas);
    if clases.len() == 0 {
        let r = String::from_str("0");
        proof {
            reveal_strlit("0");
            assert(r@ =~= clase_por_omision());
            if s.len() > 0 {
                assert(filas@[0] == filas@[0]);
            }
        }
        return r;
    }
    let mut mejor: usize = 0;
    let mut j: usize = 1;
    while j < clases.len()
        invariant
            1 <= j <= clases@.len(),
            mejor < j,
            clases@.len() == conteos@.len(),
            forall|k: int| 0 <= k < j ==> conteos@[k] <= conteos@[mejor as int],
        decreases clases@.len() - j,
    {
        if conteos[j] > conteos[mejor] {
            mejor = j;
        }
        j = j + 1;
    }
    let r = clases[mejor].clone();
    proof {
        assert(textos(clases@)[mejor as int] == r@);
        assert(clases_de(s).contains(r@));
        let k0 = choose|k: int| 0 <= k < clases_de(s).len() && clases_de(s)[k] == r@;
        assert(s[k0].1 == r@);
        assert(conteos@[mejor as int] == cuenta_clase(s, r@));
        assert forall|k: int| 0 <= k < s.len() implies cuenta_clase(s, #[trigger] s[k].1) <= cuenta_clase(
            s,
            r@,
        ) by {
            assert(clases_de(s)[k] == s[k].1);
            assert(textos(clases@).contains(s[k].1));
            let jj = choose|jj: int| 0 <= jj < clases@.len() && textos(clases@)[jj] == s[k].1;
            assert(clases@[jj]@ == s[k].1);
            assert(conteos@[jj] == cuenta_clase(s, clases@[jj]@));
        }
    }
    r
}

/// Whether all rows have one class.
pub fn todas_de_una_clase(filas: &[Fila]) -> (r: bool)
    ensures
        r == una_sola_clase(filas.deep_view()),
{
    let ghost s = filas.deep_view();
    if filas.len() == 0 {
        return true;
    }
    let mut i: usize = 1;
    while i < filas.len()
        invariant
            1 <= i <= filas@.len(),
            s == filas.deep_view(),
            forall|k: int| 0 <= k < i ==> #[trigger] s[k].1 == s[0].1,
        decreases filas@.len() - i,
    {
        if filas[i].ganador != filas[0].ganador {
            proof {
                assert(s[i as int].1 != s[0].1);
            }
            return false;
        }
        i = i + 1;
    }
    proof {
        assert forall|a: int, b: int| 0 <= a < s.len() && 0 <= b < s.len() implies #[trigger] s[a].1
            == #[trigger] s[b].1 by {
            assert(s[a].1 == s[0].1);
            assert(s[b].1 == s[0].1);
        }
    }
    true
}

/// Index of the first child whose value is `v`, or -1.
pub open spec fn indice_hijo(hijos: Seq<(String, Nodo)>, v: Seq<char>) -> int
    decreases hijos.len(),
{
    if hijos.len() == 0 {
        -1
    } else {
        let k = indice_hijo(hijos.drop_last(), v);
        if k >= 0 {
            k
        } else if hijos.last().0@ == v {
            hijos.len() - 1
        } else {
            -1
        }
    }
}

/// Every column that a decision node of `n` tests is below `m`.
pub open spec fn columnas_en_rango(n: Nodo, m: nat) -> bool
    decreases n,
{
    match n {
        Nodo::Hoja(_) => true,
        Nodo::Decision { col_idx, hijos, prediccion_por_defecto } => {
            &&& col_idx < m
            &&& forall|k: int| 0 <= k < hijos@.len() ==> columnas_en_rango(#[trigger] hijos@[k].1, m)
        },
    }
}

/// The class that the tree `n` predicts for a row with feature values `fila`:
/// a leaf gives its class; a decision node follows the child for the row's value
/// in its column, or gives its default class when no child has that value.
pub open spec fn prediccion(n: Nodo, fila: Seq<Seq<char>>) -> Seq<char>
    decreases n,
{
    match n {
        Nodo::Hoja(p) => p@,
        Nodo::Decision { col_idx, hijos, prediccion_por_defecto } => {
            let k = indice_hijo(hijos@, fila[col_idx as int]);
            if 0 <= k < hijos@.len() {
                prediccion(hijos@[k].1, fila)
            } else {
                prediccion_por_defecto@
            }
        },
    }
}

proof fn lema_indice_hijo(hijos: Seq<(String, Nodo)>, v: Seq<char>)
    ensures
        -1 <= indice_hijo(hijos, v) < hijos.len(),
        indice_hijo(hijos, v) >= 0 ==> hijos[indice_hijo(hijos, v)].0@ == v && forall|k: int|
            0 <= k < indice_hijo(hijos, v) ==> hijos[k].0@ != v,
        indice_hijo(hijos, v) == -1 ==> forall|k: int| 0 <= k < hijos.len() ==> hijos[k].0@ != v,
    decreases hijos.len(),
{
    if hijos.len() > 0 {
        let d = hijos.drop_last();
        lema_indice_hijo(d, v);
        let p = indice_hijo(d, v);
        assert forall|k: int| 0 <= k < hijos.len() - 1 implies #[trigger] d[k] == hijos[k] by {}
        if p >= 0 {
            assert(indice_hijo(hijos, v) == p);
            assert forall|k: int| 0 <= k < p implies hijos[k].0@ != v by {
                assert(d[k].0@ != v);
            }
        } else {
            assert forall|k: int| 0 <= k < hijos.len() - 1 implies hijos[k].0@ != v by {
                assert(d[k].0@ != v);
            }
        }
    }
}

/// Position of the child whose value is `v`, as `indice_hijo` gives it.
fn buscar_hijo(hijos: &Vec<(String, Nodo)>, v: &String) -> (r: Option<usize>)
    ensures
        match r {
            Some(k) => k == indice_hijo(hijos@, v@) && k < hijos@.len(),
            None => indice_hijo(hijos@, v@) == -1,
        },
{
    proof {
        lema_indice_hijo(hijos@, v@);
    }
    let mut k: usize = 0;
    while k < hijos.len()
        invariant
            k <= hijos@.len(),
            forall|j: int| 0 <= j < k ==> hijos@[j].0@ != v@,
            -1 <= indice_hijo(hijos@, v@) < hijos@.len(),
            indice_hijo(hijos@, v@) >= 0 ==> hijos@[indice_hijo(hijos@, v@)].0@ == v@ && forall|j: int|
                0 <= j < indice_hijo(hijos@, v@) ==> hijos@[j].0@ != v@,
            indice_hijo(hijos@, v@) == -1 ==> forall|j: int| 0 <= j < hijos@.len() ==> hijos@[j].0@ != v@,
        decreases hijos@.len() - k,
    {
        if hijos[k].0 == *v {
            return Some(k);
        }
        k = k + 1;
    }
    None
}

/// Every decision node on the path that the row with feature values `fila` follows
/// through `n` tests a column that the row has.
pub open spec fn ruta_valida(n: Nodo, fila: Seq<Seq<char>>) -> bool
    decreases n,
{
    match n {
        Nodo::Hoja(_) => true,
        Nodo::Decision { col_idx, hijos, prediccion_por_defecto } => {
            &&& col_idx < fila.len()
            &&& ({
                let k = indice_hijo(hijos@, fila[col_idx as int]);
                0 <= k < hijos@.len() ==> ruta_valida(hijos@[k].1, fila)
            })
        },
    }
}

/// A row that has every column that a decision node of `n` tests has every column
/// on its own path.
pub proof fn lema_ruta_valida(n: Nodo, m: nat, fila: Seq<Seq<char>>)
    requires
        columnas_en_rango(n, m),
        m <= fila.len(),
    ensures
        ruta_valida(n, fila),
    decreases n,
{
    match n {
        Nodo::Hoja(_) => {},
        Nodo::Decision { col_idx, hijos, prediccion_por_defecto } => {
            let k = indice_hijo(hijos@, fila[col_idx as int]);
            if 0 <= k < hijos@.len() {
                assert(decreases_to!(n => hijos@[k].1));
                lema_ruta_valida(hijos@[k].1, m, fila);
            }
        },
    }
}

/// Whether every decision node on the row's path through the tree tests a column
/// that the row has (else predicting the row reads past its end).
pub fn camino_valido(nodo: &Nodo, fila: &Fila) -> (r: bool)
    ensures
        r == ruta_valida(*nodo, fila.caracteristicas.deep_view()),
    decreases nodo,
{
    match nodo {
        Nodo::Hoja(_) => true,
        Nodo::Decision { col_idx, hijos, prediccion_por_defecto } => {
            if *col_idx >= fila.caracteristicas.len() {
                return false;
            }
            let valor = &fila.caracteristicas[*col_idx];
            proof {
                assert(fila.caracteristicas.deep_view()[*col_idx as int] == valor@);
            }
            match buscar_hijo(hijos, valor) {
                Some(k) => {
                    proof {
                        assert(decreases_to!(*nodo => hijos@[k as int].1));
                    }
                    camino_valido(&hijos[k].1, fila)
                },
                None => true,
            }
        },
    }
}

/// The class that the tree predicts for the row.
pub fn predecir(nodo: &Nodo, fila: &Fila) -> (r: String)
    requires
        ruta_valida(*nodo, fila.caracteristicas.deep_view()),
    ensures
        r@ == prediccion(*nodo, fila.caracteristicas.deep_view()),
    decreases nodo,
{
    match nodo {
        Nodo::Hoja(p) => p.clone(),
        Nodo::Decision { col_idx, hijos, prediccion_por_defecto } => {
            let valor = &fila.caracteristicas[*col_idx];
            proof {
                assert(fila.caracteristicas.deep_view()[*col_idx as int] == valor@);
            }
            match buscar_hijo(hijos, valor) {
                Some(k) => {
                    proof {
                        assert(ruta_valida(hijos@[k as int].1, fila.caracteristicas.deep_view()));
                        assert(decreases_to!(*nodo => hijos@[k as int].1));
                    }
                    predecir(&hijos[k].1, fila)
                },
                None => prediccion_por_defecto.clone(),
            }
        },
    }
}

/// The rows of `s` whose value in column `c` is `v`, in order.
pub open spec fn con_valor(s: Seq<FilaV>, c: int, v: Seq<char>) -> Seq<FilaV>
    decreases s.len(),
{
    if s.len() == 0 {
        seq![]
    } else {
        let p = con_valor(s.drop_last(), c, v);
        if s.last().0[c] == v {
            p.push(s.last())
        } else {
            p
        }
    }
}

/// The distinct values of column `c` in `s`, in order of first appearance.
pub open spec fn valores_distintos(s: Seq<FilaV>, c: int) -> Seq<Seq<char>>
    decreases s.len(),
{
    if s.len() == 0 {
        seq![]
    } else {
        let p = valores_distintos(s.drop_last(), c);
        if p.contains(s.last().0[c]) {
            p
        } else {
            p.push(s.last().0[c])
        }
    }
}

/// `cols` without the column `c`.
pub open spec fn sin_columna(cols: Seq<usize>, c: usize) -> Seq<usize>
    decreases cols.len(),
{
    if cols.len() == 0 {
        seq![]
    } else {
        let p = sin_columna(cols.drop_last(), c);
        if cols.last() != c {
            p.push(cols.last())
        } else {
            p
        }
    }
}

/// Every row of `s` has a value in every column of `cols`.
pub open spec fn columnas_validas(s: Seq<FilaV>, cols: Seq<usize>) -> bool {
    forall|k: int, i: int| 0 <= k < s.len() && 0 <= i < cols.len() ==> #[trigger] cols[i] < #[trigger] s[k].0.len()
}

proof fn lema_con_valor(s: Seq<FilaV>, c: int, v: Seq<char>)
    ensures
        forall|k: int| 0 <= k < con_valor(s, c, v).len() ==> s.contains(#[trigger] con_valor(s, c, v)[k]),
        forall|k: int| 0 <= k < con_valor(s, c, v).len() ==> (#[trigger] con_valor(s, c, v)[k]).0[c] == v,
        con_valor(s, c, v).len() <= s.len(),
    decreases s.len(),
{
    if s.len() > 0 {
        let d = s.drop_last();
        lema_con_valor(d, c, v);
        assert forall|k: int| 0 <= k < con_valor(s, c, v).len() implies s.contains(#[trigger] con_valor(s, c, v)[k]) by {
            if k < con_valor(d, c, v).len() {
                let x = con_valor(d, c, v)[k];
                assert(d.contains(x));
                let j = choose|j: int| 0 <= j < d.len() && d[j] == x;
                assert(s[j] == x);
            } else {
                assert(s[s.len() - 1] == s.last());
            }
        }
    }
}

proof fn lema_sin_columna(cols: Seq<usize>, c: usize)
    ensures
        forall|i: int| 0 <= i < sin_columna(cols, c).len() ==> cols.contains(#[trigger] sin_columna(cols, c)[i]),
        forall|i: int| 0 <= i < sin_columna(cols, c).len() ==> #[trigger] sin_columna(cols, c)[i] != c,
    decreases cols.len(),
{
    if cols.len() > 0 {
        let d = cols.drop_last();
        lema_sin_columna(d, c);
        assert forall|i: int| 0 <= i < sin_columna(cols, c).len() implies cols.contains(#[trigger] sin_columna(cols, c)[i]) by {
            if i < sin_columna(d, c).len() {
                let x = sin_columna(d, c)[i];
                assert(d.contains(x));
                let j = choose|j: int| 0 <= j < d.len() && d[j] == x;
                assert(cols[j] == x);
            } else {
                assert(cols[cols.len() - 1] == cols.last());
            }
        }
    }
}

/// The rows of a group of the partition have their columns.
proof fn lema_columnas_subgrupo(s: Seq<FilaV>, cols: Seq<usize>, c: usize, v: Seq<char>)
    requires
        columnas_validas(s, cols),
    ensures
        columnas_validas(con_valor(s, c as int, v), sin_columna(cols, c)),
{
    lema_con_valor(s, c as int, v);
    lema_sin_columna(cols, c);
    let t = con_valor(s, c as int, v);
    let q = sin_columna(cols, c);
    assert forall|k: int, i: int| 0 <= k < t.len() && 0 <= i < q.len() implies #[trigger] q[i] < #[trigger] t[k].0.len() by {
        assert(s.contains(t[k]));
        assert(cols.contains(q[i]));
        let kk = choose|kk: int| 0 <= kk < s.len() && s[kk] == t[k];
        let ii = choose|ii: int| 0 <= ii < cols.len() && cols[ii] == q[i];
        assert(cols[ii] < s[kk].0.len());
    }
}

/// `cols` without the column `c`, keeping the order of the others.
pub fn quitar_columna(cols: &Vec<usize>, c: usize) -> (r: Vec<usize>)
    ensures
        r@ == sin_columna(cols@, c),
{
    let mut r: Vec<usize> = Vec::new();
    let mut i: usize = 0;
    while i < cols.len()
        invariant
            i <= cols@.len(),
            r@ == sin_columna(cols@.take(i as int), c),
        decreases cols@.len() - i,
    {
        proof {
            assert(cols@.take(i + 1).drop_last() =~= cols@.take(i as int));
        }
        if cols[i] != c {
            r.push(cols[i]);
        }
        i = i + 1;
    }
    proof {
        assert(cols@.take(cols@.len() as int) =~= cols@);
    }
    r
}

/// The groups of rows with one value in column `c`: the distinct values in order
/// of first appearance, and for each the rows that have it, in order.
pub fn particionar(filas: &[Fila], c: usize) -> (res: (Vec<String>, Vec<Vec<Fila>>))
    requires
        forall|k: int| 0 <= k < filas@.len() ==> c < #[trigger] filas@[k].caracteristicas@.len(),
    ensures
        textos(res.0@) == valores_distintos(filas.deep_view(), c as int),
        res.1@.len() == res.0@.len(),
        forall|j: int| 0 <= j < res.1@.len() ==> (#[trigger] res.1@[j]).deep_view() == con_valor(filas.deep_view(), c as int, res.0@[j]@),
{
    let ghost s = filas.deep_view();
    let mut valores: Vec<String> = Vec::new();
    let mut grupos: Vec<Vec<Fila>> = Vec::new();
    let mut i: usize = 0;
    while i < filas.len()
        invariant
            i <= filas@.len(),
            s == filas.deep_view(),
            forall|k: int| 0 <= k < filas@.len() ==> c < #[trigger] filas@[k].caracteristicas@.len(),
            textos(valores@) == valores_distintos(s.take(i as int), c as int),
            grupos@.len() == valores@.len(),
            forall|j: int| 0 <= j < grupos@.len() ==> (#[trigger] grupos@[j]).deep_view() == con_valor(s.take(i as int), c as int, valores@[j]@),
        decreases filas@.len() - i,
    {
        let ghost antes = s.take(i as int);
        let ghost despues = s.take(i + 1);
        let valor = &filas[i].caracteristicas[c];
        proof {
            assert(despues.drop_last() =~= antes);
            assert(despues.last() == s[i as int]);
            assert(s[i as int].0[c as int] == valor@);
            assert(s[i as int] == filas@[i as int].deep_view());
        }
        let fila = filas[i].copia();
        match buscar_texto(&valores, valor) {
            Some(j) => {
                let ghost grupos_antes = grupos@;
                grupos[j].push(fila);
                proof {
                    lema_valores_distintos_unicos(antes, c as int);
                    assert(textos(valores@)[j as int] == valor@);
                    assert(textos(valores@).contains(valor@));
                    assert forall|jj: int| 0 <= jj < grupos@.len() implies (#[trigger] grupos@[jj]).deep_view() == con_valor(despues, c as int, valores@[jj]@) by {
                        if jj == j {
                            assert(grupos@[jj].deep_view() =~= con_valor(antes, c as int, valores@[jj]@).push(s[i as int]));
                        } else {
                            assert(textos(valores@)[jj] == valores@[jj]@);
                            assert(textos(valores@)[jj] != textos(valores@)[j as int]);
                            assert(grupos@[jj] == grupos_antes[jj]);
                        }
                    }
                }
            },
            None => {
                let mut nuevo: Vec<Fila> = Vec::new();
                nuevo.push(fila);
                proof {
                    assert(!textos(valores@).contains(valor@)) by {
                        if textos(valores@).contains(valor@) {
                            let j = choose|j: int| 0 <= j < textos(valores@).len() && textos(valores@)[j] == valor@;
                            assert(valores@[j]@ == valor@);
                        }
                    }
                    lema_con_valor_ausente(antes, c as int, valor@);
                }
                valores.push(valor.clone());
                grupos.push(nuevo);
                proof {
                    assert(textos(valores@) =~= valores_distintos(despues, c as int));
                    assert forall|jj: int| 0 <= jj < grupos@.len() implies (#[trigger] grupos@[jj]).deep_view() == con_valor(despues, c as int, valores@[jj]@) by {
                        if jj == grupos@.len() - 1 {
                            assert(grupos@[jj].deep_view() =~= seq![s[i as int]]);
                            assert(con_valor(antes, c as int, valor@) =~= seq![]);
                        } else {
                            assert(textos(valores@)[jj] == valores@[jj]@);
                        }
                    }
                }
            },
        }
        i = i + 1;
    }
    proof {
        assert(s.take(filas@.len() as int) =~= s);
    }
    (valores, grupos)
}

proof fn lema_valores_distintos_unicos(s: Seq<FilaV>, c: int)
    ensures
        forall|a: int, b: int|
            0 <= a < b < valores_distintos(s, c).len() ==> #[trigger] valores_distintos(s, c)[a] != #[trigger] valores_distintos(s, c)[b],
    decreases s.len(),
{
    if s.len() > 0 {
        let d = s.drop_last();
        lema_valores_distintos_unicos(d, c);
        let p = valores_distintos(d, c);
        let x = s.last().0[c];
        if !p.contains(x) {
            let q = p.push(x);
            assert forall|a: int, b: int| 0 <= a < b < q.len() implies #[trigger] q[a] != #[trigger] q[b] by {
                if b == q.len() - 1 {
                    if q[a] == q[b] {
                        assert(p[a] == x);
                    }
                } else {
                    assert(p[a] != p[b]);
                }
            }
        }
    }
}

proof fn lema_con_valor_ausente(s: Seq<FilaV>, c: int, v: Seq<char>)
    requires
        !valores_distintos(s, c).contains(v),
    ensures
        con_valor(s, c, v) == Seq::<FilaV>::empty(),
    decreases s.len(),
{
    if s.len() > 0 {
        let d = s.drop_last();
        let p = valores_distintos(d, c);
        if p.contains(v) {
            let j = choose|j: int| 0 <= j < p.len() && p[j] == v;
            assert(valores_distintos(s, c)[j] == v);
        }
        lema_con_valor_ausente(d, c, v);
        if s.last().0[c] == v {
            assert(valores_distintos(s, c)[valores_distintos(s, c).len() - 1] == v);
        }
    }
}

/// Bit pattern of the `f64` value -1.0, the gain that every column has to beat.
pub const BITS_MENOS_UNO: u64 = 0xBFF0_0000_0000_0000;

/// Bit pattern of the `f64` value 0.0.
pub const BITS_CERO: u64 = 0;

/// The `f64` whose bit pattern is `bits` is a NaN: all exponent bits set and a
/// fraction that is not zero, with either sign.
pub open spec fn es_nan(bits: u64) -> bool {
    let magnitud: int = if bits >= 0x8000_0000_0000_0000 { bits - 0x8000_0000_0000_0000 } else { bits as int };
    magnitud > 0x7FF0_0000_0000_0000
}

/// Order key of the `f64` whose bit pattern is `bits` (as `f64::to_bits` gives
/// it): negative values have their bits inverted, the others get the sign bit
/// set, and -0.0 gets the key of 0.0. Between values that are not NaN, the keys
/// are ordered as the values are, and two values have the same key exactly when
/// they are equal as `f64`.
pub open spec fn clave(bits: u64) -> u64 {
    if bits == 0x8000_0000_0000_0000 {
        0x8000_0000_0000_0000
    } else if bits > 0x8000_0000_0000_0000 {
        (u64::MAX - bits) as u64
    } else {
        (bits + 0x8000_0000_0000_0000) as u64
    }
}

/// `a <= b` between the `f64` values with bit patterns `a` and `b`: false when
/// either is a NaN.
pub open spec fn f64_le(a: u64, b: u64) -> bool {
    !es_nan(a) && !es_nan(b) && clave(a) <= clave(b)
}

/// `a < b` between the `f64` values with bit patterns `a` and `b`: false when
/// either is a NaN.
pub open spec fn f64_lt(a: u64, b: u64) -> bool {
    !es_nan(a) && !es_nan(b) && clave(a) < clave(b)
}

/// `a == b` between the `f64` values with bit patterns `a` and `b`: false when
/// either is a NaN, true for -0.0 and 0.0.
pub open spec fn f64_eq(a: u64, b: u64) -> bool {
    !es_nan(a) && !es_nan(b) && clave(a) == clave(b)
}

/// Order key of an `f64` given by its bit pattern.
pub fn clave_orden(bits: u64) -> (r: u64)
    ensures
        r == clave(bits),
{
    if bits == 0x8000_0000_0000_0000 {
        0x8000_0000_0000_0000
    } else if bits > 0x8000_0000_0000_0000 {
        u64::MAX - bits
    } else {
        bits + 0x8000_0000_0000_0000
    }
}

/// Whether the `f64` with bit pattern `bits` is a NaN.
pub fn nan(bits: u64) -> (r: bool)
    ensures
        r == es_nan(bits),
{
    let magnitud: u64 = if bits >= 0x8000_0000_0000_0000 { bits - 0x8000_0000_0000_0000 } else { bits };
    magnitud > 0x7FF0_0000_0000_0000
}

/// `a <= b` between two `f64` given by their bit patterns.
pub fn menor_o_igual(a: u64, b: u64) -> (r: bool)
    ensures
        r == f64_le(a, b),
{
    !nan(a) && !nan(b) && clave_orden(a) <= clave_orden(b)
}

/// `a < b` between two `f64` given by their bit patterns.
pub fn menor(a: u64, b: u64) -> (r: bool)
    ensures
        r == f64_lt(a, b),
{
    !nan(a) && !nan(b) && clave_orden(a) < clave_orden(b)
}

/// `a == b` between two `f64` given by their bit patterns.
pub fn igual(a: u64, b: u64) -> (r: bool)
    ensures
        r == f64_eq(a, b),
{
    !nan(a) && !nan(b) && clave_orden(a) == clave_orden(b)
}

/// The best of the gains `g` (bit patterns of `f64`), scanned in order: the position
/// of the first one that is greater than those before it and than -1.0, and its bit
/// pattern; `(-1, -1.0)` when none is greater than -1.0.
pub open spec fn mejor_ganancia(g: Seq<u64>) -> (int, u64)
    decreases g.len(),
{
    if g.len() == 0 {
        (-1, BITS_MENOS_UNO)
    } else {
        let (k, m) = mejor_ganancia(g.drop_last());
        if f64_lt(m, g.last()) {
            (g.len() - 1, g.last())
        } else {
            (k, m)
        }
    }
}

/// `g` holds, for each column of `cols`, a gain that `ganancia` may return for
/// the rows `s` and that column.
pub open spec fn ganancias_de<G: Fn(&[Fila], usize) -> u64>(
    g: Seq<u64>,
    s: Seq<FilaV>,
    cols: Seq<usize>,
    ganancia: G,
) -> bool {
    &&& g.len() == cols.len()
    &&& forall|i: int| 0 <= i < cols.len() ==> ganancia_posible(ganancia, s, cols[i], #[trigger] g[i])
}

/// `ganancia` may return `bits` for rows that hold `s` and the column `c`.
pub open spec fn ganancia_posible<G: Fn(&[Fila], usize) -> u64>(
    ganancia: G,
    s: Seq<FilaV>,
    c: usize,
    bits: u64,
) -> bool {
    exists|r: &[Fila]| r.deep_view() == s && #[trigger] ganancia.ensures((r, c), bits)
}

proof fn lema_ganancia_posible<G: Fn(&[Fila], usize) -> u64>(ganancia: G, r: &[Fila], c: usize, bits: u64)
    requires
        ganancia.ensures((r, c), bits),
    ensures
        ganancia_posible(ganancia, r.deep_view(), c, bits),
{
}

/// `n` is a leaf with a most frequent class of `s`.
pub open spec fn hoja_mayoritaria(n: Nodo, s: Seq<FilaV>) -> bool {
    match n {
        Nodo::Hoja(p) => es_clase_mayoritaria(s, p@),
        _ => false,
    }
}

/// The ID3 construction stops at once with a leaf: at the depth limit, with no free
/// column, or with rows of one class (none of the rows is then looked at by column).
pub open spec fn es_hoja_directa(s: Seq<FilaV>, cols: Seq<usize>, max_prof: nat, prof: nat) -> bool {
    prof >= max_prof || cols.len() == 0 || una_sola_clase(s)
}

/// `n` is a tree that the ID3 construction yields from the rows `s`, the columns
/// `cols` still free, the depth limit `max_prof` and the current depth `prof`, when
/// the information gain of a column is what `ganancia` returns:
/// - at the depth limit, with no free column, or with rows of one class: a leaf
///   with a most frequent class;
/// - else the free column of best gain is chosen (the first of the best); if that
///   gain is not above zero, a leaf with a most frequent class;
/// - else a decision node on that column with a most frequent class as default and,
///   for each value of the column in order of first appearance, the tree built from
///   the rows with that value, without that column, one level deeper.
pub open spec fn construido<G: Fn(&[Fila], usize) -> u64>(
    n: Nodo,
    s: Seq<FilaV>,
    cols: Seq<usize>,
    max_prof: nat,
    prof: nat,
    ganancia: G,
) -> bool
    decreases max_prof - prof,
{
    if prof >= max_prof || cols.len() == 0 || una_sola_clase(s) {
        hoja_mayoritaria(n, s)
    } else {
        exists|g: Seq<u64>|
            #[trigger] ganancias_de(g, s, cols, ganancia) && {
                let (k, m) = mejor_ganancia(g);
                if f64_le(m, BITS_CERO) {
                    hoja_mayoritaria(n, s)
                } else {
                    let c = cols[k];
                    let vals = valores_distintos(s, c as int);
                    match n {
                        Nodo::Hoja(_) => false,
                        Nodo::Decision { col_idx, hijos, prediccion_por_defecto } => {
                            &&& col_idx == c
                            &&& es_clase_mayoritaria(s, prediccion_por_defecto@)
                            &&& hijos@.len() == vals.len()
                            &&& forall|j: int|
                                0 <= j < vals.len() ==> (#[trigger] hijos@[j]).0@ == vals[j] && construido(
                                    hijos@[j].1,
                                    con_valor(s, c as int, vals[j]),
                                    sin_columna(cols, c),
                                    max_prof,
                                    prof + 1,
                                    ganancia,
                                )
                        },
                    }
                }
            }
    }
}

proof fn lema_mejor_ganancia(g: Seq<u64>)
    ensures
        -1 <= mejor_ganancia(g).0 < g.len(),
        !es_nan(mejor_ganancia(g).1),
        mejor_ganancia(g).0 < 0 ==> mejor_ganancia(g).1 == BITS_MENOS_UNO,
    decreases g.len(),
{
    if g.len() > 0 {
        lema_mejor_ganancia(g.drop_last());
    }
}

/// Builds the decision tree (ID3) from the rows, the free columns, the depth
/// limit and the current depth; `ganancia` gives the information gain of a column
/// over a set of rows, as the bit pattern of an `f64`.
pub fn construir_arbol<G: Fn(&[Fila], usize) -> u64>(
    filas: &[Fila],
    columnas_disponibles: Vec<usize>,
    max_prof: usize,
    prof_actual: usize,
    ganancia: &G,
) -> (nodo: Nodo)
    requires
        forall|r: &[Fila], c: usize| #[trigger] ganancia.requires((r, c)),
        !es_hoja_directa(filas.deep_view(), columnas_disponibles@, max_prof as nat, prof_actual as nat) ==> columnas_validas(
            filas.deep_view(),
            columnas_disponibles@,
        ),
    ensures
        construido(nodo, filas.deep_view(), columnas_disponibles@, max_prof as nat, prof_actual as nat, *ganancia),
    decreases max_prof - prof_actual,
{
    let ghost s = filas.deep_view();
    let ghost cols = columnas_disponibles@;
    let clase_mayoria = clase_mayoritaria(filas);
    if prof_actual >= max_prof || columnas_disponibles.len() == 0 || todas_de_una_clase(filas) {
        return Nodo::Hoja(clase_mayoria);
    }
    let mut mejor_bits: u64 = BITS_MENOS_UNO;
    let mut mejor_columna: usize = 0;
    let ghost mut mejor_k: int = -1;
    let ghost mut g: Seq<u64> = Seq::empty();
    let mut i: usize = 0;
    while i < columnas_disponibles.len()
        invariant
            i <= cols.len(),
            cols == columnas_disponibles@,
            s == filas.deep_view(),
            forall|r: &[Fila], c: usize| #[trigger] ganancia.requires((r, c)),
            g.len() == i,
            mejor_ganancia(g) == (mejor_k, mejor_bits),
            mejor_k >= 0 ==> mejor_columna == cols[mejor_k],
            forall|ii: int| 0 <= ii < i ==> ganancia_posible(*ganancia, s, cols[ii], #[trigger] g[ii]),
        decreases cols.len() - i,
    {
        let col = columnas_disponibles[i];
        let bits = ganancia(filas, col);
        proof {
            lema_ganancia_posible(*ganancia, filas, col, bits);
            let g0 = g;
            assert(g.push(bits).drop_last() =~= g);
            g = g.push(bits);
            assert(cols[i as int] == col);
            assert forall|ii: int| 0 <= ii < i + 1 implies ganancia_posible(*ganancia, s, cols[ii], #[trigger] g[ii]) by {
                if ii < i {
                    assert(g[ii] == g0[ii]);
                }
            }
        }
        if menor(mejor_bits, bits) {
            mejor_bits = bits;
            mejor_columna = col;
            proof {
                mejor_k = i as int;
            }
        }
        i = i + 1;
    }
    proof {
        assert(ganancias_de(g, s, cols, *ganancia));
        lema_mejor_ganancia(g);
    }
    if menor_o_igual(mejor_bits, BITS_CERO) {
        return Nodo::Hoja(clase_mayoria);
    }
    let ghost vals = valores_distintos(s, mejor_columna as int);
    proof {
        assert(0 <= mejor_k < cols.len());
        assert(cols[mejor_k] < s[0].0.len()) by {
            assert(s.len() > 0) by {
                if s.len() == 0 {
                    assert(una_sola_clase(s));
                }
            }
        }
        assert forall|k: int| 0 <= k < filas@.len() implies mejor_columna < #[trigger] filas@[k].caracteristicas@.len() by {
            assert(s[k].0.len() == filas@[k].caracteristicas@.len());
            assert(cols[mejor_k] < s[k].0.len());
        }
    }
    let (valores, grupos) = particionar(filas, mejor_columna);
    let nuevas_columnas = quitar_columna(&columnas_disponibles, mejor_columna);
    let mut hijos: Vec<(String, Nodo)> = Vec::new();
    let mut j: usize = 0;
    while j < valores.len()
        invariant
            j <= valores@.len(),
            grupos@.len() == valores@.len(),
            textos(valores@) == vals,
            vals == valores_distintos(s, mejor_columna as int),
            forall|jj: int| 0 <= jj < grupos@.len() ==> (#[trigger] grupos@[jj]).deep_view() == con_valor(s, mejor_columna as int, valores@[jj]@),
            nuevas_columnas@ == sin_columna(cols, mejor_columna),
            columnas_validas(s, cols),
            forall|r: &[Fila], c: usize| #[trigger] ganancia.requires((r, c)),
            prof_actual < max_prof,
            hijos@.len() == j,
            forall|jj: int|
                0 <= jj < j ==> (#[trigger] hijos@[jj]).0@ == vals[jj] && construido(
                    hijos@[jj].1,
                    con_valor(s, mejor_columna as int, vals[jj]),
                    sin_columna(cols, mejor_columna),
                    max_prof as nat,
                    (prof_actual + 1) as nat,
                    *ganancia,
                ),
        decreases valores@.len() - j,
    {
        proof {
            assert(textos(valores@)[j as int] == valores@[j as int]@);
            lema_columnas_subgrupo(s, cols, mejor_columna, valores@[j as int]@);
        }
        let sub = grupos[j].as_slice();
        let hijo = construir_arbol(sub, nuevas_columnas.clone(), max_prof, prof_actual + 1, ganancia);
        hijos.push((valores[j].clone(), hijo));
        j = j + 1;
    }
    let nodo = Nodo::Decision { col_idx: mejor_columna, hijos, prediccion_por_defecto: clase_mayoria };
    proof {
        let (k, m) = mejor_ganancia(g);
        assert(k == mejor_k && m == mejor_bits);
    }
    nodo
}

/// No path of `n` has more than `d` decision nodes.
pub open spec fn profundidad_acotada(n: Nodo, d: nat) -> bool
    decreases n,
{
    match n {
        Nodo::Hoja(_) => true,
        Nodo::Decision { col_idx, hijos, prediccion_por_defecto } => {
            &&& d >= 1
            &&& forall|k: int| 0 <= k < hijos@.len() ==> profundidad_acotada(#[trigger] hijos@[k].1, (d - 1) as nat)
        },
    }
}

/// Every decision node of `n` tests a column of `cols`, and below it only
/// columns of `cols` other than that one: no column is tested twice on a path.
pub open spec fn usa_columnas(n: Nodo, cols: Seq<usize>) -> bool
    decreases n,
{
    match n {
        Nodo::Hoja(_) => true,
        Nodo::Decision { col_idx, hijos, prediccion_por_defecto } => {
            &&& cols.contains(col_idx)
            &&& forall|k: int| 0 <= k < hijos@.len() ==> usa_columnas(#[trigger] hijos@[k].1, sin_columna(cols, col_idx))
        },
    }
}

pub proof fn lema_usa_columnas_rango(n: Nodo, cols: Seq<usize>, m: nat)
    requires
        usa_columnas(n, cols),
        forall|i: int| 0 <= i < cols.len() ==> #[trigger] cols[i] < m,
    ensures
        columnas_en_rango(n, m),
    decreases n,
{
    match n {
        Nodo::Hoja(_) => {},
        Nodo::Decision { col_idx, hijos, prediccion_por_defecto } => {
            let q = sin_columna(cols, col_idx);
            lema_sin_columna(cols, col_idx);
            assert forall|i: int| 0 <= i < q.len() implies #[trigger] q[i] < m by {
                assert(cols.contains(q[i]));
            }
            assert forall|k: int| 0 <= k < hijos@.len() implies columnas_en_rango(#[trigger] hijos@[k].1, m) by {
                assert(decreases_to!(n => hijos@[k].1));
                lema_usa_columnas_rango(hijos@[k].1, q, m);
            }
        },
    }
}

/// A tree that the construction yields tests only free columns, never one column
/// twice on a path, and no path of it is longer than the depth that was left.
pub proof fn ley_arbol_columnas_y_profundidad<G: Fn(&[Fila], usize) -> u64>(
    n: Nodo,
    s: Seq<FilaV>,
    cols: Seq<usize>,
    max_prof: nat,
    prof: nat,
    ganancia: G,
)
    requires
        construido(n, s, cols, max_prof, prof, ganancia),
    ensures
        usa_columnas(n, cols),
        profundidad_acotada(n, (max_prof - prof) as nat),
    decreases max_prof - prof,
{
    if prof >= max_prof || cols.len() == 0 || una_sola_clase(s) {
    } else {
        let g = choose|g: Seq<u64>| #[trigger] ganancias_de(g, s, cols, ganancia) && {
            let (k, m) = mejor_ganancia(g);
            if f64_le(m, BITS_CERO) {
                hoja_mayoritaria(n, s)
            } else {
                let c = cols[k];
                let vals = valores_distintos(s, c as int);
                match n {
                    Nodo::Hoja(_) => false,
                    Nodo::Decision { col_idx, hijos, prediccion_por_defecto } => {
                        &&& col_idx == c
                        &&& es_clase_mayoritaria(s, prediccion_por_defecto@)
                        &&& hijos@.len() == vals.len()
                        &&& forall|j: int|
                            0 <= j < vals.len() ==> (#[trigger] hijos@[j]).0@ == vals[j] && construido(
                                hijos@[j].1,
                                con_valor(s, c as int, vals[j]),
                                sin_columna(cols, c),
                                max_prof,
                                prof + 1,
                                ganancia,
                            )
                    },
                }
            }
        };
        lema_mejor_ganancia(g);
        let (k, m) = mejor_ganancia(g);
        if !f64_le(m, BITS_CERO) {
            let c = cols[k];
            match n {
                Nodo::Hoja(_) => {},
                Nodo::Decision { col_idx, hijos, prediccion_por_defecto } => {
                    assert(cols.contains(c));
                    assert forall|j: int| 0 <= j < hijos@.len() implies usa_columnas(#[trigger] hijos@[j].1, sin_columna(cols, col_idx))
                        && profundidad_acotada(hijos@[j].1, (max_prof - prof - 1) as nat) by {
                        let vals = valores_distintos(s, c as int);
                        assert(construido(hijos@[j].1, con_valor(s, c as int, vals[j]), sin_columna(cols, c), max_prof, prof + 1, ganancia));
                        ley_arbol_columnas_y_profundidad(hijos@[j].1, con_valor(s, c as int, vals[j]), sin_columna(cols, c), max_prof, prof + 1, ganancia);
                    }
                },
            }
        }
    }
}

/// A tree built from rows that all have one class predicts that class for every row.
pub proof fn ley_arbol_de_una_clase<G: Fn(&[Fila], usize) -> u64>(
    n: Nodo,
    s: Seq<FilaV>,
    cols: Seq<usize>,
    max_prof: nat,
    prof: nat,
    ganancia: G,
    fila: Seq<Seq<char>>,
)
    requires
        construido(n, s, cols, max_prof, prof, ganancia),
        s.len() > 0,
        una_sola_clase(s),
    ensures
        prediccion(n, fila) == s[0].1,
{
    match n {
        Nodo::Hoja(p) => {
            let k = choose|k: int| 0 <= k < s.len() && #[trigger] s[k].1 == p@;
            assert(s[k].1 == s[0].1);
        },
        _ => {},
    }
}

/// The path that the row with feature values `fila` follows through `n` takes a
/// child at every decision node, never the default class.
pub open spec fn sigue_hijos(n: Nodo, fila: Seq<Seq<char>>) -> bool
    decreases n,
{
    match n {
        Nodo::Hoja(_) => true,
        Nodo::Decision { col_idx, hijos, prediccion_por_defecto } => {
            let k = indice_hijo(hijos@, fila[col_idx as int]);
            &&& 0 <= k < hijos@.len()
            &&& sigue_hijos(hijos@[k].1, fila)
        },
    }
}

/// The rows of `s` that agree with `fila` on every column that the decision nodes
/// of `n` on the path of `fila` test, down to where that path ends.
pub open spec fn filas_del_camino(n: Nodo, s: Seq<FilaV>, fila: Seq<Seq<char>>) -> Seq<FilaV>
    decreases n,
{
    match n {
        Nodo::Hoja(_) => s,
        Nodo::Decision { col_idx, hijos, prediccion_por_defecto } => {
            let k = indice_hijo(hijos@, fila[col_idx as int]);
            if 0 <= k < hijos@.len() {
                filas_del_camino(hijos@[k].1, con_valor(s, col_idx as int, fila[col_idx as int]), fila)
            } else {
                s
            }
        },
    }
}

proof fn lema_con_valor_contiene(s: Seq<FilaV>, c: int, k: int)
    requires
        0 <= k < s.len(),
    ensures
        con_valor(s, c, s[k].0[c]).contains(s[k]),
        valores_distintos(s, c).contains(s[k].0[c]),
    decreases s.len(),
{
    let d = s.drop_last();
    let v = s[k].0[c];
    if k < s.len() - 1 {
        assert(d[k] == s[k]);
        lema_con_valor_contiene(d, c, k);
        let i = choose|i: int| 0 <= i < con_valor(d, c, v).len() && con_valor(d, c, v)[i] == s[k];
        if s.last().0[c] == v {
            assert(con_valor(s, c, v)[i] == s[k]);
        } else {
            assert(con_valor(s, c, v)[i] == s[k]);
        }
        let j = choose|j: int| 0 <= j < valores_distintos(d, c).len() && valores_distintos(d, c)[j] == v;
        assert(valores_distintos(s, c)[j] == v);
    } else {
        assert(s.last() == s[k]);
        let q = con_valor(s, c, v);
        assert(q[q.len() - 1] == s[k]);
        let w = valores_distintos(s, c);
        if valores_distintos(d, c).contains(v) {
            let j = choose|j: int| 0 <= j < valores_distintos(d, c).len() && valores_distintos(d, c)[j] == v;
            assert(w[j] == v);
        } else {
            assert(w[w.len() - 1] == v);
        }
    }
}

/// Predicting a row the tree was built from never falls back on a default class:
/// at every decision node the row finds the child for its value, and the class
/// predicted is a most frequent class of the rows that agree with it on every
/// column tested along its path (the row being one of them).
pub proof fn ley_prediccion_de_fila_de_entrenamiento<G: Fn(&[Fila], usize) -> u64>(
    n: Nodo,
    s: Seq<FilaV>,
    cols: Seq<usize>,
    max_prof: nat,
    prof: nat,
    ganancia: G,
    k: int,
)
    requires
        construido(n, s, cols, max_prof, prof, ganancia),
        columnas_validas(s, cols),
        0 <= k < s.len(),
    ensures
        sigue_hijos(n, s[k].0),
        filas_del_camino(n, s, s[k].0).contains(s[k]),
        es_clase_mayoritaria(filas_del_camino(n, s, s[k].0), prediccion(n, s[k].0)),
    decreases max_prof - prof,
{
    if es_hoja_directa(s, cols, max_prof, prof) {
        assert(s.contains(s[k]));
    } else {
        let g = choose|g: Seq<u64>| #[trigger] ganancias_de(g, s, cols, ganancia) && {
            let (kk, m) = mejor_ganancia(g);
            if f64_le(m, BITS_CERO) {
                hoja_mayoritaria(n, s)
            } else {
                let c = cols[kk];
                let vals = valores_distintos(s, c as int);
                match n {
                    Nodo::Hoja(_) => false,
                    Nodo::Decision { col_idx, hijos, prediccion_por_defecto } => {
                        &&& col_idx == c
                        &&& es_clase_mayoritaria(s, prediccion_por_defecto@)
                        &&& hijos@.len() == vals.len()
                        &&& forall|j: int|
                            0 <= j < vals.len() ==> (#[trigger] hijos@[j]).0@ == vals[j] && construido(
                                hijos@[j].1,
                                con_valor(s, c as int, vals[j]),
                                sin_columna(cols, c),
                                max_prof,
                                prof + 1,
                                ganancia,
                            )
                    },
                }
            }
        };
        lema_mejor_ganancia(g);
        let (kk, m) = mejor_ganancia(g);
        if f64_le(m, BITS_CERO) {
            assert(s.contains(s[k]));
        } else {
            let c = cols[kk];
            let vals = valores_distintos(s, c as int);
            match n {
                Nodo::Hoja(_) => {},
                Nodo::Decision { col_idx, hijos, prediccion_por_defecto } => {
                    let fila = s[k].0;
                    assert(c < fila.len());
                    let v = fila[c as int];
                    lema_con_valor_contiene(s, c as int, k);
                    lema_valores_distintos_unicos(s, c as int);
                    let j = choose|j: int| 0 <= j < vals.len() && vals[j] == v;
                    assert(hijos@[j].0@ == v);
                    lema_indice_hijo(hijos@, v);
                    let i = indice_hijo(hijos@, v);
                    assert(i == j) by {
                        if i < j {
                            assert(hijos@[i].0@ == vals[i]);
                        }
                    }
                    let t = con_valor(s, c as int, v);
                    let ki = choose|ki: int| 0 <= ki < t.len() && t[ki] == s[k];
                    assert(construido(hijos@[j].1, t, sin_columna(cols, c), max_prof, prof + 1, ganancia));
                    lema_columnas_subgrupo(s, cols, c, v);
                    assert(decreases_to!(n => hijos@[j].1));
                    ley_prediccion_de_fila_de_entrenamiento(hijos@[j].1, t, sin_columna(cols, c), max_prof, prof + 1, ganancia, ki);
                },
            }
        }
    }
}

/// At every decision node of `n`, no two children are for the same value: the
/// children form a map from values to subtrees.
pub open spec fn hijos_unicos(n: Nodo) -> bool
    decreases n,
{
    match n {
        Nodo::Hoja(_) => true,
        Nodo::Decision { col_idx, hijos, prediccion_por_defecto } => {
            &&& forall|a: int, b: int| 0 <= a < b < hijos@.len() ==> (#[trigger] hijos@[a]).0@ != (#[trigger] hijos@[b]).0@
            &&& forall|k: int| 0 <= k < hijos@.len() ==> hijos_unicos(#[trigger] hijos@[k].1)
        },
    }
}

/// In a tree that the construction yields, every decision node has one child per
/// value, never two for the same value.
pub proof fn ley_arbol_hijos_unicos<G: Fn(&[Fila], usize) -> u64>(
    n: Nodo,
    s: Seq<FilaV>,
    cols: Seq<usize>,
    max_prof: nat,
    prof: nat,
    ganancia: G,
)
    requires
        construido(n, s, cols, max_prof, prof, ganancia),
    ensures
        hijos_unicos(n),
    decreases max_prof - prof,
{
    if !es_hoja_directa(s, cols, max_prof, prof) {
        let g = choose|g: Seq<u64>| #[trigger] ganancias_de(g, s, cols, ganancia) && {
            let (kk, m) = mejor_ganancia(g);
            if f64_le(m, BITS_CERO) {
                hoja_mayoritaria(n, s)
            } else {
                let c = cols[kk];
                let vals = valores_distintos(s, c as int);
                match n {
                    Nodo::Hoja(_) => false,
                    Nodo::Decision { col_idx, hijos, prediccion_por_defecto } => {
                        &&& col_idx == c
                        &&& es_clase_mayoritaria(s, prediccion_por_defecto@)
                        &&& hijos@.len() == vals.len()
                        &&& forall|j: int|
                            0 <= j < vals.len() ==> (#[trigger] hijos@[j]).0@ == vals[j] && construido(
                                hijos@[j].1,
                                con_valor(s, c as int, vals[j]),
                                sin_columna(cols, c),
                                max_prof,
                                prof + 1,
                                ganancia,
                            )
                    },
                }
            }
        };
        let (kk, m) = mejor_ganancia(g);
        if !f64_le(m, BITS_CERO) {
            let c = cols[kk];
            let vals = valores_distintos(s, c as int);
            match n {
                Nodo::Hoja(_) => {},
                Nodo::Decision { col_idx, hijos, prediccion_por_defecto } => {
                    lema_valores_distintos_unicos(s, c as int);
                    assert forall|a: int, b: int| 0 <= a < b < hijos@.len() implies (#[trigger] hijos@[a]).0@
                        != (#[trigger] hijos@[b]).0@ by {
                        assert(hijos@[a].0@ == vals[a] && hijos@[b].0@ == vals[b]);
                    }
                    assert forall|j: int| 0 <= j < hijos@.len() implies hijos_unicos(#[trigger] hijos@[j].1) by {
                        assert(construido(hijos@[j].1, con_valor(s, c as int, vals[j]), sin_columna(cols, c), max_prof, prof + 1, ganancia));
                        ley_arbol_hijos_unicos(hijos@[j].1, con_valor(s, c as int, vals[j]), sin_columna(cols, c), max_prof, prof + 1, ganancia);
                    }
                },
            }
        }
    }
}

/// The columns handed to the subtrees are the free columns other than the chosen
/// one, in their order: every other free column stays, and only the chosen one goes.
pub proof fn ley_sin_columna(cols: Seq<usize>, c: usize)
    ensures
        sin_columna(cols, c) == cols.filter(|x: usize| x != c),
        forall|x: usize| #[trigger] sin_columna(cols, c).contains(x) <==> (cols.contains(x) && x != c),
    decreases cols.len(),
{
    if cols.len() == 0 {
        reveal(Seq::filter);
    } else {
        let d = cols.drop_last();
        ley_sin_columna(d, c);
        let p = sin_columna(d, c);
        let y = cols.last();
        let r = sin_columna(cols, c);
        assert(r == if y != c { p.push(y) } else { p });
        let f = |x: usize| x != c;
        reveal(Seq::filter);
        assert(cols.filter(f) == if f(y) { d.filter(f).push(y) } else { d.filter(f) });
        assert forall|x: usize| #[trigger] r.contains(x) implies cols.contains(x) && x != c by {
            let j = choose|j: int| 0 <= j < r.len() && r[j] == x;
            if j < p.len() {
                assert(p[j] == x);
                assert(p.contains(x));
                assert(sin_columna(d, c).contains(x));
                let k = choose|k: int| 0 <= k < d.len() && d[k] == x;
                assert(cols[k] == x);
            } else {
                assert(cols[cols.len() - 1] == x);
            }
        }
        assert forall|x: usize| cols.contains(x) && x != c implies #[trigger] r.contains(x) by {
            let k = choose|k: int| 0 <= k < cols.len() && cols[k] == x;
            if k < cols.len() - 1 {
                assert(d[k] == x);
                assert(d.contains(x));
                assert(sin_columna(d, c).contains(x));
                let j = choose|j: int| 0 <= j < p.len() && p[j] == x;
                assert(r[j] == x);
            } else {
                assert(r[r.len() - 1] == x);
            }
        }
    }
}

/// The best gain among `g`: the first one that is greater than -1.0 and than every
/// gain before it, and no gain is greater than it; -1.0 when none is greater.
proof fn lema_mejor_ganancia_maxima(g: Seq<u64>)
    ensures
        ({
            let (k, m) = mejor_ganancia(g);
            &&& -1 <= k < g.len()
            &&& k < 0 ==> m == BITS_MENOS_UNO && forall|q: int| 0 <= q < g.len() ==> !f64_lt(BITS_MENOS_UNO, #[trigger] g[q])
            &&& k >= 0 ==> {
                &&& m == g[k]
                &&& f64_lt(BITS_MENOS_UNO, m)
                &&& forall|q: int| 0 <= q < g.len() ==> !f64_lt(m, #[trigger] g[q])
                &&& forall|q: int| 0 <= q < k ==> !f64_le(m, #[trigger] g[q])
            }
        }),
    decreases g.len(),
{
    assert(!es_nan(BITS_MENOS_UNO));
    if g.len() > 0 {
        let d = g.drop_last();
        lema_mejor_ganancia_maxima(d);
        let (k0, m0) = mejor_ganancia(d);
        let x = g.last();
        assert(g[g.len() - 1] == x);
        assert forall|q: int| 0 <= q < g.len() - 1 implies #[trigger] d[q] == g[q] by {}
        assert(!es_nan(m0));
        if f64_lt(m0, x) {
            assert(mejor_ganancia(g) == (g.len() - 1, x));
            assert forall|q: int| 0 <= q < g.len() implies !f64_lt(x, #[trigger] g[q]) by {
                if q < g.len() - 1 {
                    assert(!f64_lt(m0, d[q]));
                }
            }
            assert forall|q: int| 0 <= q < g.len() - 1 implies !f64_le(x, #[trigger] g[q]) by {
                assert(!f64_lt(m0, d[q]));
            }
        } else {
            assert(mejor_ganancia(g) == (k0, m0));
            assert forall|q: int| 0 <= q < g.len() implies !f64_lt(m0, #[trigger] g[q]) by {
                if q < g.len() - 1 {
                    assert(!f64_lt(m0, d[q]));
                }
            }
            if k0 >= 0 {
                assert forall|q: int| 0 <= q < k0 implies !f64_le(m0, #[trigger] g[q]) by {
                    assert(!f64_le(m0, d[q]));
                }
            }
        }
    }
}

/// Where the construction does not stop at once, it splits on the free column of
/// greatest information gain, the first of them when several share it, provided
/// that gain is above zero; when no gain is above zero it gives a leaf.
pub proof fn ley_raiz_de_mayor_ganancia<G: Fn(&[Fila], usize) -> u64>(
    n: Nodo,
    s: Seq<FilaV>,
    cols: Seq<usize>,
    max_prof: nat,
    prof: nat,
    ganancia: G,
)
    requires
        construido(n, s, cols, max_prof, prof, ganancia),
        !es_hoja_directa(s, cols, max_prof, prof),
    ensures
        exists|g: Seq<u64>|
            #[trigger] ganancias_de(g, s, cols, ganancia) && {
                &&& (forall|q: int| 0 <= q < cols.len() ==> !f64_lt(BITS_CERO, #[trigger] g[q])) ==> n is Hoja
                &&& (exists|q: int| 0 <= q < cols.len() && f64_lt(BITS_CERO, #[trigger] g[q])) ==> exists|k: int|
                    0 <= k < cols.len() && n is Decision && n->col_idx == cols[k] && f64_lt(BITS_CERO, #[trigger] g[k])
                        && (forall|q: int| 0 <= q < cols.len() ==> !f64_lt(g[k], #[trigger] g[q])) && (forall|q: int|
                        0 <= q < k ==> !f64_le(g[k], #[trigger] g[q]))
            },
{
    let g = choose|g: Seq<u64>| #[trigger] ganancias_de(g, s, cols, ganancia) && {
        let (kk, m) = mejor_ganancia(g);
        if f64_le(m, BITS_CERO) {
            hoja_mayoritaria(n, s)
        } else {
            let c = cols[kk];
            let vals = valores_distintos(s, c as int);
            match n {
                Nodo::Hoja(_) => false,
                Nodo::Decision { col_idx, hijos, prediccion_por_defecto } => {
                    &&& col_idx == c
                    &&& es_clase_mayoritaria(s, prediccion_por_defecto@)
                    &&& hijos@.len() == vals.len()
                    &&& forall|j: int|
                        0 <= j < vals.len() ==> (#[trigger] hijos@[j]).0@ == vals[j] && construido(
                            hijos@[j].1,
                            con_valor(s, c as int, vals[j]),
                            sin_columna(cols, c),
                            max_prof,
                            prof + 1,
                            ganancia,
                        )
                },
            }
        }
    };
    lema_mejor_ganancia_maxima(g);
    let (kk, m) = mejor_ganancia(g);
    if exists|q: int| 0 <= q < cols.len() && f64_lt(BITS_CERO, #[trigger] g[q]) {
        let q = choose|q: int| 0 <= q < cols.len() && f64_lt(BITS_CERO, #[trigger] g[q]);
        assert(f64_lt(BITS_MENOS_UNO, g[q]));
        assert(kk >= 0);
        assert(!f64_le(m, BITS_CERO));
        assert(f64_lt(BITS_CERO, g[kk]));
    }
}

/// The rows of a group are exactly the rows whose value in the column is the
/// group's, in their order.
pub proof fn ley_con_valor(s: Seq<FilaV>, c: int, v: Seq<char>)
    ensures
        con_valor(s, c, v) == s.filter(|r: FilaV| r.0[c] == v),
    decreases s.len(),
{
    reveal(Seq::filter);
    if s.len() > 0 {
        ley_con_valor(s.drop_last(), c, v);
    }
}

/// The values of a column that the partition lists are each value that some row
/// has in the column, each once.
pub proof fn ley_valores_distintos(s: Seq<FilaV>, c: int)
    ensures
        forall|x: Seq<char>| #[trigger] valores_distintos(s, c).contains(x) <==> exists|k: int| 0 <= k < s.len() && #[trigger] s[k].0[c] == x,
        forall|a: int, b: int|
            0 <= a < b < valores_distintos(s, c).len() ==> #[trigger] valores_distintos(s, c)[a] != #[trigger] valores_distintos(s, c)[b],
    decreases s.len(),
{
    lema_valores_distintos_unicos(s, c);
    if s.len() > 0 {
        let d = s.drop_last();
        ley_valores_distintos(d, c);
        let p = valores_distintos(d, c);
        let w = valores_distintos(s, c);
        let y = s.last().0[c];
        assert(w == if p.contains(y) { p } else { p.push(y) });
        assert forall|x: Seq<char>| #[trigger] w.contains(x) implies exists|k: int| 0 <= k < s.len() && #[trigger] s[k].0[c] == x by {
            let j = choose|j: int| 0 <= j < w.len() && w[j] == x;
            if j < p.len() {
                assert(p[j] == x);
                assert(p.contains(x));
                let k = choose|k: int| 0 <= k < d.len() && #[trigger] d[k].0[c] == x;
                assert(s[k] == d[k]);
            } else {
                assert(s[s.len() - 1].0[c] == x);
            }
        }
        assert forall|x: Seq<char>| (exists|k: int| 0 <= k < s.len() && #[trigger] s[k].0[c] == x) implies #[trigger] w.contains(x) by {
            let k = choose|k: int| 0 <= k < s.len() && #[trigger] s[k].0[c] == x;
            if k < s.len() - 1 {
                assert(d[k] == s[k]);
                assert(p.contains(x));
                let j = choose|j: int| 0 <= j < p.len() && p[j] == x;
                assert(w[j] == x);
            } else {
                assert(s.last().0[c] == x);
                if !p.contains(y) {
                    assert(w[w.len() - 1] == x);
                }
            }
        }
    }
}

} // verus!

use vstd::prelude::*;
use crate::arbol::textos;
use crate::texto::{campo, entero_o_cero, leer_entero_o_cero};

verus! {

/// Position of the first text of `v` equal to `c`, or -1.
pub open spec fn posicion(v: Seq<Seq<char>>, c: Seq<char>) -> int
    decreases v.len(),
{
    if v.len() == 0 {
        -1
    } else {
        let p = posicion(v.drop_last(), c);
        if p >= 0 {
            p
        } else if v.last() == c {
            v.len() - 1
        } else {
            -1
        }
    }
}

proof fn lema_posicion(v: Seq<Seq<char>>, c: Seq<char>)
    ensures
        -1 <= posicion(v, c) < v.len(),
        posicion(v, c) >= 0 ==> v[posicion(v, c)] == c,
        forall|k: int| 0 <= k < v.len() && v[k] == c ==> posicion(v, c) >= 0 && posicion(v, c) <= k,
    decreases v.len(),
{
    if v.len() > 0 {
        let d = v.drop_last();
        lema_posicion(d, c);
        assert forall|k: int| 0 <= k < v.len() - 1 implies #[trigger] d[k] == v[k] by {}
        assert forall|k: int| 0 <= k < v.len() && v[k] == c implies posicion(v, c) >= 0 && posicion(v, c) <= k by {
            if k < v.len() - 1 {
                assert(d[k] == c);
            }
        }
    }
}

/// Position of the first header equal to `nombre`, if any.
pub fn buscar_columna(cabeceras: &Vec<String>, nombre: &String) -> (r: Option<usize>)
    ensures
        match r {
            Some(k) => k == posicion(textos(cabeceras@), nombre@),
            None => posicion(textos(cabeceras@), nombre@) == -1,
        },
{
    let ghost v = textos(cabeceras@);
    proof {
        lema_posicion(v, nombre@);
    }
    let mut k: usize = 0;
    while k < cabeceras.len()
        invariant
            k <= cabeceras@.len(),
            v == textos(cabeceras@),
            forall|j: int| 0 <= j < k ==> v[j] != nombre@,
            -1 <= posicion(v, nombre@) < v.len(),
            posicion(v, nombre@) >= 0 ==> v[posicion(v, nombre@)] == nombre@,
            forall|j: int| 0 <= j < v.len() && v[j] == nombre@ ==> posicion(v, nombre@) >= 0 && posicion(v, nombre@) <= j,
        decreases cabeceras@.len() - k,
    {
        if cabeceras[k] == *nombre {
            proof {
                assert(v[k as int] == nombre@);
            }
            return Some(k);
        }
        k = k + 1;
    }
    None
}

/// The positions of `v`, in order, whose text is not among `ignoradas`.
pub open spec fn no_ignoradas(v: Seq<Seq<char>>, ignoradas: Seq<Seq<char>>) -> Seq<usize>
    decreases v.len(),
{
    if v.len() == 0 {
        seq![]
    } else {
        let p = no_ignoradas(v.drop_last(), ignoradas);
        if ignoradas.contains(v.last()) {
            p
        } else {
            p.push((v.len() - 1) as usize)
        }
    }
}

/// Whether `c` is among the texts of `v`.
pub fn contiene_texto(v: &Vec<String>, c: &String) -> (r: bool)
    ensures
        r == textos(v@).contains(c@),
{
    let mut k: usize = 0;
    while k < v.len()
        invariant
            k <= v@.len(),
            forall|j: int| 0 <= j < k ==> v@[j]@ != c@,
        decreases v@.len() - k,
    {
        if v[k] == *c {
            proof {
                assert(textos(v@)[k as int] == c@);
            }
            return true;
        }
        k = k + 1;
    }
    proof {
        if textos(v@).contains(c@) {
            let j = choose|j: int| 0 <= j < textos(v@).len() && textos(v@)[j] == c@;
            assert(v@[j]@ == c@);
        }
    }
    false
}

/// The positions of the headers that are not among `ignoradas`, in order.
pub fn columnas_no_ignoradas(cabeceras: &Vec<String>, ignoradas: &Vec<String>) -> (r: Vec<usize>)
    ensures
        r@ == no_ignoradas(textos(cabeceras@), textos(ignoradas@)),
{
    let ghost v = textos(cabeceras@);
    let mut r: Vec<usize> = Vec::new();
    let mut col: usize = 0;
    while col < cabeceras.len()
        invariant
            col <= cabeceras@.len(),
            v == textos(cabeceras@),
            r@ == no_ignoradas(v.take(col as int), textos(ignoradas@)),
        decreases cabeceras@.len() - col,
    {
        proof {
            assert(v.take(col + 1).drop_last() =~= v.take(col as int));
            assert(v.take(col + 1).last() == cabeceras@[col as int]@);
        }
        if !contiene_texto(ignoradas, &cabeceras[col]) {
            r.push(col);
        }
        col = col + 1;
    }
    proof {
        assert(v.take(cabeceras@.len() as int) =~= v);
    }
    r
}

/// The positions `0..n` other than `a` and `b`, in order.
pub open spec fn posiciones_salvo(n: nat, a: usize, b: usize) -> Seq<usize>
    decreases n,
{
    if n == 0 {
        seq![]
    } else {
        let p = posiciones_salvo((n - 1) as nat, a, b);
        let i = (n - 1) as usize;
        if i != a && i != b {
            p.push(i)
        } else {
            p
        }
    }
}

/// The columns of the features: all but the class (`indice_ganador`) and the
/// identifier (`indice_id`), in order.
pub fn indices_de_caracteristicas(num_columnas: usize, indice_ganador: usize, indice_id: usize) -> (r: Vec<usize>)
    ensures
        r@ == posiciones_salvo(num_columnas as nat, indice_ganador, indice_id),
{
    let mut r: Vec<usize> = Vec::new();
    let mut i: usize = 0;
    while i < num_columnas
        invariant
            i <= num_columnas,
            r@ == posiciones_salvo(i as nat, indice_ganador, indice_id),
        decreases num_columnas - i,
    {
        if i != indice_ganador && i != indice_id {
            r.push(i);
        }
        i = i + 1;
    }
    r
}

/// Position of the last text of `v` equal to `c`, or -1: what a map filled in
/// order from `v` keeps for the key `c`.
pub open spec fn ultima_posicion(v: Seq<Seq<char>>, c: Seq<char>) -> int
    decreases v.len(),
{
    if v.len() == 0 {
        -1
    } else if v.last() == c {
        v.len() - 1
    } else {
        ultima_posicion(v.drop_last(), c)
    }
}

proof fn lema_ultima_posicion(v: Seq<Seq<char>>, c: Seq<char>)
    ensures
        -1 <= ultima_posicion(v, c) < v.len(),
        ultima_posicion(v, c) >= 0 ==> v[ultima_posicion(v, c)] == c,
        forall|k: int| ultima_posicion(v, c) < k < v.len() ==> v[k] != c,
    decreases v.len(),
{
    if v.len() > 0 && v.last() != c {
        let d = v.drop_last();
        lema_ultima_posicion(d, c);
        assert forall|k: int| 0 <= k < v.len() - 1 implies #[trigger] d[k] == v[k] by {}
        assert forall|k: int| ultima_posicion(v, c) < k < v.len() implies v[k] != c by {
            if k < v.len() - 1 {
                assert(d[k] != c);
            }
        }
    }
}

/// Position of the record, among those read in order with the identifiers `ids`,
/// that a lookup by `id` finds: the last one with that identifier.
pub fn buscar_registro(ids: &Vec<String>, id: &String) -> (r: Option<usize>)
    ensures
        match r {
            Some(k) => k == ultima_posicion(textos(ids@), id@),
            None => ultima_posicion(textos(ids@), id@) == -1,
        },
{
    let ghost v = textos(ids@);
    proof {
        lema_ultima_posicion(v, id@);
    }
    let mut k: usize = ids.len();
    while k > 0
        invariant
            k <= ids@.len(),
            v == textos(ids@),
            forall|j: int| k <= j < v.len() ==> v[j] != id@,
            -1 <= ultima_posicion(v, id@) < v.len(),
            ultima_posicion(v, id@) >= 0 ==> v[ultima_posicion(v, id@)] == id@,
            forall|j: int| ultima_posicion(v, id@) < j < v.len() ==> v[j] != id@,
        decreases k,
    {
        if ids[k - 1] == *id {
            proof {
                assert(v[k - 1] == id@);
            }
            return Some(k - 1);
        }
        k = k - 1;
    }
    None
}

/// The columns among `1..num_columnas` (column 0 holds an identifier) where not all
/// rows of `filas` hold the same text, in order.
pub open spec fn columnas_variables(filas: Seq<Seq<Seq<char>>>, num_columnas: nat) -> Seq<usize>
    decreases num_columnas,
{
    if num_columnas == 0 {
        seq![]
    } else {
        let p = columnas_variables(filas, (num_columnas - 1) as nat);
        let c = num_columnas - 1;
        if c != 0 && exists|i: int, j: int| 0 <= i < filas.len() && 0 <= j < filas.len() && #[trigger] filas[i][c] != #[trigger] filas[j][c] {
            p.push(c as usize)
        } else {
            p
        }
    }
}

/// The texts of each row.
pub open spec fn tabla(filas: Seq<Vec<String>>) -> Seq<Seq<Seq<char>>> {
    filas.map_values(|f: Vec<String>| textos(f@))
}

/// Whether not all rows hold the same text in column `c`.
fn columna_variable(filas: &Vec<Vec<String>>, c: usize) -> (r: bool)
    requires
        forall|i: int| 0 <= i < filas@.len() ==> c < #[trigger] filas@[i]@.len(),
    ensures
        r == exists|i: int, j: int|
            0 <= i < filas@.len() && 0 <= j < filas@.len() && #[trigger] tabla(filas@)[i][c as int] != #[trigger] tabla(filas@)[j][c as int],
{
    let ghost t = tabla(filas@);
    if filas.len() == 0 {
        return false;
    }
    let mut i: usize = 1;
    while i < filas.len()
        invariant
            1 <= i <= filas@.len(),
            t == tabla(filas@),
            forall|k: int| 0 <= k < filas@.len() ==> c < #[trigger] filas@[k]@.len(),
            forall|k: int| 0 <= k < i ==> #[trigger] t[k][c as int] == t[0][c as int],
        decreases filas@.len() - i,
    {
        if filas[i][c] != filas[0][c] {
            proof {
                assert(t[i as int][c as int] == filas@[i as int]@[c as int]@);
                assert(t[0][c as int] == filas@[0]@[c as int]@);
            }
            return true;
        }
        proof {
            assert(t[i as int][c as int] == filas@[i as int]@[c as int]@);
            assert(t[0][c as int] == filas@[0]@[c as int]@);
        }
        i = i + 1;
    }
    proof {
        assert forall|a: int, b: int| 0 <= a < filas@.len() && 0 <= b < filas@.len() implies #[trigger] t[a][c as int] == #[trigger] t[b][c as int] by {
            assert(t[a][c as int] == t[0][c as int]);
            assert(t[b][c as int] == t[0][c as int]);
        }
    }
    false
}

/// The columns worth keeping: not column 0 (an identifier), and only those where
/// not all rows hold the same text. The texts are those that the rows hold once
/// numbers are written in one form.
pub fn columnas_no_constantes(filas: &Vec<Vec<String>>, num_columnas: usize) -> (r: Vec<usize>)
    requires
        forall|i: int| 0 <= i < filas@.len() ==> num_columnas <= #[trigger] filas@[i]@.len(),
    ensures
        r@ == columnas_variables(tabla(filas@), num_columnas as nat),
{
    let mut r: Vec<usize> = Vec::new();
    let mut c: usize = 0;
    while c < num_columnas
        invariant
            c <= num_columnas,
            forall|i: int| 0 <= i < filas@.len() ==> num_columnas <= #[trigger] filas@[i]@.len(),
            r@ == columnas_variables(tabla(filas@), c as nat),
        decreases num_columnas - c,
    {
        if c != 0 && columna_variable(filas, c) {
            r.push(c);
        }
        c = c + 1;
    }
    r
}

/// The items of `indices` outside the positions `inicio..fin`, and those inside,
/// each in order.
pub fn separar_indices(indices: &Vec<usize>, inicio: usize, fin: usize) -> (r: (Vec<usize>, Vec<usize>))
    requires
        inicio <= fin <= indices@.len(),
    ensures
        r.0@ == indices@.subrange(0, inicio as int) + indices@.subrange(fin as int, indices@.len() as int),
        r.1@ == indices@.subrange(inicio as int, fin as int),
{
    let mut fuera: Vec<usize> = Vec::new();
    let mut dentro: Vec<usize> = Vec::new();
    let mut k: usize = 0;
    while k < indices.len()
        invariant
            k <= indices@.len(),
            inicio <= fin <= indices@.len(),
            dentro@ == indices@.subrange(
                if k < inicio { k as int } else { inicio as int },
                if k < inicio { k as int } else if k < fin { k as int } else { fin as int },
            ),
            fuera@ == if k <= inicio {
                indices@.subrange(0, k as int)
            } else if k <= fin {
                indices@.subrange(0, inicio as int)
            } else {
                indices@.subrange(0, inicio as int) + indices@.subrange(fin as int, k as int)
            },
        decreases indices@.len() - k,
    {
        if k >= inicio && k < fin {
            dentro.push(indices[k]);
        } else {
            fuera.push(indices[k]);
        }
        k = k + 1;
        proof {
            assert(dentro@ =~= indices@.subrange(
                if k < inicio { k as int } else { inicio as int },
                if k < inicio { k as int } else if k < fin { k as int } else { fin as int },
            ));
            assert(fuera@ =~= if k <= inicio {
                indices@.subrange(0, k as int)
            } else if k <= fin {
                indices@.subrange(0, inicio as int)
            } else {
                indices@.subrange(0, inicio as int) + indices@.subrange(fin as int, k as int)
            });
        }
    }
    proof {
        if fin == indices@.len() {
            assert(fuera@ =~= indices@.subrange(0, inicio as int) + indices@.subrange(fin as int, indices@.len() as int));
        }
    }
    (fuera, dentro)
}

/// Last second of play whose actions are counted (minute 20).
pub const TIEMPO_SNAPSHOT_SEGUNDOS: i32 = 1200;

/// Shortest length of a game that is kept, in seconds (20 minutes).
pub const DURACION_MINIMA_SEGUNDOS: i32 = 1200;

/// Number of leading rows of `t` whose time (field `idx_ts`) is within the snapshot:
/// the rows counted before the first later one.
pub open spec fn filas_a_tiempo(t: Seq<Seq<Seq<char>>>, idx_ts: int) -> nat
    decreases t.len(),
{
    if t.len() == 0 {
        0
    } else {
        let p = filas_a_tiempo(t.drop_last(), idx_ts);
        if p == t.len() - 1 && entero_o_cero(t.last(), idx_ts) <= TIEMPO_SNAPSHOT_SEGUNDOS {
            t.len()
        } else {
            p
        }
    }
}

/// The text of the player field that marks player one.
pub open spec fn texto_p1() -> Seq<char> {
    seq!['p', '1']
}

/// The text of the player field that marks player two.
pub open spec fn texto_p2() -> Seq<char> {
    seq!['p', '2']
}

/// Kind of an action: 0 any, 1 a queue (`Queue`), 2 a building (`Build`), 3 an order
/// (`Order` or `Target`).
pub open spec fn de_categoria(tipo: Seq<char>, categoria: nat) -> bool {
    if categoria == 0 {
        true
    } else if categoria == 1 {
        tipo == seq!['Q', 'u', 'e', 'u', 'e']
    } else if categoria == 2 {
        tipo == seq!['B', 'u', 'i', 'l', 'd']
    } else {
        tipo == seq!['O', 'r', 'd', 'e', 'r'] || tipo == seq!['T', 'a', 'r', 'g', 'e', 't']
    }
}

/// Number of rows of `t` by player `jugador` (field `idx_jugador`) whose action
/// (field `idx_tipo`) is of the kind `categoria`.
pub open spec fn cuenta_acciones(
    t: Seq<Seq<Seq<char>>>,
    idx_jugador: int,
    jugador: Seq<char>,
    idx_tipo: int,
    categoria: nat,
) -> nat
    decreases t.len(),
{
    if t.len() == 0 {
        0
    } else {
        cuenta_acciones(t.drop_last(), idx_jugador, jugador, idx_tipo, categoria) + if campo(
            t.last(),
            idx_jugador,
            Seq::empty(),
        ) == jugador && de_categoria(campo(t.last(), idx_tipo, Seq::empty()), categoria) {
            1nat
        } else {
            0nat
        }
    }
}

/// The actions of each player of a game up to the snapshot: all of them, the
/// queued ones, the buildings and the orders.
pub struct ConteoAcciones {
    pub p1_acciones: usize,
    pub p2_acciones: usize,
    pub p1_colas: usize,
    pub p2_colas: usize,
    pub p1_construcciones: usize,
    pub p2_construcciones: usize,
    pub p1_ordenes: usize,
    pub p2_ordenes: usize,
}

/// The counts that the rows `t` give, with the fields at `idx_ts`, `idx_tipo` and `idx_jugador`.
pub open spec fn conteo_correcto(c: ConteoAcciones, t: Seq<Seq<Seq<char>>>, idx_ts: int, idx_tipo: int, idx_jugador: int) -> bool {
    let u = t.take(filas_a_tiempo(t, idx_ts) as int);
    &&& c.p1_acciones == cuenta_acciones(u, idx_jugador, texto_p1(), idx_tipo, 0)
    &&& c.p2_acciones == cuenta_acciones(u, idx_jugador, texto_p2(), idx_tipo, 0)
    &&& c.p1_colas == cuenta_acciones(u, idx_jugador, texto_p1(), idx_tipo, 1)
    &&& c.p2_colas == cuenta_acciones(u, idx_jugador, texto_p2(), idx_tipo, 1)
    &&& c.p1_construcciones == cuenta_acciones(u, idx_jugador, texto_p1(), idx_tipo, 2)
    &&& c.p2_construcciones == cuenta_acciones(u, idx_jugador, texto_p2(), idx_tipo, 2)
    &&& c.p1_ordenes == cuenta_acciones(u, idx_jugador, texto_p1(), idx_tipo, 3)
    &&& c.p2_ordenes == cuenta_acciones(u, idx_jugador, texto_p2(), idx_tipo, 3)
}

proof fn lema_cuenta_paso(t: Seq<Seq<Seq<char>>>, i: int, idx_jugador: int, jugador: Seq<char>, idx_tipo: int, categoria: nat)
    requires
        0 <= i < t.len(),
    ensures
        cuenta_acciones(t.take(i + 1), idx_jugador, jugador, idx_tipo, categoria) == cuenta_acciones(
            t.take(i),
            idx_jugador,
            jugador,
            idx_tipo,
            categoria,
        ) + if campo(t[i], idx_jugador, Seq::empty()) == jugador && de_categoria(campo(t[i], idx_tipo, Seq::empty()), categoria) {
            1nat
        } else {
            0nat
        },
        cuenta_acciones(t.take(i), idx_jugador, jugador, idx_tipo, categoria) <= i,
{
    assert(t.take(i + 1).drop_last() =~= t.take(i));
    lema_cuenta_cota(t.take(i), idx_jugador, jugador, idx_tipo, categoria);
}

proof fn lema_cuenta_cota(t: Seq<Seq<Seq<char>>>, idx_jugador: int, jugador: Seq<char>, idx_tipo: int, categoria: nat)
    ensures
        cuenta_acciones(t, idx_jugador, jugador, idx_tipo, categoria) <= t.len(),
    decreases t.len(),
{
    if t.len() > 0 {
        lema_cuenta_cota(t.drop_last(), idx_jugador, jugador, idx_tipo, categoria);
    }
}

proof fn lema_filas_a_tiempo(t: Seq<Seq<Seq<char>>>, idx_ts: int, i: int)
    requires
        0 <= i <= t.len(),
        forall|k: int| 0 <= k < i ==> entero_o_cero(#[trigger] t[k], idx_ts) <= TIEMPO_SNAPSHOT_SEGUNDOS,
    ensures
        filas_a_tiempo(t.take(i), idx_ts) == i,
        i < t.len() && entero_o_cero(t[i], idx_ts) > TIEMPO_SNAPSHOT_SEGUNDOS ==> filas_a_tiempo(t, idx_ts) == i,
    decreases i,
{
    if i > 0 {
        assert(t.take(i).drop_last() =~= t.take(i - 1));
        lema_filas_a_tiempo(t.take(i), idx_ts, i - 1);
        assert(t.take(i).take(i - 1) =~= t.take(i - 1));
    }
    if i < t.len() && entero_o_cero(t[i], idx_ts) > TIEMPO_SNAPSHOT_SEGUNDOS {
        lema_filas_a_tiempo_corte(t, idx_ts, i);
    }
}

proof fn lema_filas_a_tiempo_corte(t: Seq<Seq<Seq<char>>>, idx_ts: int, i: int)
    requires
        0 <= i < t.len(),
        filas_a_tiempo(t.take(i), idx_ts) == i,
        entero_o_cero(t[i], idx_ts) > TIEMPO_SNAPSHOT_SEGUNDOS,
    ensures
        filas_a_tiempo(t, idx_ts) == i,
    decreases t.len(),
{
    if t.len() - 1 > i {
        assert(t.drop_last().take(i) =~= t.take(i));
        lema_filas_a_tiempo_corte(t.drop_last(), idx_ts, i);
    } else {
        assert(t.drop_last() =~= t.take(i));
    }
}

/// Counts, in the rows of an action log up to the first one later than the snapshot,
/// the actions of each player: all, queued units, buildings, and orders or targets.
/// A missing field counts as empty, and a time that is missing or not an integer as 0.
pub fn contar_acciones(filas: &Vec<Vec<String>>, idx_ts: usize, idx_tipo: usize, idx_jugador: usize) -> (c: ConteoAcciones)
    ensures
        conteo_correcto(c, tabla(filas@), idx_ts as int, idx_tipo as int, idx_jugador as int),
{
    let ghost t = tabla(filas@);
    let p1 = String::from_str("p1");
    let p2 = String::from_str("p2");
    let cola = String::from_str("Queue");
    let construir = String::from_str("Build");
    let orden = String::from_str("Order");
    let objetivo = String::from_str("Target");
    let vacio = String::new();
    proof {
        reveal_strlit("p1");
        reveal_strlit("p2");
        reveal_strlit("Queue");
        reveal_strlit("Build");
        reveal_strlit("Order");
        reveal_strlit("Target");
        assert(p1@ =~= texto_p1());
        assert(p2@ =~= texto_p2());
        assert(cola@ =~= seq!['Q', 'u', 'e', 'u', 'e']);
        assert(construir@ =~= seq!['B', 'u', 'i', 'l', 'd']);
        assert(orden@ =~= seq!['O', 'r', 'd', 'e', 'r']);
        assert(objetivo@ =~= seq!['T', 'a', 'r', 'g', 'e', 't']);
    }
    let mut c = ConteoAcciones {
        p1_acciones: 0,
        p2_acciones: 0,
        p1_colas: 0,
        p2_colas: 0,
        p1_construcciones: 0,
        p2_construcciones: 0,
        p1_ordenes: 0,
        p2_ordenes: 0,
    };
    let mut i: usize = 0;
    while i < filas.len()
        invariant
            i <= filas@.len(),
            t == tabla(filas@),
            p1@ == texto_p1(),
            p2@ == texto_p2(),
            cola@ == seq!['Q', 'u', 'e', 'u', 'e'],
            construir@ == seq!['B', 'u', 'i', 'l', 'd'],
            orden@ == seq!['O', 'r', 'd', 'e', 'r'],
            objetivo@ == seq!['T', 'a', 'r', 'g', 'e', 't'],
            vacio@ == Seq::<char>::empty(),
            forall|k: int| 0 <= k < i ==> entero_o_cero(#[trigger] t[k], idx_ts as int) <= TIEMPO_SNAPSHOT_SEGUNDOS,
            ({
                let u = t.take(i as int);
                &&& c.p1_acciones == cuenta_acciones(u, idx_jugador as int, texto_p1(), idx_tipo as int, 0)
                &&& c.p2_acciones == cuenta_acciones(u, idx_jugador as int, texto_p2(), idx_tipo as int, 0)
                &&& c.p1_colas == cuenta_acciones(u, idx_jugador as int, texto_p1(), idx_tipo as int, 1)
                &&& c.p2_colas == cuenta_acciones(u, idx_jugador as int, texto_p2(), idx_tipo as int, 1)
                &&& c.p1_construcciones == cuenta_acciones(u, idx_jugador as int, texto_p1(), idx_tipo as int, 2)
                &&& c.p2_construcciones == cuenta_acciones(u, idx_jugador as int, texto_p2(), idx_tipo as int, 2)
                &&& c.p1_ordenes == cuenta_acciones(u, idx_jugador as int, texto_p1(), idx_tipo as int, 3)
                &&& c.p2_ordenes == cuenta_acciones(u, idx_jugador as int, texto_p2(), idx_tipo as int, 3)
            }),
        decreases filas@.len() - i,
    {
        let fila = &filas[i];
        proof {
            assert(t[i as int] == textos(fila@));
            assert(textos(fila@) == fila@.map_values(|s: String| s@));
        }
        let ts = leer_entero_o_cero(fila, idx_ts);
        if ts > TIEMPO_SNAPSHOT_SEGUNDOS {
            proof {
                lema_filas_a_tiempo(t, idx_ts as int, i as int);
            }
            return c;
        }
        let jugador = if idx_jugador < fila.len() { &fila[idx_jugador] } else { &vacio };
        let tipo = if idx_tipo < fila.len() { &fila[idx_tipo] } else { &vacio };
        proof {
            assert(jugador@ == campo(t[i as int], idx_jugador as int, Seq::empty()));
            assert(tipo@ == campo(t[i as int], idx_tipo as int, Seq::empty()));
            lema_cuenta_paso(t, i as int, idx_jugador as int, texto_p1(), idx_tipo as int, 0);
            lema_cuenta_paso(t, i as int, idx_jugador as int, texto_p2(), idx_tipo as int, 0);
            lema_cuenta_paso(t, i as int, idx_jugador as int, texto_p1(), idx_tipo as int, 1);
            lema_cuenta_paso(t, i as int, idx_jugador as int, texto_p2(), idx_tipo as int, 1);
            lema_cuenta_paso(t, i as int, idx_jugador as int, texto_p1(), idx_tipo as int, 2);
            lema_cuenta_paso(t, i as int, idx_jugador as int, texto_p2(), idx_tipo as int, 2);
            lema_cuenta_paso(t, i as int, idx_jugador as int, texto_p1(), idx_tipo as int, 3);
            lema_cuenta_paso(t, i as int, idx_jugador as int, texto_p2(), idx_tipo as int, 3);
        }
        if *jugador == p1 {
            c.p1_acciones = c.p1_acciones + 1;
            if *tipo == cola {
                c.p1_colas = c.p1_colas + 1;
            } else if *tipo == construir {
                c.p1_construcciones = c.p1_construcciones + 1;
            } else if *tipo == orden || *tipo == objetivo {
                c.p1_ordenes = c.p1_ordenes + 1;
            }
        } else if *jugador == p2 {
            c.p2_acciones = c.p2_acciones + 1;
            if *tipo == cola {
                c.p2_colas = c.p2_colas + 1;
            } else if *tipo == construir {
                c.p2_construcciones = c.p2_construcciones + 1;
            } else if *tipo == orden || *tipo == objetivo {
                c.p2_ordenes = c.p2_ordenes + 1;
            }
        }
        i = i + 1;
    }
    proof {
        lema_filas_a_tiempo(t, idx_ts as int, filas@.len() as int);
        assert(t.take(filas@.len() as int) =~= t);
    }
    c
}

/// The text of the only map that is kept.
pub open spec fn texto_arabia() -> Seq<char> {
    seq!['A', 'r', 'a', 'b', 'i', 'a']
}

/// Whether a game is kept: its rating reaches the minimum (`elo_suficiente`), it
/// was played on Arabia (field `idx_mapa`) and it lasted at least twenty minutes
/// (field `idx_duracion`; a missing or non-integer duration counts as 0).
pub fn es_partida_candidata(registro: &Vec<String>, idx_mapa: usize, idx_duracion: usize, elo_suficiente: bool) -> (r: bool)
    ensures
        r == (elo_suficiente && campo(textos(registro@), idx_mapa as int, Seq::empty()) == texto_arabia()
            && entero_o_cero(textos(registro@), idx_duracion as int) >= DURACION_MINIMA_SEGUNDOS),
{
    let ghost f = textos(registro@);
    let arabia = String::from_str("Arabia");
    let vacio = String::new();
    proof {
        reveal_strlit("Arabia");
        assert(arabia@ =~= texto_arabia());
    }
    let mapa = if idx_mapa < registro.len() { &registro[idx_mapa] } else { &vacio };
    let duracion = leer_entero_o_cero(registro, idx_duracion);
    proof {
        assert(mapa@ == campo(f, idx_mapa as int, Seq::empty()));
    }
    elo_suficiente && *mapa == arabia && duracion >= DURACION_MINIMA_SEGUNDOS
}

/// The names of `nombres` that some header has, each with the position of the first
/// such header, in the order of `nombres`.
pub open spec fn columnas_encontradas(cabeceras: Seq<Seq<char>>, nombres: Seq<Seq<char>>) -> Seq<(usize, Seq<char>)>
    decreases nombres.len(),
{
    if nombres.len() == 0 {
        seq![]
    } else {
        let p = columnas_encontradas(cabeceras, nombres.drop_last());
        let k = posicion(cabeceras, nombres.last());
        if k >= 0 {
            p.push((k as usize, nombres.last()))
        } else {
            p
        }
    }
}

/// The positions and names, as texts.
pub open spec fn pares_texto(v: Seq<(usize, String)>) -> Seq<(usize, Seq<char>)> {
    v.map_values(|x: (usize, String)| (x.0, x.1@))
}

/// The columns among `nombres` that the headers have, with their positions.
pub fn buscar_columnas(cabeceras: &Vec<String>, nombres: &Vec<String>) -> (r: Vec<(usize, String)>)
    ensures
        pares_texto(r@) == columnas_encontradas(textos(cabeceras@), textos(nombres@)),
{
    let ghost v = textos(nombres@);
    let mut r: Vec<(usize, String)> = Vec::new();
    let mut i: usize = 0;
    while i < nombres.len()
        invariant
            i <= nombres@.len(),
            v == textos(nombres@),
            pares_texto(r@) == columnas_encontradas(textos(cabeceras@), v.take(i as int)),
        decreases nombres@.len() - i,
    {
        proof {
            assert(v.take(i + 1).drop_last() =~= v.take(i as int));
            assert(v.take(i + 1).last() == nombres@[i as int]@);
        }
        match buscar_columna(cabeceras, &nombres[i]) {
            Some(k) => {
                r.push((k, nombres[i].clone()));
                proof {
                    assert(pares_texto(r@) =~= columnas_encontradas(textos(cabeceras@), v.take(i + 1)));
                }
            },
            None => {},
        }
        i = i + 1;
    }
    proof {
        assert(v.take(nombres@.len() as int) =~= v);
    }
    r
}

/// `s` begins with `p`.
pub open spec fn empieza_con(s: Seq<char>, p: Seq<char>) -> bool {
    p.len() <= s.len() && s.subrange(0, p.len() as int) == p
}

/// The pairs of columns of the two players: for each header `p1_X` in order, with
/// `X` other than `civ`, whose partner `p2_X` is a header too, the position of both
/// (the first `p2_X`) and the name `diff_X` of their difference.
pub open spec fn pares_jugadores(h: Seq<Seq<char>>, n: nat) -> Seq<(usize, usize, Seq<char>)>
    decreases n,
{
    if n == 0 {
        seq![]
    } else {
        let p = pares_jugadores(h, (n - 1) as nat);
        let i = n - 1;
        let nombre = h[i];
        if empieza_con(nombre, seq!['p', '1', '_']) {
            let sufijo = nombre.subrange(3, nombre.len() as int);
            let j = posicion(h, seq!['p', '2', '_'] + sufijo);
            if sufijo == seq!['c', 'i', 'v'] || j < 0 {
                p
            } else {
                p.push((i as usize, j as usize, seq!['d', 'i', 'f', 'f', '_'] + sufijo))
            }
        } else {
            p
        }
    }
}

/// The pairs, as texts.
pub open spec fn ternas_texto(v: Seq<(usize, usize, String)>) -> Seq<(usize, usize, Seq<char>)> {
    v.map_values(|x: (usize, usize, String)| (x.0, x.1, x.2@))
}

/// The pairs of columns `p1_X`/`p2_X` whose difference makes a feature.
pub fn pares_de_jugadores(cabeceras: &Vec<String>) -> (r: Vec<(usize, usize, String)>)
    ensures
        ternas_texto(r@) == pares_jugadores(textos(cabeceras@), cabeceras@.len() as nat),
{
    let ghost h = textos(cabeceras@);
    let civ = String::from_str("civ");
    proof {
        reveal_strlit("civ");
        reveal_strlit("p2_");
        reveal_strlit("diff_");
        assert(civ@ =~= seq!['c', 'i', 'v']);
    }
    let mut r: Vec<(usize, usize, String)> = Vec::new();
    let mut idx: usize = 0;
    while idx < cabeceras.len()
        invariant
            idx <= cabeceras@.len(),
            h == textos(cabeceras@),
            civ@ == seq!['c', 'i', 'v'],
            "p2_"@ == seq!['p', '2', '_'],
            "diff_"@ == seq!['d', 'i', 'f', 'f', '_'],
            ternas_texto(r@) == pares_jugadores(h, idx as nat),
        decreases cabeceras@.len() - idx,
    {
        let nombre = cabeceras[idx].as_str();
        let largo = nombre.unicode_len();
        proof {
            assert(nombre@ == h[idx as int]);
        }
        if largo >= 3 && nombre.get_char(0) == 'p' && nombre.get_char(1) == '1' && nombre.get_char(2) == '_' {
            proof {
                assert(nombre@.subrange(0, 3) =~= seq!['p', '1', '_']);
            }
            let sufijo = String::from_str(nombre.substring_char(3, largo));
            if sufijo != civ {
                let mut nombre_p2 = String::from_str("p2_");
                nombre_p2.append(sufijo.as_str());
                match buscar_columna(cabeceras, &nombre_p2) {
                    Some(j) => {
                        let mut diferencia = String::from_str("diff_");
                        diferencia.append(sufijo.as_str());
                        r.push((idx, j, diferencia));
                        proof {
                            assert(ternas_texto(r@) =~= pares_jugadores(h, (idx + 1) as nat));
                        }
                    },
                    None => {},
                }
            }
        } else {
            proof {
                if empieza_con(h[idx as int], seq!['p', '1', '_']) {
                    assert(h[idx as int][0] == h[idx as int].subrange(0, 3)[0]);
                    assert(h[idx as int][1] == h[idx as int].subrange(0, 3)[1]);
                    assert(h[idx as int][2] == h[idx as int].subrange(0, 3)[2]);
                }
            }
        }
        idx = idx + 1;
    }
    r
}

/// Two rows of `filas` hold different texts in column `c`.
pub open spec fn hay_textos_distintos(filas: Seq<Seq<Seq<char>>>, c: int) -> bool {
    exists|i: int, j: int| 0 <= i < filas.len() && 0 <= j < filas.len() && #[trigger] filas[i][c] != #[trigger] filas[j][c]
}

/// A column is kept exactly when it is not column 0, lies below `num_columnas`, and
/// two rows hold different texts in it; the kept columns come in increasing order.
pub proof fn ley_columnas_variables(filas: Seq<Seq<Seq<char>>>, num_columnas: nat)
    requires
        num_columnas <= usize::MAX,
    ensures
        forall|c: usize|
            #[trigger] columnas_variables(filas, num_columnas).contains(c) <==> (1 <= c < num_columnas
                && hay_textos_distintos(filas, c as int)),
        forall|a: int, b: int|
            0 <= a < b < columnas_variables(filas, num_columnas).len() ==> #[trigger] columnas_variables(filas, num_columnas)[a]
                < #[trigger] columnas_variables(filas, num_columnas)[b],
        forall|a: int| 0 <= a < columnas_variables(filas, num_columnas).len() ==> #[trigger] columnas_variables(filas, num_columnas)[a]
            < num_columnas,
    decreases num_columnas,
{
    if num_columnas > 0 {
        let m = (num_columnas - 1) as nat;
        ley_columnas_variables(filas, m);
        let p = columnas_variables(filas, m);
        let r = columnas_variables(filas, num_columnas);
        let c0 = m as usize;
        assert(c0 as int == m);
        let toma = m != 0 && hay_textos_distintos(filas, m as int);
        assert(r == if toma { p.push(c0) } else { p });
        assert forall|c: usize| #[trigger] r.contains(c) implies 1 <= c < num_columnas && hay_textos_distintos(filas, c as int) by {
            let k = choose|k: int| 0 <= k < r.len() && r[k] == c;
            if k < p.len() {
                assert(p[k] == c);
                assert(p.contains(c));
            } else {
                assert(c == c0);
            }
        }
        assert forall|c: usize| 1 <= c < num_columnas && hay_textos_distintos(filas, c as int) implies #[trigger] r.contains(c) by {
            if c < m {
                assert(p.contains(c));
                let k = choose|k: int| 0 <= k < p.len() && p[k] == c;
                assert(r[k] == c);
            } else {
                assert(c == c0);
                assert(r[r.len() - 1] == c);
            }
        }
    }
}

/// The rows whose actions are counted are the leading rows up to the first whose
/// time is later than the snapshot: all of them have a time within it, and the row
/// right after them, if any, has a later time.
pub proof fn ley_filas_hasta_el_corte(t: Seq<Seq<Seq<char>>>, idx_ts: int)
    ensures
        filas_a_tiempo(t, idx_ts) <= t.len(),
        forall|k: int| 0 <= k < filas_a_tiempo(t, idx_ts) ==> entero_o_cero(#[trigger] t[k], idx_ts) <= TIEMPO_SNAPSHOT_SEGUNDOS,
        filas_a_tiempo(t, idx_ts) < t.len() ==> entero_o_cero(t[filas_a_tiempo(t, idx_ts) as int], idx_ts)
            > TIEMPO_SNAPSHOT_SEGUNDOS,
    decreases t.len(),
{
    if t.len() > 0 {
        let d = t.drop_last();
        ley_filas_hasta_el_corte(d, idx_ts);
        assert forall|k: int| 0 <= k < d.len() implies #[trigger] d[k] == t[k] by {}
        assert(t[t.len() - 1] == t.last());
        let p = filas_a_tiempo(d, idx_ts);
        if p == t.len() - 1 && entero_o_cero(t.last(), idx_ts) <= TIEMPO_SNAPSHOT_SEGUNDOS {
            assert(filas_a_tiempo(t, idx_ts) == t.len());
            assert forall|k: int| 0 <= k < t.len() implies entero_o_cero(#[trigger] t[k], idx_ts) <= TIEMPO_SNAPSHOT_SEGUNDOS by {
                if k < t.len() - 1 {
                    assert(entero_o_cero(d[k], idx_ts) <= TIEMPO_SNAPSHOT_SEGUNDOS);
                }
            }
        } else {
            assert(filas_a_tiempo(t, idx_ts) == p);
            assert forall|k: int| 0 <= k < p implies entero_o_cero(#[trigger] t[k], idx_ts) <= TIEMPO_SNAPSHOT_SEGUNDOS by {
                assert(entero_o_cero(d[k], idx_ts) <= TIEMPO_SNAPSHOT_SEGUNDOS);
            }
            if p < t.len() - 1 {
                assert(d[p as int] == t[p as int]);
            }
        }
    }
}

/// The number of rows of `t` by the player `jugador` whose action is of the kind
/// `categoria` is the length of those rows picked out of `t`.
pub proof fn ley_cuenta_acciones(t: Seq<Seq<Seq<char>>>, idx_jugador: int, jugador: Seq<char>, idx_tipo: int, categoria: nat)
    ensures
        cuenta_acciones(t, idx_jugador, jugador, idx_tipo, categoria) == t.filter(
            |r: Seq<Seq<char>>|
                campo(r, idx_jugador, Seq::empty()) == jugador && de_categoria(campo(r, idx_tipo, Seq::empty()), categoria),
        ).len(),
    decreases t.len(),
{
    reveal(Seq::filter);
    if t.len() > 0 {
        ley_cuenta_acciones(t.drop_last(), idx_jugador, jugador, idx_tipo, categoria);
    }
}

/// Which actions are of which kind: kind 0 is every action, 1 a queued unit
/// (`Queue`), 2 a building (`Build`), 3 an order or a target (`Order`, `Target`).
pub proof fn ley_categorias(tipo: Seq<char>)
    ensures
        de_categoria(tipo, 0),
        de_categoria(tipo, 1) <==> tipo == "Queue"@,
        de_categoria(tipo, 2) <==> tipo == "Build"@,
        de_categoria(tipo, 3) <==> (tipo == "Order"@ || tipo == "Target"@),
{
    reveal_strlit("Queue");
    reveal_strlit("Build");
    reveal_strlit("Order");
    reveal_strlit("Target");
    assert("Queue"@ =~= seq!['Q', 'u', 'e', 'u', 'e']);
    assert("Build"@ =~= seq!['B', 'u', 'i', 'l', 'd']);
    assert("Order"@ =~= seq!['O', 'r', 'd', 'e', 'r']);
    assert("Target"@ =~= seq!['T', 'a', 'r', 'g', 'e', 't']);
}

/// A lookup of a header finds its first occurrence: the header at the position
/// found is the one looked for and none before it is; -1 when no header is.
pub proof fn ley_posicion(v: Seq<Seq<char>>, c: Seq<char>)
    ensures
        -1 <= posicion(v, c) < v.len(),
        posicion(v, c) >= 0 ==> v[posicion(v, c)] == c && forall|k: int| 0 <= k < posicion(v, c) ==> #[trigger] v[k] != c,
        posicion(v, c) == -1 ==> forall|k: int| 0 <= k < v.len() ==> #[trigger] v[k] != c,
{
    lema_posicion(v, c);
}

/// A lookup by identifier among records read in order finds the last record with
/// that identifier (a later record replaces an earlier one); -1 when none has it.
pub proof fn ley_ultima_posicion(v: Seq<Seq<char>>, c: Seq<char>)
    ensures
        -1 <= ultima_posicion(v, c) < v.len(),
        ultima_posicion(v, c) >= 0 ==> v[ultima_posicion(v, c)] == c && forall|k: int|
            ultima_posicion(v, c) < k < v.len() ==> #[trigger] v[k] != c,
        ultima_posicion(v, c) == -1 ==> forall|k: int| 0 <= k < v.len() ==> #[trigger] v[k] != c,
{
    lema_ultima_posicion(v, c);
}

/// The columns that are kept from a header are the positions whose name is not
/// among the ignored ones, in increasing order.
pub proof fn ley_no_ignoradas(v: Seq<Seq<char>>, ignoradas: Seq<Seq<char>>)
    requires
        v.len() <= usize::MAX + 1,
    ensures
        forall|x: usize| #[trigger] no_ignoradas(v, ignoradas).contains(x) <==> (x < v.len() && !ignoradas.contains(v[x as int])),
        forall|a: int, b: int|
            0 <= a < b < no_ignoradas(v, ignoradas).len() ==> #[trigger] no_ignoradas(v, ignoradas)[a] < #[trigger] no_ignoradas(
                v,
                ignoradas,
            )[b],
        forall|a: int| 0 <= a < no_ignoradas(v, ignoradas).len() ==> #[trigger] no_ignoradas(v, ignoradas)[a] < v.len(),
    decreases v.len(),
{
    if v.len() > 0 {
        let d = v.drop_last();
        ley_no_ignoradas(d, ignoradas);
        let p = no_ignoradas(d, ignoradas);
        let r = no_ignoradas(v, ignoradas);
        let y = (v.len() - 1) as usize;
        assert(y as int == v.len() - 1);
        assert(r == if ignoradas.contains(v.last()) { p } else { p.push(y) });
        assert forall|x: usize| #[trigger] r.contains(x) implies x < v.len() && !ignoradas.contains(v[x as int]) by {
            let k = choose|k: int| 0 <= k < r.len() && r[k] == x;
            if k < p.len() {
                assert(p[k] == x);
                assert(p.contains(x));
                assert(d[x as int] == v[x as int]);
            } else {
                assert(x == y);
            }
        }
        assert forall|x: usize| x < v.len() && !ignoradas.contains(v[x as int]) implies #[trigger] r.contains(x) by {
            if x < y {
                assert(d[x as int] == v[x as int]);
                assert(p.contains(x));
                let k = choose|k: int| 0 <= k < p.len() && p[k] == x;
                assert(r[k] == x);
            } else {
                assert(r[r.len() - 1] == x);
            }
        }
    }
}

/// The feature columns are the positions below `n` other than the class and the
/// identifier, in increasing order.
pub proof fn ley_posiciones_salvo(n: nat, a: usize, b: usize)
    requires
        n <= usize::MAX + 1,
    ensures
        forall|x: usize| #[trigger] posiciones_salvo(n, a, b).contains(x) <==> (x < n && x != a && x != b),
        forall|i: int, j: int|
            0 <= i < j < posiciones_salvo(n, a, b).len() ==> #[trigger] posiciones_salvo(n, a, b)[i] < #[trigger] posiciones_salvo(
                n,
                a,
                b,
            )[j],
        forall|i: int| 0 <= i < posiciones_salvo(n, a, b).len() ==> #[trigger] posiciones_salvo(n, a, b)[i] < n,
    decreases n,
{
    if n > 0 {
        let m = (n - 1) as nat;
        ley_posiciones_salvo(m, a, b);
        let p = posiciones_salvo(m, a, b);
        let r = posiciones_salvo(n, a, b);
        let y = m as usize;
        assert(y as int == m);
        assert(r == if y != a && y != b { p.push(y) } else { p });
        assert forall|x: usize| #[trigger] r.contains(x) implies x < n && x != a && x != b by {
            let k = choose|k: int| 0 <= k < r.len() && r[k] == x;
            if k < p.len() {
                assert(p[k] == x);
                assert(p.contains(x));
            }
        }
        assert forall|x: usize| x < n && x != a && x != b implies #[trigger] r.contains(x) by {
            if x < y {
                assert(p.contains(x));
                let k = choose|k: int| 0 <= k < p.len() && p[k] == x;
                assert(r[k] == x);
            } else {
                assert(r[r.len() - 1] == x);
            }
        }
    }
}

} // verus!

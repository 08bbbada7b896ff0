use vstd::prelude::*;
use vstd::multiset::Multiset;
use crate::arbol::{clave, clave_orden, es_nan, f64_eq, f64_le, f64_lt, igual, menor, menor_o_igual};

verus! {

broadcast use vstd::multiset::group_multiset_axioms;

/// A sample of one column: the value, as the bit pattern of its `f64`, and the
/// class of its row.
pub struct DatoDiscretizacion {
    pub valor: u64,
    pub ganador: String,
}

/// A range of values of one column, with the bit patterns of its smallest and
/// largest value and how many samples of each class fell in it.
pub struct Intervalo {
    pub min_valor: u64,
    pub max_valor: u64,
    pub conteos: Vec<(String, usize)>,
}

/// `k` copies of `c`.
pub open spec fn repetir(c: Seq<char>, k: nat) -> Multiset<Seq<char>>
    decreases k,
{
    if k == 0 {
        Multiset::empty()
    } else {
        repetir(c, (k - 1) as nat).insert(c)
    }
}

/// The classes counted by `v`, each as many times as its count says.
pub open spec fn clases_contadas(v: Seq<(String, usize)>) -> Multiset<Seq<char>>
    decreases v.len(),
{
    if v.len() == 0 {
        Multiset::empty()
    } else {
        clases_contadas(v.drop_last()).add(repetir(v.last().0@, v.last().1 as nat))
    }
}

/// What an interval holds: smallest and largest value (bit patterns) and the
/// classes of its samples.
pub type IntervaloV = (u64, u64, Multiset<Seq<char>>);

impl View for Intervalo {
    type V = IntervaloV;

    open spec fn view(&self) -> IntervaloV {
        (self.min_valor, self.max_valor, clases_contadas(self.conteos@))
    }
}

impl View for DatoDiscretizacion {
    type V = (u64, Seq<char>);

    open spec fn view(&self) -> (u64, Seq<char>) {
        (self.valor, self.ganador@)
    }
}

/// The views of a sequence of intervals.
pub open spec fn vistas(v: Seq<Intervalo>) -> Seq<IntervaloV> {
    v.map_values(|i: Intervalo| i@)
}

/// The views of a sequence of samples.
pub open spec fn vistas_muestras(v: Seq<DatoDiscretizacion>) -> Seq<(u64, Seq<char>)> {
    v.map_values(|m: DatoDiscretizacion| m@)
}

/// The intervals that a run over the samples yields: a sample whose value equals
/// (as `f64`) the value of the interval before it joins that interval, whose bounds
/// stay the value of its first sample; any other sample opens a new interval.
pub open spec fn intervalos_iniciales(s: Seq<(u64, Seq<char>)>) -> Seq<IntervaloV>
    decreases s.len(),
{
    if s.len() == 0 {
        seq![]
    } else {
        let p = intervalos_iniciales(s.drop_last());
        let (v, g) = s.last();
        if p.len() > 0 && f64_eq(p.last().1, v) {
            p.update(p.len() - 1, (p.last().0, p.last().1, p.last().2.insert(g)))
        } else {
            p.push((v, v, Multiset::empty().insert(g)))
        }
    }
}

proof fn lema_repetir(c: Seq<char>, k: nat)
    ensures
        repetir(c, k).len() == k,
        forall|x: Seq<char>| #[trigger] repetir(c, k).count(x) == if x == c { k } else { 0 },
    decreases k,
{
    if k > 0 {
        lema_repetir(c, (k - 1) as nat);
    }
}

proof fn lema_clases_contadas_ultimo(v: Seq<(String, usize)>, j: int, k: usize)
    requires
        0 <= j < v.len(),
    ensures
        clases_contadas(v.update(j, (v[j].0, k))) == clases_contadas(v).sub(repetir(v[j].0@, v[j].1 as nat)).add(
            repetir(v[j].0@, k as nat),
        ),
        clases_contadas(v).count(v[j].0@) >= v[j].1,
    decreases v.len(),
{
    let w = v.update(j, (v[j].0, k));
    lema_repetir(v[j].0@, v[j].1 as nat);
    lema_repetir(v[j].0@, k as nat);
    lema_repetir(v.last().0@, v.last().1 as nat);
    if j == v.len() - 1 {
        assert(w.drop_last() =~= v.drop_last());
        assert(clases_contadas(w) =~= clases_contadas(v).sub(repetir(v[j].0@, v[j].1 as nat)).add(
            repetir(v[j].0@, k as nat),
        ));
    } else {
        lema_clases_contadas_ultimo(v.drop_last(), j, k);
        assert(w.drop_last() =~= v.drop_last().update(j, (v[j].0, k)));
        assert(clases_contadas(w) =~= clases_contadas(v).sub(repetir(v[j].0@, v[j].1 as nat)).add(
            repetir(v[j].0@, k as nat),
        ));
    }
}

proof fn lema_clases_contadas_cota(v: Seq<(String, usize)>, j: int)
    requires
        0 <= j < v.len(),
    ensures
        v[j].1 <= clases_contadas(v).len(),
    decreases v.len(),
{
    lema_repetir(v.last().0@, v.last().1 as nat);
    if j < v.len() - 1 {
        lema_clases_contadas_cota(v.drop_last(), j);
    }
}

/// The class counts of an interval name each class once, each with a count above
/// zero: a map from classes to counts.
pub open spec fn conteos_bien(v: Seq<(String, usize)>) -> bool {
    &&& forall|j: int| 0 <= j < v.len() ==> #[trigger] v[j].1 > 0
    &&& forall|a: int, b: int| 0 <= a < b < v.len() ==> #[trigger] v[a].0@ != #[trigger] v[b].0@
}

/// The class counts of every interval of `v` are a map from classes to counts.
pub open spec fn todos_bien(v: Seq<Intervalo>) -> bool {
    forall|k: int| 0 <= k < v.len() ==> conteos_bien(#[trigger] v[k].conteos@)
}

/// Class counts that name each class once give, for each class they name, its
/// count, and for any other class none: the view of such counts fixes them as a map.
pub proof fn lema_conteo_por_clase(v: Seq<(String, usize)>, g: Seq<char>)
    requires
        conteos_bien(v),
    ensures
        forall|j: int| 0 <= j < v.len() && v[j].0@ == g ==> clases_contadas(v).count(g) == v[j].1,
        (forall|j: int| 0 <= j < v.len() ==> v[j].0@ != g) ==> clases_contadas(v).count(g) == 0,
    decreases v.len(),
{
    if v.len() > 0 {
        let d = v.drop_last();
        assert(conteos_bien(d)) by {
            assert forall|a: int, b: int| 0 <= a < b < d.len() implies #[trigger] d[a].0@ != #[trigger] d[b].0@ by {
                assert(d[a] == v[a] && d[b] == v[b]);
            }
            assert forall|j: int| 0 <= j < d.len() implies #[trigger] d[j].1 > 0 by {
                assert(d[j] == v[j]);
            }
        }
        lema_conteo_por_clase(d, g);
        lema_repetir(v.last().0@, v.last().1 as nat);
        assert forall|j: int| 0 <= j < v.len() && v[j].0@ == g implies clases_contadas(v).count(g) == v[j].1 by {
            if j < v.len() - 1 {
                assert(d[j] == v[j]);
                assert(v[j].0@ != v[v.len() - 1].0@);
            } else {
                assert forall|i: int| 0 <= i < d.len() implies d[i].0@ != g by {
                    assert(d[i] == v[i]);
                    assert(v[i].0@ != v[v.len() - 1].0@);
                }
            }
        }
        if forall|j: int| 0 <= j < v.len() ==> v[j].0@ != g {
            assert forall|i: int| 0 <= i < d.len() implies d[i].0@ != g by {
                assert(d[i] == v[i]);
            }
            assert(v[v.len() - 1].0@ != g);
        }
    }
}

/// Counts `k` more samples of class `c`.
fn sumar_clase(conteos: &mut Vec<(String, usize)>, c: &String, k: usize)
    requires
        clases_contadas(old(conteos)@).len() + k <= usize::MAX,
    ensures
        clases_contadas(final(conteos)@) == clases_contadas(old(conteos)@).add(repetir(c@, k as nat)),
        conteos_bien(old(conteos)@) && k > 0 ==> conteos_bien(final(conteos)@),
{
    let mut j: usize = 0;
    while j < conteos.len()
        invariant
            j <= conteos@.len(),
            conteos@ == old(conteos)@,
            clases_contadas(old(conteos)@).len() + k <= usize::MAX,
            forall|i: int| 0 <= i < j ==> conteos@[i].0@ != c@,
        decreases conteos@.len() - j,
    {
        if conteos[j].0 == *c {
            let previo = conteos[j].1;
            proof {
                lema_clases_contadas_cota(conteos@, j as int);
                lema_clases_contadas_ultimo(conteos@, j as int, (previo + k) as usize);
                lema_repetir(c@, previo as nat);
                lema_repetir(c@, k as nat);
                lema_repetir(c@, (previo + k) as nat);
            }
            let nombre = conteos[j].0.clone();
            conteos.set(j, (nombre, previo + k));
            proof {
                assert(clases_contadas(conteos@) =~= clases_contadas(old(conteos)@).add(repetir(c@, k as nat)));
                if conteos_bien(old(conteos)@) && k > 0 {
                    assert forall|a: int, b: int| 0 <= a < b < conteos@.len() implies #[trigger] conteos@[a].0@
                        != #[trigger] conteos@[b].0@ by {
                        assert(conteos@[a].0@ == old(conteos)@[a].0@);
                        assert(conteos@[b].0@ == old(conteos)@[b].0@);
                    }
                }
            }
            return;
        }
        j = j + 1;
    }
    conteos.push((c.clone(), k));
    proof {
        assert(conteos@.drop_last() =~= old(conteos)@);
        if conteos_bien(old(conteos)@) && k > 0 {
            assert forall|a: int, b: int| 0 <= a < b < conteos@.len() implies #[trigger] conteos@[a].0@
                != #[trigger] conteos@[b].0@ by {
                if b == conteos@.len() - 1 {
                    assert(old(conteos)@[a].0@ != c@);
                } else {
                    assert(conteos@[a] == old(conteos)@[a] && conteos@[b] == old(conteos)@[b]);
                }
            }
            assert forall|i: int| 0 <= i < conteos@.len() implies #[trigger] conteos@[i].1 > 0 by {
                if i < conteos@.len() - 1 {
                    assert(conteos@[i] == old(conteos)@[i]);
                }
            }
        }
    }
}

/// Counts one more sample of class `c`.
fn agregar_clase(conteos: &mut Vec<(String, usize)>, c: &String)
    requires
        clases_contadas(old(conteos)@).len() < usize::MAX,
    ensures
        clases_contadas(final(conteos)@) == clases_contadas(old(conteos)@).insert(c@),
        conteos_bien(old(conteos)@) ==> conteos_bien(final(conteos)@),
{
    sumar_clase(conteos, c, 1);
    proof {
        assert(repetir(c@, 1) == repetir(c@, 0).insert(c@));
        assert(repetir(c@, 0) =~= Multiset::<Seq<char>>::empty());
        assert(clases_contadas(conteos@) =~= clases_contadas(old(conteos)@).insert(c@));
    }
}

proof fn lema_iniciales_cota(s: Seq<(u64, Seq<char>)>)
    ensures
        intervalos_iniciales(s).len() <= s.len(),
        forall|j: int| 0 <= j < intervalos_iniciales(s).len() ==> (#[trigger] intervalos_iniciales(s)[j]).2.len() <= s.len(),
    decreases s.len(),
{
    if s.len() > 0 {
        lema_iniciales_cota(s.drop_last());
    }
}

/// The intervals of the samples (sorted by value): one per run of equal values,
/// with the count of each class in it.
pub fn inicializar_intervalos(muestras: &[DatoDiscretizacion]) -> (r: Vec<Intervalo>)
    ensures
        vistas(r@) == intervalos_iniciales(vistas_muestras(muestras@)),
        todos_bien(r@),
{
    let ghost s = vistas_muestras(muestras@);
    let mut intervalos: Vec<Intervalo> = Vec::new();
    let mut i: usize = 0;
    while i < muestras.len()
        invariant
            i <= muestras@.len(),
            s == vistas_muestras(muestras@),
            vistas(intervalos@) == intervalos_iniciales(s.take(i as int)),
            todos_bien(intervalos@),
        decreases muestras@.len() - i,
    {
        let ghost antes = vistas(intervalos@);
        let ghost previos = intervalos@;
        proof {
            assert(s.take(i + 1).drop_last() =~= s.take(i as int));
            assert(s.take(i + 1).last() == s[i as int]);
            assert(s[i as int] == muestras@[i as int]@);
            lema_iniciales_cota(s.take(i as int));
        }
        let n = intervalos.len();
        if n > 0 && igual(intervalos[n - 1].max_valor, muestras[i].valor) {
            proof {
                assert(antes[n - 1] == intervalos@[n - 1]@);
            }
            agregar_clase(&mut intervalos[n - 1].conteos, &muestras[i].ganador);
            proof {
                assert(vistas(intervalos@) =~= intervalos_iniciales(s.take(i + 1)));
                assert forall|x: int| 0 <= x < intervalos@.len() implies conteos_bien(#[trigger] intervalos@[x].conteos@) by {
                    if x != n - 1 {
                        assert(intervalos@[x] == previos[x]);
                    }
                }
            }
        } else {
            let mut conteos: Vec<(String, usize)> = Vec::new();
            conteos.push((muestras[i].ganador.clone(), 1));
            proof {
                assert(conteos@.drop_last() =~= Seq::<(String, usize)>::empty());
                let g = muestras@[i as int].ganador@;
                assert(conteos@.last().0@ == g && conteos@.last().1 == 1);
                assert(clases_contadas(conteos@.drop_last()) =~= Multiset::empty());
                assert(clases_contadas(conteos@) == clases_contadas(conteos@.drop_last()).add(repetir(g, 1)));
                assert(repetir(g, 1) == repetir(g, 0).insert(g));
                assert(repetir(g, 0) == Multiset::<Seq<char>>::empty());
                assert(clases_contadas(conteos@) =~= Multiset::empty().insert(g));
            }
            proof {
                assert(conteos_bien(conteos@));
            }
            intervalos.push(Intervalo { min_valor: muestras[i].valor, max_valor: muestras[i].valor, conteos });
            proof {
                assert(vistas(intervalos@) =~= intervalos_iniciales(s.take(i + 1)));
                assert forall|x: int| 0 <= x < intervalos@.len() implies conteos_bien(#[trigger] intervalos@[x].conteos@) by {
                    if x < intervalos@.len() - 1 {
                        assert(intervalos@[x] == previos[x]);
                    }
                }
            }
        }
        i = i + 1;
    }
    proof {
        assert(s.take(muestras@.len() as int) =~= s);
    }
    intervalos
}

/// `o` is `s` rearranged by the positions `p`: the sample at `i` of `o` is the one
/// at `p[i]` of `s`, each position of `s` taken once, and samples with equal keys
/// keep the order they had in `s`.
pub open spec fn reordena_estable(p: Seq<int>, o: Seq<(u64, Seq<char>)>, s: Seq<(u64, Seq<char>)>) -> bool {
    &&& p.len() == s.len()
    &&& o.len() == s.len()
    &&& forall|i: int| 0 <= i < o.len() ==> 0 <= #[trigger] p[i] < s.len() && o[i] == s[p[i]]
    &&& forall|i: int, j: int| 0 <= i < j < o.len() ==> #[trigger] p[i] != #[trigger] p[j]
    &&& forall|x: int| 0 <= x < s.len() ==> #[trigger] aparece(p, x)
    &&& forall|i: int, j: int|
        0 <= i < j < o.len() && clave(o[i].0) == clave(o[j].0) ==> #[trigger] p[i] < #[trigger] p[j]
}

/// Some position of `p` holds `x`.
pub open spec fn aparece(p: Seq<int>, x: int) -> bool {
    exists|i: int| 0 <= i < p.len() && #[trigger] p[i] == x
}

/// The values of `o` are in order of key.
pub open spec fn ordenada(o: Seq<(u64, Seq<char>)>) -> bool {
    forall|a: int, b: int| 0 <= a < b < o.len() ==> clave(#[trigger] o[a].0) <= clave(#[trigger] o[b].0)
}

proof fn lema_estable_unico(p1: Seq<int>, o1: Seq<(u64, Seq<char>)>, p2: Seq<int>, o2: Seq<(u64, Seq<char>)>, s: Seq<(u64, Seq<char>)>)
    requires
        reordena_estable(p1, o1, s),
        reordena_estable(p2, o2, s),
        ordenada(o1),
        ordenada(o2),
    ensures
        o1 == o2,
    decreases s.len(),
{
    if s.len() == 0 {
        assert(o1 =~= o2);
    } else {
        let n = s.len() as int;
        let x = s[n - 1];
        let d = s.drop_last();
        assert(aparece(p1, n - 1) && aparece(p2, n - 1));
        let q1 = choose|i: int| 0 <= i < p1.len() && p1[i] == n - 1;
        let q2 = choose|i: int| 0 <= i < p2.len() && p2[i] == n - 1;
        let t1 = o1.remove(q1);
        let t2 = o2.remove(q2);
        let r1 = p1.remove(q1);
        let r2 = p2.remove(q2);
        lema_quitar_ultimo(p1, o1, s, q1);
        lema_quitar_ultimo(p2, o2, s, q2);
        lema_estable_unico(r1, t1, r2, t2, d);
        let t = t1;
        assert(q1 == q2) by {
            if q1 < q2 {
                assert(t[q1] == o1[q1 + 1]);
                assert(t[q1] == o2[q1]);
                assert(clave(o2[q1].0) <= clave(o2[q2].0));
            } else if q2 < q1 {
                assert(t[q2] == o2[q2 + 1]);
                assert(t[q2] == o1[q2]);
                assert(clave(o1[q2].0) <= clave(o1[q1].0));
            }
        }
        assert(o1 =~= o2) by {
            assert forall|i: int| 0 <= i < o1.len() implies o1[i] == o2[i] by {
                if i < q1 {
                    assert(o1[i] == t1[i] && o2[i] == t2[i]);
                } else if i > q1 {
                    assert(o1[i] == t1[i - 1] && o2[i] == t2[i - 1]);
                } else {
                    assert(o1[i] == s[n - 1] && o2[i] == s[n - 1]);
                }
            }
        }
    }
}

/// Taking away the last sample of `s` (at `q` in the sorted `o`) leaves a stable sort
/// of the others, in which every value after `q` has a key greater than that sample's.
proof fn lema_quitar_ultimo(p: Seq<int>, o: Seq<(u64, Seq<char>)>, s: Seq<(u64, Seq<char>)>, q: int)
    requires
        reordena_estable(p, o, s),
        ordenada(o),
        0 <= q < o.len(),
        p[q] == s.len() - 1,
    ensures
        reordena_estable(p.remove(q), o.remove(q), s.drop_last()),
        ordenada(o.remove(q)),
        forall|i: int| 0 <= i < q ==> clave(#[trigger] o.remove(q)[i].0) <= clave(s.last().0),
        forall|i: int| q <= i < o.remove(q).len() ==> clave(#[trigger] o.remove(q)[i].0) > clave(s.last().0),
{
    let n = s.len() as int;
    let t = o.remove(q);
    let r = p.remove(q);
    let d = s.drop_last();
    assert(o[q] == s.last());
    assert forall|i: int| 0 <= i < t.len() implies 0 <= #[trigger] r[i] < d.len() && t[i] == d[r[i]] by {
        let j = if i < q { i } else { i + 1 };
        assert(r[i] == p[j] && t[i] == o[j]);
        if j < q {
            assert(p[j] != p[q]);
        } else {
            assert(p[q] != p[j]);
        }
    }
    assert forall|i: int, j: int| 0 <= i < j < t.len() implies #[trigger] r[i] != #[trigger] r[j] by {
        let a = if i < q { i } else { i + 1 };
        let b = if j < q { j } else { j + 1 };
        assert(r[i] == p[a] && r[j] == p[b]);
    }
    assert forall|y: int| 0 <= y < d.len() implies #[trigger] aparece(r, y) by {
        assert(aparece(p, y));
        let k = choose|k: int| 0 <= k < p.len() && p[k] == y;
        if k < q {
            assert(r[k] == y);
        } else {
            assert(k != q);
            assert(r[k - 1] == y);
        }
    }
    assert forall|i: int, j: int| 0 <= i < j < t.len() && clave(t[i].0) == clave(t[j].0) implies #[trigger] r[i] < #[trigger] r[j] by {
        let a = if i < q { i } else { i + 1 };
        let b = if j < q { j } else { j + 1 };
        assert(r[i] == p[a] && r[j] == p[b] && t[i] == o[a] && t[j] == o[b]);
    }
    assert forall|a: int, b: int| 0 <= a < b < t.len() implies clave(#[trigger] t[a].0) <= clave(#[trigger] t[b].0) by {
        let a2 = if a < q { a } else { a + 1 };
        let b2 = if b < q { b } else { b + 1 };
        assert(t[a] == o[a2] && t[b] == o[b2]);
    }
    assert forall|i: int| 0 <= i < q implies clave(#[trigger] t[i].0) <= clave(s.last().0) by {
        assert(t[i] == o[i]);
    }
    assert forall|i: int| q <= i < t.len() implies clave(#[trigger] t[i].0) > clave(s.last().0) by {
        assert(t[i] == o[i + 1]);
        assert(clave(o[q].0) <= clave(o[i + 1].0));
        if clave(o[q].0) == clave(o[i + 1].0) {
            assert(p[q] < p[i + 1]);
        }
    }
}

/// `slice::sort_by_key` of std on the samples, by the order key of their value:
/// the samples come out sorted by that key, and they are the samples that went in
/// (the sort only moves them), so their views are too. std documents the sort as
/// stable: samples with equal keys keep their order.
#[verifier::external_body]
fn ordenar_por_clave(muestras: &mut Vec<DatoDiscretizacion>)
    ensures
        vistas_muestras(final(muestras)@).to_multiset() == vistas_muestras(old(muestras)@).to_multiset(),
        exists|p: Seq<int>|
            #[trigger] reordena_estable(p, vistas_muestras(final(muestras)@), vistas_muestras(old(muestras)@)),
        forall|a: int, b: int|
            0 <= a < b < final(muestras)@.len() ==> clave(#[trigger] final(muestras)@[a].valor) <= clave(
                #[trigger] final(muestras)@[b].valor,
            ),
{
    muestras.sort_by_key(|m| clave_orden(m.valor));
}

proof fn lema_clases_prefijo(v: Seq<(String, usize)>, j: int)
    requires
        0 <= j < v.len(),
    ensures
        clases_contadas(v.take(j + 1)) == clases_contadas(v.take(j)).add(repetir(v[j].0@, v[j].1 as nat)),
        clases_contadas(v.take(j)).len() + v[j].1 <= clases_contadas(v).len(),
    decreases v.len(),
{
    assert(v.take(j + 1).drop_last() =~= v.take(j));
    lema_repetir(v[j].0@, v[j].1 as nat);
    lema_repetir(v.last().0@, v.last().1 as nat);
    if j < v.len() - 1 {
        lema_clases_prefijo(v.drop_last(), j);
        assert(v.drop_last().take(j + 1) =~= v.take(j + 1));
        assert(v.drop_last().take(j) =~= v.take(j));
    } else {
        assert(v.take(j + 1) =~= v);
    }
}

impl Intervalo {
    /// Number of samples in the interval.
    pub fn total(&self) -> (r: usize)
        requires
            self@.2.len() <= usize::MAX,
        ensures
            r == self@.2.len(),
    {
        let mut suma: usize = 0;
        let mut j: usize = 0;
        while j < self.conteos.len()
            invariant
                j <= self.conteos@.len(),
                suma == clases_contadas(self.conteos@.take(j as int)).len(),
                self@.2.len() <= usize::MAX,
            decreases self.conteos@.len() - j,
        {
            proof {
                lema_clases_prefijo(self.conteos@, j as int);
                lema_repetir(self.conteos@[j as int].0@, self.conteos@[j as int].1 as nat);
            }
            suma = suma + self.conteos[j].1;
            j = j + 1;
        }
        proof {
            assert(self.conteos@.take(j as int) =~= self.conteos@);
        }
        suma
    }

    /// Number of samples of class `clase` in the interval.
    pub fn conteo_de(&self, clase: &String) -> (r: usize)
        requires
            self@.2.len() <= usize::MAX,
        ensures
            r == self@.2.count(clase@),
    {
        let mut suma: usize = 0;
        let mut j: usize = 0;
        while j < self.conteos.len()
            invariant
                j <= self.conteos@.len(),
                suma == clases_contadas(self.conteos@.take(j as int)).count(clase@),
                suma <= clases_contadas(self.conteos@.take(j as int)).len(),
                self@.2.len() <= usize::MAX,
            decreases self.conteos@.len() - j,
        {
            proof {
                lema_clases_prefijo(self.conteos@, j as int);
                lema_repetir(self.conteos@[j as int].0@, self.conteos@[j as int].1 as nat);
            }
            if self.conteos[j].0 == *clase {
                suma = suma + self.conteos[j].1;
            }
            j = j + 1;
        }
        proof {
            assert(self.conteos@.take(j as int) =~= self.conteos@);
        }
        suma
    }
}

/// Sum of the numbers of samples of the intervals.
pub open spec fn suma_totales(v: Seq<IntervaloV>) -> nat
    decreases v.len(),
{
    if v.len() == 0 {
        0
    } else {
        suma_totales(v.drop_last()) + v.last().2.len()
    }
}

/// The intervals `v` after the interval at `k` absorbed the next one: it keeps its
/// smallest value, takes the largest value of the next one, and the samples of both.
pub open spec fn fusion(v: Seq<IntervaloV>, k: int) -> Seq<IntervaloV> {
    v.subrange(0, k).push((v[k].0, v[k + 1].1, v[k].2.add(v[k + 1].2))) + v.subrange(k + 2, v.len() as int)
}

proof fn lema_suma_totales_cota(v: Seq<IntervaloV>, a: int, b: int)
    requires
        0 <= a < b < v.len(),
    ensures
        v[a].2.len() + v[b].2.len() <= suma_totales(v),
    decreases v.len(),
{
    if b < v.len() - 1 {
        lema_suma_totales_cota(v.drop_last(), a, b);
    } else {
        lema_suma_totales_uno(v.drop_last(), a);
    }
}

proof fn lema_suma_totales_uno(v: Seq<IntervaloV>, a: int)
    requires
        0 <= a < v.len(),
    ensures
        v[a].2.len() <= suma_totales(v),
    decreases v.len(),
{
    if a < v.len() - 1 {
        lema_suma_totales_uno(v.drop_last(), a);
    }
}

proof fn lema_suma_totales_concat(a: Seq<IntervaloV>, b: Seq<IntervaloV>)
    ensures
        suma_totales(a + b) == suma_totales(a) + suma_totales(b),
    decreases b.len(),
{
    if b.len() > 0 {
        lema_suma_totales_concat(a, b.drop_last());
        assert((a + b).drop_last() =~= a + b.drop_last());
    }
}

proof fn lema_suma_totales_fusion(v: Seq<IntervaloV>, k: int)
    requires
        0 <= k,
        k + 1 < v.len(),
    ensures
        suma_totales(fusion(v, k)) == suma_totales(v),
{
    let x = (v[k].0, v[k + 1].1, v[k].2.add(v[k + 1].2));
    let izq = v.subrange(0, k);
    let der = v.subrange(k + 2, v.len() as int);
    let dos = seq![v[k], v[k + 1]];
    assert(v =~= izq + dos + der);
    assert(fusion(v, k) =~= izq + seq![x] + der);
    lema_suma_totales_concat(izq + dos, der);
    lema_suma_totales_concat(izq, dos);
    lema_suma_totales_concat(izq + seq![x], der);
    lema_suma_totales_concat(izq, seq![x]);
    assert(dos.drop_last() =~= seq![v[k]]);
    assert(seq![v[k]].drop_last() =~= Seq::<IntervaloV>::empty());
    assert(seq![x].drop_last() =~= Seq::<IntervaloV>::empty());
    assert(suma_totales(Seq::<IntervaloV>::empty()) == 0);
    assert(suma_totales(seq![v[k]]) == v[k].2.len());
    assert(suma_totales(dos) == v[k].2.len() + v[k + 1].2.len());
    assert(suma_totales(seq![x]) == x.2.len());
}

/// The interval at `idx` absorbs the next one.
pub fn fusionar(intervalos: &mut Vec<Intervalo>, idx: usize)
    requires
        idx + 1 < old(intervalos)@.len(),
        suma_totales(vistas(old(intervalos)@)) <= usize::MAX,
    ensures
        vistas(final(intervalos)@) == fusion(vistas(old(intervalos)@), idx as int),
        suma_totales(vistas(final(intervalos)@)) == suma_totales(vistas(old(intervalos)@)),
        todos_bien(old(intervalos)@) ==> todos_bien(final(intervalos)@),
{
    let ghost v = vistas(intervalos@);
    proof {
        lema_suma_totales_cota(v, idx as int, idx + 1);
        lema_suma_totales_fusion(v, idx as int);
        assert(v[idx as int] == intervalos@[idx as int]@);
        assert(v[idx + 1] == intervalos@[idx + 1]@);
    }
    // The number of intervals before the removal bounds the positions used below.
    let _cantidad = intervalos.len();
    let ghost originales = intervalos@;
    let siguiente = intervalos.remove(idx + 1);
    intervalos[idx].max_valor = siguiente.max_valor;
    let ghost base = clases_contadas(intervalos@[idx as int].conteos@);
    let ghost tras = intervalos@;
    proof {
        assert(siguiente == originales[idx + 1]);
        assert(intervalos@[idx as int].conteos == originales[idx as int].conteos);
    }
    let mut j: usize = 0;
    while j < siguiente.conteos.len()
        invariant
            j <= siguiente.conteos@.len(),
            idx < intervalos@.len(),
            intervalos@.len() + 1 == v.len(),
            base.len() + clases_contadas(siguiente.conteos@).len() <= usize::MAX,
            clases_contadas(intervalos@[idx as int].conteos@) == base.add(clases_contadas(siguiente.conteos@.take(j as int))),
            intervalos@[idx as int].min_valor == v[idx as int].0,
            intervalos@[idx as int].max_valor == v[idx + 1].1,
            forall|x: int| 0 <= x < intervalos@.len() && x != idx ==> #[trigger] intervalos@[x]@ == v.remove(idx + 1)[x],
            intervalos@.len() == tras.len(),
            forall|x: int| 0 <= x < intervalos@.len() && x != idx ==> #[trigger] intervalos@[x] == tras[x],
            siguiente == originales[idx + 1],
            originales.len() == intervalos@.len() + 1,
            todos_bien(originales) ==> conteos_bien(intervalos@[idx as int].conteos@),
        decreases siguiente.conteos@.len() - j,
    {
        proof {
            lema_clases_prefijo(siguiente.conteos@, j as int);
        }
        let (clase, k) = (&siguiente.conteos[j].0, siguiente.conteos[j].1);
        proof {
            if todos_bien(originales) {
                assert(conteos_bien(originales[idx + 1].conteos@));
                assert(siguiente.conteos@[j as int].1 > 0);
            }
        }
        sumar_clase(&mut intervalos[idx].conteos, clase, k);
        proof {
            assert(clases_contadas(intervalos@[idx as int].conteos@) =~= base.add(clases_contadas(siguiente.conteos@.take(j + 1))));
        }
        j = j + 1;
    }
    proof {
        assert(siguiente.conteos@.take(j as int) =~= siguiente.conteos@);
        assert(vistas(intervalos@) =~= fusion(v, idx as int));
        if todos_bien(originales) {
            assert forall|x: int| 0 <= x < intervalos@.len() implies conteos_bien(#[trigger] intervalos@[x].conteos@) by {
                if x < idx {
                    assert(intervalos@[x] == originales[x]);
                } else if x > idx {
                    assert(intervalos@[x] == originales[x + 1]);
                }
            }
        }
    }
}

/// Bit pattern of the `f64` +infinity, above every chi-square value.
pub const BITS_INFINITO: u64 = 0x7FF0_0000_0000_0000;

/// Fewest intervals below which the threshold alone no longer stops the merging.
pub const MAX_INTERVALOS: usize = 6;

/// The chi-square values of a pair of neighbouring intervals `a` (left) and `b`
/// (right), as bit patterns of `f64`: of `(a, b)` and of `(b, a)`, each also with
/// the penalty for a merge that would be too large added.
#[derive(Clone, Copy)]
pub struct ChiPar {
    pub directo: u64,
    pub inverso: u64,
    pub directo_penalizado: u64,
    pub inverso_penalizado: u64,
}

/// The numbers of samples of the intervals.
pub open spec fn totales(v: Seq<IntervaloV>) -> Seq<nat> {
    v.map_values(|x: IntervaloV| x.2.len())
}

/// Position of the first interval with fewer than `min` samples, or -1.
pub open spec fn primer_pequeno(t: Seq<nat>, min: nat) -> int
    decreases t.len(),
{
    if t.len() == 0 {
        -1
    } else {
        let p = primer_pequeno(t.drop_last(), min);
        if p >= 0 {
            p
        } else if t.last() < min {
            t.len() - 1
        } else {
            -1
        }
    }
}

/// The chi-square between the interval `i` and its neighbour `v`, with the penalty
/// when both together hold more than `max` samples.
pub open spec fn chi_con_vecino(t: Seq<nat>, pares: Seq<ChiPar>, max: nat, i: int, v: int) -> u64 {
    let penalizar = t[i] + t[v] > max;
    if v < i {
        if penalizar { pares[v].inverso_penalizado } else { pares[v].inverso }
    } else {
        if penalizar { pares[i].directo_penalizado } else { pares[i].directo }
    }
}

/// The neighbour that the interval `i` merges with: the left one first, then the
/// right one if its chi-square is smaller; only values below +infinity count.
/// -1 when none does.
pub open spec fn vecino_elegido(t: Seq<nat>, pares: Seq<ChiPar>, max: nat, i: int) -> int {
    let izq = chi_con_vecino(t, pares, max, i, i - 1);
    let der = chi_con_vecino(t, pares, max, i, i + 1);
    let (v0, k0) = if i > 0 && f64_lt(izq, BITS_INFINITO) { (i - 1, izq) } else { (-1, BITS_INFINITO) };
    if i + 1 < t.len() && f64_lt(der, k0) {
        i + 1
    } else {
        v0
    }
}

/// Among the first `n` pairs of neighbours, skipping those that together hold more
/// than `max` samples, the first with the smallest chi-square below +infinity, and that
/// chi-square; `(-1, +infinity)` when there is none.
pub open spec fn mejor_par(t: Seq<nat>, pares: Seq<ChiPar>, max: nat, n: nat) -> (int, u64)
    decreases n,
{
    if n == 0 {
        (-1, BITS_INFINITO)
    } else {
        let (k, m) = mejor_par(t, pares, max, (n - 1) as nat);
        let p = n - 1;
        if t[p] + t[p + 1] > max {
            (k, m)
        } else if f64_lt(pares[p].directo, m) {
            (p, pares[p].directo)
        } else {
            (k, m)
        }
    }
}

/// One step of ChiMerge with size limits over intervals with `t` samples each and
/// chi-square values `pares`: the position of the interval that absorbs the next
/// one, or -1 to stop.
/// - Fewer than two intervals: stop.
/// - If some interval has fewer than `min` samples, the first such interval merges
///   with its chosen neighbour (the merge is at the left one of the two).
/// - Else the pair of smallest chi-square among those within `max` merges, unless
///   there is none, or its chi-square reaches the threshold and there are at most
///   six intervals.
pub open spec fn decision_chimerge(t: Seq<nat>, pares: Seq<ChiPar>, umbral: u64, min: nat, max: nat) -> int {
    if t.len() < 2 {
        -1
    } else {
        let i = primer_pequeno(t, min);
        if i >= 0 {
            let v = vecino_elegido(t, pares, max, i);
            if v < 0 {
                -1
            } else if v < i {
                v
            } else {
                i
            }
        } else {
            let (k, m) = mejor_par(t, pares, max, (t.len() - 1) as nat);
            if (f64_le(umbral, m) && t.len() <= MAX_INTERVALOS) || k < 0 {
                -1
            } else {
                k
            }
        }
    }
}

proof fn lema_primer_pequeno(t: Seq<nat>, min: nat)
    ensures
        -1 <= primer_pequeno(t, min) < t.len(),
        primer_pequeno(t, min) >= 0 ==> t[primer_pequeno(t, min)] < min,
        primer_pequeno(t, min) >= 0 ==> forall|j: int| 0 <= j < primer_pequeno(t, min) ==> t[j] >= min,
        primer_pequeno(t, min) < 0 ==> forall|j: int| 0 <= j < t.len() ==> t[j] >= min,
    decreases t.len(),
{
    if t.len() > 0 {
        let d = t.drop_last();
        lema_primer_pequeno(d, min);
        let p = primer_pequeno(d, min);
        assert forall|j: int| 0 <= j < t.len() - 1 implies #[trigger] d[j] == t[j] by {}
        if p >= 0 {
            assert forall|j: int| 0 <= j < p implies t[j] >= min by {
                assert(d[j] >= min);
            }
        } else {
            assert forall|j: int| 0 <= j < t.len() - 1 implies t[j] >= min by {
                assert(d[j] >= min);
            }
        }
    }
}

proof fn lema_mejor_par(t: Seq<nat>, pares: Seq<ChiPar>, max: nat, n: nat)
    ensures
        -1 <= mejor_par(t, pares, max, n).0 < n,
        mejor_par(t, pares, max, n).0 < 0 ==> mejor_par(t, pares, max, n).1 == BITS_INFINITO,
    decreases n,
{
    if n > 0 {
        lema_mejor_par(t, pares, max, (n - 1) as nat);
    }
}

proof fn lema_totales_cota(v: Seq<IntervaloV>)
    ensures
        forall|a: int, b: int| 0 <= a < b < v.len() ==> #[trigger] totales(v)[a] + #[trigger] totales(v)[b] <= suma_totales(v),
        forall|a: int| 0 <= a < v.len() ==> #[trigger] totales(v)[a] <= suma_totales(v),
{
    assert forall|a: int, b: int| 0 <= a < b < v.len() implies #[trigger] totales(v)[a] + #[trigger] totales(v)[b] <= suma_totales(v) by {
        lema_suma_totales_cota(v, a, b);
    }
    assert forall|a: int| 0 <= a < v.len() implies #[trigger] totales(v)[a] <= suma_totales(v) by {
        lema_suma_totales_uno(v, a);
    }
}

/// The numbers of samples of the intervals.
fn calcular_totales(intervalos: &Vec<Intervalo>) -> (r: Vec<usize>)
    requires
        suma_totales(vistas(intervalos@)) <= usize::MAX,
    ensures
        r@.len() == intervalos@.len(),
        forall|j: int| 0 <= j < r@.len() ==> r@[j] == #[trigger] totales(vistas(intervalos@))[j],
{
    proof {
        lema_totales_cota(vistas(intervalos@));
    }
    let mut r: Vec<usize> = Vec::new();
    let mut j: usize = 0;
    while j < intervalos.len()
        invariant
            j <= intervalos@.len(),
            r@.len() == j,
            suma_totales(vistas(intervalos@)) <= usize::MAX,
            forall|a: int| 0 <= a < intervalos@.len() ==> #[trigger] totales(vistas(intervalos@))[a] <= suma_totales(vistas(intervalos@)),
            forall|a: int| 0 <= a < j ==> r@[a] == #[trigger] totales(vistas(intervalos@))[a],
        decreases intervalos@.len() - j,
    {
        proof {
            assert(totales(vistas(intervalos@))[j as int] == intervalos@[j as int]@.2.len());
        }
        r.push(intervalos[j].total());
        j = j + 1;
    }
    r
}

/// One step of ChiMerge with size limits: the interval that `decision_chimerge`
/// picks absorbs the next one, or nothing changes when it says to stop. Tells
/// whether a merge happened.
pub fn paso_chimerge(
    intervalos: &mut Vec<Intervalo>,
    pares: &Vec<ChiPar>,
    umbral: u64,
    min_partidas: usize,
    max_partidas: usize,
) -> (fusionado: bool)
    requires
        old(intervalos)@.len() < 2 || pares@.len() + 1 == old(intervalos)@.len(),
        suma_totales(vistas(old(intervalos)@)) <= usize::MAX,
    ensures
        ({
            let d = decision_chimerge(totales(vistas(old(intervalos)@)), pares@, umbral, min_partidas as nat, max_partidas as nat);
            &&& d < 0 ==> !fusionado && final(intervalos)@ == old(intervalos)@
            &&& d >= 0 ==> fusionado && vistas(final(intervalos)@) == fusion(vistas(old(intervalos)@), d)
        }),
        suma_totales(vistas(final(intervalos)@)) == suma_totales(vistas(old(intervalos)@)),
        todos_bien(old(intervalos)@) ==> todos_bien(final(intervalos)@),
{
    let ghost tv = totales(vistas(intervalos@));
    let n = intervalos.len();
    if n < 2 {
        return false;
    }
    let t = calcular_totales(intervalos);
    proof {
        assert(t@.map_values(|x: usize| x as nat) =~= tv);
        lema_totales_cota(vistas(intervalos@));
        lema_primer_pequeno(tv, min_partidas as nat);
        lema_mejor_par(tv, pares@, max_partidas as nat, (n - 1) as nat);
    }
    let mut i: usize = 0;
    while i < n && t[i] >= min_partidas
        invariant
            i <= n,
            n == t@.len(),
            n == tv.len(),
            forall|j: int| 0 <= j < n ==> t@[j] == #[trigger] tv[j],
            forall|j: int| 0 <= j < i ==> tv[j] >= min_partidas,
        decreases n - i,
    {
        i = i + 1;
    }
    proof {
        lema_totales_cota(vistas(intervalos@));
    }
    let mut indice: Option<usize> = None;
    if i < n {
        proof {
            assert(primer_pequeno(tv, min_partidas as nat) == i) by {
                let p = primer_pequeno(tv, min_partidas as nat);
                if p >= 0 && p < i {
                    assert(tv[p] >= min_partidas);
                }
                if p < 0 || p > i {
                    assert(tv[i as int] < min_partidas);
                }
            }
        }
        let mut menor_chi: u64 = BITS_INFINITO;
        let mut vecino: Option<usize> = None;
        if i > 0 {
            proof {
                assert(tv[i - 1] + tv[i as int] <= usize::MAX);
            }
            let par = pares[i - 1];
            let chi = if t[i] + t[i - 1] > max_partidas {
                par.inverso_penalizado
            } else {
                par.inverso
            };
            if menor(chi, menor_chi) {
                menor_chi = chi;
                vecino = Some(i - 1);
            }
        }
        if i < n - 1 {
            proof {
                assert(tv[i as int] + tv[i + 1] <= usize::MAX);
            }
            let par = pares[i];
            let chi = if t[i] + t[i + 1] > max_partidas {
                par.directo_penalizado
            } else {
                par.directo
            };
            if menor(chi, menor_chi) {
                vecino = Some(i + 1);
            }
        }
        if let Some(v) = vecino {
            if v < i {
                indice = Some(v);
            } else {
                indice = Some(i);
            }
        }
        proof {
            let v = vecino_elegido(tv, pares@, max_partidas as nat, i as int);
            match vecino {
                Some(w) => assert(v == w),
                None => assert(v < 0),
            }
        }
    } else {
        proof {
            assert(primer_pequeno(tv, min_partidas as nat) < 0);
        }
        let mut menor_chi: u64 = BITS_INFINITO;
        let mut p: usize = 0;
        while p < n - 1
            invariant
                p <= n - 1,
                n == t@.len(),
                n == tv.len(),
                n >= 2,
                pares@.len() + 1 == n,
                forall|j: int| 0 <= j < n ==> t@[j] == #[trigger] tv[j],
                forall|a: int, b: int| 0 <= a < b < n ==> #[trigger] tv[a] + #[trigger] tv[b] <= usize::MAX,
                suma_totales(vistas(intervalos@)) <= usize::MAX,
                tv == totales(vistas(intervalos@)),
                mejor_par(tv, pares@, max_partidas as nat, p as nat) == (
                    match indice {
                        Some(x) => x as int,
                        None => -1,
                    },
                    menor_chi,
                ),
            decreases n - 1 - p,
        {
            proof {
                assert(tv[p as int] + tv[p + 1] <= usize::MAX);
            }
            if t[p] + t[p + 1] <= max_partidas {
                if menor(pares[p].directo, menor_chi) {
                    menor_chi = pares[p].directo;
                    indice = Some(p);
                }
            }
            p = p + 1;
        }
        if (menor_o_igual(umbral, menor_chi) && n <= MAX_INTERVALOS) || indice.is_none() {
            indice = None;
        }
    }
    match indice {
        Some(idx) => {
            fusionar(intervalos, idx);
            true
        },
        None => false,
    }
}

/// Among the first `n` pairs of neighbours, the first with the smallest chi-square
/// below +infinity, and that chi-square; `(-1, +infinity)` when there is none.
pub open spec fn mejor_par_sin_limite(pares: Seq<ChiPar>, n: nat) -> (int, u64)
    decreases n,
{
    if n == 0 {
        (-1, BITS_INFINITO)
    } else {
        let (k, m) = mejor_par_sin_limite(pares, (n - 1) as nat);
        let p = n - 1;
        if f64_lt(pares[p].directo, m) {
            (p, pares[p].directo)
        } else {
            (k, m)
        }
    }
}

/// One step of plain ChiMerge over `n` intervals with chi-square values `pares`:
/// the position of the interval that absorbs the next one, or -1 to stop. With
/// fewer than two intervals, or when the smallest chi-square of a pair reaches the
/// threshold, it stops; else the first pair with the smallest chi-square merges.
pub open spec fn decision_por_umbral(n: nat, pares: Seq<ChiPar>, umbral: u64) -> int {
    if n < 2 {
        -1
    } else {
        let (k, m) = mejor_par_sin_limite(pares, (n - 1) as nat);
        if f64_le(umbral, m) {
            -1
        } else {
            k
        }
    }
}

proof fn lema_mejor_par_sin_limite(pares: Seq<ChiPar>, n: nat)
    ensures
        -1 <= mejor_par_sin_limite(pares, n).0 < n,
        mejor_par_sin_limite(pares, n).0 < 0 ==> mejor_par_sin_limite(pares, n).1 == BITS_INFINITO,
    decreases n,
{
    if n > 0 {
        lema_mejor_par_sin_limite(pares, (n - 1) as nat);
    }
}

/// One step of plain ChiMerge: the interval that `decision_por_umbral` picks absorbs
/// the next one, or nothing changes when it says to stop. Tells whether a merge happened.
pub fn paso_chimerge_por_umbral(intervalos: &mut Vec<Intervalo>, pares: &Vec<ChiPar>, umbral: u64) -> (fusionado: bool)
    requires
        old(intervalos)@.len() < 2 || pares@.len() + 1 == old(intervalos)@.len(),
        suma_totales(vistas(old(intervalos)@)) <= usize::MAX,
    ensures
        ({
            let d = decision_por_umbral(old(intervalos)@.len(), pares@, umbral);
            &&& d < 0 ==> !fusionado && final(intervalos)@ == old(intervalos)@
            &&& d >= 0 ==> fusionado && vistas(final(intervalos)@) == fusion(vistas(old(intervalos)@), d)
        }),
        suma_totales(vistas(final(intervalos)@)) == suma_totales(vistas(old(intervalos)@)),
        todos_bien(old(intervalos)@) ==> todos_bien(final(intervalos)@),
{
    let n = intervalos.len();
    if n < 2 {
        return false;
    }
    proof {
        lema_mejor_par_sin_limite(pares@, (n - 1) as nat);
    }
    let mut menor_chi: u64 = BITS_INFINITO;
    let mut indice: Option<usize> = None;
    let mut p: usize = 0;
    while p < n - 1
        invariant
            p <= n - 1,
            n >= 2,
            pares@.len() + 1 == n,
            mejor_par_sin_limite(pares@, p as nat) == (
                match indice {
                    Some(x) => x as int,
                    None => -1,
                },
                menor_chi,
            ),
        decreases n - 1 - p,
    {
        if menor(pares[p].directo, menor_chi) {
            menor_chi = pares[p].directo;
            indice = Some(p);
        }
        p = p + 1;
    }
    if menor_o_igual(umbral, menor_chi) {
        return false;
    }
    match indice {
        Some(idx) => {
            fusionar(intervalos, idx);
            true
        },
        None => false,
    }
}

/// The classes of all samples of the intervals.
pub open spec fn suma_clases(e: Seq<IntervaloV>) -> Multiset<Seq<char>>
    decreases e.len(),
{
    if e.len() == 0 {
        Multiset::empty()
    } else {
        suma_clases(e.drop_last()).add(e.last().2)
    }
}

/// `x` is the merge of the intervals `e[a..b]`: the smallest value of the first,
/// the largest value of the last, and the samples of all of them.
pub open spec fn cubre(x: IntervaloV, e: Seq<IntervaloV>, a: int, b: int) -> bool {
    &&& 0 <= a < b <= e.len()
    &&& x.0 == e[a].0
    &&& x.1 == e[b - 1].1
    &&& x.2 == suma_clases(e.subrange(a, b))
}

/// `r` is made of the runs of `e` between the cut points `cortes`.
pub open spec fn agrupa_con(r: Seq<IntervaloV>, e: Seq<IntervaloV>, cortes: Seq<int>) -> bool {
    &&& cortes.len() == r.len() + 1
    &&& cortes[0] == 0
    &&& cortes[r.len() as int] == e.len()
    &&& forall|j: int| 0 <= j < r.len() ==> cubre(#[trigger] r[j], e, cortes[j], cortes[j + 1])
}

/// Each interval of `r` is the merge of a run of adjacent intervals of `e`, and the
/// runs follow one another and cover `e`.
pub open spec fn agrupacion(r: Seq<IntervaloV>, e: Seq<IntervaloV>) -> bool {
    exists|cortes: Seq<int>| agrupa_con(r, e, cortes)
}

proof fn lema_suma_clases_concat(a: Seq<IntervaloV>, b: Seq<IntervaloV>)
    ensures
        suma_clases(a + b) == suma_clases(a).add(suma_clases(b)),
    decreases b.len(),
{
    if b.len() == 0 {
        assert(a + b =~= a);
        assert(suma_clases(a).add(Multiset::empty()) =~= suma_clases(a));
    } else {
        lema_suma_clases_concat(a, b.drop_last());
        assert((a + b).drop_last() =~= a + b.drop_last());
        assert(suma_clases(a + b) =~= suma_clases(a).add(suma_clases(b)));
    }
}

proof fn lema_agrupacion_inicial(e: Seq<IntervaloV>)
    ensures
        agrupa_con(e, e, Seq::new(e.len() + 1, |j: int| j)),
{
    let cortes = Seq::new(e.len() + 1, |j: int| j);
    assert forall|j: int| 0 <= j < e.len() implies cubre(#[trigger] e[j], e, cortes[j], cortes[j + 1]) by {
        let u = e.subrange(j, j + 1);
        assert(u.drop_last() =~= Seq::<IntervaloV>::empty());
        assert(suma_clases(Seq::<IntervaloV>::empty()) == Multiset::<Seq<char>>::empty());
        assert(suma_clases(u) =~= e[j].2);
    }
}

proof fn lema_agrupacion_fusion(r: Seq<IntervaloV>, e: Seq<IntervaloV>, cortes: Seq<int>, k: int)
    requires
        agrupa_con(r, e, cortes),
        0 <= k,
        k + 1 < r.len(),
    ensures
        agrupa_con(fusion(r, k), e, cortes.remove(k + 1)),
{
    let f = fusion(r, k);
    let c = cortes.remove(k + 1);
    assert(cubre(r[k], e, cortes[k], cortes[k + 1]));
    assert(cubre(r[k + 1], e, cortes[k + 1], cortes[k + 2]));
    let a = cortes[k];
    let m = cortes[k + 1];
    let b = cortes[k + 2];
    assert(e.subrange(a, b) =~= e.subrange(a, m) + e.subrange(m, b));
    lema_suma_clases_concat(e.subrange(a, m), e.subrange(m, b));
    assert forall|j: int| 0 <= j < f.len() implies cubre(#[trigger] f[j], e, c[j], c[j + 1]) by {
        if j < k {
            assert(f[j] == r[j]);
            assert(cubre(r[j], e, cortes[j], cortes[j + 1]));
        } else if j == k {
        } else {
            assert(f[j] == r[j + 1]);
            assert(cubre(r[j + 1], e, cortes[j + 1], cortes[j + 2]));
        }
    }
}

/// `chi` may return `bits` for intervals that hold `x` and `y`, with the penalty
/// flag `penalizar`.
pub open spec fn chi_posible<F: Fn(&Intervalo, &Intervalo, bool) -> u64>(
    chi: F,
    x: IntervaloV,
    y: IntervaloV,
    penalizar: bool,
    bits: u64,
) -> bool {
    exists|a: &Intervalo, b: &Intervalo| a@ == x && b@ == y && #[trigger] chi.ensures((a, b, penalizar), bits)
}

proof fn lema_chi_posible<F: Fn(&Intervalo, &Intervalo, bool) -> u64>(
    chi: F,
    a: &Intervalo,
    b: &Intervalo,
    penalizar: bool,
    bits: u64,
)
    requires
        chi.ensures((a, b, penalizar), bits),
    ensures
        chi_posible(chi, a@, b@, penalizar, bits),
{
}

/// `pares` holds, for each pair of neighbours of `v`, chi-square values that `chi`
/// may return for it.
pub open spec fn pares_de<F: Fn(&Intervalo, &Intervalo, bool) -> u64>(
    pares: Seq<ChiPar>,
    v: Seq<IntervaloV>,
    chi: F,
) -> bool {
    &&& v.len() < 2 ==> pares.len() == 0
    &&& v.len() >= 2 ==> pares.len() + 1 == v.len()
    &&& forall|p: int|
        0 <= p < pares.len() ==> {
            &&& chi_posible(chi, v[p], v[p + 1], false, (#[trigger] pares[p]).directo)
            &&& chi_posible(chi, v[p + 1], v[p], false, pares[p].inverso)
            &&& chi_posible(chi, v[p], v[p + 1], true, pares[p].directo_penalizado)
            &&& chi_posible(chi, v[p + 1], v[p], true, pares[p].inverso_penalizado)
        }
}

/// The chi-square values of every pair of neighbouring intervals, from `chi`.
pub fn calcular_pares<F: Fn(&Intervalo, &Intervalo, bool) -> u64>(intervalos: &Vec<Intervalo>, chi: &F) -> (r: Vec<ChiPar>)
    requires
        forall|a: &Intervalo, b: &Intervalo, p: bool| #[trigger] chi.requires((a, b, p)),
    ensures
        pares_de(r@, vistas(intervalos@), *chi),
{
    let ghost v = vistas(intervalos@);
    let mut r: Vec<ChiPar> = Vec::new();
    if intervalos.len() < 2 {
        return r;
    }
    let mut p: usize = 0;
    while p < intervalos.len() - 1
        invariant
            intervalos@.len() >= 2,
            p + 1 <= intervalos@.len(),
            r@.len() == p,
            v == vistas(intervalos@),
            forall|a: &Intervalo, b: &Intervalo, q: bool| #[trigger] chi.requires((a, b, q)),
            forall|q: int|
                0 <= q < p ==> {
                    &&& chi_posible(*chi, v[q], v[q + 1], false, (#[trigger] r@[q]).directo)
                    &&& chi_posible(*chi, v[q + 1], v[q], false, r@[q].inverso)
                    &&& chi_posible(*chi, v[q], v[q + 1], true, r@[q].directo_penalizado)
                    &&& chi_posible(*chi, v[q + 1], v[q], true, r@[q].inverso_penalizado)
                },
        decreases intervalos@.len() - p,
    {
        let a = &intervalos[p];
        let b = &intervalos[p + 1];
        let directo = chi(a, b, false);
        let inverso = chi(b, a, false);
        let directo_penalizado = chi(a, b, true);
        let inverso_penalizado = chi(b, a, true);
        proof {
            assert(v[p as int] == a@);
            assert(v[p + 1] == b@);
            lema_chi_posible(*chi, a, b, false, directo);
            lema_chi_posible(*chi, b, a, false, inverso);
            lema_chi_posible(*chi, a, b, true, directo_penalizado);
            lema_chi_posible(*chi, b, a, true, inverso_penalizado);
        }
        r.push(ChiPar { directo, inverso, directo_penalizado, inverso_penalizado });
        p = p + 1;
    }
    r
}

/// One step of ChiMerge with size limits leads from `a` to `b`: for chi-square
/// values that `chi` may give for `a`, the step picks a pair, and `b` is `a` with
/// that pair merged.
pub open spec fn paso_valido<F: Fn(&Intervalo, &Intervalo, bool) -> u64>(
    a: Seq<IntervaloV>,
    b: Seq<IntervaloV>,
    chi: F,
    umbral: u64,
    min_partidas: nat,
    max_partidas: nat,
) -> bool {
    exists|pares: Seq<ChiPar>|
        #[trigger] pares_de(pares, a, chi) && decision_chimerge(totales(a), pares, umbral, min_partidas, max_partidas) >= 0
            && b == fusion(a, decision_chimerge(totales(a), pares, umbral, min_partidas, max_partidas))
}

/// `r` is what ChiMerge with size limits yields from `e`: a chain of steps leads
/// from `e` to `r`, and at `r` the step says to stop.
pub open spec fn resultado_chimerge<F: Fn(&Intervalo, &Intervalo, bool) -> u64>(
    r: Seq<IntervaloV>,
    e: Seq<IntervaloV>,
    chi: F,
    umbral: u64,
    min_partidas: nat,
    max_partidas: nat,
) -> bool {
    &&& exists|traza: Seq<Seq<IntervaloV>>|
        traza.len() >= 1 && traza[0] == e && traza.last() == r && #[trigger] cadena_chimerge(
            traza,
            chi,
            umbral,
            min_partidas,
            max_partidas,
        )
    &&& chimerge_detenido(r, chi, umbral, min_partidas, max_partidas)
}

/// Each state of `traza` leads to the next by a step of ChiMerge with size limits.
pub open spec fn cadena_chimerge<F: Fn(&Intervalo, &Intervalo, bool) -> u64>(
    traza: Seq<Seq<IntervaloV>>,
    chi: F,
    umbral: u64,
    min_partidas: nat,
    max_partidas: nat,
) -> bool {
    forall|t: int|
        #![trigger traza[t]]
        0 <= t < traza.len() - 1 ==> paso_valido(traza[t], traza[t + 1], chi, umbral, min_partidas, max_partidas)
}

/// One step of plain ChiMerge leads from `a` to `b`.
pub open spec fn paso_valido_por_umbral<F: Fn(&Intervalo, &Intervalo, bool) -> u64>(
    a: Seq<IntervaloV>,
    b: Seq<IntervaloV>,
    chi: F,
    umbral: u64,
) -> bool {
    exists|pares: Seq<ChiPar>|
        #[trigger] pares_de(pares, a, chi) && decision_por_umbral(a.len(), pares, umbral) >= 0 && b == fusion(
            a,
            decision_por_umbral(a.len(), pares, umbral),
        )
}

/// Each state of `traza` leads to the next by a step of plain ChiMerge.
pub open spec fn cadena_por_umbral<F: Fn(&Intervalo, &Intervalo, bool) -> u64>(
    traza: Seq<Seq<IntervaloV>>,
    chi: F,
    umbral: u64,
) -> bool {
    forall|t: int| #![trigger traza[t]] 0 <= t < traza.len() - 1 ==> paso_valido_por_umbral(traza[t], traza[t + 1], chi, umbral)
}

/// `r` is what plain ChiMerge yields from `e`: a chain of steps leads from `e` to
/// `r`, and at `r` the step says to stop.
pub open spec fn resultado_por_umbral<F: Fn(&Intervalo, &Intervalo, bool) -> u64>(
    r: Seq<IntervaloV>,
    e: Seq<IntervaloV>,
    chi: F,
    umbral: u64,
) -> bool {
    &&& exists|traza: Seq<Seq<IntervaloV>>|
        traza.len() >= 1 && traza[0] == e && traza.last() == r && #[trigger] cadena_por_umbral(traza, chi, umbral)
    &&& exists|pares: Seq<ChiPar>| #[trigger] pares_de(pares, r, chi) && decision_por_umbral(r.len(), pares, umbral) < 0
}

/// ChiMerge with size limits: starting from the given intervals, steps of
/// `paso_chimerge` run, with the chi-square values that `chi` gives for the
/// current intervals, until a step says to stop. Every resulting interval is the
/// merge of a run of adjacent given intervals, and for the resulting intervals
/// the step says to stop.
pub fn ejecutar_chimerge<F: Fn(&Intervalo, &Intervalo, bool) -> u64>(
    intervalos: Vec<Intervalo>,
    umbral: u64,
    min_partidas: usize,
    max_partidas: usize,
    chi: &F,
) -> (r: Vec<Intervalo>)
    requires
        forall|a: &Intervalo, b: &Intervalo, p: bool| #[trigger] chi.requires((a, b, p)),
        suma_totales(vistas(intervalos@)) <= usize::MAX,
    ensures
        resultado_chimerge(vistas(r@), vistas(intervalos@), *chi, umbral, min_partidas as nat, max_partidas as nat),
        agrupacion(vistas(r@), vistas(intervalos@)),
        intervalos@.len() < 2 ==> r@ == intervalos@,
        todos_bien(intervalos@) ==> todos_bien(r@),
{
    let ghost e = vistas(intervalos@);
    let mut actuales = intervalos;
    let ghost mut cortes: Seq<int> = Seq::new(e.len() + 1, |j: int| j);
    let ghost mut traza: Seq<Seq<IntervaloV>> = seq![e];
    proof {
        lema_agrupacion_inicial(e);
    }
    loop
        invariant
            traza.len() >= 1,
            traza[0] == e,
            traza.last() == vistas(actuales@),
            cadena_chimerge(traza, *chi, umbral, min_partidas as nat, max_partidas as nat),
            agrupa_con(vistas(actuales@), e, cortes),
            e == vistas(intervalos@),
            suma_totales(vistas(actuales@)) == suma_totales(e),
            suma_totales(e) <= usize::MAX,
            forall|a: &Intervalo, b: &Intervalo, p: bool| #[trigger] chi.requires((a, b, p)),
            intervalos@.len() < 2 ==> actuales@ == intervalos@,
            todos_bien(intervalos@) ==> todos_bien(actuales@),
        decreases actuales@.len(),
    {
        let pares = calcular_pares(&actuales, chi);
        let ghost antes = vistas(actuales@);
        let fusionado = paso_chimerge(&mut actuales, &pares, umbral, min_partidas, max_partidas);
        if !fusionado {
            proof {
                assert(pares_de(pares@, vistas(actuales@), *chi));
                assert(agrupa_con(vistas(actuales@), e, cortes));
                assert(agrupacion(vistas(actuales@), e));
                assert(chimerge_detenido(vistas(actuales@), *chi, umbral, min_partidas as nat, max_partidas as nat));
            }
            return actuales;
        }
        proof {
            let d = decision_chimerge(totales(antes), pares@, umbral, min_partidas as nat, max_partidas as nat);
            lema_decision_chimerge(totales(antes), pares@, umbral, min_partidas as nat, max_partidas as nat);
            lema_agrupacion_fusion(antes, e, cortes, d);
            cortes = cortes.remove(d + 1);
            assert(paso_valido(antes, vistas(actuales@), *chi, umbral, min_partidas as nat, max_partidas as nat));
            let t0 = traza;
            traza = traza.push(vistas(actuales@));
            assert forall|t: int| #![trigger traza[t]] 0 <= t < traza.len() - 1 implies paso_valido(
                traza[t],
                traza[t + 1],
                *chi,
                umbral,
                min_partidas as nat,
                max_partidas as nat,
            ) by {
                if t < traza.len() - 2 {
                    assert(traza[t] == t0[t] && traza[t + 1] == t0[t + 1]);
                }
            }
        }
    }
}

proof fn lema_decision_chimerge(t: Seq<nat>, pares: Seq<ChiPar>, umbral: u64, min: nat, max: nat)
    ensures
        decision_chimerge(t, pares, umbral, min, max) + 1 < t.len() || decision_chimerge(t, pares, umbral, min, max) < 0,
{
    if t.len() >= 2 {
        lema_primer_pequeno(t, min);
        lema_mejor_par(t, pares, max, (t.len() - 1) as nat);
    }
}

/// Plain ChiMerge: starting from the given intervals, steps of
/// `paso_chimerge_por_umbral` run, with the chi-square values that `chi` gives for
/// the current intervals, until a step says to stop. Every resulting interval is
/// the merge of a run of adjacent given intervals, and for the resulting intervals
/// the step says to stop.
pub fn ejecutar_chimerge_por_umbral<F: Fn(&Intervalo, &Intervalo, bool) -> u64>(
    intervalos: Vec<Intervalo>,
    umbral: u64,
    chi: &F,
) -> (r: Vec<Intervalo>)
    requires
        forall|a: &Intervalo, b: &Intervalo, p: bool| #[trigger] chi.requires((a, b, p)),
        suma_totales(vistas(intervalos@)) <= usize::MAX,
    ensures
        resultado_por_umbral(vistas(r@), vistas(intervalos@), *chi, umbral),
        agrupacion(vistas(r@), vistas(intervalos@)),
        intervalos@.len() < 2 ==> r@ == intervalos@,
        todos_bien(intervalos@) ==> todos_bien(r@),
{
    let ghost e = vistas(intervalos@);
    let mut actuales = intervalos;
    let ghost mut cortes: Seq<int> = Seq::new(e.len() + 1, |j: int| j);
    let ghost mut traza: Seq<Seq<IntervaloV>> = seq![e];
    proof {
        lema_agrupacion_inicial(e);
    }
    loop
        invariant
            traza.len() >= 1,
            traza[0] == e,
            traza.last() == vistas(actuales@),
            cadena_por_umbral(traza, *chi, umbral),
            agrupa_con(vistas(actuales@), e, cortes),
            e == vistas(intervalos@),
            suma_totales(vistas(actuales@)) == suma_totales(e),
            suma_totales(e) <= usize::MAX,
            forall|a: &Intervalo, b: &Intervalo, p: bool| #[trigger] chi.requires((a, b, p)),
            intervalos@.len() < 2 ==> actuales@ == intervalos@,
            todos_bien(intervalos@) ==> todos_bien(actuales@),
        decreases actuales@.len(),
    {
        let pares = calcular_pares(&actuales, chi);
        let ghost antes = vistas(actuales@);
        let fusionado = paso_chimerge_por_umbral(&mut actuales, &pares, umbral);
        if !fusionado {
            proof {
                assert(pares_de(pares@, vistas(actuales@), *chi));
                assert(agrupa_con(vistas(actuales@), e, cortes));
                assert(agrupacion(vistas(actuales@), e));
            }
            return actuales;
        }
        proof {
            let d = decision_por_umbral(antes.len(), pares@, umbral);
            if antes.len() >= 2 {
                lema_mejor_par_sin_limite(pares@, (antes.len() - 1) as nat);
            }
            lema_agrupacion_fusion(antes, e, cortes, d);
            cortes = cortes.remove(d + 1);
            assert(paso_valido_por_umbral(antes, vistas(actuales@), *chi, umbral));
            let t0 = traza;
            traza = traza.push(vistas(actuales@));
            assert forall|t: int| #![trigger traza[t]] 0 <= t < traza.len() - 1 implies paso_valido_por_umbral(
                traza[t],
                traza[t + 1],
                *chi,
                umbral,
            ) by {
                if t < traza.len() - 2 {
                    assert(traza[t] == t0[t] && traza[t + 1] == t0[t + 1]);
                }
            }
        }
    }
}

/// The cut points of the final intervals: the largest value of each interval but
/// the last, in order.
pub open spec fn cortes_de(v: Seq<IntervaloV>) -> Seq<u64> {
    if v.len() == 0 {
        seq![]
    } else {
        Seq::new((v.len() - 1) as nat, |j: int| v[j].1)
    }
}

/// The cut points between the intervals.
pub fn puntos_de_corte(finales: &Vec<Intervalo>) -> (r: Vec<u64>)
    ensures
        r@ == cortes_de(vistas(finales@)),
{
    let mut r: Vec<u64> = Vec::new();
    if finales.len() == 0 {
        return r;
    }
    let mut i: usize = 0;
    while i < finales.len() - 1
        invariant
            finales@.len() >= 1,
            i <= finales@.len() - 1,
            r@ == Seq::new(i as nat, |j: int| finales@[j].max_valor),
        decreases finales@.len() - 1 - i,
    {
        r.push(finales[i].max_valor);
        i = i + 1;
        proof {
            assert(r@ =~= Seq::new(i as nat, |j: int| finales@[j].max_valor));
        }
    }
    proof {
        assert(r@ =~= cortes_de(vistas(finales@)));
    }
    r
}

/// The range of `valor` among the cut points `cortes`: the position of the first cut
/// point that the value does not exceed, or the number of cut points when it exceeds
/// all. Values and cut points are bit patterns of `f64`, compared as `f64` (a NaN is
/// never below or equal to anything).
pub open spec fn rango_de(valor: u64, cortes: Seq<u64>) -> nat
    decreases cortes.len(),
{
    if cortes.len() == 0 {
        0
    } else if f64_le(valor, cortes[0]) {
        0
    } else {
        1 + rango_de(valor, cortes.drop_first())
    }
}

proof fn lema_rango_de(valor: u64, cortes: Seq<u64>)
    ensures
        rango_de(valor, cortes) <= cortes.len(),
        forall|j: int| 0 <= j < rango_de(valor, cortes) ==> !f64_le(valor, #[trigger] cortes[j]),
        rango_de(valor, cortes) < cortes.len() ==> f64_le(valor, cortes[rango_de(valor, cortes) as int]),
    decreases cortes.len(),
{
    if cortes.len() > 0 && !f64_le(valor, cortes[0]) {
        lema_rango_de(valor, cortes.drop_first());
        assert forall|j: int| 0 <= j < rango_de(valor, cortes) implies !f64_le(valor, #[trigger] cortes[j]) by {
            if j > 0 {
                assert(cortes[j] == cortes.drop_first()[j - 1]);
            }
        }
    }
}

/// The cut points are in increasing order.
pub open spec fn crecientes(cortes: Seq<u64>) -> bool {
    forall|a: int, b: int| 0 <= a < b < cortes.len() ==> clave(#[trigger] cortes[a]) <= clave(#[trigger] cortes[b])
}

/// Discretisation keeps the order of the values: over cut points in increasing
/// order, a value that is below or equal to another (as `f64`) gets a range that is
/// not above the other's.
pub proof fn ley_rango_monotono(v1: u64, v2: u64, cortes: Seq<u64>)
    requires
        crecientes(cortes),
        f64_le(v1, v2),
    ensures
        rango_de(v1, cortes) <= rango_de(v2, cortes),
    decreases cortes.len(),
{
    if cortes.len() > 0 && !f64_le(v1, cortes[0]) {
        assert(crecientes(cortes.drop_first())) by {
            assert forall|a: int, b: int| 0 <= a < b < cortes.drop_first().len() implies clave(#[trigger] cortes.drop_first()[a])
                <= clave(#[trigger] cortes.drop_first()[b]) by {
                assert(cortes.drop_first()[a] == cortes[a + 1]);
                assert(cortes.drop_first()[b] == cortes[b + 1]);
            }
        }
        ley_rango_monotono(v1, v2, cortes.drop_first());
    }
}

/// The range of a value among the cut points: the position of the first cut point
/// that the value does not exceed, or the number of cut points when it exceeds all.
pub fn transformar_a_rango(valor: u64, puntos_de_corte: &[u64]) -> (r: usize)
    ensures
        r == rango_de(valor, puntos_de_corte@),
{
    proof {
        lema_rango_de(valor, puntos_de_corte@);
    }
    let mut indice: usize = 0;
    while indice < puntos_de_corte.len()
        invariant
            indice <= puntos_de_corte@.len(),
            forall|j: int| 0 <= j < indice ==> !f64_le(valor, #[trigger] puntos_de_corte@[j]),
        decreases puntos_de_corte@.len() - indice,
    {
        if menor_o_igual(valor, puntos_de_corte[indice]) {
            proof {
                lema_rango_unico(valor, puntos_de_corte@, indice as int);
            }
            return indice;
        }
        indice = indice + 1;
    }
    proof {
        lema_rango_unico(valor, puntos_de_corte@, puntos_de_corte@.len() as int);
    }
    puntos_de_corte.len()
}

proof fn lema_rango_unico(valor: u64, cortes: Seq<u64>, r: int)
    requires
        0 <= r <= cortes.len(),
        forall|j: int| 0 <= j < r ==> !f64_le(valor, #[trigger] cortes[j]),
        r < cortes.len() ==> f64_le(valor, cortes[r]),
    ensures
        rango_de(valor, cortes) == r,
    decreases cortes.len(),
{
    if r > 0 {
        assert(!f64_le(valor, cortes[0]));
        assert forall|j: int| 0 <= j < r - 1 implies !f64_le(valor, #[trigger] cortes.drop_first()[j]) by {
            assert(cortes.drop_first()[j] == cortes[j + 1]);
        }
        lema_rango_unico(valor, cortes.drop_first(), r - 1);
    }
}

/// Merging intervals loses no sample: intervals made of runs of `e` hold, all
/// together, the samples of `e`.
pub proof fn ley_agrupacion_conserva_muestras(r: Seq<IntervaloV>, e: Seq<IntervaloV>)
    requires
        agrupacion(r, e),
    ensures
        suma_clases(r) == suma_clases(e),
{
    let cortes = choose|cortes: Seq<int>| agrupa_con(r, e, cortes);
    lema_suma_agrupada(r, e, cortes, r.len() as int);
    assert(e.subrange(0, e.len() as int) =~= e);
    assert(r.take(r.len() as int) =~= r);
}

proof fn lema_suma_agrupada(r: Seq<IntervaloV>, e: Seq<IntervaloV>, cortes: Seq<int>, j: int)
    requires
        agrupa_con(r, e, cortes),
        0 <= j <= r.len(),
    ensures
        suma_clases(r.take(j)) == suma_clases(e.subrange(0, cortes[j])),
    decreases j,
{
    if j == 0 {
        assert(r.take(0) =~= Seq::<IntervaloV>::empty());
        assert(e.subrange(0, 0) =~= Seq::<IntervaloV>::empty());
    } else {
        lema_suma_agrupada(r, e, cortes, j - 1);
        assert(cubre(r[j - 1], e, cortes[j - 1], cortes[j]));
        assert(r.take(j).drop_last() =~= r.take(j - 1));
        assert(e.subrange(0, cortes[j]) =~= e.subrange(0, cortes[j - 1]) + e.subrange(cortes[j - 1], cortes[j]));
        lema_suma_clases_concat(e.subrange(0, cortes[j - 1]), e.subrange(cortes[j - 1], cortes[j]));
    }
}

proof fn lema_suma_iniciales(s: Seq<(u64, Seq<char>)>)
    ensures
        suma_totales(intervalos_iniciales(s)) == s.len(),
    decreases s.len(),
{
    if s.len() > 0 {
        let d = s.drop_last();
        lema_suma_iniciales(d);
        let p = intervalos_iniciales(d);
        let (v, g) = s.last();
        if p.len() > 0 && f64_eq(p.last().1, v) {
            let x = (p.last().0, p.last().1, p.last().2.insert(g));
            let q = p.update(p.len() - 1, x);
            assert(q.drop_last() =~= p.drop_last());
        } else {
            let q = p.push((v, v, Multiset::empty().insert(g)));
            assert(q.drop_last() =~= p);
        }
    }
}

/// The samples sorted by value, as the views of `ordenadas`: the same samples as
/// `s`, with their values in order, and samples of equal value in the order they
/// have in `s` (a stable sort, which gives a single result).
pub open spec fn ordenadas_de(ordenadas: Seq<(u64, Seq<char>)>, s: Seq<(u64, Seq<char>)>) -> bool {
    &&& ordenadas.to_multiset() == s.to_multiset()
    &&& forall|a: int, b: int| 0 <= a < b < ordenadas.len() ==> clave(#[trigger] ordenadas[a].0) <= clave(#[trigger] ordenadas[b].0)
    &&& exists|p: Seq<int>| #[trigger] reordena_estable(p, ordenadas, s)
}

/// A stable sort has a single result: two sequences that both hold the samples `s`
/// sorted stably by value are the same.
pub proof fn ley_orden_estable_unico(o1: Seq<(u64, Seq<char>)>, o2: Seq<(u64, Seq<char>)>, s: Seq<(u64, Seq<char>)>)
    requires
        ordenadas_de(o1, s),
        ordenadas_de(o2, s),
    ensures
        o1 == o2,
{
    let p1 = choose|p: Seq<int>| #[trigger] reordena_estable(p, o1, s);
    let p2 = choose|p: Seq<int>| #[trigger] reordena_estable(p, o2, s);
    lema_estable_unico(p1, o1, p2, o2, s);
}

/// The intervals `finales` are merges of runs of the intervals of the samples `s`
/// taken in order of value.
pub open spec fn agrupa_muestras(finales: Seq<IntervaloV>, s: Seq<(u64, Seq<char>)>) -> bool {
    exists|ordenadas: Seq<(u64, Seq<char>)>|
        #[trigger] ordenadas_de(ordenadas, s) && agrupacion(finales, intervalos_iniciales(ordenadas))
}

/// For the intervals `finales`, with chi-square values that `chi` may give, the step
/// of ChiMerge with size limits says to stop.
pub open spec fn chimerge_detenido<F: Fn(&Intervalo, &Intervalo, bool) -> u64>(
    finales: Seq<IntervaloV>,
    chi: F,
    umbral: u64,
    min_partidas: nat,
    max_partidas: nat,
) -> bool {
    exists|pares: Seq<ChiPar>|
        #[trigger] pares_de(pares, finales, chi) && decision_chimerge(totales(finales), pares, umbral, min_partidas, max_partidas) < 0
}

/// `finales` is what ChiMerge with size limits yields from the intervals of the
/// samples `s` taken in order of value.
pub open spec fn chimerge_de_muestras<F: Fn(&Intervalo, &Intervalo, bool) -> u64>(
    finales: Seq<IntervaloV>,
    s: Seq<(u64, Seq<char>)>,
    chi: F,
    umbral: u64,
    min_partidas: nat,
    max_partidas: nat,
) -> bool {
    exists|ordenadas: Seq<(u64, Seq<char>)>|
        #[trigger] ordenadas_de(ordenadas, s) && resultado_chimerge(
            finales,
            intervalos_iniciales(ordenadas),
            chi,
            umbral,
            min_partidas,
            max_partidas,
        )
}

/// `finales` is what plain ChiMerge yields from the intervals of the samples `s`
/// taken in order of value.
pub open spec fn umbral_de_muestras<F: Fn(&Intervalo, &Intervalo, bool) -> u64>(
    finales: Seq<IntervaloV>,
    s: Seq<(u64, Seq<char>)>,
    chi: F,
    umbral: u64,
) -> bool {
    exists|ordenadas: Seq<(u64, Seq<char>)>|
        #[trigger] ordenadas_de(ordenadas, s) && resultado_por_umbral(finales, intervalos_iniciales(ordenadas), chi, umbral)
}

/// Discretisation of one column by ChiMerge with size limits: the samples are
/// sorted by value, grouped into one interval per value, merged by
/// `ejecutar_chimerge`, and the cut points of the final intervals are taken.
/// `None` when there are no samples. Two or more samples must hold no NaN: values
/// are sorted as `f64`, and a NaN has no place in that order.
pub fn procesar_muestras<F: Fn(&Intervalo, &Intervalo, bool) -> u64>(
    muestras: Vec<DatoDiscretizacion>,
    umbral: u64,
    min_partidas: usize,
    max_partidas: usize,
    chi: &F,
) -> (r: Option<(Vec<u64>, Vec<Intervalo>)>)
    requires
        forall|a: &Intervalo, b: &Intervalo, p: bool| #[trigger] chi.requires((a, b, p)),
        muestras@.len() >= 2 ==> sin_nan(vistas_muestras(muestras@)),
    ensures
        r is None <==> muestras@.len() == 0,
        r matches Some((cortes, finales)) ==> {
            &&& cortes@ == cortes_de(vistas(finales@))
            &&& todos_bien(finales@)
            &&& agrupa_muestras(vistas(finales@), vistas_muestras(muestras@))
            &&& chimerge_de_muestras(
                vistas(finales@),
                vistas_muestras(muestras@),
                *chi,
                umbral,
                min_partidas as nat,
                max_partidas as nat,
            )
        },
{
    if muestras.len() == 0 {
        return None;
    }
    let ghost originales = muestras@;
    let mut datos = muestras;
    ordenar_por_clave(&mut datos);
    let ghost ordenadas = vistas_muestras(datos@);
    proof {
        assert(ordenadas_de(ordenadas, vistas_muestras(originales)));
    }
    let cantidad = datos.len();
    let iniciales = inicializar_intervalos(datos.as_slice());
    proof {
        lema_suma_iniciales(ordenadas);
        assert(ordenadas.len() == cantidad);
        assert(suma_totales(vistas(iniciales@)) <= usize::MAX);
    }
    let finales = ejecutar_chimerge(iniciales, umbral, min_partidas, max_partidas, chi);
    let cortes = puntos_de_corte(&finales);
    proof {
        assert(vistas(iniciales@) == intervalos_iniciales(ordenadas));
        assert(agrupacion(vistas(finales@), intervalos_iniciales(ordenadas)));
        assert(ordenadas_de(ordenadas, vistas_muestras(originales)));
        assert(originales == muestras@);
        assert(agrupa_muestras(vistas(finales@), vistas_muestras(muestras@)));
        assert(chimerge_de_muestras(
            vistas(finales@),
            vistas_muestras(muestras@),
            *chi,
            umbral,
            min_partidas as nat,
            max_partidas as nat,
        ));
    }
    Some((cortes, finales))
}

/// Plain ChiMerge of one column: the samples are sorted by value, grouped into one
/// interval per value, and merged by `ejecutar_chimerge_por_umbral`. Two or more
/// samples must hold no NaN, as for `procesar_muestras`.
pub fn discretizar_por_umbral<F: Fn(&Intervalo, &Intervalo, bool) -> u64>(
    muestras: Vec<DatoDiscretizacion>,
    umbral: u64,
    chi: &F,
) -> (r: Vec<Intervalo>)
    requires
        forall|a: &Intervalo, b: &Intervalo, p: bool| #[trigger] chi.requires((a, b, p)),
        muestras@.len() >= 2 ==> sin_nan(vistas_muestras(muestras@)),
    ensures
        agrupa_muestras(vistas(r@), vistas_muestras(muestras@)),
        umbral_de_muestras(vistas(r@), vistas_muestras(muestras@), *chi, umbral),
        todos_bien(r@),
{
    let ghost originales = muestras@;
    let mut datos = muestras;
    ordenar_por_clave(&mut datos);
    let ghost ordenadas = vistas_muestras(datos@);
    let cantidad = datos.len();
    let iniciales = inicializar_intervalos(datos.as_slice());
    proof {
        lema_suma_iniciales(ordenadas);
        assert(ordenadas.len() == cantidad);
        assert(suma_totales(vistas(iniciales@)) <= usize::MAX);
    }
    let finales = ejecutar_chimerge_por_umbral(iniciales, umbral, chi);
    proof {
        assert(ordenadas_de(ordenadas, vistas_muestras(originales)));
        assert(agrupacion(vistas(finales@), intervalos_iniciales(ordenadas)));
        assert(agrupa_muestras(vistas(finales@), vistas_muestras(muestras@)));
        assert(umbral_de_muestras(vistas(finales@), vistas_muestras(muestras@), *chi, umbral));
    }
    finales
}

/// No sample value of `s` is a NaN.
pub open spec fn sin_nan(s: Seq<(u64, Seq<char>)>) -> bool {
    forall|k: int| 0 <= k < s.len() ==> !es_nan(#[trigger] s[k].0)
}

/// Over samples sorted by key, each initial interval has equal bounds, the values of
/// the intervals do not decrease, and with no NaN among the samples they increase
/// strictly and none of them is a NaN.
proof fn lema_iniciales_ordenados(s: Seq<(u64, Seq<char>)>)
    requires
        forall|a: int, b: int| 0 <= a < b < s.len() ==> clave(#[trigger] s[a].0) <= clave(#[trigger] s[b].0),
    ensures
        forall|j: int| 0 <= j < intervalos_iniciales(s).len() ==> (#[trigger] intervalos_iniciales(s)[j]).0 == intervalos_iniciales(s)[j].1,
        forall|a: int, b: int|
            0 <= a < b < intervalos_iniciales(s).len() ==> clave((#[trigger] intervalos_iniciales(s)[a]).1) <= clave(
                (#[trigger] intervalos_iniciales(s)[b]).1,
            ),
        sin_nan(s) ==> forall|a: int, b: int|
            0 <= a < b < intervalos_iniciales(s).len() ==> clave((#[trigger] intervalos_iniciales(s)[a]).1) < clave(
                (#[trigger] intervalos_iniciales(s)[b]).1,
            ),
        sin_nan(s) ==> forall|j: int| 0 <= j < intervalos_iniciales(s).len() ==> !es_nan((#[trigger] intervalos_iniciales(s)[j]).1),
        s.len() > 0 ==> intervalos_iniciales(s).len() > 0 && clave(intervalos_iniciales(s).last().1) <= clave(s.last().0),
    decreases s.len(),
{
    if s.len() > 0 {
        let d = s.drop_last();
        assert forall|a: int, b: int| 0 <= a < b < d.len() implies clave(#[trigger] d[a].0) <= clave(#[trigger] d[b].0) by {
            assert(d[a] == s[a] && d[b] == s[b]);
        }
        if sin_nan(s) {
            assert forall|k: int| 0 <= k < d.len() implies !es_nan(#[trigger] d[k].0) by {
                assert(d[k] == s[k]);
            }
        }
        lema_iniciales_ordenados(d);
        let p = intervalos_iniciales(d);
        let (v, g) = s.last();
        if d.len() > 0 {
            assert(clave(d.last().0) <= clave(v)) by {
                assert(d.last() == s[s.len() - 2]);
            }
        }
        if sin_nan(s) {
            assert(!es_nan(v)) by {
                assert(s[s.len() - 1] == s.last());
            }
        }
        let q = intervalos_iniciales(s);
        if p.len() > 0 && f64_eq(p.last().1, v) {
            assert(q == p.update(p.len() - 1, (p.last().0, p.last().1, p.last().2.insert(g))));
            assert forall|a: int, b: int| 0 <= a < b < q.len() implies clave((#[trigger] q[a]).1) <= clave((#[trigger] q[b]).1) by {
                assert(q[a].1 == p[a].1 && q[b].1 == p[b].1);
            }
            if sin_nan(s) {
                assert forall|a: int, b: int| 0 <= a < b < q.len() implies clave((#[trigger] q[a]).1) < clave((#[trigger] q[b]).1) by {
                    assert(q[a].1 == p[a].1 && q[b].1 == p[b].1);
                }
                assert forall|j: int| 0 <= j < q.len() implies !es_nan((#[trigger] q[j]).1) by {
                    assert(q[j].1 == p[j].1);
                }
            }
        } else {
            assert(q == p.push((v, v, Multiset::empty().insert(g))));
            assert forall|a: int, b: int| 0 <= a < b < q.len() implies clave((#[trigger] q[a]).1) <= clave((#[trigger] q[b]).1) by {
                if b == q.len() - 1 && a < p.len() - 1 {
                    assert(clave(p[a].1) <= clave(p[p.len() - 1].1));
                }
            }
            if sin_nan(s) && p.len() > 0 {
                assert(!es_nan(p.last().1)) by {
                    assert(p[p.len() - 1] == p.last());
                }
                assert(clave(p.last().1) < clave(v));
                assert forall|a: int, b: int| 0 <= a < b < q.len() implies clave((#[trigger] q[a]).1) < clave((#[trigger] q[b]).1) by {
                    if b == q.len() - 1 && a < p.len() - 1 {
                        assert(clave(p[a].1) < clave(p[p.len() - 1].1));
                    }
                }
            }
        }
    }
}

proof fn lema_cortes_estrictos(r: Seq<IntervaloV>, e: Seq<IntervaloV>, cortes: Seq<int>, a: int, b: int)
    requires
        agrupa_con(r, e, cortes),
        0 <= a < b <= r.len(),
    ensures
        cortes[a] < cortes[b],
    decreases b - a,
{
    assert(cubre(r[a], e, cortes[a], cortes[a + 1]));
    if a + 1 < b {
        lema_cortes_estrictos(r, e, cortes, a + 1, b);
    }
}

/// The cut points of intervals made of runs of intervals whose values do not
/// decrease are in increasing order.
proof fn lema_cortes_crecientes(r: Seq<IntervaloV>, e: Seq<IntervaloV>)
    requires
        agrupacion(r, e),
        forall|a: int, b: int| 0 <= a < b < e.len() ==> clave((#[trigger] e[a]).1) <= clave((#[trigger] e[b]).1),
    ensures
        crecientes(cortes_de(r)),
{
    let cortes = choose|cortes: Seq<int>| agrupa_con(r, e, cortes);
    let c = cortes_de(r);
    assert forall|a: int, b: int| 0 <= a < b < c.len() implies clave(#[trigger] c[a]) <= clave(#[trigger] c[b]) by {
        assert(cubre(r[a], e, cortes[a], cortes[a + 1]));
        assert(cubre(r[b], e, cortes[b], cortes[b + 1]));
        lema_cortes_estrictos(r, e, cortes, a + 1, b + 1);
        assert(clave(e[cortes[a + 1] - 1].1) <= clave(e[cortes[b + 1] - 1].1));
    }
}

/// The cut points that discretising a column gives are in increasing order, so the
/// ranges of `transformar_a_rango` follow the order of the values.
pub proof fn ley_cortes_crecientes(cortes: Seq<u64>, finales: Seq<IntervaloV>, s: Seq<(u64, Seq<char>)>)
    requires
        cortes == cortes_de(finales),
        agrupa_muestras(finales, s),
    ensures
        crecientes(cortes),
{
    let ordenadas = choose|ordenadas: Seq<(u64, Seq<char>)>|
        #[trigger] ordenadas_de(ordenadas, s) && agrupacion(finales, intervalos_iniciales(ordenadas));
    lema_iniciales_ordenados(ordenadas);
    lema_cortes_crecientes(finales, intervalos_iniciales(ordenadas));
}

/// Discretisation agrees with the intervals it was made from: a value between the
/// smallest and the largest value of the final interval `j` of a column (compared
/// as `f64`) gets the range `j` from the cut points of those intervals. The samples
/// are those that the discretisation of a column takes: with two or more of them,
/// none is a NaN.
pub proof fn ley_rango_del_intervalo(finales: Seq<IntervaloV>, s: Seq<(u64, Seq<char>)>, j: int, valor: u64)
    requires
        agrupa_muestras(finales, s),
        s.len() >= 2 ==> sin_nan(s),
        0 <= j < finales.len(),
        f64_le(finales[j].0, valor),
        f64_le(valor, finales[j].1),
    ensures
        rango_de(valor, cortes_de(finales)) == j,
{
    broadcast use vstd::seq_lib::group_to_multiset_ensures;
    let cd = cortes_de(finales);
    if finales.len() <= 1 {
        assert(cd.len() == 0);
        lema_rango_unico(valor, cd, j);
        return;
    }
    let ordenadas = choose|ordenadas: Seq<(u64, Seq<char>)>|
        #[trigger] ordenadas_de(ordenadas, s) && agrupacion(finales, intervalos_iniciales(ordenadas));
    let e = intervalos_iniciales(ordenadas);
    let c = choose|c: Seq<int>| agrupa_con(finales, e, c);
    lema_cortes_estrictos(finales, e, c, 0, finales.len() as int);
    lema_iniciales_cota(ordenadas);
    assert(ordenadas.len() == s.len()) by {
        assert(ordenadas.to_multiset().len() == s.to_multiset().len());
    }
    assert(sin_nan(ordenadas)) by {
        assert forall|k: int| 0 <= k < ordenadas.len() implies !es_nan(#[trigger] ordenadas[k].0) by {
            assert(ordenadas.contains(ordenadas[k]));
            assert(ordenadas.to_multiset().count(ordenadas[k]) > 0);
            assert(s.contains(ordenadas[k]));
        }
    }
    lema_iniciales_ordenados(ordenadas);
    ley_cortes_crecientes(cd, finales, s);
    assert(cubre(finales[j], e, c[j], c[j + 1]));
    if j > 0 {
        assert(cubre(finales[j - 1], e, c[j - 1], c[j]));
        assert(clave(e[c[j] - 1].1) < clave(e[c[j]].1));
        assert(cd[j - 1] == finales[j - 1].1);
    }
    assert forall|k: int| 0 <= k < j implies !f64_le(valor, #[trigger] cd[k]) by {
        if k < j - 1 {
            assert(clave(cd[k]) <= clave(cd[j - 1]));
        }
    }
    if j < cd.len() {
        assert(cd[j] == finales[j].1);
    }
    lema_rango_unico(valor, cd, j);
}

/// A value that is not a NaN is at most +infinity.
proof fn lema_no_nan_hasta_infinito(b: u64)
    requires
        !es_nan(b),
    ensures
        clave(b) <= clave(BITS_INFINITO),
{
}

/// The best pair among the first `m`: the first one with the smallest chi-square
/// below +infinity, with that chi-square; none (and +infinity) when no chi-square is
/// below +infinity.
proof fn lema_mejor_par_sin_limite_minimo(pares: Seq<ChiPar>, m: nat)
    ensures
        ({
            let (k, v) = mejor_par_sin_limite(pares, m);
            &&& -1 <= k < m
            &&& k < 0 ==> v == BITS_INFINITO && forall|q: int| 0 <= q < m ==> !f64_lt(#[trigger] pares[q].directo, BITS_INFINITO)
            &&& k >= 0 ==> {
                &&& v == pares[k].directo
                &&& f64_lt(v, BITS_INFINITO)
                &&& forall|q: int| 0 <= q < m ==> !f64_lt(#[trigger] pares[q].directo, v)
                &&& forall|q: int| 0 <= q < k ==> !f64_le(#[trigger] pares[q].directo, v)
            }
        }),
    decreases m,
{
    if m > 0 {
        lema_mejor_par_sin_limite_minimo(pares, (m - 1) as nat);
    }
}

/// The plain step merges exactly when some pair of neighbours has a chi-square below
/// the threshold: then it merges the first pair of smallest chi-square; when no pair
/// is below a threshold that is a number, it stops.
pub proof fn ley_umbral_decide_la_fusion(n: nat, pares: Seq<ChiPar>, umbral: u64)
    requires
        n >= 2,
        pares.len() + 1 == n,
    ensures
        ({
            let d = decision_por_umbral(n, pares, umbral);
            &&& (exists|p: int| 0 <= p < n - 1 && f64_lt(#[trigger] pares[p].directo, umbral)) ==> {
                &&& 0 <= d < n - 1
                &&& f64_lt(pares[d].directo, umbral)
                &&& forall|q: int| 0 <= q < n - 1 ==> !f64_lt(#[trigger] pares[q].directo, pares[d].directo)
                &&& forall|q: int| 0 <= q < d ==> !f64_le(#[trigger] pares[q].directo, pares[d].directo)
            }
            &&& !es_nan(umbral) && (forall|p: int| 0 <= p < n - 1 ==> !f64_lt(#[trigger] pares[p].directo, umbral)) ==> d
                == -1
        }),
{
    lema_mejor_par_sin_limite_minimo(pares, (n - 1) as nat);
    lema_no_nan_hasta_infinito(BITS_INFINITO);
    if exists|p: int| 0 <= p < n - 1 && f64_lt(#[trigger] pares[p].directo, umbral) {
        let p = choose|p: int| 0 <= p < n - 1 && f64_lt(#[trigger] pares[p].directo, umbral);
        lema_no_nan_hasta_infinito(umbral);
    }
    if !es_nan(umbral) {
        lema_no_nan_hasta_infinito(umbral);
    }
}

/// When interval `i` is the first with fewer than `min` samples, the step merges it
/// with the neighbour whose chi-square with it (penalised when both together hold
/// more than `max` samples) is smaller: the left one unless the right one's is
/// strictly smaller; a neighbour whose chi-square is not below +infinity is never
/// taken, and with no neighbour to take the step stops.
pub proof fn ley_fusion_forzada_con_el_vecino_mas_parecido(
    t: Seq<nat>,
    pares: Seq<ChiPar>,
    umbral: u64,
    min: nat,
    max: nat,
    i: int,
)
    requires
        t.len() >= 2,
        pares.len() + 1 == t.len(),
        0 <= i < t.len(),
        t[i] < min,
        forall|j: int| 0 <= j < i ==> t[j] >= min,
    ensures
        ({
            let izq = if t[i] + t[i - 1] > max { pares[i - 1].inverso_penalizado } else { pares[i - 1].inverso };
            let der = if t[i] + t[i + 1] > max { pares[i].directo_penalizado } else { pares[i].directo };
            let izq_sirve = i > 0 && f64_lt(izq, BITS_INFINITO);
            let der_sirve = i + 1 < t.len() && f64_lt(der, BITS_INFINITO);
            let d = decision_chimerge(t, pares, umbral, min, max);
            &&& izq_sirve && !(der_sirve && f64_lt(der, izq)) ==> d == i - 1
            &&& der_sirve && (!izq_sirve || f64_lt(der, izq)) ==> d == i
            &&& !izq_sirve && !der_sirve ==> d == -1
        }),
{
    lema_primer_pequeno(t, min);
    assert(primer_pequeno(t, min) == i) by {
        let p = primer_pequeno(t, min);
        if p >= 0 && p < i {
            assert(t[p] >= min);
        }
    }
}

/// The best pair among the first `m` within the size limit: the first one, among
/// the pairs that together hold at most `max` samples, with the smallest chi-square
/// below +infinity, with that chi-square; none when no such pair is below +infinity.
proof fn lema_mejor_par_minimo(t: Seq<nat>, pares: Seq<ChiPar>, max: nat, m: nat)
    ensures
        ({
            let (k, v) = mejor_par(t, pares, max, m);
            &&& -1 <= k < m
            &&& k < 0 ==> v == BITS_INFINITO && forall|q: int|
                0 <= q < m && t[q] + t[q + 1] <= max ==> !f64_lt(#[trigger] pares[q].directo, BITS_INFINITO)
            &&& k >= 0 ==> {
                &&& v == pares[k].directo
                &&& t[k] + t[k + 1] <= max
                &&& f64_lt(v, BITS_INFINITO)
                &&& forall|q: int| 0 <= q < m && t[q] + t[q + 1] <= max ==> !f64_lt(#[trigger] pares[q].directo, v)
                &&& forall|q: int| 0 <= q < k && t[q] + t[q + 1] <= max ==> !f64_le(#[trigger] pares[q].directo, v)
            }
        }),
    decreases m,
{
    if m > 0 {
        lema_mejor_par_minimo(t, pares, max, (m - 1) as nat);
    }
}

/// With no interval below `min` samples, the step looks only at pairs of neighbours
/// that together hold at most `max` samples. If one of them has a chi-square below
/// the threshold, or one has a chi-square below +infinity while there are more than
/// six intervals, the first of smallest chi-square among them is merged. It stops
/// when none of them has a chi-square below +infinity, or when there are at most six
/// intervals and none is below a threshold that is a number.
pub proof fn ley_fusion_del_par_mas_parecido(t: Seq<nat>, pares: Seq<ChiPar>, umbral: u64, min: nat, max: nat)
    requires
        t.len() >= 2,
        pares.len() + 1 == t.len(),
        forall|j: int| 0 <= j < t.len() ==> t[j] >= min,
    ensures
        ({
            let n = t.len() as int;
            let d = decision_chimerge(t, pares, umbral, min, max);
            let admisible = |q: int| 0 <= q < n - 1 && t[q] + t[q + 1] <= max;
            let mas_parecido = |k: int| {
                &&& admisible(k)
                &&& forall|q: int| admisible(q) ==> !f64_lt(#[trigger] pares[q].directo, pares[k].directo)
                &&& forall|q: int| 0 <= q < k && admisible(q) ==> !f64_le(#[trigger] pares[q].directo, pares[k].directo)
            };
            &&& (exists|p: int| admisible(p) && f64_lt(#[trigger] pares[p].directo, umbral)) ==> mas_parecido(d)
            &&& (n > MAX_INTERVALOS && exists|p: int| admisible(p) && f64_lt(#[trigger] pares[p].directo, BITS_INFINITO))
                ==> mas_parecido(d)
            &&& (forall|p: int| admisible(p) ==> !f64_lt(#[trigger] pares[p].directo, BITS_INFINITO)) ==> d == -1
            &&& (n <= MAX_INTERVALOS && !es_nan(umbral) && forall|p: int|
                admisible(p) ==> !f64_lt(#[trigger] pares[p].directo, umbral)) ==> d == -1
        }),
{
    let n = t.len() as int;
    lema_primer_pequeno(t, min);
    assert(primer_pequeno(t, min) < 0) by {
        let p = primer_pequeno(t, min);
        if p >= 0 {
            assert(t[p] >= min);
        }
    }
    lema_mejor_par_minimo(t, pares, max, (n - 1) as nat);
    lema_no_nan_hasta_infinito(BITS_INFINITO);
    if !es_nan(umbral) {
        lema_no_nan_hasta_infinito(umbral);
    }
    if exists|p: int| 0 <= p < n - 1 && t[p] + t[p + 1] <= max && f64_lt(#[trigger] pares[p].directo, umbral) {
        let p = choose|p: int| 0 <= p < n - 1 && t[p] + t[p + 1] <= max && f64_lt(#[trigger] pares[p].directo, umbral);
        lema_no_nan_hasta_infinito(umbral);
    }
}

/// Number of samples of `s` whose value equals `v` (as `f64`) and whose class is `g`.
pub open spec fn muestras_con(s: Seq<(u64, Seq<char>)>, v: u64, g: Seq<char>) -> nat {
    s.filter(|m: (u64, Seq<char>)| f64_eq(m.0, v) && m.1 == g).len()
}

proof fn lema_muestras_con_paso(s: Seq<(u64, Seq<char>)>, v: u64, g: Seq<char>)
    requires
        s.len() > 0,
    ensures
        muestras_con(s, v, g) == muestras_con(s.drop_last(), v, g) + if f64_eq(s.last().0, v) && s.last().1 == g {
            1nat
        } else {
            0nat
        },
{
    reveal(Seq::filter);
}

proof fn lema_muestras_con_ninguna(s: Seq<(u64, Seq<char>)>, v: u64, g: Seq<char>)
    requires
        forall|k: int| 0 <= k < s.len() ==> clave(#[trigger] s[k].0) < clave(v),
    ensures
        muestras_con(s, v, g) == 0,
    decreases s.len(),
{
    reveal(Seq::filter);
    if s.len() > 0 {
        let d = s.drop_last();
        assert forall|k: int| 0 <= k < d.len() implies clave(#[trigger] d[k].0) < clave(v) by {
            assert(d[k] == s[k]);
        }
        lema_muestras_con_ninguna(d, v, g);
        lema_muestras_con_paso(s, v, g);
        assert(s[s.len() - 1] == s.last());
    }
}

/// The initial intervals of samples sorted by value, none of them a NaN: each has
/// the value of its samples as both bounds, the values strictly increase from one
/// interval to the next, and each interval counts, for every class, exactly the
/// samples of its value with that class.
pub proof fn ley_intervalos_iniciales(s: Seq<(u64, Seq<char>)>)
    requires
        forall|a: int, b: int| 0 <= a < b < s.len() ==> clave(#[trigger] s[a].0) <= clave(#[trigger] s[b].0),
        sin_nan(s),
    ensures
        forall|j: int| 0 <= j < intervalos_iniciales(s).len() ==> (#[trigger] intervalos_iniciales(s)[j]).0 == intervalos_iniciales(s)[j].1,
        forall|a: int, b: int|
            0 <= a < b < intervalos_iniciales(s).len() ==> clave((#[trigger] intervalos_iniciales(s)[a]).1) < clave(
                (#[trigger] intervalos_iniciales(s)[b]).1,
            ),
        forall|j: int, g: Seq<char>|
            0 <= j < intervalos_iniciales(s).len() ==> #[trigger] intervalos_iniciales(s)[j].2.count(g) == muestras_con(
                s,
                intervalos_iniciales(s)[j].1,
                g,
            ),
        s.len() > 0 ==> intervalos_iniciales(s).len() > 0 && clave(intervalos_iniciales(s).last().1) == clave(s.last().0),
        suma_totales(intervalos_iniciales(s)) == s.len(),
    decreases s.len(),
{
    lema_iniciales_ordenados(s);
    lema_suma_iniciales(s);
    if s.len() > 0 {
        let d = s.drop_last();
        assert forall|a: int, b: int| 0 <= a < b < d.len() implies clave(#[trigger] d[a].0) <= clave(#[trigger] d[b].0) by {
            assert(d[a] == s[a] && d[b] == s[b]);
        }
        assert forall|k: int| 0 <= k < d.len() implies !es_nan(#[trigger] d[k].0) by {
            assert(d[k] == s[k]);
        }
        ley_intervalos_iniciales(d);
        lema_iniciales_ordenados(d);
        let p = intervalos_iniciales(d);
        let e = intervalos_iniciales(s);
        let (v, g0) = s.last();
        assert(s[s.len() - 1] == s.last());
        assert(!es_nan(v));
        if d.len() > 0 {
            assert(clave(d.last().0) <= clave(v)) by {
                assert(d.last() == s[s.len() - 2]);
            }
        }
        if p.len() > 0 && f64_eq(p.last().1, v) {
            assert(e == p.update(p.len() - 1, (p.last().0, p.last().1, p.last().2.insert(g0))));
            assert forall|j: int, g: Seq<char>| 0 <= j < e.len() implies #[trigger] e[j].2.count(g) == muestras_con(s, e[j].1, g) by {
                lema_muestras_con_paso(s, e[j].1, g);
                if j < p.len() - 1 {
                    assert(e[j] == p[j]);
                    assert(clave(p[j].1) < clave(p[p.len() - 1].1));
                }
            }
        } else {
            assert(e == p.push((v, v, Multiset::empty().insert(g0))));
            if p.len() > 0 {
                assert(!es_nan(p.last().1)) by {
                    assert(p[p.len() - 1] == p.last());
                }
            }
            assert forall|j: int, g: Seq<char>| 0 <= j < e.len() implies #[trigger] e[j].2.count(g) == muestras_con(s, e[j].1, g) by {
                lema_muestras_con_paso(s, e[j].1, g);
                if j < p.len() {
                    assert(e[j] == p[j]);
                    if j < p.len() - 1 {
                        assert(clave(p[j].1) < clave(p[p.len() - 1].1));
                    }
                } else {
                    assert forall|k: int| 0 <= k < d.len() implies clave(#[trigger] d[k].0) < clave(v) by {
                        if k < d.len() - 1 {
                            assert(clave(d[k].0) <= clave(d[d.len() - 1].0));
                        }
                        assert(d[d.len() - 1] == d.last());
                    }
                    lema_muestras_con_ninguna(d, v, g);
                }
            }
        }
    }
}

/// The range of a value is the position of the first cut point that the value is
/// below or equal to (as `f64`), or the number of cut points when there is none.
pub proof fn ley_rango_primer_corte(valor: u64, cortes: Seq<u64>)
    ensures
        rango_de(valor, cortes) <= cortes.len(),
        forall|j: int| 0 <= j < rango_de(valor, cortes) ==> !f64_le(valor, #[trigger] cortes[j]),
        rango_de(valor, cortes) < cortes.len() ==> f64_le(valor, cortes[rango_de(valor, cortes) as int]),
{
    lema_rango_de(valor, cortes);
}

} // verus!

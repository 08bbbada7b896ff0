use vstd::prelude::*;

verus! {

/// Number of positions of `s` that hold `r`.
pub open spec fn contar(s: Seq<usize>, r: usize) -> nat
    decreases s.len(),
{
    if s.len() == 0 {
        0
    } else {
        contar(s.drop_last(), r) + if s.last() == r { 1nat } else { 0nat }
    }
}

/// `s` with every occurrence of `a` replaced by `b`.
pub open spec fn reetiquetar(s: Seq<usize>, a: usize, b: usize) -> Seq<usize> {
    Seq::new(s.len(), |k: int| if s[k] == a { b } else { s[k] })
}

/// The representative map that the union of the classes of `ri` and `rj` yields:
/// the root of the smaller class is hung below the other one, and on a tie the
/// class of `rj` is hung below `ri`.
pub open spec fn unir_clases(s: Seq<usize>, ri: usize, rj: usize) -> Seq<usize> {
    if ri == rj {
        s
    } else if contar(s, ri) < contar(s, rj) {
        reetiquetar(s, ri, rj)
    } else {
        reetiquetar(s, rj, ri)
    }
}

/// The identity map on `0..n`: every element alone in its class.
pub open spec fn identidad(n: nat) -> Seq<usize> {
    Seq::new(n, |k: int| k as usize)
}

pub proof fn lema_contar_cota(s: Seq<usize>, r: usize)
    ensures
        contar(s, r) <= s.len(),
    decreases s.len(),
{
    if s.len() > 0 {
        lema_contar_cota(s.drop_last(), r);
    }
}

pub proof fn lema_contar_reetiquetar(s: Seq<usize>, a: usize, b: usize, r: usize)
    requires
        a != b,
    ensures
        contar(reetiquetar(s, a, b), r) == if r == b {
            contar(s, a) + contar(s, b)
        } else if r == a {
            0
        } else {
            contar(s, r)
        },
    decreases s.len(),
{
    if s.len() > 0 {
        lema_contar_reetiquetar(s.drop_last(), a, b, r);
        assert(reetiquetar(s, a, b).drop_last() =~= reetiquetar(s.drop_last(), a, b));
    }
}

pub proof fn lema_contar_identidad(n: nat, r: usize)
    requires
        n <= usize::MAX + 1,
    ensures
        contar(identidad(n), r) == if r < n { 1nat } else { 0nat },
    decreases n,
{
    if n > 0 {
        lema_contar_identidad((n - 1) as nat, r);
        assert(identidad(n).drop_last() =~= identidad((n - 1) as nat));
    }
}

pub proof fn lema_contar_ausente(s: Seq<usize>, r: usize)
    requires
        forall|k: int| 0 <= k < s.len() ==> s[k] != r,
    ensures
        contar(s, r) == 0,
    decreases s.len(),
{
    if s.len() > 0 {
        lema_contar_ausente(s.drop_last(), r);
    }
}

pub proof fn lema_contar_presente(s: Seq<usize>, k: int)
    requires
        0 <= k < s.len(),
    ensures
        contar(s, s[k]) >= 1,
    decreases s.len(),
{
    if k < s.len() - 1 {
        lema_contar_presente(s.drop_last(), k);
    }
}

/// Invariant of a forest given by fathers `f`, class sizes `s`, representatives `r`
/// and ranks `g`.
pub closed spec fn bosque_wf(f: Seq<usize>, s: Seq<usize>, r: Seq<usize>, g: Seq<nat>) -> bool {
    let n = f.len();
    &&& s.len() == n
    &&& r.len() == n
    &&& g.len() == n
    &&& forall|x: int| 0 <= x < n ==> #[trigger] f[x] < n
    &&& forall|x: int| 0 <= x < n ==> #[trigger] r[x] < n
    &&& forall|x: int| 0 <= x < n ==> r[r[x] as int] == #[trigger] r[x]
    &&& forall|x: int| 0 <= x < n ==> (#[trigger] f[x] == x <==> r[x] == x)
    &&& forall|x: int| 0 <= x < n ==> r[#[trigger] f[x] as int] == r[x]
    &&& forall|x: int| 0 <= x < n && #[trigger] f[x] != x ==> g[x] < g[f[x] as int]
    &&& forall|x: int| 0 <= x < n ==> g[x] <= g[#[trigger] r[x] as int]
    &&& forall|x: int|
        0 <= x < n && #[trigger] r[x] == x ==> s[x] == contar(r, x as usize) && g[x] < s[x]
}

/// Ranks after the root `a` was hung below the root `b`.
pub closed spec fn rango_enlazado(g: Seq<nat>, a: usize, b: usize) -> Seq<nat> {
    let nuevo = if g[b as int] < g[a as int] + 1 { (g[a as int] + 1) as nat } else { g[b as int] };
    g.update(b as int, nuevo)
}

proof fn lema_enlazar(
    f: Seq<usize>,
    sz: Seq<usize>,
    s0: Seq<usize>,
    g0: Seq<nat>,
    a: usize,
    b: usize,
    total: usize,
)
    requires
        bosque_wf(f, sz, s0, g0),
        a != b,
        a < f.len(),
        b < f.len(),
        s0[a as int] == a,
        s0[b as int] == b,
        total == sz[a as int] + sz[b as int],
    ensures
        bosque_wf(
            f.update(a as int, b),
            sz.update(b as int, total),
            reetiquetar(s0, a, b),
            rango_enlazado(g0, a, b),
        ),
{
    let n = f.len();
    let f1 = f.update(a as int, b);
    let s1 = sz.update(b as int, total);
    let r = reetiquetar(s0, a, b);
    let g = rango_enlazado(g0, a, b);
    assert forall|x: int| 0 <= x < n && #[trigger] r[x] == x implies s1[x] == contar(r, x as usize)
        && g[x] < s1[x] by {
        lema_contar_reetiquetar(s0, a, b, x as usize);
    }
    assert forall|x: int| 0 <= x < n && #[trigger] f1[x] != x implies g[x] < g[f1[x] as int] by {
        if x != a && f[x] == b {
            assert(g0[x] <= g0[s0[x] as int]);
        }
    }
    assert forall|x: int| 0 <= x < n implies g[x] <= g[#[trigger] r[x] as int] by {
        assert(g0[x] <= g0[s0[x] as int]);
    }
    assert forall|x: int| 0 <= x < n implies r[#[trigger] f1[x] as int] == r[x] by {
        assert(s0[f[x] as int] == s0[x]);
    }
}

/// Disjoint-set forest over the elements `0..n`, with union by size and path compression.
pub struct UnionFind {
    father: Vec<usize>,
    size: Vec<usize>,
    /// Representative of each element.
    raiz: Ghost<Seq<usize>>,
    /// A rank that grows strictly from each element to its father.
    rango: Ghost<Seq<nat>>,
}

impl View for UnionFind {
    type V = Seq<usize>;

    /// The representative of each element: two elements are in one class
    /// exactly when they have the same representative.
    closed spec fn view(&self) -> Seq<usize> {
        self.raiz@
    }
}

impl UnionFind {
    /// The internal invariant of the forest.
    pub closed spec fn wf(&self) -> bool {
        bosque_wf(self.father@, self.size@, self.raiz@, self.rango@)
    }

    /// How far the rank of `x` stays below the number of elements; it shrinks
    /// from each element to its father.
    pub closed spec fn altura_restante(&self, x: int) -> int {
        self.tamano() - self.rango@[x]
    }

    /// The ranks of the elements.
    pub closed spec fn rangos(&self) -> Seq<nat> {
        self.rango@
    }

    /// Number of elements.
    pub closed spec fn tamano(&self) -> nat {
        self.father@.len()
    }

    /// The representative of every element is its own representative.
    pub proof fn lema_representantes(&self)
        requires
            self.wf(),
        ensures
            self@.len() == self.tamano(),
            forall|x: int| 0 <= x < self@.len() ==> #[trigger] self@[x] < self@.len(),
            forall|x: int| 0 <= x < self@.len() ==> self@[self@[x] as int] == #[trigger] self@[x],
    {
    }

    /// Number of elements.
    pub fn len(&self) -> (n: usize)
        ensures
            n == self.tamano(),
    {
        self.father.len()
    }

    /// A forest of `n` singletons.
    pub fn new(n: usize) -> (uf: Self)
        ensures
            uf.wf(),
            uf.tamano() == n,
            uf@ == identidad(n as nat),
    {
        let mut father: Vec<usize> = Vec::new();
        let mut size: Vec<usize> = Vec::new();
        let mut k: usize = 0;
        while k < n
            invariant
                k <= n,
                father@.len() == k,
                size@.len() == k,
                forall|x: int| 0 <= x < k ==> father@[x] == x,
                forall|x: int| 0 <= x < k ==> size@[x] == 1,
            decreases n - k,
        {
            father.push(k);
            size.push(1);
            k = k + 1;
        }
        let ghost raiz = identidad(n as nat);
        let ghost rango = Seq::new(n as nat, |x: int| 0nat);
        proof {
            assert forall|x: int| 0 <= x < n && #[trigger] raiz[x] == x implies size@[x]
                == contar(raiz, x as usize) && rango[x] < size@[x] by {
                lema_contar_identidad(n as nat, x as usize);
            }
        }
        UnionFind { father, size, raiz: Ghost(raiz), rango: Ghost(rango) }
    }

    proof fn lema_cota_rango(&self, x: int)
        requires
            self.wf(),
            0 <= x < self.tamano(),
        ensures
            self.rango@[x] < self.tamano(),
    {
        let r = self.raiz@[x];
        lema_contar_cota(self.raiz@, r);
    }

    /// Representative of `i`. Every element met on the way up is hung directly
    /// below the representative; the classes and their representatives stay as they were.
    pub fn find(&mut self, i: usize) -> (r: usize)
        requires
            old(self).wf(),
            i < old(self).tamano(),
        ensures
            final(self).wf(),
            final(self).tamano() == old(self).tamano(),
            final(self)@ == old(self)@,
            final(self).rangos() == old(self).rangos(),
            r == old(self)@[i as int],
        decreases old(self).altura_restante(i as int),
    {
        proof {
            self.lema_cota_rango(i as int);
        }
        let p = self.father[i];
        if p == i {
            return i;
        }
        proof {
            self.lema_cota_rango(p as int);
            assert(self.rango@[i as int] < self.rango@[p as int]);
            assert(self.raiz@[p as int] == self.raiz@[i as int]);
            assert(self.rango@[p as int] <= self.rango@[self.raiz@[p as int] as int]);
        }
        let r = self.find(p);
        self.father.set(i, r);
        proof {
            let n = self.father@.len();
            let f = self.father@;
            let rz = self.raiz@;
            let g = self.rango@;
            assert(r == rz[i as int]);
            assert forall|x: int| 0 <= x < n && #[trigger] f[x] != x implies g[x] < g[f[x] as int] by {
                if x == i {
                    assert(g[i as int] < g[r as int]);
                }
            }
            assert forall|x: int| 0 <= x < n implies (#[trigger] f[x] == x <==> rz[x] == x) by {
                if x == i {
                    assert(g[i as int] < g[r as int]);
                }
            }
        }
        r
    }

    /// Joins the classes of `i` and `j`: the root of the smaller class is hung
    /// below the root of the other, and on equal sizes the root of `j`'s class
    /// is hung below the root of `i`'s class.
    pub fn union(&mut self, i: usize, j: usize)
        requires
            old(self).wf(),
            i < old(self).tamano(),
            j < old(self).tamano(),
        ensures
            final(self).wf(),
            final(self).tamano() == old(self).tamano(),
            final(self)@ == unir_clases(old(self)@, old(self)@[i as int], old(self)@[j as int]),
    {
        let root_i = self.find(i);
        let root_j = self.find(j);
        if root_i != root_j {
            let ghost f0 = self.father@;
            let ghost sz0 = self.size@;
            let ghost s0 = self.raiz@;
            let ghost g0 = self.rango@;
            proof {
                assert(s0[root_i as int] == root_i);
                assert(s0[root_j as int] == root_j);
                lema_contar_reetiquetar(s0, root_i, root_j, root_j);
                lema_contar_cota(reetiquetar(s0, root_i, root_j), root_j);
                assert(sz0[root_i as int] == contar(s0, root_i));
                assert(sz0[root_j as int] == contar(s0, root_j));
                assert(s0.len() == f0.len());
                assert(contar(s0, root_i) + contar(s0, root_j) <= s0.len());
            }
            // The number of elements fits in `usize`, and so does the sum of two class sizes.
            let _elementos = self.father.len();
            let si = self.size[root_i];
            let sj = self.size[root_j];
            let total = si + sj;
            if si < sj {
                self.father.set(root_i, root_j);
                self.size.set(root_j, total);
                self.raiz = Ghost(reetiquetar(s0, root_i, root_j));
                self.rango = Ghost(rango_enlazado(g0, root_i, root_j));
                proof {
                    lema_enlazar(f0, sz0, s0, g0, root_i, root_j, total);
                }
            } else {
                self.father.set(root_j, root_i);
                self.size.set(root_i, total);
                self.raiz = Ghost(reetiquetar(s0, root_j, root_i));
                self.rango = Ghost(rango_enlazado(g0, root_j, root_i));
                proof {
                    lema_enlazar(f0, sz0, s0, g0, root_j, root_i, total);
                }
            }
        }
    }
}

/// After a union of `i` and `j`, both have the same representative.
pub proof fn ley_union_junta(s: Seq<usize>, i: int, j: int)
    requires
        0 <= i < s.len(),
        0 <= j < s.len(),
    ensures
        ({
            let t = unir_clases(s, s[i], s[j]);
            t[i] == t[j]
        }),
{
}

/// A union joins exactly the two classes of `i` and `j`: two elements share a
/// representative afterwards exactly when they shared one before, or each of
/// them was in the class of `i` or in that of `j`.
pub proof fn ley_union_solo_junta_dos_clases(s: Seq<usize>, i: int, j: int, x: int, y: int)
    requires
        0 <= i < s.len(),
        0 <= j < s.len(),
        0 <= x < s.len(),
        0 <= y < s.len(),
        forall|k: int| 0 <= k < s.len() ==> s[s[k] as int] == #[trigger] s[k],
    ensures
        ({
            let t = unir_clases(s, s[i], s[j]);
            let en_ij = |k: int| s[k] == s[i] || s[k] == s[j];
            t[x] == t[y] <==> (s[x] == s[y] || (en_ij(x) && en_ij(y)))
        }),
{
}

/// A union of two different classes leaves one of their two representatives in
/// charge of the joined class, whose size is the sum of the two sizes.
pub proof fn ley_union_tamanos(s: Seq<usize>, i: int, j: int)
    requires
        0 <= i < s.len(),
        0 <= j < s.len(),
        s[i] != s[j],
    ensures
        ({
            let t = unir_clases(s, s[i], s[j]);
            let nueva = t[i];
            &&& nueva == s[i] || nueva == s[j]
            &&& contar(t, nueva) == contar(s, s[i]) + contar(s, s[j])
        }),
{
    lema_contar_reetiquetar(s, s[i], s[j], s[j]);
    lema_contar_reetiquetar(s, s[j], s[i], s[i]);
}

/// Union by size: the class of `j` goes under the representative of `i`'s class
/// unless `i`'s class is strictly smaller, in which case `i`'s class goes under the
/// representative of `j`'s class; on equal sizes `i`'s representative stays.
pub proof fn ley_union_por_tamano(s: Seq<usize>, i: int, j: int)
    requires
        0 <= i < s.len(),
        0 <= j < s.len(),
        s[i] != s[j],
    ensures
        ({
            let t = unir_clases(s, s[i], s[j]);
            &&& contar(s, s[i]) < contar(s, s[j]) ==> t[i] == s[j] && t[j] == s[j]
            &&& contar(s, s[i]) >= contar(s, s[j]) ==> t[i] == s[i] && t[j] == s[i]
            &&& forall|x: int| 0 <= x < s.len() && s[x] != s[i] && s[x] != s[j] ==> #[trigger] t[x] == s[x]
        }),
{
}

} // verus!

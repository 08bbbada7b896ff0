use vstd::prelude::*;
use crate::union_find::{UnionFind, contar, lema_contar_cota};

verus! {

/// The clusters of a representative map `s` over the elements `0..n`: each
/// representative `r` below `n` that some element has, with the number of elements
/// that have it, in increasing order of `r`.
pub open spec fn clusters_hasta(s: Seq<usize>, n: nat) -> Seq<(usize, usize)>
    decreases n,
{
    if n == 0 {
        seq![]
    } else {
        let p = clusters_hasta(s, (n - 1) as nat);
        let r = (n - 1) as usize;
        if contar(s, r) > 0 {
            p.push((r, contar(s, r) as usize))
        } else {
            p
        }
    }
}

/// Sort key that puts larger clusters first.
pub open spec fn clave_descendente(x: (usize, usize)) -> usize {
    (usize::MAX - x.1) as usize
}

/// Sort key that puts larger clusters first.
pub fn clave_por_tamano(x: &(usize, usize)) -> (k: usize)
    ensures
        k == clave_descendente(*x),
{
    usize::MAX - x.1
}

/// `slice::sort_by_key` of std on the clusters, by `clave_por_tamano`: the clusters
/// come out with the larger ones first, the same clusters as before.
#[verifier::external_body]
fn ordenar_clusters(v: &mut Vec<(usize, usize)>)
    ensures
        final(v)@.to_multiset() == old(v)@.to_multiset(),
        forall|a: int, b: int| 0 <= a < b < final(v)@.len() ==> (#[trigger] final(v)@[a]).1 >= (#[trigger] final(v)@[b]).1,
{
    v.sort_by_key(clave_por_tamano);
}

proof fn lema_contar_paso(s: Seq<usize>, i: int, r: usize)
    requires
        0 <= i < s.len(),
    ensures
        contar(s.take(i + 1), r) == contar(s.take(i), r) + if s[i] == r { 1nat } else { 0nat },
{
    assert(s.take(i + 1).drop_last() =~= s.take(i));
}

/// The clusters that a union-find holds over its elements: each representative with
/// the size of its class, the larger ones first.
pub fn tamanos_de_clusters(uf: &mut UnionFind) -> (r: Vec<(usize, usize)>)
    requires
        old(uf).wf(),
    ensures
        final(uf).wf(),
        final(uf)@ == old(uf)@,
        final(uf).tamano() == old(uf).tamano(),
        r@.to_multiset() == clusters_hasta(old(uf)@, old(uf).tamano()).to_multiset(),
        forall|a: int, b: int| 0 <= a < b < r@.len() ==> (#[trigger] r@[a]).1 >= (#[trigger] r@[b]).1,
{
    proof {
        uf.lema_representantes();
    }
    let ghost s = uf@;
    let n = uf.len();
    let mut cuenta: Vec<usize> = Vec::new();
    let mut k: usize = 0;
    while k < n
        invariant
            k <= n,
            cuenta@.len() == k,
            forall|j: int| 0 <= j < k ==> cuenta@[j] == 0,
        decreases n - k,
    {
        cuenta.push(0);
        k = k + 1;
    }
    let mut i: usize = 0;
    while i < n
        invariant
            i <= n,
            n == uf.tamano(),
            uf.wf(),
            uf@ == s,
            s.len() == n,
            forall|x: int| 0 <= x < n ==> #[trigger] s[x] < n,
            cuenta@.len() == n,
            forall|r: int| 0 <= r < n ==> #[trigger] cuenta@[r] == contar(s.take(i as int), r as usize),
        decreases n - i,
    {
        let raiz = uf.find(i);
        proof {
            lema_contar_cota(s.take(i as int), raiz);
            assert forall|r: int| 0 <= r < n implies #[trigger] contar(s.take(i + 1), r as usize) == contar(s.take(i as int), r as usize)
                + if s[i as int] == r { 1nat } else { 0nat } by {
                lema_contar_paso(s, i as int, r as usize);
            }
        }
        let c = cuenta[raiz] + 1;
        cuenta.set(raiz, c);
        i = i + 1;
    }
    proof {
        assert(s.take(n as int) =~= s);
    }
    let mut r: Vec<(usize, usize)> = Vec::new();
    let mut j: usize = 0;
    while j < n
        invariant
            j <= n,
            s.len() == n,
            cuenta@.len() == n,
            forall|x: int| 0 <= x < n ==> #[trigger] cuenta@[x] == contar(s, x as usize),
            r@ == clusters_hasta(s, j as nat),
        decreases n - j,
    {
        if cuenta[j] > 0 {
            r.push((j, cuenta[j]));
        }
        j = j + 1;
    }
    ordenar_clusters(&mut r);
    r
}

} // verus!

use vstd::prelude::*;
use rand::rngs::ThreadRng;
use rand::seq::SliceRandom;
use rand::Rng;
use crate::arbol::Fila;

verus! {

/// The thread-local random generator of `rand`, carried through opaque.
#[verifier::external_type_specification]
#[verifier::external_body]
pub struct ExThreadRng(ThreadRng);

/// `SliceRandom::shuffle` (rand 0.8) on the items of a vector: the items are put
/// in a random order by swaps, so the vector keeps the same items, as many times
/// each. Which order comes out is left open: it rests on the generator.
#[verifier::external_body]
fn barajar<T>(v: &mut Vec<T>, rng: &mut ThreadRng)
    ensures
        final(v)@.to_multiset() == old(v)@.to_multiset(),
{
    v.as_mut_slice().shuffle(rng);
}

/// `Rng::gen_range` (rand 0.8) over `0..n`: a number below `n`. Which one comes out
/// is left open: it rests on the generator. The range must not be empty, else
/// `gen_range` panics.
#[verifier::external_body]
fn aleatorio_menor_que(rng: &mut ThreadRng, n: usize) -> (r: usize)
    requires
        n > 0,
    ensures
        r < n,
{
    rng.gen_range(0..n)
}

/// The numbers `0..n` in a random order.
pub fn permutacion_aleatoria(n: usize, rng: &mut ThreadRng) -> (r: Vec<usize>)
    ensures
        r@.len() == n,
        r@.to_multiset() == Seq::new(n as nat, |i: int| i as usize).to_multiset(),
{
    let mut r: Vec<usize> = Vec::new();
    let mut i: usize = 0;
    while i < n
        invariant
            i <= n,
            r@ == Seq::new(i as nat, |k: int| k as usize),
        decreases n - i,
    {
        r.push(i);
        i = i + 1;
        proof {
            assert(r@ =~= Seq::new(i as nat, |k: int| k as usize));
        }
    }
    let ghost antes = r@;
    barajar(&mut r, rng);
    proof {
        broadcast use vstd::seq_lib::group_to_multiset_ensures;
        assert(r@.to_multiset().len() == antes.to_multiset().len());
        assert(r@.len() == antes.len());
    }
    r
}

/// Shuffles the rows and cuts them at `corte`: the first part has `corte` rows,
/// and both parts together hold the rows that were given, as many times each.
pub fn mezclar_y_partir(filas: Vec<Fila>, corte: usize, rng: &mut ThreadRng) -> (r: (Vec<Fila>, Vec<Fila>))
    requires
        corte <= filas@.len(),
    ensures
        r.0@.len() == corte,
        r.0@.len() + r.1@.len() == filas@.len(),
        (r.0@ + r.1@).to_multiset() == filas@.to_multiset(),
{
    let mut filas = filas;
    let ghost antes = filas@;
    barajar(&mut filas, rng);
    proof {
        broadcast use vstd::seq_lib::group_to_multiset_ensures;
        assert(filas@.to_multiset().len() == antes.to_multiset().len());
        assert(filas@.len() == antes.len());
    }
    let ghost barajadas = filas@;
    let prueba = filas.split_off(corte);
    proof {
        assert(filas@ + prueba@ =~= barajadas);
    }
    (filas, prueba)
}

/// A random partner for the item `j` among `n` items: any of the others, each
/// equally likely. A number is drawn among the `n - 1` others and the ones from
/// `j` on are shifted past `j`.
pub fn elegir_companero(rng: &mut ThreadRng, n: usize, j: usize) -> (k: usize)
    requires
        2 <= n,
        j < n,
    ensures
        k < n,
        k != j,
{
    let k = aleatorio_menor_que(rng, n - 1);
    if k >= j {
        k + 1
    } else {
        k
    }
}

} // verus!

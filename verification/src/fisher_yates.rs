use vstd::prelude::*;

use crate::occurrences::{
    count_of, is_index_permutation, lemma_count_is_multiset_count, lemma_count_swap,
};
use crate::rng::{state_from_seed, xoshiro_output, xoshiro_step, XoshiroState, Xoshiro256PlusPlus};

verus! {

/// `s` with the elements at `i` and `j` exchanged.
pub open spec fn swapped<T>(s: Seq<T>, i: int, j: int) -> Seq<T> {
    s.update(i, s[j]).update(j, s[i])
}

/// The steps of the shuffle for positions `i, i - 1, ..., 1`, the generator
/// being in state `st` before the step for `i`.  The step for position `i`
/// draws the next number `r` and exchanges the elements at `i` and
/// `r % (i + 1)`, a position `j` with `0 <= j <= i`.
pub open spec fn shuffle_steps<T>(data: Seq<T>, st: XoshiroState, i: nat) -> Seq<T>
    decreases i,
{
    if i == 0 {
        data
    } else {
        let j = xoshiro_output(st) as int % (i as int + 1);
        shuffle_steps(swapped(data, i as int, j), xoshiro_step(st), (i - 1) as nat)
    }
}

/// The order that `fisher_yates` gives `data` for `seed`: the steps for
/// positions `len - 1` down to `1`, with the generator seeded by `seed`.
pub open spec fn fisher_yates_spec<T>(data: Seq<T>, seed: Seq<u8>) -> Seq<T> {
    if data.len() <= 1 {
        data
    } else {
        shuffle_steps(data, state_from_seed(seed), (data.len() - 1) as nat)
    }
}

/// Exchanges the elements at `a` and `b` (`<[T]>::swap`).
#[verifier::external_body]
fn swap_elements<T>(v: &mut Vec<T>, a: usize, b: usize)
    requires
        a < old(v).len(),
        b < old(v).len(),
    ensures
        final(v)@ == swapped(old(v)@, a as int, b as int),
{
    v.swap(a, b)
}

/// Shuffles `data` in place: for `i` from `len - 1` down to `1` it draws
/// the next number `r` of the generator seeded with `seed` and exchanges the
/// elements at `i` and `r % (i + 1)`.
pub fn fisher_yates<T>(data: &mut Vec<T>, seed: [u8; 32])
    ensures
        final(data)@ == fisher_yates_spec(old(data)@, seed@),
{
    let mut s = Xoshiro256PlusPlus::from_seed(seed);
    let n = data.len();
    let mut i: usize = if n == 0 {
        0
    } else {
        n - 1
    };
    while i >= 1
        invariant
            n == old(data).len(),
            data.len() == n,
            i < n || i == 0,
            shuffle_steps(data@, s@, i as nat) == fisher_yates_spec(old(data)@, seed@),
        decreases i,
    {
        let r = s.next_u32();
        let j = (r as u64) % (i as u64 + 1);
        swap_elements(data, i, j as usize);
        i = i - 1;
    }
}

/// The shuffle only reorders: the result holds every element as many times
/// as `data` does.
pub proof fn lemma_fisher_yates_permutes<T>(data: Seq<T>, seed: Seq<u8>)
    ensures
        fisher_yates_spec(data, seed).len() == data.len(),
        forall|a: T| count_of(#[trigger] fisher_yates_spec(data, seed), a) == count_of(data, a),
        fisher_yates_spec(data, seed).to_multiset() == data.to_multiset(),
{
    if data.len() > 1 {
        lemma_shuffle_steps_permutes(data, state_from_seed(seed), (data.len() - 1) as nat);
    }
    let out = fisher_yates_spec(data, seed);
    assert forall|a: T| out.to_multiset().count(a) == data.to_multiset().count(a) by {
        lemma_count_is_multiset_count(out, a);
        lemma_count_is_multiset_count(data, a);
    }
    assert(out.to_multiset() =~= data.to_multiset());
}

proof fn lemma_shuffle_steps_permutes<T>(data: Seq<T>, st: XoshiroState, i: nat)
    requires
        i < data.len(),
    ensures
        shuffle_steps(data, st, i).len() == data.len(),
        forall|a: T| count_of(#[trigger] shuffle_steps(data, st, i), a) == count_of(data, a),
    decreases i,
{
    if i > 0 {
        let j = xoshiro_output(st) as int % (i as int + 1);
        let d2 = swapped(data, i as int, j);
        lemma_shuffle_steps_permutes(d2, xoshiro_step(st), (i - 1) as nat);
        assert forall|a: T| count_of(#[trigger] shuffle_steps(data, st, i), a) == count_of(data, a) by {
            lemma_count_swap(data, i as int, j, a);
        }
    }
}

/// The order that `fisher_yates` gives a list of length `n` for `seed`,
/// as positions of the list: position `k` of the result holds the element
/// that stood at `fisher_yates_order(n, seed)[k]`.
pub open spec fn fisher_yates_order(n: nat, seed: Seq<u8>) -> Seq<int> {
    fisher_yates_spec(Seq::new(n, |k: int| k), seed)
}

proof fn lemma_shuffle_steps_map<T, U>(data: Seq<T>, f: spec_fn(T) -> U, st: XoshiroState, i: nat)
    requires
        i < data.len(),
    ensures
        shuffle_steps(data.map_values(f), st, i) == shuffle_steps(data, st, i).map_values(f),
    decreases i,
{
    if i > 0 {
        let j = xoshiro_output(st) as int % (i as int + 1);
        assert(swapped(data.map_values(f), i as int, j) =~= swapped(data, i as int, j).map_values(
            f,
        ));
        lemma_shuffle_steps_map(swapped(data, i as int, j), f, xoshiro_step(st), (i - 1) as nat);
    }
}

/// The shuffle moves positions, not values: shuffling `data` mapped through
/// `f` gives the shuffle of `data` mapped through `f`.
pub proof fn lemma_fisher_yates_map<T, U>(data: Seq<T>, f: spec_fn(T) -> U, seed: Seq<u8>)
    ensures
        fisher_yates_spec(data.map_values(f), seed) == fisher_yates_spec(data, seed).map_values(f),
{
    if data.len() > 1 {
        lemma_shuffle_steps_map(data, f, state_from_seed(seed), (data.len() - 1) as nat);
    } else {
        assert(fisher_yates_spec(data.map_values(f), seed) =~= fisher_yates_spec(
            data,
            seed,
        ).map_values(f));
    }
}

proof fn lemma_shuffle_steps_keeps_permutation(p: Seq<int>, st: XoshiroState, i: nat)
    requires
        i < p.len(),
        is_index_permutation(p, p.len()),
    ensures
        is_index_permutation(shuffle_steps(p, st, i), p.len()),
    decreases i,
{
    if i > 0 {
        let j = xoshiro_output(st) as int % (i as int + 1);
        let q = swapped(p, i as int, j);
        assert forall|k: int| 0 <= k < p.len() implies 0 <= #[trigger] q[k] < p.len() by {
            if k == i {
                assert(q[k] == p[j]);
            } else if k == j {
                assert(q[k] == p[i as int]);
            } else {
                assert(q[k] == p[k]);
            }
        }
        assert forall|k1: int, k2: int|
            0 <= k1 < p.len() && 0 <= k2 < p.len() && k1 != k2 implies #[trigger] q[k1]
            != #[trigger] q[k2] by {
            let o1 = if k1 == i {
                j
            } else if k1 == j {
                i as int
            } else {
                k1
            };
            let o2 = if k2 == i {
                j
            } else if k2 == j {
                i as int
            } else {
                k2
            };
            assert(q[k1] == p[o1]);
            assert(q[k2] == p[o2]);
            assert(p[o1] != p[o2]);
        }
        lemma_shuffle_steps_keeps_permutation(q, xoshiro_step(st), (i - 1) as nat);
    }
}

/// The shuffle is a permutation that depends only on the length and the
/// seed: `fisher_yates_order(len, seed)` sends `0..len` one-to-one into
/// `0..len`, and the element at position `k` of the result is the element
/// of `data` at `fisher_yates_order(len, seed)[k]`, whatever the elements.
pub proof fn lemma_fisher_yates_order<T>(data: Seq<T>, seed: Seq<u8>)
    ensures
        is_index_permutation(fisher_yates_order(data.len(), seed), data.len()),
        fisher_yates_spec(data, seed).len() == data.len(),
        forall|k: int|
            0 <= k < data.len() ==> fisher_yates_spec(data, seed)[k] == data[
                #[trigger] fisher_yates_order(data.len(), seed)[k]
            ],
{
    let n = data.len();
    let ids = Seq::new(n, |k: int| k);
    let f = |k: int| data[k];
    assert(ids.map_values(f) =~= data);
    lemma_fisher_yates_map(ids, f, seed);
    lemma_fisher_yates_permutes(ids, seed);
    lemma_fisher_yates_permutes(data, seed);
    if n > 1 {
        lemma_shuffle_steps_keeps_permutation(ids, state_from_seed(seed), (n - 1) as nat);
    }
}

/// Each step settles one position: after the steps for `i` down to `1`,
/// the positions above `i` are untouched and position `i` holds the element
/// that stood at `r % (i + 1)`, `r` being the draw of the state the steps
/// start from.
pub proof fn lemma_shuffle_step_settles<T>(data: Seq<T>, st: XoshiroState, i: nat)
    requires
        i < data.len(),
    ensures
        shuffle_steps(data, st, i).len() == data.len(),
        shuffle_steps(data, st, i)[i as int] == data[xoshiro_output(st) as int % (i as int + 1)],
        forall|k: int| i < k < data.len() ==> #[trigger] shuffle_steps(data, st, i)[k] == data[k],
    decreases i,
{
    lemma_shuffle_steps_permutes(data, st, i);
    if i > 0 {
        let j = xoshiro_output(st) as int % (i as int + 1);
        let d2 = swapped(data, i as int, j);
        lemma_shuffle_step_settles(d2, xoshiro_step(st), (i - 1) as nat);
        assert(shuffle_steps(data, st, i) == shuffle_steps(d2, xoshiro_step(st), (i - 1) as nat));
        assert(shuffle_steps(d2, xoshiro_step(st), (i - 1) as nat)[i as int] == d2[i as int]);
        assert forall|k: int| i < k < data.len() implies #[trigger] shuffle_steps(data, st, i)[k]
            == data[k] by {
            assert(shuffle_steps(d2, xoshiro_step(st), (i - 1) as nat)[k] == d2[k]);
        }
    }
}

/// The step for position `i` (`i >= 1`) exchanges `i` with `r % (i + 1)`
/// for the draw `r` of the current state, then the steps for `i - 1` down
/// to `1` follow from the next state; with no step left the list stays.
pub proof fn lemma_shuffle_step_unfold<T>(data: Seq<T>, st: XoshiroState, i: nat)
    ensures
        i == 0 ==> shuffle_steps(data, st, i) == data,
        i >= 1 ==> shuffle_steps(data, st, i) == shuffle_steps(
            data.update(i as int, data[xoshiro_output(st) as int % (i as int + 1)]).update(
                xoshiro_output(st) as int % (i as int + 1),
                data[i as int],
            ),
            xoshiro_step(st),
            (i - 1) as nat,
        ),
{
}

/// The shuffle for a seed is driven by the generator that seeding with the
/// same seed builds: lists of at most one element stay, and otherwise the
/// steps for `len - 1` down to `1` start from the seeded state, so the last
/// position receives the element at `r % len` for the first draw `r`.
pub proof fn lemma_fisher_yates_from_seed<T>(data: Seq<T>, seed: Seq<u8>)
    ensures
        data.len() <= 1 ==> fisher_yates_spec(data, seed) == data,
        data.len() >= 2 ==> fisher_yates_spec(data, seed) == shuffle_steps(
            data,
            state_from_seed(seed),
            (data.len() - 1) as nat,
        ),
        data.len() >= 2 ==> fisher_yates_spec(data, seed)[data.len() - 1] == data[xoshiro_output(
            state_from_seed(seed),
        ) as int % data.len() as int],
{
    if data.len() >= 2 {
        lemma_shuffle_step_settles(data, state_from_seed(seed), (data.len() - 1) as nat);
    }
}

} // verus!

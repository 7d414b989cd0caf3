use std::collections::BTreeMap;
use std::collections::VecDeque;
use vstd::prelude::*;

use crate::bytes::{le_value, lemma_le_value_bound, lemma_le_value_injective, lemma_pow256_16, read_le};
use crate::fisher_yates::{
    fisher_yates, fisher_yates_order, fisher_yates_spec, lemma_fisher_yates_order,
    lemma_fisher_yates_permutes,
};
use crate::occurrences::{
    count_of, lemma_count_before_position, lemma_count_take, lemma_count_take_monotone,
    lemma_positions_of, lemma_reindex_to_multiset, positions_of,
};

verus! {

/// A 32-byte account identifier.
pub type AccountId = [u8; 32];

/// Who signed an extrinsic: an account, or nobody.
pub type Signer = Option<AccountId>;

/// An ordered key standing for a signer: the two 16-byte halves of the
/// account, each read little-endian.
pub type SignerKey = Option<(u128, u128)>;

/// The key of a signer.
pub open spec fn signer_key(w: Signer) -> SignerKey {
    match w {
        None => None,
        Some(b) => Some(
            (le_value(b@.subrange(0, 16)) as u128, le_value(b@.subrange(16, 32)) as u128),
        ),
    }
}

/// The signers of a list of extrinsics, in order.
pub open spec fn signers<T>(xs: Seq<(Signer, T)>) -> Seq<Signer> {
    xs.map_values(|p: (Signer, T)| p.0)
}

/// The signer of each position of the result: the signers of `xs` in the
/// order that `fisher_yates` gives them for `seed`.
pub open spec fn shuffled_slots<T>(xs: Seq<(Signer, T)>, seed: Seq<u8>) -> Seq<Signer> {
    fisher_yates_spec(signers(xs), seed)
}

/// The position in `xs` of the extrinsic that `shuffle` puts at position
/// `i`: if the signer of slot `i` has had `c` earlier slots, it is the
/// `c`-th (from 0) extrinsic of that signer in `xs`.
pub open spec fn source_index<T>(xs: Seq<(Signer, T)>, seed: Seq<u8>, i: int) -> int {
    let slots = shuffled_slots(xs, seed);
    positions_of(signers(xs), slots[i])[count_of(slots.take(i), slots[i]) as int]
}

/// What `shuffle` returns for `xs` and `seed`.
pub open spec fn shuffle_spec<T>(xs: Seq<(Signer, T)>, seed: Seq<u8>) -> Seq<T> {
    Seq::new(xs.len(), |i: int| xs[source_index(xs, seed, i)].1)
}

/// The extrinsics of `xs` at the positions `ps`.
pub open spec fn extrinsics_at<T>(xs: Seq<(Signer, T)>, ps: Seq<int>) -> Seq<T> {
    ps.map_values(|j: int| xs[j].1)
}

/// Distinct signers have distinct keys.
pub proof fn lemma_signer_key_injective(a: Signer, b: Signer)
    requires
        signer_key(a) == signer_key(b),
    ensures
        a == b,
{
    broadcast use vstd::array::group_array_axioms;

    if let (Some(x), Some(y)) = (a, b) {
        let x1 = x@.subrange(0, 16);
        let x2 = x@.subrange(16, 32);
        let y1 = y@.subrange(0, 16);
        let y2 = y@.subrange(16, 32);
        lemma_pow256_16();
        lemma_le_value_bound(x1);
        lemma_le_value_bound(x2);
        lemma_le_value_bound(y1);
        lemma_le_value_bound(y2);
        lemma_le_value_injective(x1, y1);
        lemma_le_value_injective(x2, y2);
        assert(x@ =~= x1 + x2);
        assert(y@ =~= y1 + y2);
        assert forall|i: int| 0 <= i < 32 implies x[i] == y[i] by {
            assert(x@[i] == y@[i]);
        }
        assert(x =~= y);
    }
}

fn key_of(w: &Signer) -> (k: SignerKey)
    ensures
        k == signer_key(*w),
{
    match w {
        None => None,
        Some(b) => {
            let lo = read_le(b, 0, 16);
            let hi = read_le(b, 16, 16);
            Some((lo, hi))
        },
    }
}

fn collect_signers<T>(xs: &Vec<(Signer, T)>) -> (s: Vec<Signer>)
    ensures
        s@ == signers(xs@),
{
    let mut s: Vec<Signer> = Vec::new();
    let n = xs.len();
    for i in 0..n
        invariant
            n == xs@.len(),
            s@ =~= signers(xs@).take(i as int),
    {
        s.push(xs[i].0);
    }
    s
}

/// The extrinsics of each signer, in their order in `xs`, keyed by signer.
fn group_by_signer<T>(xs: Vec<(Signer, T)>) -> (m: BTreeMap<SignerKey, VecDeque<T>>)
    ensures
        forall|a: Signer|
            #![trigger signer_key(a)]
            m@.contains_key(signer_key(a)) <==> count_of(signers(xs@), a) > 0,
        forall|a: Signer|
            #![trigger signer_key(a)]
            m@.contains_key(signer_key(a)) ==> m@[signer_key(a)]@ == extrinsics_at(
                xs@,
                positions_of(signers(xs@), a),
            ),
{

    let ghost all = xs@;
    let ghost w = signers(all);
    let mut m: BTreeMap<SignerKey, VecDeque<T>> = BTreeMap::new();
    for p in it: xs.into_iter()
        invariant
            it.seq() == all,
            w == signers(all),
            forall|a: Signer|
                #![trigger signer_key(a)]
                m@.contains_key(signer_key(a)) <==> count_of(w.take(it.index() as int), a) > 0,
            forall|a: Signer|
                #![trigger signer_key(a)]
                m@.contains_key(signer_key(a)) ==> m@[signer_key(a)]@ == extrinsics_at(
                    all,
                    positions_of(w.take(it.index() as int), a),
                ),
    {
        let ghost idx = it.index() as int;
        let ghost before = m@;
        let (who, tx) = p;
        let k = key_of(&who);
        match m.remove(&k) {
            Some(mut q) => {
                q.push_back(tx);
                m.insert(k, q);
            },
            None => {
                let mut q: VecDeque<T> = VecDeque::new();
                q.push_back(tx);
                m.insert(k, q);
            },
        }
        proof {
            assert(w.take(idx + 1).drop_last() =~= w.take(idx));
            assert(w[idx] == who);
            assert forall|a: Signer|
                #![trigger signer_key(a)]
                m@.contains_key(signer_key(a)) <==> count_of(w.take(idx + 1), a) > 0 by {
                if a != who {
                    if signer_key(a) == k {
                        lemma_signer_key_injective(a, who);
                    }
                }
            }
            assert forall|a: Signer|
                #![trigger signer_key(a)]
                m@.contains_key(signer_key(a)) implies m@[signer_key(a)]@ == extrinsics_at(
                    all,
                    positions_of(w.take(idx + 1), a),
                ) by {
                if a != who {
                    if signer_key(a) == k {
                        lemma_signer_key_injective(a, who);
                    }
                } else {
                    lemma_positions_of(w.take(idx), a);
                    assert(extrinsics_at(all, positions_of(w.take(idx + 1), a)) =~= extrinsics_at(
                        all,
                        positions_of(w.take(idx), a),
                    ).push(tx));
                }
            }
        }
    }
    proof {
        assert(w.take(all.len() as int) =~= w);
    }
    m
}

/// Reorders extrinsics for `seed`.  The signers of the extrinsics are laid
/// out as slots and shuffled by `fisher_yates`; then each slot, from first
/// to last, takes the earliest extrinsic of its signer that no earlier slot
/// took.  Extrinsics of one signer thus keep their relative order.
pub fn shuffle<T>(extrinsics: Vec<(Signer, T)>, seed: [u8; 32]) -> (out: Vec<T>)
    ensures
        out@ == shuffle_spec(extrinsics@, seed@),
        out@.len() == extrinsics@.len(),
        forall|i: int|
            0 <= i < extrinsics@.len() ==> {
                &&& 0 <= #[trigger] source_index(extrinsics@, seed@, i) < extrinsics@.len()
                &&& out@[i] == extrinsics@[source_index(extrinsics@, seed@, i)].1
                &&& extrinsics@[source_index(extrinsics@, seed@, i)].0 == extrinsics@[fisher_yates_order(
                    extrinsics@.len(),
                    seed@,
                )[i]].0
            },
{

    let ghost xs = extrinsics@;
    let ghost w = signers(xs);
    let mut slots = collect_signers(&extrinsics);
    let mut groups = group_by_signer(extrinsics);
    fisher_yates(&mut slots, seed);
    proof {
        lemma_fisher_yates_permutes(w, seed@);
    }
    let ghost sl = slots@;
    let mut out: Vec<T> = Vec::new();
    let n = slots.len();
    for i in 0..n
        invariant
            n == sl.len(),
            n == xs.len(),
            slots@ == sl,
            sl == shuffled_slots(xs, seed@),
            w == signers(xs),
            forall|a: Signer| count_of(#[trigger] fisher_yates_spec(w, seed@), a) == count_of(w, a),
            forall|a: Signer|
                #![trigger signer_key(a)]
                count_of(w, a) > 0 ==> groups@.contains_key(signer_key(a)) && groups@[signer_key(
                    a,
                )]@ == extrinsics_at(xs, positions_of(w, a)).skip(count_of(sl.take(i as int), a) as int),
            out@.len() == i,
            forall|t: int| 0 <= t < i ==> out@[t] == xs[source_index(xs, seed@, t)].1,
    {
        let ghost a = sl[i as int];
        let ghost c = count_of(sl.take(i as int), a);
        proof {
            lemma_count_take(sl, i as int, a);
            assert(count_of(fisher_yates_spec(w, seed@), a) == count_of(w, a));
            lemma_positions_of(w, a);
        }
        let k = key_of(&slots[i]);
        let mut q = groups.remove(&k).unwrap();
        let x = q.pop_front().unwrap();
        groups.insert(k, q);
        out.push(x);
        proof {
            let e = extrinsics_at(xs, positions_of(w, a));
            assert(x == e[c as int]);
            assert(q@ =~= e.skip(c as int + 1));
            assert forall|b: Signer|
                #![trigger signer_key(b)]
                count_of(w, b) > 0 implies groups@.contains_key(signer_key(b)) && groups@[signer_key(
                    b,
                )]@ == extrinsics_at(xs, positions_of(w, b)).skip(
                    count_of(sl.take(i + 1), b) as int,
                ) by {
                lemma_count_take(sl, i as int, b);
                if b != a {
                    if signer_key(b) == k {
                        lemma_signer_key_injective(a, b);
                    }
                }
            }
        }
    }
    proof {
        assert forall|i: int| 0 <= i < xs.len() implies {
            &&& 0 <= #[trigger] source_index(xs, seed@, i) < xs.len()
            &&& out@[i] == xs[source_index(xs, seed@, i)].1
            &&& xs[source_index(xs, seed@, i)].0 == xs[fisher_yates_order(xs.len(), seed@)[i]].0
        } by {
            lemma_shuffle_slot_signer(xs, seed@, i);
        }
    }
    out
}

/// Whether the extrinsic at position `j` of `xs` is placed somewhere in the
/// result.
pub open spec fn is_taken<T>(xs: Seq<(Signer, T)>, seed: Seq<u8>, j: int) -> bool {
    exists|i: int| 0 <= i < xs.len() && #[trigger] source_index(xs, seed, i) == j
}

/// Where an extrinsic of the result comes from: from a position of `xs`, of
/// the signer of its slot.
proof fn lemma_source_index<T>(xs: Seq<(Signer, T)>, seed: Seq<u8>, i: int)
    requires
        0 <= i < xs.len(),
    ensures
        shuffled_slots(xs, seed).len() == xs.len(),
        count_of(shuffled_slots(xs, seed).take(i), shuffled_slots(xs, seed)[i]) < count_of(
            signers(xs),
            shuffled_slots(xs, seed)[i],
        ),
        0 <= source_index(xs, seed, i) < xs.len(),
        xs[source_index(xs, seed, i)].0 == shuffled_slots(xs, seed)[i],
{
    let w = signers(xs);
    let sl = shuffled_slots(xs, seed);
    lemma_fisher_yates_permutes(w, seed);
    let a = sl[i];
    lemma_count_take(sl, i, a);
    lemma_positions_of(w, a);
    let c = count_of(sl.take(i), a) as int;
    assert(0 <= positions_of(w, a)[c] < w.len());
}

/// Extrinsics signed by one account keep their relative order: of two
/// slots of one signer, the earlier one takes the earlier extrinsic.
pub proof fn lemma_shuffle_keeps_signer_order<T>(
    xs: Seq<(Signer, T)>,
    seed: Seq<u8>,
    i1: int,
    i2: int,
)
    requires
        0 <= i1 < i2 < xs.len(),
        shuffled_slots(xs, seed)[i1] == shuffled_slots(xs, seed)[i2],
    ensures
        source_index(xs, seed, i1) < source_index(xs, seed, i2),
{
    let w = signers(xs);
    let sl = shuffled_slots(xs, seed);
    let a = sl[i1];
    lemma_source_index(xs, seed, i1);
    lemma_source_index(xs, seed, i2);
    lemma_count_take(sl, i1, a);
    lemma_count_take_monotone(sl, i1 + 1, i2, a);
    lemma_positions_of(w, a);
}

/// Every extrinsic lands in a slot of its own signer: position `i` of the
/// result holds an extrinsic signed by the signer of slot `i`.
pub proof fn lemma_shuffle_slot_signer<T>(xs: Seq<(Signer, T)>, seed: Seq<u8>, i: int)
    requires
        0 <= i < xs.len(),
    ensures
        0 <= source_index(xs, seed, i) < xs.len(),
        xs[source_index(xs, seed, i)].0 == shuffled_slots(xs, seed)[i],
        xs[source_index(xs, seed, i)].0 == fisher_yates_spec(signers(xs), seed)[i],
        xs[source_index(xs, seed, i)].0 == xs[fisher_yates_order(xs.len(), seed)[i]].0,
        shuffle_spec(xs, seed)[i] == xs[source_index(xs, seed, i)].1,
{
    lemma_source_index(xs, seed, i);
    lemma_shuffle_slots(xs, seed);
}

/// The slots are the signers of `xs` in the order that `fisher_yates` gives
/// for the same seed, at every length: slot `k` holds the signer of the
/// extrinsic at `fisher_yates_order(len, seed)[k]`.
pub proof fn lemma_shuffle_slots<T>(xs: Seq<(Signer, T)>, seed: Seq<u8>)
    ensures
        signers(xs).len() == xs.len(),
        forall|k: int| 0 <= k < xs.len() ==> #[trigger] signers(xs)[k] == xs[k].0,
        shuffled_slots(xs, seed) == fisher_yates_spec(signers(xs), seed),
        shuffled_slots(xs, seed).len() == xs.len(),
        forall|k: int|
            0 <= k < xs.len() ==> #[trigger] shuffled_slots(xs, seed)[k] == xs[fisher_yates_order(
                xs.len(),
                seed,
            )[k]].0,
{
    lemma_fisher_yates_order(signers(xs), seed);
}

/// The extrinsics of a list, without their signers.
pub open spec fn payloads<T>(xs: Seq<(Signer, T)>) -> Seq<T> {
    xs.map_values(|p: (Signer, T)| p.1)
}

/// The result is a permutation of the extrinsics: it is as long as `xs`,
/// no extrinsic is taken twice, every extrinsic is taken, the result holds
/// every extrinsic as often as `xs` does, and the slots hold every signer
/// as often as `xs` does.
pub proof fn lemma_shuffle_permutes<T>(xs: Seq<(Signer, T)>, seed: Seq<u8>)
    ensures
        shuffle_spec(xs, seed).len() == xs.len(),
        shuffled_slots(xs, seed).to_multiset() == signers(xs).to_multiset(),
        forall|i1: int, i2: int|
            0 <= i1 < xs.len() && 0 <= i2 < xs.len() && i1 != i2 ==> source_index(xs, seed, i1)
                != source_index(xs, seed, i2),
        forall|j: int| 0 <= j < xs.len() ==> #[trigger] is_taken(xs, seed, j),
        shuffle_spec(xs, seed).to_multiset() == payloads(xs).to_multiset(),
{
    let w = signers(xs);
    let sl = shuffled_slots(xs, seed);
    lemma_fisher_yates_permutes(w, seed);
    assert forall|i1: int, i2: int|
        0 <= i1 < xs.len() && 0 <= i2 < xs.len() && i1 != i2 implies source_index(xs, seed, i1)
        != source_index(xs, seed, i2) by {
        lemma_source_index(xs, seed, i1);
        lemma_source_index(xs, seed, i2);
        if sl[i1] == sl[i2] {
            if i1 < i2 {
                lemma_shuffle_keeps_signer_order(xs, seed, i1, i2);
            } else {
                lemma_shuffle_keeps_signer_order(xs, seed, i2, i1);
            }
        }
    }
    assert forall|j: int| 0 <= j < xs.len() implies #[trigger] is_taken(xs, seed, j) by {
        let a = w[j];
        lemma_positions_of(w, a);
        lemma_positions_of(sl, a);
        assert(positions_of(w, a).contains(j));
        let c = choose|c: int| 0 <= c < positions_of(w, a).len() && positions_of(w, a)[c] == j;
        assert(count_of(sl, a) == count_of(w, a));
        let i = positions_of(sl, a)[c];
        lemma_count_before_position(sl, a, c);
        assert(sl[i] == a);
        assert(source_index(xs, seed, i) == j);
    }
    let p = Seq::new(xs.len(), |i: int| source_index(xs, seed, i));
    assert forall|i: int| 0 <= i < xs.len() implies 0 <= #[trigger] p[i] < xs.len() by {
        lemma_source_index(xs, seed, i);
    }
    assert forall|i: int| 0 <= i < xs.len() implies shuffle_spec(xs, seed)[i] == payloads(
        xs,
    )[#[trigger] p[i]] by {
        lemma_source_index(xs, seed, i);
    }
    lemma_reindex_to_multiset(shuffle_spec(xs, seed), payloads(xs), p);
}

} // verus!

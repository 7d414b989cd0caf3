use vstd::prelude::*;

verus! {

/// How many times `a` occurs in `s`.
pub open spec fn count_of<A>(s: Seq<A>, a: A) -> nat
    decreases s.len(),
{
    if s.len() == 0 {
        0
    } else {
        count_of(s.drop_last(), a) + if s.last() == a {
            1nat
        } else {
            0nat
        }
    }
}

/// The positions at which `a` occurs in `s`, in increasing order.
pub open spec fn positions_of<A>(s: Seq<A>, a: A) -> Seq<int>
    decreases s.len(),
{
    if s.len() == 0 {
        Seq::empty()
    } else {
        positions_of(s.drop_last(), a) + if s.last() == a {
            seq![s.len() - 1]
        } else {
            Seq::empty()
        }
    }
}

/// Overwriting one element changes the count of `a` only by what left and
/// what came.
pub proof fn lemma_count_update<A>(s: Seq<A>, i: int, x: A, a: A)
    requires
        0 <= i < s.len(),
    ensures
        count_of(s.update(i, x), a) + (if s[i] == a {
            1int
        } else {
            0int
        }) == count_of(s, a) + (if x == a {
            1int
        } else {
            0int
        }),
    decreases s.len(),
{
    let u = s.update(i, x);
    if i == s.len() - 1 {
        assert(u.drop_last() =~= s.drop_last());
    } else {
        assert(u.drop_last() =~= s.drop_last().update(i, x));
        lemma_count_update(s.drop_last(), i, x, a);
    }
}

/// Exchanging two elements keeps every count.
pub proof fn lemma_count_swap<A>(s: Seq<A>, i: int, j: int, a: A)
    requires
        0 <= i < s.len(),
        0 <= j < s.len(),
    ensures
        count_of(s.update(i, s[j]).update(j, s[i]), a) == count_of(s, a),
{
    lemma_count_update(s, i, s[j], a);
    let u = s.update(i, s[j]);
    lemma_count_update(u, j, s[i], a);
}

/// The count of `a` agrees with the multiset of the sequence.
pub proof fn lemma_count_is_multiset_count<A>(s: Seq<A>, a: A)
    ensures
        s.to_multiset().count(a) == count_of(s, a),
    decreases s.len(),
{
    broadcast use vstd::seq_lib::group_to_multiset_ensures;
    broadcast use vstd::multiset::group_multiset_axioms;

    if s.len() > 0 {
        lemma_count_is_multiset_count(s.drop_last(), a);
        assert(s =~= s.drop_last().push(s.last()));
    }
}

/// A prefix holds no more occurrences than the whole sequence, and one
/// more element adds at most one.
pub proof fn lemma_count_take<A>(s: Seq<A>, i: int, a: A)
    requires
        0 <= i < s.len(),
    ensures
        count_of(s.take(i + 1), a) == count_of(s.take(i), a) + if s[i] == a {
            1nat
        } else {
            0nat
        },
        count_of(s.take(i + 1), a) <= count_of(s, a),
    decreases s.len() - i,
{
    assert(s.take(i + 1).drop_last() =~= s.take(i));
    if i + 1 == s.len() {
        assert(s.take(i + 1) =~= s);
    } else {
        lemma_count_take(s, i + 1, a);
    }
}

/// `positions_of` lists exactly the positions holding `a`, increasing, and
/// there are `count_of` of them.
pub proof fn lemma_positions_of<A>(s: Seq<A>, a: A)
    ensures
        positions_of(s, a).len() == count_of(s, a),
        forall|k: int|
            0 <= k < positions_of(s, a).len() ==> 0 <= #[trigger] positions_of(s, a)[k] < s.len()
                && s[positions_of(s, a)[k]] == a,
        forall|k1: int, k2: int|
            0 <= k1 < k2 < positions_of(s, a).len() ==> #[trigger] positions_of(s, a)[k1]
                < #[trigger] positions_of(s, a)[k2],
        forall|j: int|
            0 <= j < s.len() && s[j] == a ==> #[trigger] positions_of(s, a).contains(j),
    decreases s.len(),
{
    if s.len() > 0 {
        let p = s.drop_last();
        lemma_positions_of(p, a);
        let pp = positions_of(p, a);
        let ps = positions_of(s, a);
        assert forall|j: int| 0 <= j < s.len() && s[j] == a implies #[trigger] ps.contains(j) by {
            if j < s.len() - 1 {
                assert(p[j] == a);
                assert(pp.contains(j));
                let k = choose|k: int| 0 <= k < pp.len() && pp[k] == j;
                assert(ps[k] == j);
            } else {
                assert(ps[ps.len() - 1] == j);
            }
        }
    }
}

/// Positions of `a` in a prefix are the first positions of `a` in the whole.
pub proof fn lemma_positions_of_take<A>(s: Seq<A>, i: int, a: A)
    requires
        0 <= i <= s.len(),
    ensures
        positions_of(s.take(i), a) == positions_of(s, a).take(count_of(s.take(i), a) as int),
    decreases s.len() - i,
{
    lemma_positions_of(s, a);
    lemma_positions_of(s.take(i), a);
    if i == s.len() {
        assert(s.take(i) =~= s);
        assert(positions_of(s, a).take(count_of(s, a) as int) =~= positions_of(s, a));
    } else {
        lemma_positions_of_take(s, i + 1, a);
        lemma_count_take(s, i, a);
        assert(s.take(i + 1).drop_last() =~= s.take(i));
        let big = positions_of(s.take(i + 1), a);
        let small = positions_of(s.take(i), a);
        assert(small =~= big.take(count_of(s.take(i), a) as int));
    }
}

/// A longer prefix holds at least as many occurrences.
pub proof fn lemma_count_take_monotone<A>(s: Seq<A>, i: int, j: int, a: A)
    requires
        0 <= i <= j <= s.len(),
    ensures
        count_of(s.take(i), a) <= count_of(s.take(j), a),
    decreases j - i,
{
    if i < j {
        lemma_count_take(s, j - 1, a);
        lemma_count_take_monotone(s, i, j - 1, a);
    }
}

/// Before the `c`-th occurrence of `a` there are exactly `c` occurrences of
/// `a`.
pub proof fn lemma_count_before_position<A>(s: Seq<A>, a: A, c: int)
    requires
        0 <= c < count_of(s, a),
    ensures
        count_of(s.take(positions_of(s, a)[c]), a) == c,
{
    lemma_positions_of(s, a);
    let ps = positions_of(s, a);
    let pc = ps[c];
    let pre = s.take(pc);
    lemma_positions_of_take(s, pc, a);
    lemma_positions_of(pre, a);
    let m = count_of(pre, a) as int;
    let qs = positions_of(pre, a);
    lemma_count_take_monotone(s, pc, s.len() as int, a);
    assert(s.take(s.len() as int) =~= s);
    assert(qs == ps.take(m));
    if m > c {
        assert(ps.take(m)[c] == ps[c]);
        assert(qs[c] == ps[c]);
        assert(qs[c] < pre.len());
    }
    if m < c {
        let k = c - 1;
        assert(pre[ps[k]] == a);
        assert(qs.contains(ps[k]));
        let k2 = choose|k2: int| 0 <= k2 < qs.len() && qs[k2] == ps[k];
        assert(ps[k2] == ps[k]);
        if k2 < k {
            assert(ps[k2] < ps[k]);
        }
    }
}

/// Whether `p` sends `0..n` one-to-one into `0..n`.
pub open spec fn is_index_permutation(p: Seq<int>, n: nat) -> bool {
    &&& p.len() == n
    &&& forall|i: int| 0 <= i < n ==> 0 <= #[trigger] p[i] < n
    &&& forall|i1: int, i2: int|
        0 <= i1 < n && 0 <= i2 < n && i1 != i2 ==> #[trigger] p[i1] != #[trigger] p[i2]
}

/// A sequence that picks the elements of `inp` through a one-to-one index
/// map holds the same elements as `inp`.
pub proof fn lemma_reindex_to_multiset<A>(out: Seq<A>, inp: Seq<A>, p: Seq<int>)
    requires
        out.len() == inp.len(),
        is_index_permutation(p, inp.len()),
        forall|i: int| 0 <= i < out.len() ==> out[i] == inp[#[trigger] p[i]],
    ensures
        out.to_multiset() == inp.to_multiset(),
    decreases out.len(),
{
    broadcast use vstd::seq_lib::group_to_multiset_ensures;
    broadcast use vstd::multiset::group_multiset_axioms;

    let n = out.len();
    if n == 0 {
        assert(out.to_multiset() =~= inp.to_multiset());
    } else {
        let k = p[n - 1];
        let out2 = out.drop_last();
        let inp2 = inp.remove(k);
        let p2 = Seq::new((n - 1) as nat, |i: int| if p[i] > k { p[i] - 1 } else { p[i] });
        assert forall|i: int| 0 <= i < n - 1 implies 0 <= #[trigger] p2[i] < n - 1 by {
            assert(p[i] != k);
        }
        assert forall|i1: int, i2: int|
            0 <= i1 < n - 1 && 0 <= i2 < n - 1 && i1 != i2 implies #[trigger] p2[i1]
            != #[trigger] p2[i2] by {
            assert(p[i1] != p[i2]);
            assert(p[i1] != k && p[i2] != k);
        }
        assert forall|i: int| 0 <= i < out2.len() implies out2[i] == inp2[#[trigger] p2[i]] by {
            assert(p[i] != k);
            assert(out[i] == inp[p[i]]);
        }
        lemma_reindex_to_multiset(out2, inp2, p2);
        assert(out =~= out2.push(out[n - 1]));
        assert(out[n - 1] == inp[k]);
        assert(inp.to_multiset() =~= inp2.to_multiset().insert(inp[k]));
    }
}

} // verus!

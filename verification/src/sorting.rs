//! Stable ordering of items by a character-sequence key.

use vstd::prelude::*;
use crate::text::{chars_lt, lemma_lex_irreflexive, lemma_lex_total, lemma_lex_transitive, lex_le, lex_lt};

verus! {

/// Item `i` comes strictly before item `j` in a stable sort by `keys`:
/// its key is smaller, or the keys are equal and `i` came first.
pub open spec fn stably_before(keys: Seq<Seq<char>>, i: int, j: int) -> bool {
    lex_lt(keys[i], keys[j]) || (keys[i] == keys[j] && i < j)
}

/// `p` lists the indices of `keys` in stable-sorted order: it has one entry
/// per key, each a valid index, and every earlier entry comes stably before
/// every later one.  This determines `p` uniquely.
pub open spec fn is_stable_order(keys: Seq<Seq<char>>, p: Seq<usize>) -> bool {
    &&& p.len() == keys.len()
    &&& forall|k: int| 0 <= k < p.len() ==> (#[trigger] p[k]) < keys.len()
    &&& forall|k: int, l: int|
        0 <= k < l < p.len() ==> stably_before(keys, #[trigger] p[k] as int, #[trigger] p[l] as int)
}

/// A stable order lists every index exactly once.
pub proof fn lemma_stable_order_no_duplicates(keys: Seq<Seq<char>>, p: Seq<usize>)
    requires
        is_stable_order(keys, p),
    ensures
        p.no_duplicates(),
{
    assert forall|k: int, l: int| 0 <= k < p.len() && 0 <= l < p.len() && k != l implies p[k]
        != p[l] by {
        if k < l {
            lemma_lex_irreflexive(keys[p[k] as int]);
            assert(stably_before(keys, p[k] as int, p[l] as int));
        } else {
            lemma_lex_irreflexive(keys[p[l] as int]);
            assert(stably_before(keys, p[l] as int, p[k] as int));
        }
    }
}

/// A duplicate-free sequence of `n` indices below `n` holds every index
/// below `n`.
proof fn lemma_covers_all_indices(p: Seq<usize>, n: nat)
    requires
        p.len() == n,
        p.no_duplicates(),
        forall|k: int| 0 <= k < p.len() ==> (#[trigger] p[k]) < n,
    ensures
        forall|v: usize| v < n ==> #[trigger] p.contains(v),
{
    broadcast use vstd::seq_lib::seq_to_set_is_finite;

    let q = p.map_values(|x: usize| x as int);
    assert(q.no_duplicates()) by {
        assert forall|i: int, j: int| 0 <= i < q.len() && 0 <= j < q.len() && i != j implies q[i]
            != q[j] by {
            assert(p[i] != p[j]);
        }
    }
    q.unique_seq_to_set();
    vstd::set_lib::lemma_int_range(0, n as int);
    let range = vstd::set_lib::set_int_range(0, n as int);
    assert(q.to_set().subset_of(range)) by {
        assert forall|x: int| q.to_set().contains(x) implies range.contains(x) by {
            let i = choose|i: int| 0 <= i < q.len() && q[i] == x;
            assert(p[i] < n);
        }
    }
    vstd::set_lib::lemma_subset_equality(q.to_set(), range);
    assert forall|v: usize| v < n implies #[trigger] p.contains(v) by {
        assert(range.contains(v as int));
        assert(q.to_set().contains(v as int));
        let i = choose|i: int| 0 <= i < q.len() && q[i] == v as int;
        assert(p[i] == v);
    }
}

/// Stable order is unique: two stable orders of the same keys are equal.
pub proof fn lemma_stable_order_unique(keys: Seq<Seq<char>>, p: Seq<usize>, q: Seq<usize>)
    requires
        is_stable_order(keys, p),
        is_stable_order(keys, q),
    ensures
        p == q,
{
    lemma_stable_order_no_duplicates(keys, p);
    lemma_stable_order_no_duplicates(keys, q);
    lemma_covers_all_indices(p, keys.len());
    lemma_covers_all_indices(q, keys.len());
    assert forall|k: int| 0 <= k < p.len() implies p[k] == q[k] by {
        if exists|k0: int| 0 <= k0 < p.len() && p[k0] != q[k0] {
            // the first position where they differ
            let k0 = choose|k0: int| 0 <= k0 < p.len() && p[k0] != q[k0];
            let first = first_difference(p, q, k0);
            let a = p[first];
            let b = q[first];
            assert(q.contains(a));
            assert(p.contains(b));
            let l = choose|l: int| 0 <= l < q.len() && q[l] == a;
            let m = choose|m: int| 0 <= m < p.len() && p[m] == b;
            if l < first {
                assert(p[l] == q[l]);
            }
            if m < first {
                assert(p[m] == q[m]);
            }
            assert(l > first && m > first);
            assert(stably_before(keys, b as int, a as int));
            assert(stably_before(keys, a as int, b as int));
            if lex_lt(keys[a as int], keys[b as int]) {
                lemma_lex_transitive(keys[a as int], keys[b as int], keys[a as int]);
                lemma_lex_irreflexive(keys[a as int]);
            } else if lex_lt(keys[b as int], keys[a as int]) {
                lemma_lex_irreflexive(keys[a as int]);
            }
        }
    }
    assert(p =~= q);
}

/// The first position at or before `k` where `p` and `q` differ.
proof fn first_difference(p: Seq<usize>, q: Seq<usize>, k: int) -> (f: int)
    requires
        0 <= k < p.len(),
        p.len() == q.len(),
        p[k] != q[k],
    ensures
        0 <= f <= k,
        p[f] != q[f],
        forall|i: int| 0 <= i < f ==> p[i] == q[i],
    decreases k,
{
    if exists|i: int| 0 <= i < k && p[i] != q[i] {
        let i = choose|i: int| 0 <= i < k && p[i] != q[i];
        first_difference(p, q, i)
    } else {
        k
    }
}

/// The indices `0..keys.len()` in stable order of their keys (insertion
/// sort; equal keys keep their original relative order).
pub fn stable_order(keys: &Vec<Vec<char>>) -> (p: Vec<usize>)
    ensures
        is_stable_order(keys@.map_values(|k: Vec<char>| k@), p@),
{
    let ghost ks = keys@.map_values(|k: Vec<char>| k@);
    let n = keys.len();
    let mut p: Vec<usize> = Vec::new();
    let mut j: usize = 0;
    while j < n
        invariant
            n == keys.len(),
            ks == keys@.map_values(|k: Vec<char>| k@),
            j <= n,
            p.len() == j,
            forall|k: int| 0 <= k < p.len() ==> (#[trigger] p@[k]) < j,
            forall|k: int, l: int|
                0 <= k < l < p.len() ==> stably_before(
                    ks,
                    #[trigger] p@[k] as int,
                    #[trigger] p@[l] as int,
                ),
        decreases n - j,
    {
        let mut pos: usize = 0;
        while pos < p.len() && !chars_lt(&keys[j], &keys[p[pos]])
            invariant
                n == keys.len(),
                ks == keys@.map_values(|k: Vec<char>| k@),
                j < n,
                p.len() == j,
                pos <= p.len(),
                forall|k: int| 0 <= k < p.len() ==> (#[trigger] p@[k]) < j,
                forall|m: int| 0 <= m < pos ==> !lex_lt(ks[j as int], ks[#[trigger] p@[m] as int]),
            decreases p.len() - pos,
        {
            pos = pos + 1;
        }
        let ghost old_p = p@;
        proof {
            // every entry from `pos` on has a key strictly above key j
            assert forall|m: int| pos <= m < old_p.len() implies lex_lt(
                ks[j as int],
                ks[#[trigger] old_p[m] as int],
            ) by {
                if m > pos {
                    assert(stably_before(ks, old_p[pos as int] as int, old_p[m] as int));
                    if lex_lt(ks[old_p[pos as int] as int], ks[old_p[m] as int]) {
                        lemma_lex_transitive(
                            ks[j as int],
                            ks[old_p[pos as int] as int],
                            ks[old_p[m] as int],
                        );
                    }
                }
            }
            // every entry before `pos` has a key at most key j
            assert forall|m: int| 0 <= m < pos implies lex_le(
                ks[#[trigger] old_p[m] as int],
                ks[j as int],
            ) by {
                lemma_lex_total(ks[old_p[m] as int], ks[j as int]);
            }
        }
        p.insert(pos, j);
        proof {
            assert forall|k: int, l: int| 0 <= k < l < p.len() implies stably_before(
                ks,
                #[trigger] p@[k] as int,
                #[trigger] p@[l] as int,
            ) by {
                if l < pos {
                    assert(p@[k] == old_p[k] && p@[l] == old_p[l]);
                } else if l == pos {
                    assert(p@[k] == old_p[k]);
                    assert(lex_le(ks[old_p[k] as int], ks[j as int]));
                } else if k == pos {
                    assert(p@[l] == old_p[l - 1]);
                    assert(lex_lt(ks[j as int], ks[old_p[l - 1] as int]));
                } else if k < pos {
                    assert(p@[k] == old_p[k] && p@[l] == old_p[l - 1]);
                } else {
                    assert(p@[k] == old_p[k - 1] && p@[l] == old_p[l - 1]);
                }
            }
        }
        j = j + 1;
    }
    p
}

} // verus!

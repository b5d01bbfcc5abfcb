//! Stable ordering of items by integer keys.
use vstd::prelude::*;

verus! {

/// `p` lists each of `0..n` exactly once.
pub open spec fn is_index_permutation(p: Seq<usize>, n: nat) -> bool {
    &&& p.len() == n
    &&& forall|i: int| 0 <= i < n ==> (#[trigger] p[i]) < n
    &&& forall|i: int, j: int| 0 <= i < j < n ==> p[i] != p[j]
}

/// `p` visits the keys in ascending order, and items of equal key in the
/// order in which they stand.
pub open spec fn stably_sorted_by(keys: Seq<i64>, p: Seq<usize>) -> bool {
    forall|i: int, j: int|
        0 <= i < j < p.len() ==> {
            ||| keys[p[i] as int] < keys[p[j] as int]
            ||| (keys[p[i] as int] == keys[p[j] as int] && p[i] < p[j])
        }
}

/// The positions of `keys` in ascending order of key; positions of equal key
/// keep their order.
pub fn stable_order(keys: &Vec<i64>) -> (p: Vec<usize>)
    ensures
        is_index_permutation(p@, keys@.len()),
        stably_sorted_by(keys@, p@),
{
    let mut p: Vec<usize> = Vec::new();
    let mut k: usize = 0;
    while k < keys.len()
        invariant
            k <= keys@.len(),
            is_index_permutation(p@, k as nat),
            stably_sorted_by(keys@, p@),
        decreases keys@.len() - k,
    {
        let key = keys[k];
        let mut pos: usize = p.len();
        while pos > 0 && keys[p[pos - 1]] > key
            invariant
                pos <= p@.len(),
                p@.len() == k,
                k < keys@.len(),
                key == keys@[k as int],
                is_index_permutation(p@, k as nat),
                stably_sorted_by(keys@, p@),
                forall|j: int| pos <= j < p@.len() ==> keys@[#[trigger] p@[j] as int] > key,
            decreases pos,
        {
            pos = pos - 1;
        }
        let ghost before = p@;
        proof {
            assert forall|j: int| 0 <= j < pos implies keys@[#[trigger] before[j] as int] <= key by {
                if j < pos - 1 {
                    assert(keys@[before[j] as int] <= keys@[before[pos - 1] as int]);
                }
            }
        }
        p.insert(pos, k);
        proof {
            assert forall|i: int, j: int| 0 <= i < j < p@.len() implies {
                ||| keys@[p@[i] as int] < keys@[p@[j] as int]
                ||| (keys@[p@[i] as int] == keys@[p@[j] as int] && p@[i] < p@[j])
            } by {
                if j < pos {
                    assert(p@[i] == before[i] && p@[j] == before[j]);
                } else if j == pos {
                    assert(p@[i] == before[i]);
                } else if i == pos {
                    assert(p@[j] == before[j - 1]);
                } else if i < pos {
                    assert(p@[i] == before[i] && p@[j] == before[j - 1]);
                } else {
                    assert(p@[i] == before[i - 1] && p@[j] == before[j - 1]);
                }
            }
            assert forall|i: int, j: int| 0 <= i < j < k + 1 implies p@[i] != p@[j] by {
                if j < pos {
                } else if j == pos {
                    assert(p@[i] == before[i]);
                } else if i == pos {
                    assert(p@[j] == before[j - 1]);
                } else if i < pos {
                    assert(p@[i] == before[i] && p@[j] == before[j - 1]);
                } else {
                    assert(p@[i] == before[i - 1] && p@[j] == before[j - 1]);
                }
            }
            assert forall|i: int| 0 <= i < k + 1 implies (#[trigger] p@[i]) < k + 1 by {
                if i < pos {
                    assert(p@[i] == before[i]);
                } else if i > pos {
                    assert(p@[i] == before[i - 1]);
                }
            }
        }
        k = k + 1;
    }
    p
}

} // verus!

//! Stable ordering of indexes by keys.
use vstd::prelude::*;

verus! {

/// Whether index `a` comes before index `b` when ordering by `keys`, ties broken by the index
/// (the order a stable sort gives).
pub open spec fn key_before(keys: Seq<usize>, a: usize, b: usize) -> bool {
    keys[a as int] < keys[b as int] || (keys[a as int] == keys[b as int] && a < b)
}

/// Whether `perm` lists every index of `0..n` exactly once.
pub open spec fn is_permutation(perm: Seq<usize>, n: nat) -> bool {
    &&& perm.len() == n
    &&& forall|i: int| 0 <= i < n ==> #[trigger] perm[i] < n
    &&& forall|i: int, j: int| 0 <= i < j < n ==> perm[i] != perm[j]
}

/// Whether `perm` is the stable ordering of the indexes of `keys` by key.
pub open spec fn is_stable_argsort(keys: Seq<usize>, perm: Seq<usize>) -> bool {
    &&& is_permutation(perm, keys.len())
    &&& forall|i: int, j: int|
        0 <= i < j < perm.len() ==> key_before(keys, #[trigger] perm[i], #[trigger] perm[j])
}

/// There is only one stable ordering of indexes by key.
pub proof fn stable_argsort_is_unique(keys: Seq<usize>, p: Seq<usize>, q: Seq<usize>)
    requires
        is_stable_argsort(keys, p),
        is_stable_argsort(keys, q),
    ensures
        p == q,
    decreases keys.len(),
{
    lemma_argsort_unique_from(keys, p, q, 0);
}

proof fn lemma_argsort_unique_from(keys: Seq<usize>, p: Seq<usize>, q: Seq<usize>, k: int)
    requires
        is_stable_argsort(keys, p),
        is_stable_argsort(keys, q),
        0 <= k <= keys.len(),
        forall|i: int| 0 <= i < k ==> p[i] == q[i],
    ensures
        forall|i: int| 0 <= i < keys.len() ==> p[i] == q[i],
    decreases keys.len() - k,
{
    let n = keys.len() as int;
    if k < n {
        // p[k] is the least index (in key order) not among p[0..k]; the same holds of q[k].
        let a = p[k];
        let b = q[k];
        if a != b {
            // b occurs in p at some position m >= k, and a occurs in q at some position l >= k.
            let m = lemma_find(p, b, n);
            let l = lemma_find(q, a, n);
        }
        lemma_argsort_unique_from(keys, p, q, k + 1);
    }
}

/// Every index of `0..n` occurs in a permutation of `0..n`.
proof fn lemma_find(perm: Seq<usize>, x: usize, n: int) -> (m: int)
    requires
        is_permutation(perm, n as nat),
        x < n,
    ensures
        0 <= m < n,
        perm[m] == x,
{
    lemma_permutation_covers(perm, n);
    assert(perm.contains(x));
    choose|m: int| 0 <= m < perm.len() && perm[m] == x
}

proof fn lemma_permutation_covers(perm: Seq<usize>, n: int)
    requires
        n >= 0,
        is_permutation(perm, n as nat),
    ensures
        forall|x: usize| x < n ==> #[trigger] perm.contains(x),
{
    let ip = perm.map_values(|v: usize| v as int);
    let s = ip.to_set();
    let r = Set::new(|x: int| 0 <= x < n);
    assert(s.subset_of(r)) by {
        assert forall|x: int| s.contains(x) implies r.contains(x) by {
            let m = choose|m: int| 0 <= m < ip.len() && ip[m] == x;
        }
    }
    assert(ip.no_duplicates()) by {
        assert forall|i: int, j: int|
            0 <= i < ip.len() && 0 <= j < ip.len() && i != j implies ip[i] != ip[j] by {
        }
    }
    ip.unique_seq_to_set();
    lemma_range_set_len(n);
    vstd::set_lib::lemma_len_subset(s, r);
    if s != r {
        assert(exists|x: int| r.contains(x) && !s.contains(x)) by {
            if !(exists|x: int| r.contains(x) && !s.contains(x)) {
                assert(s =~= r);
            }
        }
        let x = choose|x: int| r.contains(x) && !s.contains(x);
        vstd::set_lib::lemma_len_subset(s, r.remove(x));
    }
    assert forall|x: usize| x < n implies #[trigger] perm.contains(x) by {
        assert(s.contains(x as int));
        let m = choose|m: int| 0 <= m < ip.len() && ip[m] == x as int;
    }
}

proof fn lemma_range_set_len(n: int)
    requires
        n >= 0,
    ensures
        Set::new(|x: int| 0 <= x < n).finite(),
        Set::new(|x: int| 0 <= x < n).len() == n,
    decreases n,
{
    if n == 0 {
        assert(Set::new(|x: int| 0 <= x < n) =~= Set::<int>::empty());
    } else {
        lemma_range_set_len(n - 1);
        assert(Set::new(|x: int| 0 <= x < n) =~= Set::new(|x: int| 0 <= x < n - 1).insert(n - 1));
    }
}

/// The indexes of `keys` ordered by key, equal keys in the order in which they appear.
pub fn stable_argsort(keys: &[usize]) -> (perm: Vec<usize>)
    ensures
        is_stable_argsort(keys@, perm@),
{
    let n = keys.len();
    let mut perm: Vec<usize> = Vec::new();
    let mut i: usize = 0;
    while i < n
        invariant
            n == keys.len(),
            i <= n,
            perm@.len() == i,
            forall|k: int| 0 <= k < i ==> #[trigger] perm@[k] < i,
            forall|k: int, l: int| 0 <= k < l < i ==> perm@[k] != perm@[l],
            forall|k: int, l: int|
                0 <= k < l < i ==> key_before(keys@, #[trigger] perm@[k], #[trigger] perm@[l]),
        decreases n - i,
    {
        // the first position whose key is larger than that of `i`
        let mut p: usize = 0;
        while p < i && keys[perm[p]] <= keys[i]
            invariant
                n == keys.len(),
                i < n,
                p <= i,
                perm@.len() == i,
                forall|k: int| 0 <= k < i ==> #[trigger] perm@[k] < i,
                forall|k: int| 0 <= k < p ==> keys@[#[trigger] perm@[k] as int] <= keys@[i as int],
            decreases i - p,
        {
            p += 1;
        }
        perm.insert(p, i);
        proof {
            assert forall|k: int| p < k <= i implies keys@[i as int] < keys@[#[trigger] perm@[k] as int] by {
            }
            assert forall|k: int, l: int| 0 <= k < l < i + 1 implies key_before(
                keys@,
                #[trigger] perm@[k],
                #[trigger] perm@[l],
            ) by {
            }
        }
        i += 1;
    }
    perm
}

} // verus!

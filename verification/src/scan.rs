//! Finding the first occurrence of a value in a sequence.

use vstd::prelude::*;

verus! {

/// The index of the first element of `s` equal to `x`, or `s.len()` if there is none.
pub open spec fn first_index<T>(s: Seq<T>, x: T) -> int
    decreases s.len(),
{
    if s.len() == 0 {
        0
    } else if s[0] == x {
        0
    } else {
        1 + first_index(s.drop_first(), x)
    }
}

/// The first index lies within the sequence or is its length; where it lies
/// within, the value stands there and nowhere before; and it lies within
/// exactly where the sequence holds the value.
pub proof fn lemma_first_index<T>(s: Seq<T>, x: T)
    ensures
        0 <= first_index(s, x) <= s.len(),
        first_index(s, x) < s.len() ==> s[first_index(s, x)] == x,
        forall|j: int| 0 <= j < first_index(s, x) ==> s[j] != x,
        first_index(s, x) < s.len() <==> s.contains(x),
    decreases s.len(),
{
    if s.len() == 0 {
    } else if s[0] == x {
    } else {
        let t = s.drop_first();
        lemma_first_index(t, x);
        assert forall|j: int| 0 <= j < first_index(s, x) implies s[j] != x by {
            if j > 0 {
                assert(s[j] == t[j - 1]);
            }
        }
        if s.contains(x) {
            let k = choose|k: int| 0 <= k < s.len() && s[k] == x;
            assert(t[k - 1] == x);
        }
        if first_index(t, x) < t.len() {
            assert(s[first_index(t, x) + 1] == x);
        }
    }
}


/// Where `x` stands at `k` and nowhere before it, `k` is its first index.
pub proof fn lemma_first_index_at<T>(s: Seq<T>, x: T, k: int)
    requires
        0 <= k < s.len(),
        s[k] == x,
        forall|j: int| 0 <= j < k ==> s[j] != x,
    ensures
        first_index(s, x) == k,
{
    lemma_first_index(s, x);
    assert(s.contains(x));
}

/// Where `x` does not occur, its first index is the length.
pub proof fn lemma_first_index_absent<T>(s: Seq<T>, x: T)
    requires
        forall|j: int| 0 <= j < s.len() ==> s[j] != x,
    ensures
        first_index(s, x) == s.len(),
{
    lemma_first_index(s, x);
}

/// Appending to a sequence does not move the first index of a value that it holds.
pub proof fn lemma_first_index_push<T>(s: Seq<T>, y: T, x: T)
    requires
        s.contains(x),
    ensures
        first_index(s.push(y), x) == first_index(s, x),
{
    lemma_first_index(s, x);
    let k = first_index(s, x);
    assert(s.push(y)[k] == x);
    assert forall|j: int| 0 <= j < k implies s.push(y)[j] != x by {
        assert(s.push(y)[j] == s[j]);
    }
    lemma_first_index_at(s.push(y), x, k);
}

/// The index of the first element equal to `x`, or the length if there is none.
pub fn position(v: &Vec<usize>, x: usize) -> (at: usize)
    ensures
        at == first_index(v@, x),
{
    let mut i: usize = 0;
    while i < v.len()
        invariant
            0 <= i <= v.len(),
            forall|j: int| 0 <= j < i ==> v[j] != x,
        decreases v.len() - i,
    {
        if v[i] == x {
            proof {
                lemma_first_index(v@, x);
            }
            return i;
        }
        i += 1;
    }
    proof {
        lemma_first_index(v@, x);
    }
    i
}

} // verus!

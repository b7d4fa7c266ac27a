//! Lists of named things, searched by name.

use vstd::prelude::*;

verus! {

/// Whether some pair has the given key.
pub open spec fn has_key<T>(pairs: Seq<(Seq<char>, T)>, key: Seq<char>) -> bool {
    exists|i: int| 0 <= i < pairs.len() && (#[trigger] pairs[i]).0 == key
}

/// The index of the first pair with the given key, among the first `n`.
pub open spec fn find_key<T>(pairs: Seq<(Seq<char>, T)>, key: Seq<char>, n: nat) -> Option<int>
    decreases n,
{
    if n == 0 || n > pairs.len() {
        None
    } else {
        match find_key(pairs, key, (n - 1) as nat) {
            Some(i) => Some(i),
            None => if pairs[n - 1].0 == key {
                Some(n - 1)
            } else {
                None
            },
        }
    }
}

/// What `find_key` finds: the first index with the key, if there is one.
pub proof fn lemma_find_key<T>(pairs: Seq<(Seq<char>, T)>, key: Seq<char>, n: nat)
    requires
        n <= pairs.len(),
    ensures
        match find_key(pairs, key, n) {
            Some(j) => 0 <= j < n && pairs[j].0 == key && forall|i: int|
                0 <= i < j ==> (#[trigger] pairs[i]).0 != key,
            None => forall|i: int| 0 <= i < n ==> (#[trigger] pairs[i]).0 != key,
        },
    decreases n,
{
    if n > 0 {
        lemma_find_key(pairs, key, (n - 1) as nat);
    }
}

/// A key is found exactly when some pair has it.
pub proof fn lemma_find_key_has_key<T>(pairs: Seq<(Seq<char>, T)>, key: Seq<char>)
    ensures
        find_key(pairs, key, pairs.len()) is Some <==> has_key(pairs, key),
{
    lemma_find_key(pairs, key, pairs.len());
}

/// Once a key is found among the first `n` pairs, it is found at the same
/// place among any longer beginning.
pub proof fn lemma_find_key_more<T>(pairs: Seq<(Seq<char>, T)>, key: Seq<char>, n: nat, m: nat)
    requires
        n <= m <= pairs.len(),
        find_key(pairs, key, n) is Some,
    ensures
        find_key(pairs, key, m) == find_key(pairs, key, n),
    decreases m,
{
    if m > n {
        lemma_find_key_more(pairs, key, n, (m - 1) as nat);
    }
}

} // verus!

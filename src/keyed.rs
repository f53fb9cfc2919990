//! Looking texcoords up by a key of the caller's choosing.

use std::collections::BTreeMap;

use vstd::prelude::*;

use crate::options::Texcoord;

verus! {

broadcast use vstd::laws_cmp::group_laws_cmp;

/// The mapping built from the first `n` entries: entry `i`'s texcoord under
/// `keys[i]`, a later entry replacing an earlier one with the same key.
pub open spec fn keyed_texcoords(keys: Seq<u64>, texcoords: Seq<Texcoord>, n: nat) -> Map<
    u64,
    Texcoord,
>
    decreases n,
{
    if n == 0 {
        Map::empty()
    } else {
        keyed_texcoords(keys, texcoords, (n - 1) as nat).insert(
            keys[n - 1],
            texcoords[n - 1],
        )
    }
}

/// The keys of the mapping are exactly the keys of the entries; where no two
/// entries share a key, each key maps to its own entry's texcoord.
pub proof fn lemma_keyed_texcoords(keys: Seq<u64>, texcoords: Seq<Texcoord>, n: nat)
    requires
        n <= keys.len(),
        n <= texcoords.len(),
    ensures
        forall|i: int| 0 <= i < n ==> keyed_texcoords(keys, texcoords, n).contains_key(#[trigger] keys[i]),
        forall|k: u64|
            #[trigger] keyed_texcoords(keys, texcoords, n).contains_key(k) ==> exists|i: int|
                0 <= i < n && keys[i] == k,
        (forall|i: int, j: int| 0 <= i < j < n ==> keys[i] != keys[j]) ==> forall|i: int|
            0 <= i < n ==> keyed_texcoords(keys, texcoords, n)[#[trigger] keys[i]] == texcoords[i],
    decreases n,
{
    if n > 0 {
        let m = (n - 1) as nat;
        lemma_keyed_texcoords(keys, texcoords, m);
        assert forall|k: u64| #[trigger] keyed_texcoords(keys, texcoords, n).contains_key(k) implies exists|
            i: int,
        |
            0 <= i < n && keys[i] == k by {
            if k != keys[n - 1] {
                assert(keyed_texcoords(keys, texcoords, m).contains_key(k));
            }
        }
    }
}

/// Each entry's texcoord under its key, `keys[i]` being entry `i`'s key; where two
/// entries share a key the later one is kept.
pub fn texcoords_by_key(keys: &[u64], texcoords: &[Texcoord]) -> (r: BTreeMap<u64, Texcoord>)
    requires
        keys@.len() == texcoords@.len(),
    ensures
        r@ == keyed_texcoords(keys@, texcoords@, keys@.len()),
{
    let mut r: BTreeMap<u64, Texcoord> = BTreeMap::new();
    let mut i: usize = 0;
    while i < keys.len()
        invariant
            i <= keys@.len(),
            keys@.len() == texcoords@.len(),
            r@ == keyed_texcoords(keys@, texcoords@, i as nat),
        decreases keys@.len() - i,
    {
        r.insert(keys[i], texcoords[i]);
        i = i + 1;
    }
    r
}

} // verus!

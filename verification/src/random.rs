use vstd::prelude::*;
use rand::Rng;
use rand::SeedableRng;
use rand::rngs::StdRng;
use rand::seq::SliceRandom;

verus! {

/// Shuffles `v` in place with `rand::seq::SliceRandom::shuffle` on the thread-local
/// generator. The outside function swaps elements only, so the result holds the
/// same elements with the same multiplicities; which permutation comes out is
/// left to chance and not stated.
#[verifier::external_body]
pub(crate) fn shuffle_ids(v: &mut Vec<u128>)
    ensures
        final(v)@.len() == old(v)@.len(),
        final(v)@.to_multiset() == old(v)@.to_multiset(),
{
    v.shuffle(&mut rand::thread_rng());
}

/// A fair coin from `rand::random::<bool>()`; its value is left to chance.
#[verifier::external_body]
pub(crate) fn coin_flip() -> (b: bool)
{
    rand::random::<bool>()
}

/// Thirty-two bytes from `rand::Rng::gen` on the thread-local generator, as a
/// vector; their values are left to chance.
#[verifier::external_body]
pub(crate) fn random_key() -> (k: Vec<u8>)
    ensures
        k@.len() == 32,
{
    let key: [u8; 32] = rand::thread_rng().gen();
    key.to_vec()
}

/// Whether `s` lists each index below `n` exactly once.
pub open spec fn is_index_permutation(s: Seq<usize>, n: nat) -> bool {
    &&& s.len() == n
    &&& forall|i: int| 0 <= i < s.len() ==> #[trigger] s[i] < n
    &&& forall|i: int, j: int| 0 <= i < s.len() && 0 <= j < s.len() && i != j ==> #[trigger] s[i] != #[trigger] s[j]
}

/// The two orders that one generator seeded with 32 zero bytes gives when it
/// shuffles the indices below `n` and then the indices below 3.
pub uninterp spec fn seeded_draw_orders(n: nat) -> (Seq<usize>, Seq<usize>);

/// Shuffles the indices below `n`, then those below 3, with
/// `rand::seq::SliceRandom::shuffle` on one `rand::rngs::StdRng` made by
/// `SeedableRng::from_seed` from 32 zero bytes. A generator with a fixed seed
/// gives the same orders for the same `n`, which `seeded_draw_orders` names;
/// the shuffle only swaps elements, so each order lists every index once.
#[verifier::external_body]
pub(crate) fn seeded_orders(n: usize) -> (r: (Vec<usize>, Vec<usize>))
    ensures
        (r.0@, r.1@) == seeded_draw_orders(n as nat),
        is_index_permutation(r.0@, n as nat),
        is_index_permutation(r.1@, 3),
{
    let mut rng: StdRng = SeedableRng::from_seed([0; 32]);
    let mut teams: Vec<usize> = (0..n).collect();
    teams.shuffle(&mut rng);
    let mut roles: Vec<usize> = vec![0, 1, 2];
    roles.shuffle(&mut rng);
    (teams, roles)
}

/// An index permutation lists every index below its length.
pub(crate) proof fn lemma_index_permutation_covers(s: Seq<usize>, n: nat, t: usize)
    requires
        is_index_permutation(s, n),
        t < n,
    ensures
        exists|i: int| 0 <= i < s.len() && s[i] == t,
{
    broadcast use vstd::set::group_set_axioms, vstd::seq_lib::group_seq_properties;

    let is = s.map_values(|x: usize| x as int);
    assert(is.no_duplicates()) by {
        assert forall|i: int, j: int| 0 <= i < is.len() && 0 <= j < is.len() && i != j implies is[i] != is[j] by {
            assert(s[i] != s[j]);
        }
    }
    is.unique_seq_to_set();
    let range = vstd::set_lib::set_int_range(0, n as int);
    vstd::set_lib::lemma_int_range(0, n as int);
    assert(is.to_set().subset_of(range)) by {
        assert forall|x: int| is.to_set().contains(x) implies range.contains(x) by {
            let i = choose|i: int| 0 <= i < is.len() && is[i] == x;
            assert(s[i] < n);
        }
    }
    vstd::set_lib::lemma_subset_equality(is.to_set(), range);
    assert(range.contains(t as int));
    assert(is.to_set().contains(t as int));
    let i = choose|i: int| 0 <= i < is.len() && is[i] == t as int;
    assert(s[i] == t);
}

} // verus!

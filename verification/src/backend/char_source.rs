use rand::rngs::{StdRng, SysRng};
use rand::seq::IndexedRandom;
use rand::SeedableRng;
use vstd::prelude::*;

verus! {

/// rand's `StdRng`, held opaque: its state is not visible to the proofs.
#[verifier::external_type_specification]
#[verifier::external_body]
pub struct ExStdRng(StdRng);

/// The index that `IndexedRandom::choose` (rand) draws from a slice of `len`
/// elements with a `StdRng` made by `StdRng::seed_from_u64(seed)`, after that
/// generator drew from slices of the lengths `earlier`, in order. rand's
/// ChaCha12 stream and its sampling of indices below 2^32 do not depend on
/// the machine, so with this crate's rand the index is a function of these
/// values alone; what it is, is not stated.
pub uninterp spec fn seeded_index(seed: u64, earlier: Seq<nat>, len: nat) -> nat;

/// A random source for drawing characters: a `StdRng`, with the seed it was
/// made from (`None` where the system seeded it) and the lengths of the
/// slices drawn from so far. Only the functions below make or change one.
pub(crate) struct CharSource {
    rng: StdRng,
    seed: Ghost<Option<u64>>,
    draws: Ghost<Seq<nat>>,
}

impl View for CharSource {
    type V = (Option<u64>, Seq<nat>);

    closed spec fn view(&self) -> (Option<u64>, Seq<nat>) {
        (self.seed@, self.draws@)
    }
}

impl CharSource {
    /// `StdRng::seed_from_u64` (rand): a generator whose output is fixed by
    /// `seed`, that has drawn nothing yet.
    #[verifier::external_body]
    pub(crate) fn seeded(seed: u64) -> (s: CharSource)
        ensures
            s@ == (Some(seed), Seq::<nat>::empty()),
    {
        CharSource { rng: StdRng::seed_from_u64(seed), seed: Ghost(Some(seed)), draws: Ghost(Seq::empty()) }
    }

    /// `StdRng::try_from_rng(&mut SysRng)` (rand): a generator seeded by the
    /// operating system, or `None` where the system gave no entropy; when that
    /// happens is not stated.
    #[verifier::external_body]
    pub(crate) fn from_system() -> (s: Option<CharSource>)
        ensures
            s matches Some(src) ==> src@ == (None::<u64>, Seq::<nat>::empty()),
    {
        match StdRng::try_from_rng(&mut SysRng) {
            Ok(rng) => Some(CharSource { rng, seed: Ghost(None), draws: Ghost(Seq::empty()) }),
            Err(_) => None,
        }
    }
}

/// `IndexedRandom::choose` (rand) on the slice of `pool`, which is not empty:
/// one of its elements. For a seeded generator, the element at the index
/// named by `seeded_index` for the seed, the earlier draws and the length of
/// `pool`. The draw is recorded in `source`.
#[verifier::external_body]
pub(crate) fn draw_char(source: &mut CharSource, pool: &Vec<char>) -> (c: Option<char>)
    requires
        pool@.len() > 0,
    ensures
        c is Some,
        c matches Some(x) ==> pool@.contains(x),
        final(source)@ == (old(source)@.0, old(source)@.1.push(pool@.len())),
        old(source)@.0 matches Some(k) ==> c == Some(
            pool@[seeded_index(k, old(source)@.1, pool@.len()) as int],
        ),
{
    let c = pool.as_slice().choose(&mut source.rng).copied();
    source.draws = Ghost(source.draws@.push(pool@.len()));
    c
}

} // verus!

//! Random draws from a generator of the `rand` crate, and the sort of edge
//! keys.
use rand::Rng;
use vstd::prelude::*;

verus! {

/// The seedable generator `rand::rngs::StdRng`, carried through unopened.
#[verifier::external_type_specification]
#[verifier::external_body]
pub struct ExStdRng(rand::rngs::StdRng);

/// Relies on `Rng::gen::<u32>`: any value may come.
#[verifier::external_body]
pub(crate) fn draw_key(rng: &mut rand::rngs::StdRng) -> (r: u32) {
    rng.gen::<u32>()
}

/// Relies on `Rng::gen_range(0..bound)`: a value below `bound`; the range must
/// not be empty, or it panics.
#[verifier::external_body]
pub(crate) fn draw_below(rng: &mut rand::rngs::StdRng, bound: u32) -> (r: u32)
    requires
        bound > 0,
    ensures
        r < bound,
{
    rng.gen_range(0..bound)
}

/// `x` comes no later than `y` in lexicographic order.
pub open spec fn lex_le(x: (u64, usize, usize), y: (u64, usize, usize)) -> bool {
    x.0 < y.0 || (x.0 == y.0 && (x.1 < y.1 || (x.1 == y.1 && x.2 <= y.2)))
}

/// The entries of `v` come in lexicographic order.
pub open spec fn lex_sorted(v: Seq<(u64, usize, usize)>) -> bool {
    forall|i: int, j: int| 0 <= i < j < v.len() ==> lex_le(#[trigger] v[i], #[trigger] v[j])
}

/// Relies on `slice::sort_unstable` on tuples: the same entries, ordered
/// lexicographically.
#[verifier::external_body]
pub(crate) fn sort_keyed(v: &mut Vec<(u64, usize, usize)>)
    ensures
        final(v)@.to_multiset() == old(v)@.to_multiset(),
        lex_sorted(final(v)@),
{
    v.sort_unstable();
}

} // verus!

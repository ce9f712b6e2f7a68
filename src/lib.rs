//! Permutation generation: lexicographic r-permutations, Heap's algorithm,
//! random shuffles, index transforms and the counting rules that size them.
use vstd::prelude::*;
use crate::perm::Permutation;
use crate::permute::{lex_enumeration, views};
use crate::shift::{algo_p, apply_spec, apply_transform, is_index_permutation};
use crate::text::{chars_of, string_of};

pub mod order;
mod random;
pub mod shift;
pub mod permute;
pub mod math;
pub mod iter;
pub mod perm;
pub mod util;
pub mod count;
pub mod heap;
pub mod shuffle;
pub mod set;
pub mod multi;
pub mod text;
pub mod huffman;
pub mod cycles;

verus! {

/// The views of a sequence of strings.
pub open spec fn string_views(out: Seq<String>) -> Seq<Seq<char>> {
    out.map_values(|x: String| x@)
}

/// Returns all the distinct permutations of the characters of `s`, in
/// lexicographic order from the sorted one; `None` for more than 16
/// characters or for none.
pub fn full_shuffle(s: &str) -> (r: Option<Vec<String>>)
    ensures
        r is None <==> (s@.len() > 16 || s@.len() == 0),
        r matches Some(out) ==> lex_enumeration(
            string_views(out@),
            s@,
            s@.len(),
        ),
{
    let chars = chars_of(s);
    let n = chars.len();
    if n > 16 {
        return None;
    }
    let mut p = Permutation::new(chars.as_slice());
    let all = match p.generate(n) {
        Some(all) => all,
        None => {
            return None;
        },
    };
    let ghost target = views(all@);
    let mut out: Vec<String> = Vec::new();
    let mut i: usize = 0;
    while i < all.len()
        invariant
            i <= all@.len(),
            target == views(all@),
            out@.len() == i,
            string_views(out@) == target.subrange(0, i as int),
        decreases all@.len() - i,
    {
        let t = string_of(&all[i]);
        let ghost before = out@;
        assert(target[i as int] == t@);
        out.push(t);
        i = i + 1;
        assert forall|k: int| 0 <= k < i implies string_views(out@)[k] == target.subrange(
            0,
            i as int,
        )[k] by {
            if k < i - 1 {
                assert(out@[k] == before[k]);
                assert(string_views(before)[k] == target.subrange(0, i - 1)[k]);
            }
        }
        assert(string_views(out@) =~= target.subrange(0, i as int));
    }
    assert(target.subrange(0, all@.len() as int) =~= target);
    Some(out)
}

/// Shuffles the characters of `s` by a random index permutation drawn by
/// [`algo_p`].
pub fn shuffle(s: &str) -> (r: String)
    ensures
        exists|t: Seq<usize>| #[trigger] is_index_permutation(t) && t.len() == s@.len() && r@ == apply_spec(s@, t),
{
    let chars = chars_of(s);
    let t = algo_p(chars.len());
    let shuffled = apply_transform(&chars, &t);
    let r = string_of(&shuffled);
    assert(is_index_permutation(t@));
    r
}

} // verus!

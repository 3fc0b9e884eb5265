use vstd::prelude::*;
use rand_pcg::Lcg128Xsl64;
use crate::error::SampleError;
use crate::lines::{comment_pred, eligible_pred, split_comments};
use crate::select::{is_selection, lemma_take_all_keeps_order, picked, select_indices, select_lines};
use crate::size::{resolve_size, resolve_spec, SampleSize};

verus! {

broadcast use vstd::seq_lib::group_filter_ensures;

/// The lines that take part in sampling: those that are not comments.
pub open spec fn eligible_of(lines: Seq<String>, marker: Seq<char>) -> Seq<String> {
    lines.filter(eligible_pred(marker))
}

/// A whole two-pass run over lines that can be read again: the comment lines
/// are set apart, the size is resolved against the number `n` of eligible
/// lines, `k` positions are selected, and the lines at them are returned in
/// the order of the input, after the comment lines.
pub fn sample_lines(
    lines: &Vec<String>,
    marker: &str,
    size: &SampleSize,
    rng: &mut Lcg128Xsl64,
) -> (r: Result<(Vec<String>, Vec<String>), SampleError>)
    ensures
        ({
            let eligible = eligible_of(lines@, marker@);
            let resolved = resolve_spec(*size, eligible.len() as usize);
            &&& resolved is Err ==> r == Err::<(Vec<String>, Vec<String>), SampleError>(
                resolved->Err_0,
            )
            &&& resolved matches Ok(k) ==> (r matches Ok((comments, sample)) && comments@
                == lines@.filter(comment_pred(marker@)) && exists|sel: Seq<usize>|
                is_selection(sel, eligible.len(), k as nat) && sample@ == #[trigger] picked(
                eligible,
                sel,
            ))
            &&& (resolved == Ok::<usize, SampleError>(eligible.len() as usize)) ==> (r matches Ok((
                _,
                sample,
            )) && sample@ == eligible)
            &&& (resolved == Ok::<usize, SampleError>(0)) ==> *final(rng) == *old(rng)
        }),
{
    let (comments, eligible) = split_comments(lines, marker);
    let n = eligible.len();
    let k = match resolve_size(size, n) {
        Ok(k) => k,
        Err(e) => {
            return Err(e);
        },
    };
    let selection = select_indices(n, k, rng);
    let sample = select_lines(&eligible, &selection);
    proof {
        if k == n {
            lemma_take_all_keeps_order(eligible@, selection@);
        }
    }
    Ok((comments, sample))
}

} // verus!

//! The decisions of a run: whether the tagger is needed, which pairs are
//! renamed and in what order, and what follows each rename.
use vstd::prelude::*;

use crate::names::{pair_views, pairs_longest_first, rename_pairs, select_renames, views, lemma_renames_longest_first, longest_first};
use crate::symbols::{kind_names, symbol_names, Tag};

verus! {

/// What a run does next.
#[derive(Debug, Clone, Copy, PartialEq, Eq, Structural)]
pub enum Step {
    /// Hand the selected files to the tagger.
    RunTagger,
    /// Report that there are no names to fix, and end successfully.
    NothingToFix,
    /// Rename the pair at this index.
    Rename(usize),
    /// Every pair has been attempted; end successfully.
    Done,
}

/// The step after file selection: the tagger runs only when some file was
/// selected.
pub fn after_file_selection(n_files: usize) -> (r: Step)
    ensures
        r == (if n_files == 0 {
            Step::NothingToFix
        } else {
            Step::RunTagger
        }),
{
    if n_files == 0 {
        Step::NothingToFix
    } else {
        Step::RunTagger
    }
}

/// The step once the rename pairs are known: the first pair, or nothing to
/// fix.
pub fn after_candidates(n_pairs: usize) -> (r: Step)
    ensures
        r == (if n_pairs == 0 {
            Step::NothingToFix
        } else {
            Step::Rename(0)
        }),
{
    if n_pairs == 0 {
        Step::NothingToFix
    } else {
        Step::Rename(0)
    }
}

/// The step that follows a rename, whether or not it succeeded.
pub open spec fn next_after_rename(index: int, n_pairs: int) -> Step {
    if index + 1 < n_pairs {
        Step::Rename((index + 1) as usize)
    } else {
        Step::Done
    }
}

/// The step after the rename of pair `index` of `n_pairs`: the next pair,
/// or the end of the run after the last one. A failed rename is skipped, not
/// fatal.
pub fn after_rename(index: usize, n_pairs: usize, succeeded: bool) -> (r: Step)
    requires
        index < n_pairs,
    ensures
        r == next_after_rename(index as int, n_pairs as int),
{
    if index + 1 < n_pairs {
        Step::Rename(index + 1)
    } else {
        Step::Done
    }
}

/// A failed rename leads to the same step as a successful one: the pair
/// after it is still attempted, and the run still ends in success.
pub proof fn lemma_failed_rename_moves_on(index: usize, n_pairs: usize)
    requires
        index < n_pairs,
    ensures
        next_after_rename(index as int, n_pairs as int) != Step::NothingToFix,
        next_after_rename(index as int, n_pairs as int) != Step::RunTagger,
        index + 1 < n_pairs ==> next_after_rename(index as int, n_pairs as int) == Step::Rename(
            (index + 1) as usize,
        ),
        index + 1 == n_pairs ==> next_after_rename(index as int, n_pairs as int) == Step::Done,
{
}

/// The rename pairs for the tagger's records: the names of the accepted
/// kinds, longest first, each paired with its snake_case target when that
/// differs and the name holds an uppercase ASCII letter.
pub fn plan_renames(tags: Vec<Tag>) -> (r: Vec<(String, String)>)
    ensures
        exists|names: Seq<String>|
            names.to_multiset() == kind_names(tags@).to_multiset() && longest_first(views(names))
                && pair_views(r@) == rename_pairs(views(names)),
        pairs_longest_first(pair_views(r@)),
{
    let names = symbol_names(tags);
    let ghost sorted = names@;
    let r = select_renames(names);
    proof {
        lemma_renames_longest_first(views(sorted));
    }
    r
}

} // verus!

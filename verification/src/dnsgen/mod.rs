//! The mutations: each maps one decomposed domain and the word list to the
//! candidate names it gives rise to.

use crate::domain::DomainComponents;
use crate::text::{all_end_with, dot, join};
use vstd::prelude::*;

pub mod dash;
pub mod numbers;
pub mod permute;
pub mod swap;

pub use dash::dash_transform;
pub use numbers::numbers_transform;
pub use permute::permute_words_transform;
pub use swap::swap_word_transform;

verus! {

/// One of the four mutations, as a value that a stage can be bound to.
#[derive(Clone, Copy, Debug, PartialEq, Eq, Structural)]
pub enum Mutation {
    /// A word among the subdomain labels gives way to each other word.
    Swap,
    /// Each word becomes a label of its own at each place before the root.
    Permute,
    /// Each run of digits among the subdomain labels moves down and up.
    Numbers,
    /// Each word is merged into each subdomain label.
    Dash,
}

impl Mutation {
    /// The names that this mutation makes of a domain with the labels
    /// `labels`, in the order in which it makes them.
    pub open spec fn outputs(
        self,
        labels: Seq<Seq<char>>,
        words: Seq<Seq<char>>,
    ) -> Seq<Seq<char>> {
        match self {
            Mutation::Swap => swap::swap_outputs(labels, words),
            Mutation::Permute => permute::permute_outputs(labels, words),
            Mutation::Numbers => match numbers::regex_find_all(
                numbers::digit_pattern(),
                join(labels.drop_last(), dot()),
            ) {
                Some(runs) => numbers::numbers_outputs(labels, runs),
                None => Seq::empty(),
            },
            Mutation::Dash => dash::dash_outputs(labels, words),
        }
    }

    /// Runs this mutation on one domain.
    pub fn generate(
        &self,
        domain_components: &DomainComponents,
        words: &[&str],
    ) -> (r: Vec<String>)
        ensures
            r.deep_view() == self.outputs(domain_components@, words.deep_view()),
    {
        match self {
            Mutation::Swap => swap_word_transform(domain_components, words),
            Mutation::Permute => permute_words_transform(domain_components, words),
            Mutation::Numbers => numbers_transform(domain_components, words),
            Mutation::Dash => dash_transform(domain_components, words),
        }
    }
}

/// No mutation changes the root: every name that any of them makes of a
/// domain ends with a dot and the root of that domain.
pub proof fn lemma_root_kept(mutation: Mutation, labels: Seq<Seq<char>>, words: Seq<Seq<char>>)
    requires
        labels.len() >= 1,
    ensures
        all_end_with(mutation.outputs(labels, words), dot() + labels.last()),
{
    match mutation {
        Mutation::Swap => swap::lemma_swap_keeps_root(labels, words),
        Mutation::Permute => permute::lemma_permute_keeps_root(labels, words),
        Mutation::Numbers => match numbers::regex_find_all(
            numbers::digit_pattern(),
            join(labels.drop_last(), dot()),
        ) {
            Some(runs) => numbers::lemma_numbers_keeps_root(labels, runs),
            None => {},
        },
        Mutation::Dash => dash::lemma_dash_keeps_root(labels, words),
    }
}

} // verus!

//! Permute: each word is put in as a label of its own, at every place before
//! the root.

use crate::domain::DomainComponents;
use crate::text::{all_end_with, dot, join, join_strs, lemma_join_ends};
use vstd::prelude::*;

verus! {

/// The names made with `word` as a new label: one for each place before a
/// label of `labels`, first place first. No name has the word after the last
/// label, which is the root.
pub open spec fn permute_word(labels: Seq<Seq<char>>, word: Seq<char>) -> Seq<Seq<char>> {
    Seq::new(labels.len(), |idx: int| join(labels.insert(idx, word), dot()))
}

/// The names that the permute mutation makes of a domain with the labels
/// `labels`: those of the first word, then those of the second, and so on.
pub open spec fn permute_outputs(labels: Seq<Seq<char>>, words: Seq<Seq<char>>) -> Seq<Seq<char>>
    decreases words.len(),
{
    if words.len() == 0 {
        Seq::empty()
    } else {
        permute_outputs(labels, words.drop_last()) + permute_word(labels, words.last())
    }
}

fn insert_at<'a>(items: &[&'a str], idx: usize, item: &'a str) -> (r: Vec<&'a str>)
    requires
        idx <= items@.len(),
    ensures
        r.deep_view() == items.deep_view().insert(idx as int, item@),
{
    let n: usize = items.len();
    let mut out: Vec<&'a str> = Vec::new();
    let mut i: usize = 0;
    while i < idx
        invariant
            n == items@.len(),
            idx <= n,
            i <= idx,
            out@.len() == i,
            forall|k: int| 0 <= k < i ==> out@[k]@ == items@[k]@,
        decreases idx - i,
    {
        out.push(items[i]);
        i += 1;
    }
    out.push(item);
    while i < n
        invariant
            n == items@.len(),
            idx <= i <= n,
            out@.len() == i + 1,
            forall|k: int| 0 <= k < idx ==> out@[k]@ == items@[k]@,
            out@[idx as int]@ == item@,
            forall|k: int| idx < k <= i ==> out@[k]@ == items@[k - 1]@,
        decreases n - i,
    {
        out.push(items[i]);
        i += 1;
    }
    proof {
        assert(out.deep_view() =~= items.deep_view().insert(idx as int, item@));
    }
    out
}

/// The permute mutation: every word is inserted at every place from the
/// front up to, and never past, the place before the root.
pub fn permute_words_transform(
    domain_components: &DomainComponents,
    words: &[&str],
) -> (r: Vec<String>)
    ensures
        r.deep_view() == permute_outputs(domain_components@, words.deep_view()),
{
    let domain_elems = domain_components.all();
    let count: usize = domain_components.count();
    let ghost labels = domain_components@;
    let ghost all = words.deep_view();
    let mut results: Vec<String> = Vec::new();
    let n: usize = words.len();
    let mut i: usize = 0;
    proof {
        assert(all.take(0) =~= Seq::<Seq<char>>::empty());
        assert(results.deep_view() =~= Seq::<Seq<char>>::empty());
    }
    while i < n
        invariant
            n == words@.len(),
            all == words.deep_view(),
            labels == domain_components@,
            domain_elems.deep_view() == labels,
            count == labels.len(),
            i <= n,
            results.deep_view() == permute_outputs(labels, all.take(i as int)),
        decreases n - i,
    {
        let word = words[i];
        let ghost start = results.deep_view();
        let mut idx: usize = 0;
        proof {
            assert(all.take(i + 1).drop_last() =~= all.take(i as int));
            assert(all.take(i + 1).last() == word@);
            assert(start + permute_word(labels, word@).take(0) =~= start);
        }
        while idx < count
            invariant
                labels == domain_components@,
                domain_elems.deep_view() == labels,
                count == labels.len(),
                idx <= count,
                results.deep_view() == start + permute_word(labels, word@).take(idx as int),
            decreases count - idx,
        {
            let ghost before = results.deep_view();
            // this is the domain but with the word injected into it
            let augmented_domain_components = insert_at(domain_elems, idx, word);
            // combine back into the full domain string
            let name = join_strs(augmented_domain_components.as_slice(), ".");
            proof {
                reveal_strlit(".");
                assert("."@ =~= dot());
                assert(name@ == permute_word(labels, word@)[idx as int]);
            }
            results.push(name);
            proof {
                assert(results.deep_view() =~= before.push(name@));
                assert(permute_word(labels, word@).take(idx + 1) =~= permute_word(
                    labels,
                    word@,
                ).take(idx as int).push(name@));
                assert(before.push(name@) =~= start + permute_word(labels, word@).take(idx + 1));
            }
            idx += 1;
        }
        proof {
            assert(permute_word(labels, word@).take(count as int) =~= permute_word(labels, word@));
        }
        i += 1;
    }
    proof {
        assert(all.take(n as int) =~= all);
    }
    results
}

/// Permute makes one name for each word and each label.
pub proof fn lemma_permute_count(labels: Seq<Seq<char>>, words: Seq<Seq<char>>)
    ensures
        permute_outputs(labels, words).len() == words.len() * labels.len(),
    decreases words.len(),
{
    if words.len() > 0 {
        lemma_permute_count(labels, words.drop_last());
        assert(words.len() * labels.len() == (words.len() - 1) * labels.len() + labels.len())
            by (nonlinear_arith);
    } else {
        assert(words.len() * labels.len() == 0) by (nonlinear_arith)
            requires
                words.len() == 0,
        ;
    }
}

/// Permute never puts a word behind the root: every name it makes ends
/// with a dot and the root.
pub proof fn lemma_permute_keeps_root(labels: Seq<Seq<char>>, words: Seq<Seq<char>>)
    requires
        labels.len() >= 1,
    ensures
        all_end_with(permute_outputs(labels, words), dot() + labels.last()),
    decreases words.len(),
{
    if words.len() > 0 {
        lemma_permute_keeps_root(labels, words.drop_last());
        let earlier = permute_outputs(labels, words.drop_last());
        let these = permute_word(labels, words.last());
        assert forall|k: int| 0 <= k < these.len() implies crate::text::ends_with(
            #[trigger] these[k],
            dot() + labels.last(),
        ) by {
            let grown = labels.insert(k, words.last());
            assert(grown.last() == labels.last());
            lemma_join_ends(grown, dot());
        }
    }
}

} // verus!

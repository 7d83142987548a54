//! Dash: each subdomain label is merged with each word, with a hyphen and
//! without, the word behind and before.

use crate::domain::DomainComponents;
use crate::text::{all_end_with, dot, ends_with, join, join_strs, lemma_join_ends};
use vstd::prelude::*;
use vstd::string::StringExecFns;

verus! {

/// `left`, a hyphen, `right`.
pub open spec fn dashed(left: Seq<char>, right: Seq<char>) -> Seq<char> {
    left + seq!['-'] + right
}

/// `left` and `right` with nothing between.
pub open spec fn glued(left: Seq<char>, right: Seq<char>) -> Seq<char> {
    left + right
}

/// The name of `labels` with the label at `idx` given way to `merged`.
pub open spec fn merged_at(labels: Seq<Seq<char>>, idx: int, merged: Seq<char>) -> Seq<char> {
    join(labels.update(idx, merged), dot())
}

/// The four names that one word gives at one label: label-word with a
/// hyphen, word-label with a hyphen, label and word run together, word and
/// label run together.
pub open spec fn dash_label(labels: Seq<Seq<char>>, word: Seq<char>, idx: int) -> Seq<Seq<char>> {
    seq![
        merged_at(labels, idx, dashed(labels[idx], word)),
        merged_at(labels, idx, dashed(word, labels[idx])),
        merged_at(labels, idx, glued(labels[idx], word)),
        merged_at(labels, idx, glued(word, labels[idx])),
    ]
}

/// The names that one word gives at the first `count` labels: the four of
/// the first label, then the four of the second, and so on.
pub open spec fn dash_labels(labels: Seq<Seq<char>>, word: Seq<char>, count: nat) -> Seq<Seq<char>>
    decreases count,
{
    if count == 0 {
        Seq::empty()
    } else {
        dash_labels(labels, word, (count - 1) as nat) + dash_label(labels, word, count - 1)
    }
}

/// The names that one word gives: its four names at each label before the
/// root, first label first. The root is never merged.
pub open spec fn dash_word(labels: Seq<Seq<char>>, word: Seq<char>) -> Seq<Seq<char>> {
    dash_labels(labels, word, (labels.len() - 1) as nat)
}

/// The names that the dash mutation makes of a domain with the labels
/// `labels`: those of the first word, then those of the second, and so on.
pub open spec fn dash_outputs(labels: Seq<Seq<char>>, words: Seq<Seq<char>>) -> Seq<Seq<char>>
    decreases words.len(),
{
    if words.len() == 0 {
        Seq::empty()
    } else {
        dash_outputs(labels, words.drop_last()) + dash_word(labels, words.last())
    }
}

/// The dash mutation: every word is merged into every subdomain label, one
/// label at a time, and into each label in the four ways.
pub fn dash_transform(domain_components: &DomainComponents, words: &[&str]) -> (r: Vec<String>)
    ensures
        r.deep_view() == dash_outputs(domain_components@, words.deep_view()),
{
    let ghost labels = domain_components@;
    let ghost all = words.deep_view();
    let last: usize = domain_components.count() - 1;
    let mut results: Vec<String> = Vec::new();
    let n: usize = words.len();
    let mut i: usize = 0;
    proof {
        assert(all.take(0) =~= Seq::<Seq<char>>::empty());
        assert(results.deep_view() =~= Seq::<Seq<char>>::empty());
    }
    while i < n
        invariant
            n == words@.len(),
            all == words.deep_view(),
            labels == domain_components@,
            last == labels.len() - 1,
            i <= n,
            results.deep_view() == dash_outputs(labels, all.take(i as int)),
        decreases n - i,
    {
        let word = words[i];
        let ghost start = results.deep_view();
        let mut idx: usize = 0;
        proof {
            assert(all.take(i + 1).drop_last() =~= all.take(i as int));
            assert(all.take(i + 1).last() == word@);
            assert(start + dash_labels(labels, word@, 0) =~= start);
        }
        while idx < last
            invariant
                labels == domain_components@,
                last == labels.len() - 1,
                idx <= last,
                results.deep_view() == start + dash_labels(labels, word@, idx as nat),
            decreases last - idx,
        {
            let ghost so_far = dash_labels(labels, word@, idx as nat);
            let ghost label = labels[idx as int];
            transform_components(
                &mut results,
                domain_components,
                word,
                idx,
                dash,
                Ghost(|l: Seq<char>, w: Seq<char>| dashed(l, w)),
            );
            transform_components(
                &mut results,
                domain_components,
                word,
                idx,
                rdash,
                Ghost(|l: Seq<char>, w: Seq<char>| dashed(w, l)),
            );
            transform_components(
                &mut results,
                domain_components,
                word,
                idx,
                concat,
                Ghost(|l: Seq<char>, w: Seq<char>| glued(l, w)),
            );
            transform_components(
                &mut results,
                domain_components,
                word,
                idx,
                rconcat,
                Ghost(|l: Seq<char>, w: Seq<char>| glued(w, l)),
            );
            proof {
                let four = dash_label(labels, word@, idx as int);
                assert(results.deep_view() =~= (start + so_far) + four);
                assert((start + so_far) + four =~= start + (so_far + four));
            }
            idx += 1;
        }
        i += 1;
    }
    proof {
        assert(all.take(n as int) =~= all);
    }
    results
}

fn replace_at<'a>(items: &[&'a str], idx: usize, item: &'a str) -> (r: Vec<&'a str>)
    requires
        idx < items@.len(),
    ensures
        r.deep_view() == items.deep_view().update(idx as int, item@),
{
    let n: usize = items.len();
    let mut out: Vec<&'a str> = Vec::new();
    let mut i: usize = 0;
    while i < n
        invariant
            n == items@.len(),
            idx < n,
            i <= n,
            out@.len() == i,
            forall|k: int| 0 <= k < i ==> out@[k]@ == (if k == idx { item@ } else { items@[k]@ }),
        decreases n - i,
    {
        if i == idx {
            out.push(item);
        } else {
            out.push(items[i]);
        }
        i += 1;
    }
    proof {
        assert(out.deep_view() =~= items.deep_view().update(idx as int, item@));
    }
    out
}

/// Appends to `results` the name of the domain with the subdomain label at
/// `idx` given way to what `transform` makes of it and `word`; `merge`
/// describes what `transform` returns.
fn transform_components<F: Fn(&str, &str) -> String>(
    results: &mut Vec<String>,
    domain_components: &DomainComponents,
    word: &str,
    idx: usize,
    transform: F,
    Ghost(merge): Ghost<spec_fn(Seq<char>, Seq<char>) -> Seq<char>>,
)
    requires
        idx < domain_components@.len() - 1,
        forall|l: &str, w: &str| call_requires(transform, (l, w)),
        forall|l: &str, w: &str, out: String|
            call_ensures(transform, (l, w), out) ==> out@ == merge(l@, w@),
    ensures
        final(results).deep_view() == old(results).deep_view().push(
            merged_at(domain_components@, idx as int, merge(domain_components@[idx as int], word@)),
        ),
{
    let ghost before = results.deep_view();
    let all = domain_components.all();
    let new_word = transform(all[idx], word);
    let new_sub = replace_at(all, idx, new_word.as_str());
    let name = join_strs(new_sub.as_slice(), ".");
    proof {
        reveal_strlit(".");
        assert("."@ =~= dot());
        assert(all@[idx as int]@ == domain_components@[idx as int]);
    }
    results.push(name);
    proof {
        assert(results.deep_view() =~= before.push(name@));
    }
}

/// `left`, a hyphen, `right`.
pub fn dash(left: &str, right: &str) -> (r: String)
    ensures
        r@ == dashed(left@, right@),
{
    let mut out = String::new();
    out.append(left);
    proof {
        reveal_strlit("-");
        assert("-"@ =~= seq!['-']);
    }
    out.append("-");
    out.append(right);
    proof {
        assert(out@ =~= dashed(left@, right@));
    }
    out
}

/// `right`, a hyphen, `left`.
pub fn rdash(left: &str, right: &str) -> (r: String)
    ensures
        r@ == dashed(right@, left@),
{
    dash(right, left)
}

/// `left` and `right` run together.
pub fn concat(left: &str, right: &str) -> (r: String)
    ensures
        r@ == glued(left@, right@),
{
    let mut out = String::new();
    out.append(left);
    out.append(right);
    proof {
        assert(out@ =~= glued(left@, right@));
    }
    out
}

/// `right` and `left` run together.
pub fn rconcat(left: &str, right: &str) -> (r: String)
    ensures
        r@ == glued(right@, left@),
{
    concat(right, left)
}

/// One word gives four names for each label it is merged into.
pub proof fn lemma_dash_labels_count(labels: Seq<Seq<char>>, word: Seq<char>, count: nat)
    ensures
        dash_labels(labels, word, count).len() == 4 * count,
    decreases count,
{
    if count > 0 {
        lemma_dash_labels_count(labels, word, (count - 1) as nat);
    }
}

/// Dash makes four names for each word and each subdomain label.
pub proof fn lemma_dash_count(labels: Seq<Seq<char>>, words: Seq<Seq<char>>)
    requires
        labels.len() >= 1,
    ensures
        dash_outputs(labels, words).len() == words.len() * (4 * (labels.len() - 1)),
    decreases words.len(),
{
    let each = 4 * (labels.len() - 1);
    if words.len() > 0 {
        lemma_dash_count(labels, words.drop_last());
        lemma_dash_labels_count(labels, words.last(), (labels.len() - 1) as nat);
        assert(words.len() * each == (words.len() - 1) * each + each) by (nonlinear_arith);
    } else {
        assert(words.len() * each == 0) by (nonlinear_arith)
            requires
                words.len() == 0,
        ;
    }
}

/// The names of one word come label by label, and at each label in the
/// order of the four ways: the name at place `4 * idx + way` is that of
/// label `idx` merged in way `way`.
pub proof fn lemma_dash_labels_at(
    labels: Seq<Seq<char>>,
    word: Seq<char>,
    count: nat,
    idx: int,
    way: int,
)
    requires
        0 <= idx < count,
        0 <= way < 4,
    ensures
        dash_labels(labels, word, count).len() == 4 * count,
        dash_labels(labels, word, count)[4 * idx + way] == dash_label(labels, word, idx)[way],
    decreases count,
{
    lemma_dash_labels_count(labels, word, count);
    lemma_dash_labels_count(labels, word, (count - 1) as nat);
    if idx < count - 1 {
        lemma_dash_labels_at(labels, word, (count - 1) as nat, idx, way);
    }
}

/// Merging a label before the root leaves the root as it is: the name
/// ends with a dot and the root.
pub proof fn lemma_merged_keeps_root(labels: Seq<Seq<char>>, idx: int, merged: Seq<char>)
    requires
        0 <= idx < labels.len() - 1,
    ensures
        ends_with(merged_at(labels, idx, merged), dot() + labels.last()),
{
    let changed = labels.update(idx, merged);
    assert(changed.last() == labels.last());
    lemma_join_ends(changed, dot());
}

/// One word never reaches the root, at whichever labels before it the word
/// is merged.
pub proof fn lemma_dash_labels_keep_root(labels: Seq<Seq<char>>, word: Seq<char>, count: nat)
    requires
        count <= labels.len() - 1,
    ensures
        all_end_with(dash_labels(labels, word, count), dot() + labels.last()),
    decreases count,
{
    if count > 0 {
        let idx = count - 1;
        lemma_dash_labels_keep_root(labels, word, idx as nat);
        lemma_merged_keeps_root(labels, idx, dashed(labels[idx], word));
        lemma_merged_keeps_root(labels, idx, dashed(word, labels[idx]));
        lemma_merged_keeps_root(labels, idx, glued(labels[idx], word));
        lemma_merged_keeps_root(labels, idx, glued(word, labels[idx]));
    }
}

/// Dash leaves the root as it is: every name it makes ends with a dot and
/// the root.
pub proof fn lemma_dash_keeps_root(labels: Seq<Seq<char>>, words: Seq<Seq<char>>)
    requires
        labels.len() >= 1,
    ensures
        all_end_with(dash_outputs(labels, words), dot() + labels.last()),
    decreases words.len(),
{
    if words.len() > 0 {
        lemma_dash_keeps_root(labels, words.drop_last());
        lemma_dash_labels_keep_root(labels, words.last(), (labels.len() - 1) as nat);
    }
}

} // verus!

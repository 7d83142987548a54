//! Swap: a word that stands among the subdomain labels gives way to each of
//! the other words.

use crate::domain::DomainComponents;
use crate::text::{
    all_end_with, chars_equal, contains, contains_chars, dot, ends_with, from_chars, join,
    join_strs, lemma_ends_with_concat, replace_all, replace_chars, to_chars,
};
use vstd::prelude::*;
use vstd::string::StringExecFns;

verus! {

/// The names made by replacing `word` in `text` with each member of `others`
/// that differs from it, in the order of `others`; `root` follows each.
pub open spec fn swap_targets(
    text: Seq<char>,
    root: Seq<char>,
    word: Seq<char>,
    others: Seq<Seq<char>>,
) -> Seq<Seq<char>>
    decreases others.len(),
{
    if others.len() == 0 {
        Seq::empty()
    } else {
        let earlier = swap_targets(text, root, word, others.drop_last());
        if others.last() != word {
            earlier.push(replace_all(text, word, others.last()) + dot() + root)
        } else {
            earlier
        }
    }
}

/// The names made for each member of `sources` that stands in `text`, in the
/// order of `sources`; the replacements are drawn from `words`.
pub open spec fn swap_sources(
    text: Seq<char>,
    root: Seq<char>,
    words: Seq<Seq<char>>,
    sources: Seq<Seq<char>>,
) -> Seq<Seq<char>>
    decreases sources.len(),
{
    if sources.len() == 0 {
        Seq::empty()
    } else {
        let earlier = swap_sources(text, root, words, sources.drop_last());
        if contains(text, sources.last()) {
            earlier + swap_targets(text, root, sources.last(), words)
        } else {
            earlier
        }
    }
}

/// The names that the swap mutation makes of a domain with the labels
/// `labels`. Only the subdomain labels, joined by dots, are searched and
/// rewritten; the root follows unchanged.
pub open spec fn swap_outputs(labels: Seq<Seq<char>>, words: Seq<Seq<char>>) -> Seq<Seq<char>> {
    swap_sources(join(labels.drop_last(), dot()), labels.last(), words, words)
}

fn words_to_chars(words: &[&str]) -> (r: Vec<Vec<char>>)
    ensures
        r.deep_view() == words.deep_view(),
{
    let mut out: Vec<Vec<char>> = Vec::new();
    let n: usize = words.len();
    let mut i: usize = 0;
    while i < n
        invariant
            n == words@.len(),
            i <= n,
            out@.len() == i,
            forall|k: int| 0 <= k < i ==> out@[k]@ == words@[k]@,
        decreases n - i,
    {
        out.push(to_chars(words[i]));
        i += 1;
    }
    proof {
        assert(out.deep_view() =~= words.deep_view()) by {
            assert forall|k: int| 0 <= k < n implies out.deep_view()[k] == words.deep_view()[k] by {
                assert(out@[k].deep_view() =~= out@[k]@);
            }
        }
    }
    out
}

fn push_swap_targets(
    results: &mut Vec<String>,
    text: &[char],
    root: &str,
    word: &[char],
    word_chars: &Vec<Vec<char>>,
)
    ensures
        final(results).deep_view() == old(results).deep_view() + swap_targets(
            text@,
            root@,
            word@,
            word_chars.deep_view(),
        ),
{
    let ghost start = results.deep_view();
    let ghost others = word_chars.deep_view();
    let n: usize = word_chars.len();
    let mut j: usize = 0;
    proof {
        assert(others.take(0) =~= Seq::<Seq<char>>::empty());
        assert(start + swap_targets(text@, root@, word@, others.take(0)) =~= start);
    }
    while j < n
        invariant
            n == word_chars@.len(),
            others == word_chars.deep_view(),
            j <= n,
            results.deep_view() == start + swap_targets(text@, root@, word@, others.take(j as int)),
        decreases n - j,
    {
        let ghost so_far = swap_targets(text@, root@, word@, others.take(j as int));
        let ghost before = results.deep_view();
        proof {
            assert(others.take(j + 1).drop_last() =~= others.take(j as int));
            assert(others.take(j + 1).last() == others[j as int]);
            assert(word_chars@[j as int].deep_view() =~= word_chars@[j as int]@);
        }
        let sub_word = word_chars[j].as_slice();
        if !chars_equal(sub_word, word) {
            let replaced_subdomain = replace_chars(text, word, sub_word);
            let mut name = from_chars(replaced_subdomain.as_slice());
            proof {
                reveal_strlit(".");
                assert("."@ =~= dot());
            }
            name.append(".");
            name.append(root);
            results.push(name);
            proof {
                assert(results.deep_view() =~= before.push(name@));
                assert(before.push(name@) =~= start + so_far.push(name@));
            }
        }
        j += 1;
    }
    proof {
        assert(others.take(n as int) =~= others);
    }
}

/// The swap mutation: for every word that stands in the joined subdomain
/// labels, and for every other word, the labels with the one replaced by the
/// other throughout, then a dot and the root.
pub fn swap_word_transform(domain_components: &DomainComponents, words: &[&str]) -> (r: Vec<String>)
    ensures
        r.deep_view() == swap_outputs(domain_components@, words.deep_view()),
{
    let root = domain_components.root();
    let subdomain_string: String = join_strs(domain_components.subdomains(), ".");
    proof {
        reveal_strlit(".");
        assert("."@ =~= dot());
    }
    let text = to_chars(subdomain_string.as_str());
    let word_chars = words_to_chars(words);
    let ghost all = words.deep_view();
    let mut results: Vec<String> = Vec::new();
    let n: usize = word_chars.len();
    let mut i: usize = 0;
    proof {
        assert(all.take(0) =~= Seq::<Seq<char>>::empty());
        assert(results.deep_view() =~= Seq::<Seq<char>>::empty());
    }
    while i < n
        invariant
            n == word_chars@.len(),
            all == word_chars.deep_view(),
            i <= n,
            results.deep_view() == swap_sources(text@, root@, all, all.take(i as int)),
        decreases n - i,
    {
        proof {
            assert(all.take(i + 1).drop_last() =~= all.take(i as int));
            assert(all.take(i + 1).last() == all[i as int]);
            assert(word_chars@[i as int].deep_view() =~= word_chars@[i as int]@);
        }
        let word = word_chars[i].as_slice();
        if contains_chars(text.as_slice(), word) {
            push_swap_targets(&mut results, text.as_slice(), root, word, &word_chars);
        }
        i += 1;
    }
    proof {
        assert(all.take(n as int) =~= all);
    }
    results
}

/// `name` is what swap makes of `word` and one of `others` that differs
/// from it.
pub open spec fn swapped_from(
    text: Seq<char>,
    root: Seq<char>,
    word: Seq<char>,
    others: Seq<Seq<char>>,
    name: Seq<char>,
) -> bool {
    exists|j: int|
        0 <= j < others.len() && #[trigger] others[j] != word && name == replace_all(
            text,
            word,
            others[j],
        ) + dot() + root
}

/// The names made for one word are exactly those of the words that differ
/// from it: a word is never replaced by itself.
pub proof fn lemma_swap_targets_members(
    text: Seq<char>,
    root: Seq<char>,
    word: Seq<char>,
    others: Seq<Seq<char>>,
    name: Seq<char>,
)
    ensures
        swap_targets(text, root, word, others).contains(name) <==> swapped_from(
            text,
            root,
            word,
            others,
            name,
        ),
    decreases others.len(),
{
    let made = swap_targets(text, root, word, others);
    if others.len() > 0 {
        let fewer = others.drop_last();
        let earlier = swap_targets(text, root, word, fewer);
        lemma_swap_targets_members(text, root, word, fewer, name);
        let last_name = replace_all(text, word, others.last()) + dot() + root;
        if made.contains(name) {
            let k = choose|k: int| 0 <= k < made.len() && made[k] == name;
            if k < earlier.len() {
                assert(earlier[k] == name);
                let j = choose|j: int|
                    0 <= j < fewer.len() && #[trigger] fewer[j] != word && name == replace_all(
                        text,
                        word,
                        fewer[j],
                    ) + dot() + root;
                assert(others[j] == fewer[j]);
            } else {
                assert(others[others.len() - 1] != word);
            }
        }
        if swapped_from(text, root, word, others, name) {
            let j = choose|j: int|
                0 <= j < others.len() && #[trigger] others[j] != word && name == replace_all(
                    text,
                    word,
                    others[j],
                ) + dot() + root;
            if j < fewer.len() {
                assert(fewer[j] == others[j]);
                assert(earlier.contains(name));
                let k = choose|k: int| 0 <= k < earlier.len() && earlier[k] == name;
                assert(made[k] == name);
            } else {
                assert(made[made.len() - 1] == name);
            }
        }
    }
}

/// `name` is what swap makes of one of `sources` that stands in `text` and
/// one of `words` that differs from it.
pub open spec fn swapped(
    text: Seq<char>,
    root: Seq<char>,
    words: Seq<Seq<char>>,
    sources: Seq<Seq<char>>,
    name: Seq<char>,
) -> bool {
    exists|i: int|
        0 <= i < sources.len() && contains(text, #[trigger] sources[i]) && swapped_from(
            text,
            root,
            sources[i],
            words,
            name,
        )
}

/// Swap makes exactly the names of a word that stands in the text and of
/// another word in its place.
pub proof fn lemma_swap_members(
    text: Seq<char>,
    root: Seq<char>,
    words: Seq<Seq<char>>,
    sources: Seq<Seq<char>>,
    name: Seq<char>,
)
    ensures
        swap_sources(text, root, words, sources).contains(name) <==> swapped(
            text,
            root,
            words,
            sources,
            name,
        ),
    decreases sources.len(),
{
    let made = swap_sources(text, root, words, sources);
    if sources.len() > 0 {
        let fewer = sources.drop_last();
        let earlier = swap_sources(text, root, words, fewer);
        let these = swap_targets(text, root, sources.last(), words);
        lemma_swap_members(text, root, words, fewer, name);
        lemma_swap_targets_members(text, root, sources.last(), words, name);
        if made.contains(name) {
            let k = choose|k: int| 0 <= k < made.len() && made[k] == name;
            if k < earlier.len() {
                assert(earlier[k] == name);
                let i = choose|i: int|
                    0 <= i < fewer.len() && contains(text, #[trigger] fewer[i]) && swapped_from(
                        text,
                        root,
                        fewer[i],
                        words,
                        name,
                    );
                assert(sources[i] == fewer[i]);
            } else {
                assert(these[k - earlier.len()] == name);
                assert(contains(text, sources[sources.len() - 1]));
            }
        }
        if swapped(text, root, words, sources, name) {
            let i = choose|i: int|
                0 <= i < sources.len() && contains(text, #[trigger] sources[i]) && swapped_from(
                    text,
                    root,
                    sources[i],
                    words,
                    name,
                );
            if i < fewer.len() {
                assert(fewer[i] == sources[i]);
                assert(earlier.contains(name));
                let k = choose|k: int| 0 <= k < earlier.len() && earlier[k] == name;
                assert(made[k] == name);
            } else {
                assert(these.contains(name));
                let k = choose|k: int| 0 <= k < these.len() && these[k] == name;
                assert(made[earlier.len() + k] == name);
            }
        }
    }
}

/// Swap leaves the root as it is: every name it makes ends with a dot and
/// the root.
pub proof fn lemma_swap_keeps_root(labels: Seq<Seq<char>>, words: Seq<Seq<char>>)
    ensures
        all_end_with(swap_outputs(labels, words), dot() + labels.last()),
{
    let text = join(labels.drop_last(), dot());
    let root = labels.last();
    let made = swap_outputs(labels, words);
    let tail = dot() + root;
    assert forall|k: int| 0 <= k < made.len() implies ends_with(#[trigger] made[k], tail) by {
        lemma_swap_members(text, root, words, words, made[k]);
        let i = choose|i: int|
            0 <= i < words.len() && contains(text, #[trigger] words[i]) && swapped_from(
                text,
                root,
                words[i],
                words,
                made[k],
            );
        let j = choose|j: int|
            0 <= j < words.len() && #[trigger] words[j] != words[i] && made[k] == replace_all(
                text,
                words[i],
                words[j],
            ) + dot() + root;
        let front = replace_all(text, words[i], words[j]);
        assert(front + dot() + root =~= front + (dot() + root));
        lemma_ends_with_concat(front, dot() + root);
    }
}

} // verus!

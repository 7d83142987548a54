//! Where the words come from: the labels of the known domains, whole and
//! split at hyphens, and the lines of the word list.

use crate::domain::DomainComponents;
use crate::text::{split, split_str};
use vstd::prelude::*;
use vstd::utf8::encode_utf8;

verus! {

/// The least length of a word drawn from the domains, where none is asked for.
pub const DEFAULT_WORD_LEN: usize = 5;

/// How many lines of the word list the fast mode keeps.
pub const FAST_MODE_WORDLIST_LEN: usize = 10;

/// The lines of the word list that are used: all of them, or in fast mode
/// the first ten.
pub fn get_wordlist<'a, 'b>(wordlist: &'a [&'b str], fast: Option<bool>) -> (r: &'a [&'b str])
    ensures
        r@ == (if fast == Some(true) && wordlist@.len() > FAST_MODE_WORDLIST_LEN {
            wordlist@.take(FAST_MODE_WORDLIST_LEN as int)
        } else {
            wordlist@
        }),
{
    match fast {
        Some(fast_mode) if fast_mode => {
            if wordlist.len() > FAST_MODE_WORDLIST_LEN {
                let r = &wordlist[0..FAST_MODE_WORDLIST_LEN];
                proof {
                    assert(r@ =~= wordlist@.take(FAST_MODE_WORDLIST_LEN as int));
                }
                r
            } else {
                wordlist
            }
        },
        _ => wordlist,
    }
}

/// The pieces between hyphens of each of `labels`, label by label.
pub open spec fn hyphen_parts(labels: Seq<Seq<char>>) -> Seq<Seq<char>>
    decreases labels.len(),
{
    if labels.len() == 0 {
        Seq::empty()
    } else {
        hyphen_parts(labels.drop_last()) + split(labels.last(), '-')
    }
}

/// What one domain offers as words: its subdomain labels, then the pieces
/// of each of them between hyphens. The root offers nothing.
pub open spec fn candidates(labels: Seq<Seq<char>>) -> Seq<Seq<char>> {
    labels.drop_last() + hyphen_parts(labels.drop_last())
}

/// A word passes when its UTF-8 form has at least `min_word_len` bytes.
pub open spec fn long_enough(word: Seq<char>, min_word_len: nat) -> bool {
    encode_utf8(word).len() >= min_word_len
}

/// Those of `words` that pass, in their order.
pub open spec fn passing(words: Seq<Seq<char>>, min_word_len: nat) -> Seq<Seq<char>>
    decreases words.len(),
{
    if words.len() == 0 {
        Seq::empty()
    } else if long_enough(words.last(), min_word_len) {
        passing(words.drop_last(), min_word_len).push(words.last())
    } else {
        passing(words.drop_last(), min_word_len)
    }
}

/// The words drawn from `domains`: domain by domain, the candidates of each
/// that pass.
pub open spec fn extracted(domains: Seq<Seq<Seq<char>>>, min_word_len: nat) -> Seq<Seq<char>>
    decreases domains.len(),
{
    if domains.len() == 0 {
        Seq::empty()
    } else {
        extracted(domains.drop_last(), min_word_len) + passing(
            candidates(domains.last()),
            min_word_len,
        )
    }
}

/// Of two rows put together, the words that pass are those of the first
/// row that pass and then those of the second.
pub proof fn lemma_passing_concat(a: Seq<Seq<char>>, b: Seq<Seq<char>>, min_word_len: nat)
    ensures
        passing(a + b, min_word_len) == passing(a, min_word_len) + passing(b, min_word_len),
    decreases b.len(),
{
    if b.len() == 0 {
        assert(a + b =~= a);
        assert(passing(a, min_word_len) + passing(b, min_word_len) =~= passing(a, min_word_len));
    } else {
        assert((a + b).drop_last() =~= a + b.drop_last());
        assert((a + b).last() == b.last());
        lemma_passing_concat(a, b.drop_last(), min_word_len);
        let pa = passing(a, min_word_len);
        let pb = passing(b.drop_last(), min_word_len);
        assert((pa + pb).push(b.last()) =~= pa + pb.push(b.last()));
    }
}

fn push_if_passing<'domain>(out: &mut Vec<&'domain str>, word: &'domain str, min_word_len: usize)
    ensures
        final(out).deep_view() == old(out).deep_view() + passing(seq![word@], min_word_len as nat),
{
    let ghost before = out.deep_view();
    let ghost alone = seq![word@];
    proof {
        assert(passing(alone.drop_last(), min_word_len as nat) =~= Seq::<Seq<char>>::empty());
    }
    if word.as_bytes().len() >= min_word_len {
        out.push(word);
        proof {
            assert(out.deep_view() =~= before.push(word@));
            assert(before.push(word@) =~= before + passing(alone, min_word_len as nat));
        }
    } else {
        proof {
            assert(before + passing(alone, min_word_len as nat) =~= before);
        }
    }
}

fn push_passing<'domain>(out: &mut Vec<&'domain str>, words: &[&'domain str], min_word_len: usize)
    ensures
        final(out).deep_view() == old(out).deep_view() + passing(
            words.deep_view(),
            min_word_len as nat,
        ),
{
    let ghost start = out.deep_view();
    let ghost all = words.deep_view();
    let ghost least = min_word_len as nat;
    let n: usize = words.len();
    let mut i: usize = 0;
    proof {
        assert(all.take(0) =~= Seq::<Seq<char>>::empty());
        assert(start + passing(all.take(0), least) =~= start);
    }
    while i < n
        invariant
            n == words@.len(),
            all == words.deep_view(),
            least == min_word_len,
            i <= n,
            out.deep_view() == start + passing(all.take(i as int), least),
        decreases n - i,
    {
        let word = words[i];
        proof {
            let kept = passing(all.take(i as int), least);
            let more = passing(seq![word@], least);
            assert(all.take(i + 1) =~= all.take(i as int) + seq![word@]);
            lemma_passing_concat(all.take(i as int), seq![word@], least);
            assert((start + kept) + more =~= start + (kept + more));
        }
        push_if_passing(out, word, min_word_len);
        i += 1;
    }
    proof {
        assert(all.take(n as int) =~= all);
    }
}

/// Draws the words from `domain_components`, domain by domain: of each
/// domain every subdomain label, and after them the pieces of each label
/// between hyphens, if they have at least `min_word_len` bytes. The words
/// borrow from the domains' text.
pub fn extract_words<'domain>(
    domain_components: &[DomainComponents<'domain>],
    min_word_len: usize,
) -> (r: Vec<&'domain str>)
    ensures
        r.deep_view() == extracted(domain_components.deep_view(), min_word_len as nat),
{
    let ghost all = domain_components.deep_view();
    let ghost least = min_word_len as nat;
    let mut out: Vec<&'domain str> = Vec::new();
    let n: usize = domain_components.len();
    let mut i: usize = 0;
    proof {
        assert(all.take(0) =~= Seq::<Seq<Seq<char>>>::empty());
        assert(out.deep_view() =~= Seq::<Seq<char>>::empty());
    }
    while i < n
        invariant
            n == domain_components@.len(),
            all == domain_components.deep_view(),
            least == min_word_len,
            i <= n,
            out.deep_view() == extracted(all.take(i as int), least),
        decreases n - i,
    {
        let domain = &domain_components[i];
        let subdomains = domain.subdomains();
        let ghost labels = subdomains.deep_view();
        let ghost start = out.deep_view();
        proof {
            assert(all.take(i + 1).drop_last() =~= all.take(i as int));
            assert(all.take(i + 1).last() == domain@);
        }
        push_passing(&mut out, subdomains, min_word_len);
        let ghost own = passing(labels, least);
        let m: usize = subdomains.len();
        let mut k: usize = 0;
        proof {
            assert(labels.take(0) =~= Seq::<Seq<char>>::empty());
            assert((start + own) + passing(hyphen_parts(labels.take(0)), least) =~= start + own);
        }
        while k < m
            invariant
                m == subdomains@.len(),
                labels == subdomains.deep_view(),
                least == min_word_len,
                k <= m,
                out.deep_view() == (start + own) + passing(
                    hyphen_parts(labels.take(k as int)),
                    least,
                ),
            decreases m - k,
        {
            let ghost so_far = hyphen_parts(labels.take(k as int));
            let augments = split_str(subdomains[k], '-');
            let parts = augments.as_slice();
            proof {
                assert(labels.take(k + 1).drop_last() =~= labels.take(k as int));
                assert(labels.take(k + 1).last() == subdomains@[k as int]@);
                assert(parts.deep_view() =~= augments.deep_view());
                lemma_passing_concat(so_far, augments.deep_view(), least);
            }
            push_passing(&mut out, parts, min_word_len);
            proof {
                let kept = passing(so_far, least);
                let more = passing(augments.deep_view(), least);
                assert(((start + own) + kept) + more =~= (start + own) + (kept + more));
            }
            k += 1;
        }
        proof {
            let pieces = passing(hyphen_parts(labels), least);
            assert(labels.take(m as int) =~= labels);
            lemma_passing_concat(labels, hyphen_parts(labels), least);
            assert((start + own) + pieces =~= start + (own + pieces));
        }
        i += 1;
    }
    proof {
        assert(all.take(n as int) =~= all);
    }
    out
}

} // verus!

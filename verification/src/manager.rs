//! The manager: the known domains, parsed, and the word set, from which
//! stages are started.

use crate::chain::RipGenIterator;
use crate::dnsgen::Mutation;
use crate::domain::{decompose, dns_name_syntax, root_len, DomainComponents};
use crate::error::RipGenError;
use crate::transform::{stage_outputs, RipGenTransform};
use crate::words::{extract_words, extracted};
use fxhash::FxHashSet;
use vstd::prelude::*;

verus! {

/// What `fxhash::FxHasher` is: the state of the Fx hash function.
#[verifier::external_type_specification]
#[verifier::external_body]
pub struct ExFxHasher(fxhash::FxHasher);

/// What `std::hash::BuildHasherDefault` is: the maker of hashers that
/// `fxhash::FxHashSet` is built with.
#[verifier::external_type_specification]
#[verifier::external_body]
#[verifier::reject_recursive_types(H)]
pub struct ExBuildHasherDefault<H>(std::hash::BuildHasherDefault<H>);

/// The words that a set holds, each as its characters.
pub uninterp spec fn word_set_contents(set: FxHashSet<&str>) -> Set<Seq<char>>;

/// Makes an `fxhash::FxHashSet` by its `Default`: it holds nothing.
#[verifier::external_body]
fn word_set_new<'a>() -> (set: FxHashSet<&'a str>)
    ensures
        word_set_contents(set) == Set::<Seq<char>>::empty(),
{
    FxHashSet::default()
}

/// Calls `insert` of an `fxhash::FxHashSet`: the word is among the contents
/// afterwards, and nothing else has changed. The result tells whether the
/// word was new. Words count as the same when their characters are.
#[verifier::external_body]
fn word_set_insert<'a>(set: &mut FxHashSet<&'a str>, word: &'a str) -> (fresh: bool)
    ensures
        word_set_contents(*final(set)) == word_set_contents(*old(set)).insert(word@),
        fresh == !word_set_contents(*old(set)).contains(word@),
{
    set.insert(word)
}

/// Walks an `fxhash::FxHashSet` with `iter` and collects what it holds:
/// every word of the contents once. The order is the set's own and nothing
/// is claimed of it.
#[verifier::external_body]
fn word_set_items<'a>(set: &FxHashSet<&'a str>) -> (items: Vec<&'a str>)
    ensures
        items.deep_view().no_duplicates(),
        items.deep_view().to_set() == word_set_contents(*set),
{
    set.iter().copied().collect()
}

/// A line that is not blank and is no DNS name.
pub open spec fn unparsable(line: Seq<char>) -> bool {
    line.len() > 0 && !dns_name_syntax(line)
}

/// Line `i` is the first of `lines` that is not blank and is no DNS name.
pub open spec fn first_unparsable(lines: Seq<Seq<char>>, i: int) -> bool {
    &&& 0 <= i < lines.len()
    &&& unparsable(lines[i])
    &&& forall|j: int| 0 <= j < i ==> !unparsable(#[trigger] lines[j])
}

/// The decomposed domains of `lines`: blank lines are passed over, every
/// other line gives one domain, in the order of the lines.
pub open spec fn parsed(lines: Seq<Seq<char>>) -> Seq<Seq<Seq<char>>>
    decreases lines.len(),
{
    if lines.len() == 0 {
        Seq::empty()
    } else if lines.last().len() == 0 {
        parsed(lines.drop_last())
    } else {
        parsed(lines.drop_last()).push(decompose(lines.last(), root_len(lines.last())))
    }
}

/// The word set of a manager: the words drawn from its domains, and the
/// lines of the word list as they are.
pub open spec fn word_set(
    domains: Seq<Seq<Seq<char>>>,
    wordlist: Seq<Seq<char>>,
    min_word_len: nat,
) -> Set<Seq<char>> {
    extracted(domains, min_word_len).to_set().union(wordlist.to_set())
}

proof fn lemma_to_set_push(items: Seq<Seq<char>>, item: Seq<char>)
    ensures
        items.push(item).to_set() == items.to_set().insert(item),
{
    let grown = items.push(item);
    assert forall|w: Seq<char>| grown.to_set().contains(w) <==> items.to_set().insert(
        item,
    ).contains(w) by {
        if grown.to_set().contains(w) {
            let k = choose|k: int| 0 <= k < grown.len() && grown[k] == w;
            if k < items.len() {
                assert(items[k] == w);
            }
        }
        if items.to_set().insert(item).contains(w) {
            if w == item {
                assert(grown[items.len() as int] == w);
            } else {
                let k = choose|k: int| 0 <= k < items.len() && items[k] == w;
                assert(grown[k] == w);
            }
        }
    }
    assert(grown.to_set() =~= items.to_set().insert(item));
}

fn insert_all<'a>(set: &mut FxHashSet<&'a str>, words: &[&'a str])
    ensures
        word_set_contents(*final(set)) == word_set_contents(*old(set)).union(
            words.deep_view().to_set(),
        ),
{
    let ghost start = word_set_contents(*set);
    let ghost all = words.deep_view();
    let n: usize = words.len();
    let mut i: usize = 0;
    proof {
        assert(all.take(0) =~= Seq::<Seq<char>>::empty());
        assert(start.union(all.take(0).to_set()) =~= start);
    }
    while i < n
        invariant
            n == words@.len(),
            all == words.deep_view(),
            i <= n,
            word_set_contents(*set) == start.union(all.take(i as int).to_set()),
        decreases n - i,
    {
        let word = words[i];
        let _ = word_set_insert(set, word);
        proof {
            assert(all.take(i + 1) =~= all.take(i as int).push(word@));
            lemma_to_set_push(all.take(i as int), word@);
            assert(start.union(all.take(i as int).to_set()).insert(word@) =~= start.union(
                all.take(i as int).to_set().insert(word@),
            ));
        }
        i += 1;
    }
    proof {
        assert(all.take(n as int) =~= all);
    }
}

/// Processes and manages domains and wordlist elements to enable creating
/// [RipGenIterator](crate::RipGenIterator) via [transformations](Self::transform).
pub struct RipGenManager<'domains> {
    domain_components: Vec<DomainComponents<'domains>>,
    elements: Vec<&'domains str>,
}

impl<'domain> Clone for RipGenManager<'domain> {
    /// The same domains and the same words in the same order.
    fn clone(&self) -> (r: Self)
        ensures
            r.domains() == self.domains(),
            r.words() == self.words(),
    {
        let n: usize = self.domain_components.len();
        let mut domain_components: Vec<DomainComponents<'domain>> = Vec::with_capacity(n);
        let mut i: usize = 0;
        while i < n
            invariant
                n == self.domain_components@.len(),
                i <= n,
                domain_components@.len() == i,
                forall|k: int| 0 <= k < i ==> domain_components@[k]@ == self.domain_components@[k]@,
            decreases n - i,
        {
            domain_components.push(self.domain_components[i].clone());
            i += 1;
        }
        let m: usize = self.elements.len();
        let mut elements: Vec<&'domain str> = Vec::with_capacity(m);
        let mut j: usize = 0;
        while j < m
            invariant
                m == self.elements@.len(),
                j <= m,
                elements@.len() == j,
                forall|k: int| 0 <= k < j ==> elements@[k]@ == self.elements@[k]@,
            decreases m - j,
        {
            elements.push(self.elements[j]);
            j += 1;
        }
        proof {
            assert(domain_components.deep_view() =~= self.domain_components.deep_view());
            assert(elements.deep_view() =~= self.elements.deep_view());
        }
        RipGenManager { domain_components, elements }
    }
}

impl<'domain> RipGenManager<'domain> {
    /// The domains, decomposed, in the order of their lines.
    pub closed spec fn domains(&self) -> Seq<Seq<Seq<char>>> {
        self.domain_components.deep_view()
    }

    /// The word set, in the order in which stages walk it.
    pub closed spec fn words(&self) -> Seq<Seq<char>> {
        self.elements.deep_view()
    }

    /// Creates a new `RipGenManager`.
    ///
    /// This can fail if any of the `domains` are unable to be parsed: the
    /// first such line is the error, and nothing is built. Blank lines are
    /// passed over. The word set holds each word once: those drawn from the
    /// domains that have at least `min_word_len` bytes, and every line of
    /// `words`.
    pub fn new(
        domains: &[&'domain str],
        words: &[&'domain str],
        min_word_len: usize,
    ) -> (r: Result<RipGenManager<'domain>, RipGenError>)
        ensures
            match r {
                Ok(manager) => {
                    &&& forall|i: int|
                        0 <= i < domains@.len() ==> !unparsable(#[trigger] domains.deep_view()[i])
                    &&& manager.domains() == parsed(domains.deep_view())
                    &&& manager.words().no_duplicates()
                    &&& manager.words().to_set() == word_set(
                        manager.domains(),
                        words.deep_view(),
                        min_word_len as nat,
                    )
                },
                Err(e) => exists|i: int|
                    (#[trigger] first_unparsable(domains.deep_view(), i)) && e.input()
                        == domains.deep_view()[i],
            },
    {
        let ghost lines = domains.deep_view();
        let mut domain_components: Vec<DomainComponents<'domain>> = Vec::new();
        let n: usize = domains.len();
        let mut i: usize = 0;
        proof {
            assert(lines.take(0) =~= Seq::<Seq<char>>::empty());
            assert(domain_components.deep_view() =~= Seq::<Seq<Seq<char>>>::empty());
        }
        while i < n
            invariant
                n == domains@.len(),
                lines == domains.deep_view(),
                i <= n,
                domain_components.deep_view() == parsed(lines.take(i as int)),
                forall|j: int| 0 <= j < i ==> !unparsable(#[trigger] lines[j]),
            decreases n - i,
        {
            let line = domains[i];
            let ghost before = domain_components.deep_view();
            proof {
                assert(lines.take(i + 1).drop_last() =~= lines.take(i as int));
                assert(lines.take(i + 1).last() == line@);
                assert(lines[i as int] == line@);
            }
            if !line.is_empty() {
                match DomainComponents::try_from(line) {
                    Ok(components) => {
                        domain_components.push(components);
                        proof {
                            assert(domain_components.deep_view() =~= before.push(components@));
                        }
                    },
                    Err(e) => {
                        proof {
                            assert(first_unparsable(lines, i as int));
                        }
                        return Err(e);
                    },
                }
            }
            i += 1;
        }
        proof {
            assert(lines.take(n as int) =~= lines);
        }
        let parsed_domains = domain_components.as_slice();
        proof {
            assert(parsed_domains.deep_view() =~= domain_components.deep_view());
        }
        let drawn = extract_words(parsed_domains, min_word_len);
        let drawn_words = drawn.as_slice();
        proof {
            assert(drawn_words.deep_view() =~= drawn.deep_view());
        }
        let mut set = word_set_new();
        insert_all(&mut set, drawn_words);
        insert_all(&mut set, words);
        let elements = word_set_items(&set);
        proof {
            assert(Set::<Seq<char>>::empty().union(drawn.deep_view().to_set())
                =~= drawn.deep_view().to_set());
        }
        Ok(RipGenManager { domain_components, elements })
    }

    /// Begins a RipGen transform iterator.
    ///
    /// The stage runs `transform` over all the domains of this manager,
    /// with all its words.
    pub fn transform<'manager>(
        &'manager self,
        transform: Mutation,
    ) -> (r: RipGenTransform<'manager, 'domain>)
        ensures
            r.remaining() == stage_outputs(transform, self.domains(), self.words()),
            r.domains_left() == self.domains(),
            r.word_list() == self.words(),
    {
        let domains = self.domain_components.as_slice();
        let words = self.elements.as_slice();
        proof {
            assert(domains.deep_view() =~= self.domain_components.deep_view());
            assert(words.deep_view() =~= self.elements.deep_view());
        }
        RipGenTransform::new(domains, words, transform)
    }
}

} // verus!

//! A stage: one mutation bound to the domains and the words of a manager.

use crate::chain::RipGenIterator;
use crate::dnsgen::{lemma_root_kept, Mutation};
use crate::domain::DomainComponents;
use crate::text::{dot, ends_with};
use vstd::prelude::*;

verus! {

/// All that a stage yields over `domains`: domain by domain in their order,
/// and of each domain the names of the mutation from the last made to the
/// first, since a stage hands out the batch of a domain from its end.
pub open spec fn stage_outputs(
    transform: Mutation,
    domains: Seq<Seq<Seq<char>>>,
    words: Seq<Seq<char>>,
) -> Seq<Seq<char>>
    decreases domains.len(),
{
    if domains.len() == 0 {
        Seq::empty()
    } else {
        transform.outputs(domains[0], words).reverse() + stage_outputs(
            transform,
            domains.drop_first(),
            words,
        )
    }
}

/// `name` ends with a dot and the root of one of `domains`.
pub open spec fn ends_with_a_root(name: Seq<char>, domains: Seq<Seq<Seq<char>>>) -> bool {
    exists|i: int| 0 <= i < domains.len() && ends_with(name, dot() + (#[trigger] domains[i]).last())
}

/// A stage never changes a root: every name it yields ends with a dot and
/// the root of one of its domains.
pub proof fn lemma_stage_keeps_roots(
    transform: Mutation,
    domains: Seq<Seq<Seq<char>>>,
    words: Seq<Seq<char>>,
)
    requires
        forall|i: int| 0 <= i < domains.len() ==> (#[trigger] domains[i]).len() >= 1,
    ensures
        forall|k: int|
            0 <= k < stage_outputs(transform, domains, words).len() ==> ends_with_a_root(
                #[trigger] stage_outputs(transform, domains, words)[k],
                domains,
            ),
    decreases domains.len(),
{
    if domains.len() > 0 {
        let first = transform.outputs(domains[0], words).reverse();
        let later = stage_outputs(transform, domains.drop_first(), words);
        lemma_root_kept(transform, domains[0], words);
        lemma_stage_keeps_roots(transform, domains.drop_first(), words);
        assert forall|k: int| 0 <= k < (first + later).len() implies ends_with_a_root(
            #[trigger] (first + later)[k],
            domains,
        ) by {
            if k < first.len() {
                let made = transform.outputs(domains[0], words);
                assert(first[k] == made[made.len() - 1 - k]);
                assert(ends_with(first[k], dot() + domains[0].last()));
            } else {
                let name = later[k - first.len()];
                let i = choose|i: int|
                    0 <= i < domains.drop_first().len() && ends_with(
                        name,
                        dot() + (#[trigger] domains.drop_first()[i]).last(),
                    );
                assert(domains[i + 1] == domains.drop_first()[i]);
            }
        }
    }
}

/// How many domains at the front of `domains` give no name.
pub open spec fn barren_front(
    transform: Mutation,
    domains: Seq<Seq<Seq<char>>>,
    words: Seq<Seq<char>>,
) -> nat
    decreases domains.len(),
{
    if domains.len() == 0 || transform.outputs(domains[0], words).len() > 0 {
        0
    } else {
        1 + barren_front(transform, domains.drop_first(), words)
    }
}

/// Where the first `passed` domains give no name, the barren front is
/// those and the barren front of the rest, and the stage yields what it
/// yields over the rest.
pub proof fn lemma_barren_skip(
    transform: Mutation,
    domains: Seq<Seq<Seq<char>>>,
    words: Seq<Seq<char>>,
    passed: int,
)
    requires
        0 <= passed <= domains.len(),
        forall|j: int|
            0 <= j < passed ==> transform.outputs(#[trigger] domains[j], words).len() == 0,
    ensures
        barren_front(transform, domains, words) == passed + barren_front(
            transform,
            domains.skip(passed),
            words,
        ),
        stage_outputs(transform, domains, words) == stage_outputs(
            transform,
            domains.skip(passed),
            words,
        ),
    decreases passed,
{
    if passed == 0 {
        assert(domains.skip(0) =~= domains);
    } else {
        let rest = domains.drop_first();
        assert forall|j: int| 0 <= j < passed - 1 implies transform.outputs(
            #[trigger] rest[j],
            words,
        ).len() == 0 by {
            assert(rest[j] == domains[j + 1]);
        }
        lemma_barren_skip(transform, rest, words, passed - 1);
        assert(rest.skip(passed - 1) =~= domains.skip(passed));
        let none = transform.outputs(domains[0], words);
        assert(none.reverse() + stage_outputs(transform, rest, words) =~= stage_outputs(
            transform,
            rest,
            words,
        ));
    }
}

/// A mutation, the domains it has not expanded yet, the words, and what is
/// left of the batch of the domain it expanded last.
pub struct RipGenTransform<'manager, 'domain> {
    domains: &'manager [DomainComponents<'domain>],
    words: &'manager [&'domain str],
    result_pool: Vec<String>,
    transform: Mutation,
}

impl<'manager, 'domain> RipGenTransform<'manager, 'domain> {
    /// The mutation that this stage is bound to.
    pub closed spec fn mutation(&self) -> Mutation {
        self.transform
    }

    /// The names in the buffer, the one that is handed out next first.
    pub closed spec fn buffered(&self) -> Seq<Seq<char>> {
        self.result_pool.deep_view().reverse()
    }

    /// What a stage still yields: what is in its buffer, then all that its
    /// mutation makes of the domains that its cursor has not passed.
    pub proof fn lemma_remaining(&self)
        ensures
            self.remaining() == self.buffered() + stage_outputs(
                self.mutation(),
                self.domains_left(),
                self.word_list(),
            ),
    {
    }

    /// A stage of `transform` that has yielded nothing yet.
    pub fn new(
        domains: &'manager [DomainComponents<'domain>],
        words: &'manager [&'domain str],
        transform: Mutation,
    ) -> (r: Self)
        ensures
            r.remaining() == stage_outputs(transform, domains.deep_view(), words.deep_view()),
            r.has_cursors(),
            r.mutation() == transform,
            r.buffered() == Seq::<Seq<char>>::empty(),
            r.domains_left() == domains.deep_view(),
            r.word_list() == words.deep_view(),
    {
        let r = Self { domains, words, result_pool: Vec::with_capacity(1024 * 4), transform };
        proof {
            assert(r.result_pool.deep_view().reverse() =~= Seq::<Seq<char>>::empty());
        }
        r
    }
}

impl<'manager, 'domain> RipGenIterator<'manager, 'domain> for RipGenTransform<'manager, 'domain> {
    closed spec fn remaining(&self) -> Seq<Seq<char>> {
        self.result_pool.deep_view().reverse() + stage_outputs(
            self.transform,
            self.domains.deep_view(),
            self.words.deep_view(),
        )
    }

    open spec fn has_cursors(&self) -> bool {
        true
    }

    closed spec fn domains_left(&self) -> Seq<Seq<Seq<char>>> {
        self.domains.deep_view()
    }

    closed spec fn word_list(&self) -> Seq<Seq<char>> {
        self.words.deep_view()
    }

    /// The mutation and the words stay. While the buffer holds a name, its
    /// front is handed out and the domain cursor rests. From an empty buffer
    /// the cursor passes the domains that give no name and the first one
    /// that gives any, whose batch but for the name handed out is the buffer
    /// afterwards; where no domain gives a name the cursor ends behind the
    /// last one and the buffer is empty.
    open spec fn steps_to(&self, now: Self, r: Option<String>) -> bool {
        let waiting = self.domains_left();
        let barren = barren_front(self.mutation(), waiting, self.word_list()) as int;
        &&& now.mutation() == self.mutation()
        &&& now.word_list() == self.word_list()
        &&& if self.buffered().len() > 0 {
            &&& now.buffered() == self.buffered().drop_first()
            &&& now.domains_left() == waiting
        } else if barren < waiting.len() {
            &&& now.domains_left() == waiting.skip(barren + 1)
            &&& now.buffered() == self.mutation().outputs(
                waiting[barren],
                self.word_list(),
            ).reverse().drop_first()
        } else {
            &&& now.domains_left().len() == 0
            &&& now.buffered().len() == 0
        }
    }

    /// Besides what holds of every such iterator: when the end is reported
    /// the domain cursor is past the last domain and the buffer is empty.
    fn next(&mut self) -> (r: Option<String>)
        ensures
            r is None ==> final(self).domains_left().len() == 0 && final(self).buffered().len()
                == 0,
    {
        let ghost waiting = self.domains.deep_view();
        let ghost words = self.words.deep_view();
        if let Some(next) = self.result_pool.pop() {
            proof {
                let pool = old(self).result_pool.deep_view();
                assert(self.result_pool.deep_view() =~= pool.drop_last());
                assert(pool.reverse().drop_first() =~= pool.drop_last().reverse());
                assert(old(self).remaining().drop_first() =~= self.remaining());
            }
            return Some(next);
        }
        let ghost mut passed: int = 0;
        proof {
            assert(self.result_pool.deep_view().reverse() =~= Seq::<Seq<char>>::empty());
            assert(waiting.skip(0) =~= waiting);
        }
        loop
            invariant
                self.result_pool@.len() == 0,
                old(self).result_pool@.len() == 0,
                self.remaining() == old(self).remaining(),
                self.words == old(self).words,
                self.transform == old(self).transform,
                waiting == old(self).domains.deep_view(),
                words == self.words.deep_view(),
                0 <= passed <= waiting.len(),
                self.domains.deep_view() == waiting.skip(passed),
                forall|j: int|
                    0 <= j < passed ==> self.transform.outputs(#[trigger] waiting[j], words).len()
                        == 0,
            decreases self.domains@.len(),
        {
            let n: usize = self.domains.len();
            proof {
                lemma_barren_skip(self.transform, waiting, words, passed);
                assert(self.result_pool.deep_view().reverse() =~= Seq::<Seq<char>>::empty());
                assert(old(self).result_pool.deep_view().reverse() =~= Seq::<Seq<char>>::empty());
            }
            if n == 0 {
                return None;
            }
            let ghost before = self.remaining();
            let ghost left = self.domains.deep_view();
            let domain = &self.domains[0];
            let mut batch = self.transform.generate(domain, self.words);
            self.domains = &self.domains[1..n];
            let ghost made = self.transform.outputs(left[0], words);
            proof {
                assert(left[0] == waiting[passed]);
                assert(self.domains.deep_view() =~= left.drop_first());
                assert(left.drop_first() =~= waiting.skip(passed + 1));
            }
            self.result_pool.append(&mut batch);
            proof {
                assert(self.result_pool.deep_view() =~= made);
                assert(self.remaining() =~= before);
            }
            if let Some(result) = self.result_pool.pop() {
                proof {
                    assert(self.result_pool.deep_view() =~= made.drop_last());
                    assert(made.reverse().drop_first() =~= made.drop_last().reverse());
                    assert(before.drop_first() =~= self.remaining());
                }
                return Some(result);
            }
            proof {
                passed = passed + 1;
            }
        }
    }

    fn get_domains_iter(&self) -> (r: &'manager [DomainComponents<'domain>]) {
        self.domains
    }

    fn get_words_iter(&self) -> (r: &'manager [&'domain str]) {
        self.words
    }
}

} // verus!

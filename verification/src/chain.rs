//! What a stage and a chain of stages have in common, and the chain itself.

use crate::dnsgen::Mutation;
use crate::domain::DomainComponents;
use crate::transform::{stage_outputs, RipGenTransform};
use std::marker::PhantomData;
use vstd::prelude::*;

verus! {

/// Describes an iterator that can be a part of a [RipGenChain](crate::RipGenChain).
///
/// Such an iterator is a sequence of names of which the front one is pulled
/// at a time, together with the two cursors that a further stage starts from.
pub trait RipGenIterator<'manager, 'domain>: Sized {
    /// The names that are still to come, the next one first.
    spec fn remaining(&self) -> Seq<Seq<char>>;

    /// Whether there is still a side to take the cursors from.
    spec fn has_cursors(&self) -> bool;

    /// The domains that the domain cursor has not passed yet.
    spec fn domains_left(&self) -> Seq<Seq<Seq<char>>>;

    /// The words under the word cursor.
    spec fn word_list(&self) -> Seq<Seq<char>>;

    /// What a pull that gives `r` and leaves `now` does to the inside of
    /// this iterator: where its cursors stand afterwards and what it has
    /// dropped. Each kind of iterator says it of itself.
    spec fn steps_to(&self, now: Self, r: Option<String>) -> bool;

    /// Pulls the next name: the front of what remained, of which the rest
    /// remains; `None` once nothing remains, and from then on.
    fn next(&mut self) -> (r: Option<String>)
        ensures
            match r {
                Some(name) => old(self).remaining().len() > 0 && name@ == old(self).remaining()[0]
                    && final(self).remaining() == old(self).remaining().drop_first(),
                None => old(self).remaining().len() == 0 && final(self).remaining().len() == 0,
            },
            r is Some ==> final(self).has_cursors(),
            old(self).steps_to(*final(self), r),
    ;

    /// Returns an iterator over the underlying [DomainComponents](crate::DomainComponents).
    fn get_domains_iter(&self) -> (r: &'manager [DomainComponents<'domain>])
        requires
            self.has_cursors(),
        ensures
            r.deep_view() == self.domains_left(),
    ;

    /// Returns an iterator over the underlying wordlist.
    fn get_words_iter(&self) -> (r: &'manager [&'domain str])
        requires
            self.has_cursors(),
        ensures
            r.deep_view() == self.word_list(),
    ;
}

/// Pulls names from `iter` until `limit` are had or none remain. What is
/// had is the front of what remained, in order, and the rest remains: to
/// stop early and go on later, or never, changes no name and no order.
pub fn pull_names<'manager, 'domain, I: RipGenIterator<'manager, 'domain>>(
    iter: &mut I,
    limit: usize,
) -> (r: Vec<String>)
    ensures
        r@.len() == if limit <= old(iter).remaining().len() {
            limit as int
        } else {
            old(iter).remaining().len() as int
        },
        r.deep_view() == old(iter).remaining().take(r@.len() as int),
        final(iter).remaining() == old(iter).remaining().skip(r@.len() as int),
{
    let ghost all = iter.remaining();
    let mut names: Vec<String> = Vec::new();
    proof {
        assert(names.deep_view() =~= all.take(0));
        assert(all.skip(0) =~= all);
    }
    while names.len() < limit
        invariant
            all == old(iter).remaining(),
            names@.len() <= limit,
            names@.len() <= all.len(),
            names.deep_view() == all.take(names@.len() as int),
            iter.remaining() == all.skip(names@.len() as int),
        decreases limit - names@.len(),
    {
        let ghost had = names.deep_view();
        let ghost count = names@.len() as int;
        match iter.next() {
            Some(name) => {
                names.push(name);
                proof {
                    assert(names.deep_view() =~= had.push(name@));
                    assert(all.take(count + 1) =~= all.take(count).push(all[count]));
                    assert(all.skip(count).drop_first() =~= all.skip(count + 1));
                }
            },
            None => {
                return names;
            },
        }
    }
    names
}

/// Chaining, for everything that is a [RipGenIterator].
pub trait ChainTransform<'manager, 'domain>: RipGenIterator<'manager, 'domain> {
    /// Chain this `RipGenIterator` with another `RipGenIterator` over the specified transform.
    ///
    /// The new stage starts from the cursors of this one. The chain yields
    /// what was left of this one, then all that the new stage yields.
    fn chain_transform(
        self,
        transform: Mutation,
    ) -> (r: RipGenChain<'manager, 'domain, Self, RipGenTransform<'manager, 'domain>>)
        requires
            self.has_cursors(),
        ensures
            r.remaining() == self.remaining() + stage_outputs(
                transform,
                self.domains_left(),
                self.word_list(),
            ),
            r.has_cursors(),
            r.domains_left() == self.domains_left(),
            r.word_list() == self.word_list(),
    ;
}

impl<'manager, 'domain, T> ChainTransform<'manager, 'domain> for T
where
    T: RipGenIterator<'manager, 'domain>,
{
    fn chain_transform(
        self,
        transform: Mutation,
    ) -> (r: RipGenChain<'manager, 'domain, Self, RipGenTransform<'manager, 'domain>>) {
        let domain_transform = RipGenTransform::new(
            self.get_domains_iter(),
            self.get_words_iter(),
            transform,
        );
        RipGenChain::new(self, domain_transform)
    }
}

/// Two iterators end to end: the left one is drained before the right one is
/// asked. A side that has reported its end is dropped for good.
pub struct RipGenChain<'manager, 'domain, L, R>
where
    L: RipGenIterator<'manager, 'domain>,
    R: RipGenIterator<'manager, 'domain>,
{
    left: Option<L>,
    right: Option<R>,
    manager_phantom: PhantomData<&'manager ()>,
    domain_phantom: PhantomData<&'domain ()>,
}

/// What a side still has to give: nothing once it is dropped.
pub open spec fn side_remaining<'manager, 'domain, S: RipGenIterator<'manager, 'domain>>(
    side: Option<S>,
) -> Seq<Seq<char>> {
    match side {
        Some(inner) => inner.remaining(),
        None => Seq::empty(),
    }
}

/// A side is held and still has a name to give.
pub open spec fn side_live<'manager, 'domain, S: RipGenIterator<'manager, 'domain>>(
    side: Option<S>,
) -> bool {
    side matches Some(inner) && inner.remaining().len() > 0
}

impl<'manager, 'domain, L, R> RipGenChain<'manager, 'domain, L, R>
where
    L: RipGenIterator<'manager, 'domain>,
    R: RipGenIterator<'manager, 'domain>,
{
    /// The left side, or `None` once it is dropped.
    pub closed spec fn left(&self) -> Option<L> {
        self.left
    }

    /// The right side, or `None` once it is dropped.
    pub closed spec fn right(&self) -> Option<R> {
        self.right
    }

    /// This chain holds `left` and `right`, neither dropped.
    pub open spec fn joins(&self, left: L, right: R) -> bool {
        self.left() == Some(left) && self.right() == Some(right)
    }

    /// Puts `right` behind `left`.
    pub fn new(left: L, right: R) -> (r: Self)
        ensures
            r.joins(left, right),
            r.remaining() == left.remaining() + right.remaining(),
            r.has_cursors() == left.has_cursors(),
            r.domains_left() == left.domains_left(),
            r.word_list() == left.word_list(),
    {
        Self {
            left: Some(left),
            right: Some(right),
            manager_phantom: PhantomData,
            domain_phantom: PhantomData,
        }
    }

    /// The chain law: a chain of `left` and `right` yields all that `left`
    /// yields and then all that `right` yields, nothing between and nothing
    /// out of order. Since each pull takes the front of what remains and
    /// leaves the rest, this holds of a chain that is drained and of one that
    /// is left after any number of pulls.
    pub proof fn lemma_chain_law(self, left: L, right: R)
        requires
            self.joins(left, right),
        ensures
            self.remaining() == left.remaining() + right.remaining(),
    {
    }
}

/// Chaining is associative in what it yields: three iterators chained give
/// the same names in the same order whichever two are chained first.
pub proof fn lemma_chain_associative<'manager, 'domain, A, B, C>(
    a: A,
    b: B,
    c: C,
    ab: RipGenChain<'manager, 'domain, A, B>,
    bc: RipGenChain<'manager, 'domain, B, C>,
    ab_c: RipGenChain<'manager, 'domain, RipGenChain<'manager, 'domain, A, B>, C>,
    a_bc: RipGenChain<'manager, 'domain, A, RipGenChain<'manager, 'domain, B, C>>,
) where
    A: RipGenIterator<'manager, 'domain>,
    B: RipGenIterator<'manager, 'domain>,
    C: RipGenIterator<'manager, 'domain>,

    requires
        ab.joins(a, b),
        bc.joins(b, c),
        ab_c.joins(ab, c),
        a_bc.joins(a, bc),
    ensures
        ab_c.remaining() == a_bc.remaining(),
        ab_c.remaining() == a.remaining() + b.remaining() + c.remaining(),
{
    ab.lemma_chain_law(a, b);
    bc.lemma_chain_law(b, c);
    ab_c.lemma_chain_law(ab, c);
    a_bc.lemma_chain_law(a, bc);
    assert((a.remaining() + b.remaining()) + c.remaining() =~= a.remaining() + (b.remaining()
        + c.remaining()));
}

impl<'manager, 'domain, L, R> RipGenIterator<'manager, 'domain>
    for RipGenChain<'manager, 'domain, L, R>
where
    L: RipGenIterator<'manager, 'domain>,
    R: RipGenIterator<'manager, 'domain>,
{
    open spec fn remaining(&self) -> Seq<Seq<char>> {
        side_remaining(self.left()) + side_remaining(self.right())
    }

    /// The cursors are those of the left side while it is held, and those
    /// of the right side after that.
    open spec fn has_cursors(&self) -> bool {
        match self.left() {
            Some(inner) => inner.has_cursors(),
            None => match self.right() {
                Some(inner) => inner.has_cursors(),
                None => false,
            },
        }
    }

    open spec fn domains_left(&self) -> Seq<Seq<Seq<char>>> {
        match self.left() {
            Some(inner) => inner.domains_left(),
            None => match self.right() {
                Some(inner) => inner.domains_left(),
                None => Seq::empty(),
            },
        }
    }

    open spec fn word_list(&self) -> Seq<Seq<char>> {
        match self.left() {
            Some(inner) => inner.word_list(),
            None => match self.right() {
                Some(inner) => inner.word_list(),
                None => Seq::empty(),
            },
        }
    }

    /// While the left side has a name to give, the pull is a pull of the
    /// left side and the right side is as it was. Else the left side is
    /// dropped, if it was still held; the pull is then a pull of the right
    /// side while that has a name to give, and else the right side is
    /// dropped too and the end is reported.
    open spec fn steps_to(&self, now: Self, r: Option<String>) -> bool {
        if side_live(self.left()) {
            &&& now.right() == self.right()
            &&& now.left() matches Some(inner)
            &&& self.left()->0.steps_to(inner, r)
        } else if side_live(self.right()) {
            &&& now.left() is None
            &&& now.right() matches Some(inner)
            &&& self.right()->0.steps_to(inner, r)
        } else {
            &&& now.left() is None
            &&& now.right() is None
            &&& r is None
        }
    }

    /// Besides what holds of every such iterator: once the end is reported
    /// both sides are dropped, and no cursor can be had any more.
    fn next(&mut self) -> (r: Option<String>)
        ensures
            r is None ==> final(self).left() is None && final(self).right() is None,
    {
        if let Some(inner) = &mut self.left {
            if let Some(output) = inner.next() {
                return Some(output);
            }
            self.left = None;
        }
        if let Some(inner) = &mut self.right {
            if let Some(output) = inner.next() {
                return Some(output);
            }
            self.right = None;
        }
        None
    }

    fn get_domains_iter(&self) -> (r: &'manager [DomainComponents<'domain>]) {
        match &self.left {
            Some(inner) => inner.get_domains_iter(),
            None => match &self.right {
                Some(inner) => inner.get_domains_iter(),
                None => vstd::pervasive::unreached(),
            },
        }
    }

    fn get_words_iter(&self) -> (r: &'manager [&'domain str]) {
        match &self.left {
            Some(inner) => inner.get_words_iter(),
            None => match &self.right {
                Some(inner) => inner.get_words_iter(),
                None => vstd::pervasive::unreached(),
            },
        }
    }
}

} // verus!

//! A domain taken apart: its subdomain labels, and its registrable root in
//! one last slot.

use crate::error::RipGenError;
use crate::text::{
    contains, dot, join, lemma_join_split, lemma_nonempty_keeps, nonempty, occurs_at, split,
    split_str,
};
use vstd::prelude::*;
use vstd::string::StrSliceExecFns;
use vstd::utf8::encode_utf8;

verus! {

/// What `addr::error::Error` is: the reason a name was refused, with the name.
#[verifier::external_type_specification]
#[verifier::external_body]
pub struct ExAddrError<'a>(addr::error::Error<'a>);

/// `name` without the one dot that may end it.
pub open spec fn name_body(name: Seq<char>) -> Seq<char> {
    if name.len() > 0 && name.last() == '.' {
        name.drop_last()
    } else {
        name
    }
}

/// The labels of `name`: the pieces between the dots of its body.
pub open spec fn name_labels(name: Seq<char>) -> Seq<Seq<char>> {
    split(name_body(name), '.')
}

/// The names that `addr::parse_dns_name` accepts: not empty, no two dots in a
/// row, and, a last dot set aside, at most 253 bytes in all and at most 63 in
/// each label.
pub open spec fn dns_name_syntax(name: Seq<char>) -> bool {
    &&& name.len() > 0
    &&& !contains(name, seq!['.', '.'])
    &&& encode_utf8(name_body(name)).len() <= 253
    &&& forall|k: int|
        0 <= k < name_labels(name).len() ==> encode_utf8(#[trigger] name_labels(name)[k]).len()
            <= 63
}

/// The registrable root that the `addr` crate finds in an accepted name by
/// its public suffix list: the suffix and the one label before it. `None`
/// where it finds none, as for a name that is a suffix itself.
pub uninterp spec fn registrable_root(domain: Seq<char>) -> Option<Seq<char>>;

/// `root` is the end of `domain` and begins where a label begins.
pub open spec fn ends_at_label(domain: Seq<char>, root: Seq<char>) -> bool {
    &&& root.len() <= domain.len()
    &&& domain.skip(domain.len() - root.len()) == root
    &&& root.len() < domain.len() ==> domain[domain.len() - root.len() - 1] == '.'
}

/// Calls `addr::parse_dns_name` and, on the name it gives, `Name::root`.
/// The contract says when the name is accepted, which is the crate's check
/// of the syntax and stated in full; that the root is the crate's, which
/// `registrable_root` names; and that a root is cut from the end of the name
/// at the start of a label, as `Name::root` slices it.
#[verifier::external_body]
fn lookup_root<'a>(domain: &'a str) -> (r: Result<Option<&'a str>, addr::error::Error<'a>>)
    ensures
        r is Ok <==> dns_name_syntax(domain@),
        r matches Ok(found) ==> (match found {
            Some(root) => registrable_root(domain@) == Some(root@),
            None => registrable_root(domain@) is None,
        }),
        r matches Ok(Some(root)) ==> ends_at_label(domain@, root@),
{
    match addr::parse_dns_name(domain) {
        Ok(name) => Ok(name.root()),
        Err(e) => Err(e),
    }
}

/// How many characters at the end of `domain` are its root when `found` is
/// the registrable root that was found in it: as many as that root has, or
/// all of them where none was found.
pub open spec fn root_len_for(domain: Seq<char>, found: Option<Seq<char>>) -> int {
    match found {
        Some(root) => root.len() as int,
        None => domain.len() as int,
    }
}

/// How many characters at the end of an accepted name are its root: the
/// registrable root where there is one, else the whole name.
pub open spec fn root_len(domain: Seq<char>) -> int {
    root_len_for(domain, registrable_root(domain))
}

/// The characters of a string slice that may be absent.
pub open spec fn text_of(found: Option<&str>) -> Option<Seq<char>> {
    match found {
        Some(text) => Some(text@),
        None => None,
    }
}

/// The components of `domain` when its last `root_len` characters are the
/// root: what stands before the root is split at dots, empty pieces are
/// dropped, and the root takes the last slot whole.
pub open spec fn decompose(domain: Seq<char>, root_len: int) -> Seq<Seq<char>> {
    let at = domain.len() - root_len;
    nonempty(split(domain.take(at), '.')).push(domain.skip(at))
}

/// No dot in `s` is followed by another.
pub open spec fn no_double_dot(s: Seq<char>) -> bool {
    forall|i: int| 0 <= i < s.len() - 1 ==> !((#[trigger] s[i]) == '.' && s[i + 1] == '.')
}

/// `prefix` is a row of labels, none empty, each followed by a dot.
pub open spec fn dotted_labels(prefix: Seq<char>) -> bool {
    prefix.len() == 0 || (prefix.last() == '.' && forall|k: int|
        0 <= k < split(prefix.drop_last(), '.').len() ==> (#[trigger] split(
            prefix.drop_last(),
            '.',
        )[k]).len() > 0)
}

/// The characters of each of `items`.
pub open spec fn texts(items: Seq<&str>) -> Seq<Seq<char>> {
    Seq::new(items.len(), |i: int| items[i]@)
}

/// Contains the byproduct of parsing a domain: the labels before the root,
/// left to right, and the root itself as the last component.
pub struct DomainComponents<'domain> {
    components: Vec<&'domain str>,
}

impl<'domain> View for DomainComponents<'domain> {
    type V = Seq<Seq<char>>;

    closed spec fn view(&self) -> Seq<Seq<char>> {
        self.components.deep_view()
    }
}

impl<'domain> DeepView for DomainComponents<'domain> {
    type V = Seq<Seq<char>>;

    open spec fn deep_view(&self) -> Seq<Seq<char>> {
        self@
    }
}

impl<'domain> DomainComponents<'domain> {
    /// There is always a root.
    #[verifier::type_invariant]
    pub closed spec fn well_formed(&self) -> bool {
        self.components@.len() >= 1
    }

    /// Returns an iterator that contains all of the names in the subdomains.
    pub fn subdomains_iter(&self) -> (r: std::slice::Iter<'_, &'domain str>)
        ensures
            texts(vstd::std_specs::slice::into_iter_elts(r)) == self@.drop_last(),
    {
        let r = self.subdomains().iter();
        proof {
            assert(texts(vstd::std_specs::slice::into_iter_elts(r)) =~= self@.drop_last());
        }
        r
    }

    /// Returns an iterator that contains all of the names in the domain.
    /// The root is treated as the public suffix and therefore entirely occupies the last slot.
    pub fn all_iter(&self) -> (r: std::slice::Iter<'_, &'domain str>)
        ensures
            texts(vstd::std_specs::slice::into_iter_elts(r)) == self@,
    {
        let r = self.all().iter();
        proof {
            assert(texts(vstd::std_specs::slice::into_iter_elts(r)) =~= self@);
        }
        r
    }

    /// Returns the number of subdomain names + 1 (for root)
    pub fn count(&self) -> (r: usize)
        ensures
            r == self@.len(),
            r >= 1,
    {
        proof {
            use_type_invariant(self);
        }
        self.components.len()
    }

    /// Returns a slice of the inner domain components that represent the subdomain names
    pub fn subdomains(&self) -> (r: &[&'domain str])
        ensures
            r.deep_view() == self@.drop_last(),
    {
        proof {
            use_type_invariant(self);
        }
        let all = self.components.as_slice();
        let n: usize = all.len();
        let r = &all[0..n - 1];
        proof {
            assert(r.deep_view() =~= self@.drop_last());
        }
        r
    }

    /// Returns the root
    pub fn root(&self) -> (r: &'domain str)
        ensures
            self@.len() >= 1,
            r@ == self@.last(),
    {
        proof {
            use_type_invariant(self);
        }
        self.components[self.components.len() - 1]
    }

    /// Returns a slice with all domain components in it. This includes the root element.
    pub fn all(&self) -> (r: &[&'domain str])
        ensures
            r.deep_view() == self@,
            r@.len() >= 1,
    {
        proof {
            use_type_invariant(self);
        }
        let r = self.components.as_slice();
        proof {
            assert(r.deep_view() =~= self@);
        }
        r
    }

    /// Takes `domain` apart when `root` is the registrable root found in it:
    /// as many characters as `root` has are cut from the end of `domain` and
    /// are the root; with no root the whole of `domain` is. The components
    /// borrow from `domain`.
    pub fn with_root(domain: &'domain str, root: Option<&str>) -> (r: Self)
        requires
            root matches Some(found) ==> found@.len() <= domain@.len(),
        ensures
            r@ == decompose(domain@, root_len_for(domain@, text_of(root))),
    {
        let total: usize = domain.unicode_len();
        let root_len: usize = match root {
            Some(found) => found.unicode_len(),
            None => total,
        };
        let root_start: usize = total - root_len;
        let prefix: &'domain str = domain.substring_char(0, root_start);
        let root_text: &'domain str = domain.substring_char(root_start, total);
        let pieces = split_str(prefix, '.');
        let ghost labels = pieces.deep_view();
        let mut components: Vec<&'domain str> = Vec::new();
        let n: usize = pieces.len();
        let mut i: usize = 0;
        proof {
            assert(labels.take(0) =~= Seq::<Seq<char>>::empty());
            assert(components.deep_view() =~= Seq::<Seq<char>>::empty());
        }
        while i < n
            invariant
                n == pieces@.len(),
                labels == pieces.deep_view(),
                i <= n,
                components.deep_view() == nonempty(labels.take(i as int)),
            decreases n - i,
        {
            let ghost kept = components.deep_view();
            proof {
                assert(labels.take(i + 1).drop_last() =~= labels.take(i as int));
                assert(labels.take(i + 1).last() == pieces@[i as int]@);
            }
            let elem: &'domain str = pieces[i];
            if !elem.is_empty() {
                components.push(elem);
                proof {
                    assert(components.deep_view() =~= kept.push(elem@));
                }
            }
            i += 1;
        }
        let ghost kept = components.deep_view();
        components.push(root_text);
        proof {
            assert(labels.take(n as int) =~= labels);
            assert(components.deep_view() =~= kept.push(root_text@));
            assert(domain@.subrange(0, root_start as int) =~= domain@.take(root_start as int));
            assert(domain@.subrange(root_start as int, total as int) =~= domain@.skip(
                root_start as int,
            ));
        }
        DomainComponents { components }
    }
}

impl<'domain> Clone for DomainComponents<'domain> {
    /// The same components over the same text.
    fn clone(&self) -> (r: Self)
        ensures
            r@ == self@,
    {
        proof {
            use_type_invariant(self);
        }
        let n: usize = self.components.len();
        let mut components: Vec<&'domain str> = Vec::with_capacity(n);
        let mut i: usize = 0;
        while i < n
            invariant
                n == self.components@.len(),
                i <= n,
                components@ == self.components@.take(i as int),
            decreases n - i,
        {
            components.push(self.components[i]);
            proof {
                assert(self.components@.take(i + 1) =~= self.components@.take(i as int).push(
                    self.components@[i as int],
                ));
            }
            i += 1;
        }
        proof {
            assert(self.components@.take(n as int) =~= self.components@);
            assert(components.deep_view() =~= self.components.deep_view());
        }
        DomainComponents { components }
    }
}

impl<'domain> vstd::std_specs::convert::TryFromSpecImpl<&'domain str> for DomainComponents<'domain> {
    /// The conversion is described by the contract of `try_from` itself.
    open spec fn obeys_try_from_spec() -> bool {
        false
    }

    open spec fn try_from_spec(domain: &'domain str) -> Result<Self, RipGenError> {
        arbitrary()
    }
}

impl<'domain> TryFrom<&'domain str> for DomainComponents<'domain> {
    type Error = RipGenError;

    /// Parses a domain. It is refused exactly when it is no DNS name by its
    /// syntax; the error holds it. Else the registrable root takes the last
    /// slot, or the whole name where it has no such root. The components
    /// joined by dots give the name back, unless it begins with a dot that
    /// stands before its root.
    fn try_from(domain: &'domain str) -> (r: Result<Self, RipGenError>)
        ensures
            r is Ok <==> dns_name_syntax(domain@),
            r matches Ok(parsed) ==> {
                &&& 0 <= root_len(domain@) <= domain@.len()
                &&& parsed@ == decompose(domain@, root_len(domain@))
                &&& (domain@[0] != '.' || root_len(domain@) == domain@.len()) ==> join(
                    parsed@,
                    dot(),
                ) == domain@
            },
            r matches Err(e) ==> e.input() == domain@,
    {
        let found = match lookup_root(domain) {
            Ok(found) => found,
            Err(_) => {
                return Err(RipGenError::ErrorParsingDomain(domain.to_owned()));
            },
        };
        let parsed = DomainComponents::with_root(domain, found);
        proof {
            assert(text_of(found) == registrable_root(domain@));
            if root_len(domain@) == domain@.len() {
                lemma_rejoin(domain@, root_len(domain@));
            } else if domain@[0] != '.' {
                lemma_accepted_prefix(domain@, root_len(domain@));
                lemma_rejoin(domain@, root_len(domain@));
            }
        }
        Ok(parsed)
    }
}

/// The law of rejoining: where what stands before the root is a row of
/// labels, none empty, each followed by a dot, the components joined by dots
/// are the domain again. It fails of other domains: one that begins with a
/// dot loses it.
pub proof fn lemma_rejoin(domain: Seq<char>, root_len: int)
    requires
        0 <= root_len <= domain.len(),
        dotted_labels(domain.take(domain.len() - root_len)),
    ensures
        join(decompose(domain, root_len), dot()) == domain,
{
    let at = domain.len() - root_len;
    let prefix = domain.take(at);
    let root = domain.skip(at);
    if prefix.len() == 0 {
        let pieces = split(prefix, '.');
        assert(pieces =~= seq![Seq::<char>::empty()]);
        assert(pieces.drop_last() =~= Seq::<Seq<char>>::empty());
        assert(pieces.last().len() == 0);
        assert(nonempty(pieces.drop_last()) =~= Seq::<Seq<char>>::empty());
        assert(nonempty(pieces) =~= Seq::<Seq<char>>::empty());
        assert(decompose(domain, root_len) =~= seq![root]);
        assert(root =~= domain);
    } else {
        let body = prefix.drop_last();
        let labels = split(body, '.');
        lemma_join_split(body, '.');
        lemma_nonempty_keeps(labels);
        assert(split(prefix, '.') == labels.push(Seq::empty()));
        assert(labels.push(Seq::<char>::empty()).drop_last() =~= labels);
        assert(nonempty(split(prefix, '.')) == labels);
        let all = labels.push(root);
        assert(all.drop_last() =~= labels);
        assert(join(all, dot()) == join(labels, dot()) + dot() + root);
        assert(body + dot() =~= prefix);
        assert(prefix + root =~= domain);
    }
}

/// In text without two dots in a row that does not begin with a dot, every
/// piece between dots but the last is non-empty, and the last is empty only
/// where the text is empty or ends in a dot.
pub proof fn lemma_split_labels(s: Seq<char>)
    requires
        no_double_dot(s),
        s.len() > 0 ==> s[0] != '.',
    ensures
        forall|k: int| 0 <= k < split(s, '.').len() - 1 ==> (#[trigger] split(s, '.')[k]).len() > 0,
        split(s, '.').len() >= 1,
        split(s, '.').last().len() == 0 <==> (s.len() == 0 || s.last() == '.'),
    decreases s.len(),
{
    if s.len() > 0 {
        let t = s.drop_last();
        assert(no_double_dot(t)) by {
            assert forall|i: int| 0 <= i < t.len() - 1 implies !((#[trigger] t[i]) == '.' && t[i
                + 1] == '.') by {
                assert(t[i] == s[i] && t[i + 1] == s[i + 1]);
            }
        }
        lemma_split_labels(t);
        if s.last() == '.' && t.len() > 0 {
            assert(s[t.len() - 1] == t.last());
        }
    }
}

/// Text in which the pair of dots does not occur has no dot followed by
/// another.
pub proof fn lemma_no_double_dot(s: Seq<char>)
    requires
        !contains(s, seq!['.', '.']),
    ensures
        no_double_dot(s),
{
    assert forall|i: int| 0 <= i < s.len() - 1 implies !((#[trigger] s[i]) == '.' && s[i + 1]
        == '.') by {
        if s[i] == '.' && s[i + 1] == '.' {
            assert(s.subrange(i, i + 2) =~= seq!['.', '.']);
            assert(occurs_at(s, seq!['.', '.'], i));
        }
    }
}

/// What stands before the root of an accepted name that does not begin with
/// a dot is a row of non-empty labels, each followed by a dot.
pub proof fn lemma_accepted_prefix(domain: Seq<char>, root_len: int)
    requires
        dns_name_syntax(domain),
        domain[0] != '.',
        0 <= root_len <= domain.len(),
        root_len < domain.len() ==> domain[domain.len() - root_len - 1] == '.',
    ensures
        dotted_labels(domain.take(domain.len() - root_len)),
{
    let at = domain.len() - root_len;
    let prefix = domain.take(at);
    if prefix.len() > 0 {
        let body = prefix.drop_last();
        lemma_no_double_dot(domain);
        assert(no_double_dot(body)) by {
            assert forall|i: int| 0 <= i < body.len() - 1 implies !((#[trigger] body[i]) == '.'
                && body[i + 1] == '.') by {
                assert(body[i] == domain[i] && body[i + 1] == domain[i + 1]);
            }
        }
        if body.len() > 0 {
            assert(body[0] == domain[0]);
            assert(body.last() == domain[at - 2]);
        }
        lemma_split_labels(body);
    }
}

} // verus!

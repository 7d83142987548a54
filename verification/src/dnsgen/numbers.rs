//! Numbers: every run of digits among the subdomain labels is moved down and
//! up by one, two and three.

use crate::domain::DomainComponents;
use crate::text::{
    all_end_with, cut, cut_str, decimal, decimal_value, dot, ends_with, join, join_strs,
    lemma_ends_with_concat, parse_decimal, u64_to_decimal,
};
use vstd::prelude::*;
use vstd::string::StringExecFns;

verus! {

/// What `regex::Error` is: the reason a pattern was not compiled.
#[verifier::external_type_specification]
#[verifier::external_body]
pub struct ExRegexError(regex::Error);

/// The matches of `pattern` in `haystack` as the `regex` crate finds them,
/// left to right and not overlapping, each as the byte offsets of its start
/// and its end; `None` where the crate refuses the pattern.
pub uninterp spec fn regex_find_all(
    pattern: Seq<char>,
    haystack: Seq<char>,
) -> Option<Seq<(usize, usize)>>;

/// Compiles `pattern` with `regex::Regex::new` and walks `haystack` with
/// `Regex::find_iter`, keeping `Match::start` and `Match::end` of each match.
/// Nothing is claimed of the matches but that they are the crate's, which
/// `regex_find_all` names.
#[verifier::external_body]
fn find_all(pattern: &str, haystack: &str) -> (r: Result<Vec<(usize, usize)>, regex::Error>)
    ensures
        match r {
            Ok(found) => regex_find_all(pattern@, haystack@) == Some(found@),
            Err(_) => regex_find_all(pattern@, haystack@) is None,
        },
{
    let re = regex::Regex::new(pattern)?;
    Ok(re.find_iter(haystack).map(|m| (m.start(), m.end())).collect())
}

/// The pattern for a run of one to three digits.
pub open spec fn digit_pattern() -> Seq<char> {
    "\\d{1,3}"@
}

/// The names made from a run that reads `n` by moving it `offset` down, if
/// that does not pass zero, and `offset` up, if that fits in 64 bits.
pub open spec fn shifted(
    before: Seq<char>,
    after: Seq<char>,
    root: Seq<char>,
    n: nat,
    offset: nat,
) -> Seq<Seq<char>> {
    let down = if n >= offset {
        seq![before + decimal((n - offset) as nat) + after + dot() + root]
    } else {
        Seq::empty()
    };
    let up = if n + offset <= u64::MAX {
        seq![before + decimal(n + offset) + after + dot() + root]
    } else {
        Seq::empty()
    };
    down + up
}

/// The names for the offsets one to `last`, smallest offset first.
pub open spec fn shifted_up_to(
    before: Seq<char>,
    after: Seq<char>,
    root: Seq<char>,
    n: nat,
    last: nat,
) -> Seq<Seq<char>>
    decreases last,
{
    if last == 0 {
        Seq::empty()
    } else {
        shifted_up_to(before, after, root, n, (last - 1) as nat) + shifted(
            before,
            after,
            root,
            n,
            last,
        )
    }
}

/// The names that one run gives: none where its offsets do not cut `text`
/// at characters, or where what lies between them is no decimal number of
/// 64 bits.
pub open spec fn run_variants(
    text: Seq<char>,
    root: Seq<char>,
    run: (usize, usize),
) -> Seq<Seq<char>> {
    match cut(text, run.0 as int, run.1 as int) {
        Some((before, digits, after)) => match decimal_value(digits) {
            Some(n) => if n <= u64::MAX {
                shifted_up_to(before, after, root, n, 3)
            } else {
                Seq::empty()
            },
            None => Seq::empty(),
        },
        None => Seq::empty(),
    }
}

/// The names that `runs` give, run by run.
pub open spec fn variants_of_runs(
    text: Seq<char>,
    root: Seq<char>,
    runs: Seq<(usize, usize)>,
) -> Seq<Seq<char>>
    decreases runs.len(),
{
    if runs.len() == 0 {
        Seq::empty()
    } else {
        variants_of_runs(text, root, runs.drop_last()) + run_variants(text, root, runs.last())
    }
}

/// The names that the numbers mutation makes of a domain with the labels
/// `labels`, when `runs` are the digit runs in its joined subdomain labels.
/// Only the subdomain labels are rewritten; the root follows unchanged.
pub open spec fn numbers_outputs(
    labels: Seq<Seq<char>>,
    runs: Seq<(usize, usize)>,
) -> Seq<Seq<char>> {
    variants_of_runs(join(labels.drop_last(), dot()), labels.last(), runs)
}

fn shifted_name(before: &str, number: u64, after: &str, root: &str) -> (r: String)
    ensures
        r@ == before@ + decimal(number as nat) + after@ + dot() + root@,
{
    let mut name = String::new();
    name.append(before);
    let digits = u64_to_decimal(number);
    name.append(digits.as_str());
    name.append(after);
    proof {
        reveal_strlit(".");
        assert("."@ =~= dot());
    }
    name.append(".");
    name.append(root);
    proof {
        assert(name@ =~= before@ + decimal(number as nat) + after@ + dot() + root@);
    }
    name
}

fn push_shifted(
    results: &mut Vec<String>,
    before: &str,
    after: &str,
    root: &str,
    n: u64,
    offset: u64,
)
    ensures
        final(results).deep_view() == old(results).deep_view() + shifted(
            before@,
            after@,
            root@,
            n as nat,
            offset as nat,
        ),
{
    let ghost start = results.deep_view();
    if let Some(sub_int) = n.checked_sub(offset) {
        let name = shifted_name(before, sub_int, after, root);
        results.push(name);
        proof {
            assert(results.deep_view() =~= start.push(name@));
        }
    }
    let ghost middle = results.deep_view();
    if let Some(add_int) = n.checked_add(offset) {
        let name = shifted_name(before, add_int, after, root);
        results.push(name);
        proof {
            assert(results.deep_view() =~= middle.push(name@));
        }
    }
    proof {
        let made = shifted(before@, after@, root@, n as nat, offset as nat);
        assert(results.deep_view() =~= start + made);
    }
}

fn push_run_variants(results: &mut Vec<String>, text: &str, root: &str, run: (usize, usize))
    ensures
        final(results).deep_view() == old(results).deep_view() + run_variants(text@, root@, run),
{
    let ghost start = results.deep_view();
    let pieces = cut_str(text, run.0, run.1);
    if let Some((before, digits, after)) = pieces {
        if let Some(detected_int) = parse_decimal(digits) {
            let ghost n = detected_int as nat;
            let mut offset: u64 = 1;
            proof {
                assert(start + shifted_up_to(before@, after@, root@, n, 0) =~= start);
            }
            while offset < 4
                invariant
                    1 <= offset <= 4,
                    n == detected_int,
                    results.deep_view() == start + shifted_up_to(
                        before@,
                        after@,
                        root@,
                        n,
                        (offset - 1) as nat,
                    ),
                decreases 4 - offset,
            {
                let ghost so_far = shifted_up_to(before@, after@, root@, n, (offset - 1) as nat);
                push_shifted(results, before, after, root, detected_int, offset);
                proof {
                    let step = shifted(before@, after@, root@, n, offset as nat);
                    assert((start + so_far) + step =~= start + (so_far + step));
                }
                offset += 1;
            }
            return;
        }
    }
    proof {
        assert(start + run_variants(text@, root@, run) =~= start);
    }
}

/// The numbers mutation for digit runs that are given: `runs` holds, for each
/// run, the byte offsets of its start and its end in the subdomain labels
/// joined by dots. A run that does not lie on characters, or that is not a
/// decimal number of 64 bits, gives nothing.
pub fn numbers_from_runs(
    domain_components: &DomainComponents,
    runs: &[(usize, usize)],
) -> (r: Vec<String>)
    ensures
        r.deep_view() == numbers_outputs(domain_components@, runs@),
{
    let domain_str: String = join_strs(domain_components.subdomains(), ".");
    let root = domain_components.root();
    proof {
        reveal_strlit(".");
        assert("."@ =~= dot());
    }
    let mut results: Vec<String> = Vec::new();
    let n: usize = runs.len();
    let mut i: usize = 0;
    proof {
        assert(runs@.take(0) =~= Seq::<(usize, usize)>::empty());
        assert(results.deep_view() =~= Seq::<Seq<char>>::empty());
    }
    while i < n
        invariant
            n == runs@.len(),
            i <= n,
            results.deep_view() == variants_of_runs(domain_str@, root@, runs@.take(i as int)),
        decreases n - i,
    {
        proof {
            assert(runs@.take(i + 1).drop_last() =~= runs@.take(i as int));
            assert(runs@.take(i + 1).last() == runs@[i as int]);
        }
        push_run_variants(&mut results, domain_str.as_str(), root, runs[i]);
        i += 1;
    }
    proof {
        assert(runs@.take(n as int) =~= runs@);
    }
    results
}

/// The numbers mutation: the digit runs are those that the pattern for one
/// to three digits matches in the joined subdomain labels. The word list
/// plays no part.
pub fn numbers_transform(domain_components: &DomainComponents, _words: &[&str]) -> (r: Vec<String>)
    ensures
        r.deep_view() == (match regex_find_all(
            digit_pattern(),
            join(domain_components@.drop_last(), dot()),
        ) {
            Some(runs) => numbers_outputs(domain_components@, runs),
            None => Seq::empty(),
        }),
{
    let domain_str: String = join_strs(domain_components.subdomains(), ".");
    proof {
        reveal_strlit(".");
        assert("."@ =~= dot());
    }
    match find_all("\\d{1,3}", domain_str.as_str()) {
        Ok(runs) => numbers_from_runs(domain_components, runs.as_slice()),
        Err(_) => {
            let none: Vec<String> = Vec::new();
            proof {
                assert(none.deep_view() =~= Seq::<Seq<char>>::empty());
            }
            none
        },
    }
}

/// One offset gives at most two names, and each ends with a dot and the
/// root.
pub proof fn lemma_shifted(
    before: Seq<char>,
    after: Seq<char>,
    root: Seq<char>,
    n: nat,
    offset: nat,
)
    ensures
        shifted(before, after, root, n, offset).len() <= 2,
        all_end_with(shifted(before, after, root, n, offset), dot() + root),
{
    let made = shifted(before, after, root, n, offset);
    let tail = dot() + root;
    assert forall|k: int| 0 <= k < made.len() implies ends_with(#[trigger] made[k], tail) by {
        if n >= offset {
            let front = before + decimal((n - offset) as nat) + after;
            assert(front + dot() + root =~= front + (dot() + root));
            lemma_ends_with_concat(front, dot() + root);
        }
        if n + offset <= u64::MAX {
            let front = before + decimal(n + offset) + after;
            assert(front + dot() + root =~= front + (dot() + root));
            lemma_ends_with_concat(front, dot() + root);
        }
    }
}

/// The offsets up to `last` give at most two names each, and each name ends
/// with a dot and the root.
pub proof fn lemma_shifted_up_to(
    before: Seq<char>,
    after: Seq<char>,
    root: Seq<char>,
    n: nat,
    last: nat,
)
    ensures
        shifted_up_to(before, after, root, n, last).len() <= 2 * last,
        all_end_with(shifted_up_to(before, after, root, n, last), dot() + root),
    decreases last,
{
    if last > 0 {
        lemma_shifted_up_to(before, after, root, n, (last - 1) as nat);
        lemma_shifted(before, after, root, n, last);
    }
}

/// A run gives at most six names, and each ends with a dot and the root.
pub proof fn lemma_run_variants(text: Seq<char>, root: Seq<char>, run: (usize, usize))
    ensures
        run_variants(text, root, run).len() <= 6,
        all_end_with(run_variants(text, root, run), dot() + root),
{
    match cut(text, run.0 as int, run.1 as int) {
        Some((before, digits, after)) => match decimal_value(digits) {
            Some(n) => {
                lemma_shifted_up_to(before, after, root, n, 3);
            },
            None => {},
        },
        None => {},
    }
}

/// Numbers leaves the root as it is, whatever the runs: every name it
/// makes ends with a dot and the root.
pub proof fn lemma_numbers_keeps_root(labels: Seq<Seq<char>>, runs: Seq<(usize, usize)>)
    ensures
        all_end_with(numbers_outputs(labels, runs), dot() + labels.last()),
        numbers_outputs(labels, runs).len() <= 6 * runs.len(),
    decreases runs.len(),
{
    if runs.len() > 0 {
        lemma_numbers_keeps_root(labels, runs.drop_last());
        lemma_run_variants(join(labels.drop_last(), dot()), labels.last(), runs.last());
    }
}

} // verus!

//! Character sequences: the mathematical meaning of joining, splitting,
//! searching, replacing and reading numbers, the laws that hold of them, and
//! the executable functions that compute them on strings.

use vstd::prelude::*;
use vstd::string::StringExecFns;
use vstd::string::StringSliceAdditionalSpecFns;
use vstd::utf8::{decode_utf8, encode_utf8, is_char_boundary};

verus! {

/// The one-character separator between the labels of a domain.
pub open spec fn dot() -> Seq<char> {
    seq!['.']
}

/// `parts` written one after another with `sep` between neighbours.
pub open spec fn join(parts: Seq<Seq<char>>, sep: Seq<char>) -> Seq<char>
    decreases parts.len(),
{
    if parts.len() == 0 {
        Seq::empty()
    } else if parts.len() == 1 {
        parts[0]
    } else {
        join(parts.drop_last(), sep) + sep + parts.last()
    }
}

/// The pieces of `s` between occurrences of `sep`. There is always at least
/// one piece, and a separator at either end leaves an empty piece there.
pub open spec fn split(s: Seq<char>, sep: char) -> Seq<Seq<char>>
    decreases s.len(),
{
    if s.len() == 0 {
        seq![Seq::empty()]
    } else {
        let before = split(s.drop_last(), sep);
        if s.last() == sep {
            before.push(Seq::empty())
        } else {
            before.drop_last().push(before.last().push(s.last()))
        }
    }
}

/// `parts` without its empty members, order kept.
pub open spec fn nonempty(parts: Seq<Seq<char>>) -> Seq<Seq<char>>
    decreases parts.len(),
{
    if parts.len() == 0 {
        Seq::empty()
    } else if parts.last().len() > 0 {
        nonempty(parts.drop_last()).push(parts.last())
    } else {
        nonempty(parts.drop_last())
    }
}

/// `pat` stands in `s` at position `i`.
pub open spec fn occurs_at(s: Seq<char>, pat: Seq<char>, i: int) -> bool {
    0 <= i && i + pat.len() <= s.len() && s.subrange(i, i + pat.len()) == pat
}

/// `pat` stands somewhere in `s`. The empty sequence stands in every one.
pub open spec fn contains(s: Seq<char>, pat: Seq<char>) -> bool {
    exists|i: int| occurs_at(s, pat, i)
}

/// `s` with every occurrence of `pat` replaced by `to`: occurrences are
/// taken from the left and do not overlap. An empty `pat` occurs before every
/// character and at the end.
pub open spec fn replace_all(s: Seq<char>, pat: Seq<char>, to: Seq<char>) -> Seq<char>
    decreases s.len(),
{
    if pat.len() == 0 {
        if s.len() == 0 {
            to
        } else {
            to + seq![s[0]] + replace_all(s.drop_first(), pat, to)
        }
    } else if s.len() < pat.len() {
        s
    } else if s.subrange(0, pat.len() as int) == pat {
        to + replace_all(s.subrange(pat.len() as int, s.len() as int), pat, to)
    } else {
        seq![s[0]] + replace_all(s.drop_first(), pat, to)
    }
}

/// `s` ends with `tail`.
pub open spec fn ends_with(s: Seq<char>, tail: Seq<char>) -> bool {
    s.len() >= tail.len() && s.subrange(s.len() - tail.len(), s.len() as int) == tail
}

/// Every one of `names` ends with `tail`.
pub open spec fn all_end_with(names: Seq<Seq<char>>, tail: Seq<char>) -> bool {
    forall|k: int| 0 <= k < names.len() ==> ends_with(#[trigger] names[k], tail)
}

/// The decimal digit that stands for `d`, for `d` below ten.
pub open spec fn digit_char(d: nat) -> char {
    (('0' as u8 + d) as u8) as char
}

/// The number that an ASCII decimal digit stands for; `None` for any other
/// character.
pub open spec fn digit_value(c: char) -> Option<nat> {
    if '0' <= c <= '9' {
        Some((c as u32 - '0' as u32) as nat)
    } else {
        None
    }
}

/// `n` in decimal, without leading zeros.
pub open spec fn decimal(n: nat) -> Seq<char>
    decreases n,
{
    if n < 10 {
        seq![digit_char(n)]
    } else {
        decimal(n / 10).push(digit_char(n % 10))
    }
}

/// The number that `s` spells in ASCII decimal digits; `None` when `s` is
/// empty or holds any other character. Leading zeros are accepted.
pub open spec fn decimal_value(s: Seq<char>) -> Option<nat>
    decreases s.len(),
{
    if s.len() == 0 {
        None
    } else if s.len() == 1 {
        digit_value(s[0])
    } else {
        match (decimal_value(s.drop_last()), digit_value(s.last())) {
            (Some(high), Some(low)) => Some(high * 10 + low),
            _ => None,
        }
    }
}

/// `text` cut in three at the byte offsets `start` and `end` of its UTF-8
/// form: what lies before `start`, from `start` to `end`, and after `end`.
/// `None` when the offsets are out of order, past the end, or inside the
/// encoding of a character.
pub open spec fn cut(
    text: Seq<char>,
    start: int,
    end: int,
) -> Option<(Seq<char>, Seq<char>, Seq<char>)> {
    let bytes = encode_utf8(text);
    if 0 <= start <= end <= bytes.len() && is_char_boundary(bytes, start) && is_char_boundary(
        bytes,
        end,
    ) {
        Some(
            (
                decode_utf8(bytes.subrange(0, start)),
                decode_utf8(bytes.subrange(start, end)),
                decode_utf8(bytes.subrange(end, bytes.len() as int)),
            ),
        )
    } else {
        None
    }
}

/// A split has at least one piece.
pub proof fn lemma_split_len(s: Seq<char>, sep: char)
    ensures
        split(s, sep).len() >= 1,
    decreases s.len(),
{
    if s.len() > 0 {
        lemma_split_len(s.drop_last(), sep);
    }
}

/// Joining what a split gave, with the separator, gives the text back.
pub proof fn lemma_join_split(s: Seq<char>, sep: char)
    ensures
        join(split(s, sep), seq![sep]) == s,
    decreases s.len(),
{
    if s.len() == 0 {
        assert(join(seq![Seq::<char>::empty()], seq![sep]) =~= s);
    } else {
        let before = split(s.drop_last(), sep);
        lemma_join_split(s.drop_last(), sep);
        lemma_split_len(s.drop_last(), sep);
        if s.last() == sep {
            let now = before.push(Seq::empty());
            assert(now.drop_last() =~= before);
            assert(join(now, seq![sep]) =~= s.drop_last() + seq![sep]);
            assert(s.drop_last() + seq![sep] =~= s);
        } else {
            let grown = before.last().push(s.last());
            let now = before.drop_last().push(grown);
            if before.len() == 1 {
                assert(join(now, seq![sep]) =~= s.drop_last().push(s.last()));
            } else {
                assert(now.drop_last() =~= before.drop_last());
                assert(join(now, seq![sep]) =~= join(before, seq![sep]).push(s.last()));
            }
            assert(s.drop_last().push(s.last()) =~= s);
        }
    }
}

/// A row of pieces none of which is empty loses nothing to `nonempty`.
pub proof fn lemma_nonempty_keeps(parts: Seq<Seq<char>>)
    requires
        forall|k: int| 0 <= k < parts.len() ==> (#[trigger] parts[k]).len() > 0,
    ensures
        nonempty(parts) == parts,
    decreases parts.len(),
{
    if parts.len() > 0 {
        lemma_nonempty_keeps(parts.drop_last());
        assert(parts.drop_last().push(parts.last()) =~= parts);
    }
}

/// What is put together from a front and `tail` ends with `tail`.
pub proof fn lemma_ends_with_concat(front: Seq<char>, tail: Seq<char>)
    ensures
        ends_with(front + tail, tail),
{
    let whole = front + tail;
    assert(whole.subrange(whole.len() - tail.len(), whole.len() as int) =~= tail);
}

/// Two or more parts joined end with the separator and the last part.
pub proof fn lemma_join_ends(parts: Seq<Seq<char>>, sep: Seq<char>)
    requires
        parts.len() >= 2,
    ensures
        ends_with(join(parts, sep), sep + parts.last()),
{
    assert(join(parts, sep) =~= join(parts.drop_last(), sep) + (sep + parts.last()));
    lemma_ends_with_concat(join(parts.drop_last(), sep), sep + parts.last());
}

/// When a prefix of `s` spells no number, neither does `s`.
pub proof fn lemma_decimal_value_prefix(s: Seq<char>, k: int)
    requires
        1 <= k <= s.len(),
        decimal_value(s.take(k)) is None,
    ensures
        decimal_value(s) is None,
    decreases s.len(),
{
    if k < s.len() {
        assert(s.drop_last().take(k) =~= s.take(k));
        lemma_decimal_value_prefix(s.drop_last(), k);
    } else {
        assert(s.take(k) =~= s);
    }
}

/// A number spelled by `s` is at least the number spelled by any prefix.
pub proof fn lemma_decimal_value_grows(s: Seq<char>, k: int)
    requires
        1 <= k <= s.len(),
    ensures
        decimal_value(s) matches Some(v) ==> decimal_value(s.take(k)) matches Some(p) && p <= v,
    decreases s.len(),
{
    if k < s.len() {
        assert(s.drop_last().take(k) =~= s.take(k));
        lemma_decimal_value_grows(s.drop_last(), k);
    } else {
        assert(s.take(k) =~= s);
    }
}

/// Before a character boundary `end`, an offset is a boundary of the whole
/// byte sequence exactly when it is one of the part up to `end`.
pub proof fn lemma_boundary_in_head(bytes: Seq<u8>, start: int, end: int)
    requires
        vstd::utf8::valid_utf8(bytes),
        0 <= start <= end <= bytes.len(),
        is_char_boundary(bytes, end),
    ensures
        is_char_boundary(bytes.subrange(0, end), start) <==> is_char_boundary(bytes, start),
{
    let head = bytes.subrange(0, end);
    vstd::utf8::valid_utf8_split(bytes, end);
    if start == end {
        vstd::utf8::is_char_boundary_start_end_of_seq(head);
    } else {
        vstd::utf8::is_char_boundary_iff_not_is_continuation_byte(head, start);
        vstd::utf8::is_char_boundary_iff_not_is_continuation_byte(bytes, start);
    }
}

/// What `std::string::String::push` does: the character is appended.
pub assume_specification[ String::push ](s: &mut String, c: char)
    ensures
        final(s)@ == old(s)@.push(c),
;

/// The characters of a string slice, in a vector.
pub fn to_chars(s: &str) -> (r: Vec<char>)
    ensures
        r@ == s@,
{
    let mut out: Vec<char> = Vec::new();
    for c in it: s.chars()
        invariant
            out@ == it.seq().take(it.index() as int),
            it.seq() == s@,
    {
        out.push(c);
    }
    out
}

/// A string with the characters of `chars`.
pub fn from_chars(chars: &[char]) -> (r: String)
    ensures
        r@ == chars@,
{
    let mut out = String::new();
    let n: usize = chars.len();
    let mut i: usize = 0;
    while i < n
        invariant
            n == chars@.len(),
            i <= n,
            out@ == chars@.take(i as int),
        decreases n - i,
    {
        out.push(chars[i]);
        proof {
            assert(chars@.take(i + 1) =~= chars@.take(i as int).push(chars@[i as int]));
        }
        i += 1;
    }
    proof {
        assert(chars@.take(n as int) =~= chars@);
    }
    out
}

/// Joins string slices with `sep` between neighbours.
pub fn join_strs(parts: &[&str], sep: &str) -> (r: String)
    ensures
        r@ == join(parts.deep_view(), sep@),
{
    let mut out = String::new();
    let n: usize = parts.len();
    let mut i: usize = 0;
    let ghost all = parts.deep_view();
    proof {
        assert(all.take(0) =~= Seq::<Seq<char>>::empty());
    }
    while i < n
        invariant
            n == parts@.len(),
            all == parts.deep_view(),
            i <= n,
            out@ == join(all.take(i as int), sep@),
        decreases n - i,
    {
        proof {
            let next = all.take(i + 1);
            assert(next.drop_last() =~= all.take(i as int));
            assert(next.last() == parts@[i as int]@);
            if i == 0 {
                assert(join(next, sep@) =~= Seq::<char>::empty() + parts@[i as int]@);
            }
        }
        if i > 0 {
            out.append(sep);
        }
        out.append(parts[i]);
        i += 1;
    }
    proof {
        assert(all.take(n as int) =~= all);
    }
    out
}

/// Splits `s` at every `sep`; the pieces borrow from `s`.
pub fn split_str<'a>(s: &'a str, sep: char) -> (r: Vec<&'a str>)
    ensures
        r.deep_view() == split(s@, sep),
{
    let chars = to_chars(s);
    let n: usize = chars.len();
    let mut out: Vec<&'a str> = Vec::new();
    let mut start: usize = 0;
    let mut i: usize = 0;
    proof {
        assert(s@.take(0) =~= Seq::<char>::empty());
        assert(out.deep_view().push(s@.subrange(0, 0)) =~= split(s@.take(0), sep));
    }
    while i < n
        invariant
            chars@ == s@,
            n == chars@.len(),
            start <= i <= n,
            out.deep_view().push(s@.subrange(start as int, i as int)) == split(
                s@.take(i as int),
                sep,
            ),
        decreases n - i,
    {
        let ghost pieces = split(s@.take(i as int), sep);
        let ghost done = out.deep_view();
        proof {
            assert(s@.take(i + 1).drop_last() =~= s@.take(i as int));
            assert(s@.take(i + 1).last() == s@[i as int]);
        }
        if chars[i] == sep {
            let piece = s.substring_char(start, i);
            out.push(piece);
            start = i + 1;
            proof {
                assert(out.deep_view() =~= done.push(piece@));
                assert(s@.subrange(start as int, i + 1) =~= Seq::<char>::empty());
            }
        } else {
            proof {
                assert(pieces.drop_last() =~= done);
                assert(s@.subrange(start as int, i + 1) =~= pieces.last().push(s@[i as int]));
            }
        }
        i += 1;
    }
    let last = s.substring_char(start, n);
    let ghost done = out.deep_view();
    out.push(last);
    proof {
        assert(s@.take(n as int) =~= s@);
        assert(out.deep_view() =~= done.push(last@));
    }
    out
}

/// Whether two character slices hold the same characters.
pub fn chars_equal(a: &[char], b: &[char]) -> (r: bool)
    ensures
        r == (a@ == b@),
{
    if a.len() != b.len() {
        return false;
    }
    let n: usize = a.len();
    let mut i: usize = 0;
    while i < n
        invariant
            n == a@.len(),
            n == b@.len(),
            i <= n,
            a@.take(i as int) == b@.take(i as int),
        decreases n - i,
    {
        if a[i] != b[i] {
            return false;
        }
        proof {
            assert(a@.take(i + 1) =~= a@.take(i as int).push(a@[i as int]));
            assert(b@.take(i + 1) =~= b@.take(i as int).push(b@[i as int]));
        }
        i += 1;
    }
    proof {
        assert(a@.take(n as int) =~= a@);
        assert(b@.take(n as int) =~= b@);
    }
    true
}

fn matches_at(s: &[char], pat: &[char], at: usize) -> (r: bool)
    requires
        at + pat@.len() <= s@.len(),
    ensures
        r == occurs_at(s@, pat@, at as int),
{
    let n: usize = s.len();
    let m: usize = pat.len();
    let mut k: usize = 0;
    while k < m
        invariant
            n == s@.len(),
            m == pat@.len(),
            at + m <= n,
            k <= m,
            s@.subrange(at as int, at + k) == pat@.take(k as int),
        decreases m - k,
    {
        if s[at + k] != pat[k] {
            proof {
                assert(s@.subrange(at as int, at + m)[k as int] == s@[at + k]);
            }
            return false;
        }
        proof {
            assert(s@.subrange(at as int, at + k + 1) =~= s@.subrange(at as int, at + k).push(
                s@[at + k],
            ));
            assert(pat@.take(k + 1) =~= pat@.take(k as int).push(pat@[k as int]));
        }
        k += 1;
    }
    proof {
        assert(pat@.take(m as int) =~= pat@);
    }
    true
}

/// Whether `pat` stands somewhere in `s`.
pub fn contains_chars(s: &[char], pat: &[char]) -> (r: bool)
    ensures
        r == contains(s@, pat@),
{
    let n: usize = s.len();
    let m: usize = pat.len();
    if m > n {
        return false;
    }
    let last: usize = n - m;
    let mut i: usize = 0;
    loop
        invariant
            n == s@.len(),
            m == pat@.len(),
            last == n - m,
            i <= last,
            forall|j: int| 0 <= j < i ==> !occurs_at(s@, pat@, j),
        decreases last - i,
    {
        if matches_at(s, pat, i) {
            return true;
        }
        if i == last {
            return false;
        }
        i += 1;
    }
}

fn push_all(out: &mut Vec<char>, extra: &[char])
    ensures
        final(out)@ == old(out)@ + extra@,
{
    let n: usize = extra.len();
    let mut i: usize = 0;
    proof {
        assert(out@ =~= old(out)@ + extra@.take(0));
    }
    while i < n
        invariant
            n == extra@.len(),
            i <= n,
            out@ == old(out)@ + extra@.take(i as int),
        decreases n - i,
    {
        out.push(extra[i]);
        proof {
            assert(out@ =~= old(out)@ + extra@.take(i + 1));
        }
        i += 1;
    }
    proof {
        assert(extra@.take(n as int) =~= extra@);
    }
}

/// `s` with every occurrence of `pat` replaced by `to`.
pub fn replace_chars(s: &[char], pat: &[char], to: &[char]) -> (r: Vec<char>)
    ensures
        r@ == replace_all(s@, pat@, to@),
{
    let n: usize = s.len();
    let m: usize = pat.len();
    let mut out: Vec<char> = Vec::new();
    let mut i: usize = 0;
    proof {
        assert(s@.skip(0) =~= s@);
        assert(out@ + replace_all(s@, pat@, to@) =~= replace_all(s@, pat@, to@));
    }
    while i < n
        invariant
            n == s@.len(),
            m == pat@.len(),
            i <= n,
            out@ + replace_all(s@.skip(i as int), pat@, to@) == replace_all(s@, pat@, to@),
        decreases n - i,
    {
        let ghost rest = s@.skip(i as int);
        let ghost before = out@;
        proof {
            assert(rest[0] == s@[i as int]);
            assert(rest.drop_first() =~= s@.skip(i + 1));
        }
        if m == 0 {
            push_all(&mut out, to);
            out.push(s[i]);
            proof {
                let tail = replace_all(rest.drop_first(), pat@, to@);
                assert(before + (to@ + seq![rest[0]] + tail) =~= out@ + tail);
            }
            i += 1;
        } else if m <= n - i && matches_at(s, pat, i) {
            push_all(&mut out, to);
            proof {
                let tail = replace_all(s@.skip(i + m), pat@, to@);
                assert(rest.subrange(0, m as int) =~= s@.subrange(i as int, i + m));
                assert(rest.subrange(m as int, rest.len() as int) =~= s@.skip(i + m));
                assert(before + (to@ + tail) =~= out@ + tail);
            }
            i += m;
        } else {
            out.push(s[i]);
            proof {
                let tail = replace_all(rest.drop_first(), pat@, to@);
                if m <= n - i {
                    assert(rest.subrange(0, m as int) =~= s@.subrange(i as int, i + m));
                } else {
                    assert(rest =~= seq![rest[0]] + rest.drop_first());
                }
                assert(before + (seq![rest[0]] + tail) =~= out@ + tail);
            }
            i += 1;
        }
    }
    proof {
        assert(s@.skip(n as int) =~= Seq::<char>::empty());
    }
    if m == 0 {
        push_all(&mut out, to);
    } else {
        proof {
            assert(out@ + Seq::<char>::empty() =~= out@);
        }
    }
    out
}

fn digit_to_char(d: u64) -> (c: char)
    requires
        d < 10,
    ensures
        c == digit_char(d as nat),
{
    (48u8 + d as u8) as char
}

fn char_to_digit(c: char) -> (d: Option<u64>)
    ensures
        match d {
            Some(v) => digit_value(c) == Some(v as nat) && v < 10,
            None => digit_value(c) is None,
        },
{
    if '0' <= c && c <= '9' {
        Some((c as u32 - '0' as u32) as u64)
    } else {
        None
    }
}

/// `n` written in decimal.
pub fn u64_to_decimal(n: u64) -> (r: String)
    ensures
        r@ == decimal(n as nat),
{
    // Digits come out lowest first; they are put in order afterwards.
    let mut low_first: Vec<char> = Vec::new();
    let mut rest: u64 = n;
    while rest >= 10
        invariant
            decimal(n as nat) == decimal(rest as nat) + low_first@.reverse(),
        decreases rest,
    {
        let c = digit_to_char(rest % 10);
        proof {
            let before = low_first@;
            let high = decimal((rest / 10) as nat);
            assert(before.push(c).reverse() =~= seq![c] + before.reverse());
            assert(high.push(c) + before.reverse() =~= high + (seq![c] + before.reverse()));
        }
        low_first.push(c);
        rest = rest / 10;
    }
    let c = digit_to_char(rest);
    proof {
        let before = low_first@;
        assert(before.push(c).reverse() =~= seq![c] + before.reverse());
    }
    low_first.push(c);
    let mut out = String::new();
    let count: usize = low_first.len();
    let mut i: usize = count;
    while i > 0
        invariant
            count == low_first@.len(),
            i <= count,
            out@ == low_first@.reverse().take(count - i),
        decreases i,
    {
        i -= 1;
        out.push(low_first[i]);
        proof {
            let ordered = low_first@.reverse();
            assert(ordered.take(count - i) =~= ordered.take(count - i - 1).push(
                ordered[count - i - 1],
            ));
        }
    }
    proof {
        assert(low_first@.reverse().take(count as int) =~= low_first@.reverse());
    }
    out
}

/// Reads `s` as a decimal number. `None` when `s` is no such number or the
/// number does not fit in `u64`.
pub fn parse_decimal(s: &str) -> (r: Option<u64>)
    ensures
        match r {
            Some(v) => decimal_value(s@) == Some(v as nat),
            None => decimal_value(s@) matches Some(v) ==> v > u64::MAX,
        },
{
    let chars = to_chars(s);
    let n: usize = chars.len();
    if n == 0 {
        return None;
    }
    let mut value: u64 = match char_to_digit(chars[0]) {
        Some(d) => d,
        None => {
            proof {
                lemma_decimal_value_prefix(s@, 1);
            }
            return None;
        },
    };
    let mut i: usize = 1;
    while i < n
        invariant
            chars@ == s@,
            n == chars@.len(),
            1 <= i <= n,
            decimal_value(s@.take(i as int)) == Some(value as nat),
        decreases n - i,
    {
        proof {
            assert(s@.take(i + 1).drop_last() =~= s@.take(i as int));
            assert(s@.take(i + 1).last() == s@[i as int]);
        }
        let d = match char_to_digit(chars[i]) {
            Some(d) => d,
            None => {
                proof {
                    lemma_decimal_value_prefix(s@, i + 1);
                }
                return None;
            },
        };
        if value > (u64::MAX - d) / 10 {
            proof {
                lemma_decimal_value_grows(s@, i + 1);
            }
            return None;
        }
        value = value * 10 + d;
        i += 1;
    }
    proof {
        assert(s@.take(n as int) =~= s@);
    }
    Some(value)
}

/// Cuts `text` at two byte offsets, without copying.
pub fn cut_str<'a>(
    text: &'a str,
    start: usize,
    end: usize,
) -> (r: Option<(&'a str, &'a str, &'a str)>)
    ensures
        match r {
            Some((before, middle, after)) => cut(text@, start as int, end as int) == Some(
                (before@, middle@, after@),
            ),
            None => cut(text@, start as int, end as int) is None,
        },
{
    broadcast use
        vstd::utf8::encode_utf8_valid_utf8,
        vstd::utf8::encode_utf8_decode_utf8,
        vstd::utf8::valid_utf8_split,
    ;

    let ghost bytes = text.spec_bytes();
    if start > end || end > text.as_bytes().len() {
        return None;
    }
    if !text.is_char_boundary(end) {
        return None;
    }
    let (head, after) = text.split_at(end);
    proof {
        lemma_boundary_in_head(bytes, start as int, end as int);
    }
    if !head.is_char_boundary(start) {
        return None;
    }
    let (before, middle) = head.split_at(start);
    proof {
        let head_bytes = bytes.subrange(0, end as int);
        assert(head_bytes.subrange(0, start as int) =~= bytes.subrange(0, start as int));
        assert(head_bytes.subrange(start as int, head_bytes.len() as int) =~= bytes.subrange(
            start as int,
            end as int,
        ));
        assert(decode_utf8(before.spec_bytes()) == before@);
        assert(decode_utf8(middle.spec_bytes()) == middle@);
        assert(decode_utf8(after.spec_bytes()) == after@);
    }
    Some((before, middle, after))
}

} // verus!

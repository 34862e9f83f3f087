//! Text as sequences of characters.
//!
//! The protocol is line oriented, and its rules speak of characters: lines,
//! surrounding white space, prefixes. Everything here is stated over the
//! character sequence of a string.
use vstd::prelude::*;
use vstd::slice::slice_subrange;

verus! {

/// Whether `c` has the Unicode property White_Space.
pub open spec fn white_space(c: char) -> bool {
    ||| '\u{9}' <= c <= '\u{d}'
    ||| c == ' '
    ||| c == '\u{85}'
    ||| c == '\u{a0}'
    ||| c == '\u{1680}'
    ||| '\u{2000}' <= c <= '\u{200a}'
    ||| c == '\u{2028}'
    ||| c == '\u{2029}'
    ||| c == '\u{202f}'
    ||| c == '\u{205f}'
    ||| c == '\u{3000}'
}

/// Decides [`white_space`].
pub fn is_white_space(c: char) -> (r: bool)
    ensures
        r == white_space(c),
{
    ('\u{9}' <= c && c <= '\u{d}') || c == ' ' || c == '\u{85}' || c == '\u{a0}' || c == '\u{1680}'
        || ('\u{2000}' <= c && c <= '\u{200a}') || c == '\u{2028}' || c == '\u{2029}' || c
        == '\u{202f}' || c == '\u{205f}' || c == '\u{3000}'
}

/// The characters of a string, in order.
pub fn chars_of(s: &str) -> (r: Vec<char>)
    ensures
        r@ == s@,
{
    let mut r: Vec<char> = Vec::new();
    for c in it: s.chars()
        invariant
            it.seq() == s@,
            r@ == s@.take(it.index()),
    {
        r.push(c);
        proof {
            assert(s@.take(it.index() + 1) =~= s@.take(it.index()).push(c));
        }
    }
    proof {
        assert(s@.take(s@.len() as int) =~= s@);
    }
    r
}

/// Whether two strings hold the same characters.
pub fn same(a: &str, b: &str) -> (r: bool)
    ensures
        r == (a@ == b@),
{
    broadcast use vstd::utf8::encode_utf8_decode_utf8;

    let x = a.as_bytes();
    let y = b.as_bytes();
    assert(vstd::utf8::decode_utf8(x@) == a@);
    assert(vstd::utf8::decode_utf8(y@) == b@);
    if x.len() != y.len() {
        return false;
    }
    let mut i: usize = 0;
    while i < x.len()
        invariant
            i <= x@.len(),
            x@.len() == y@.len(),
            x@ == vstd::utf8::encode_utf8(a@),
            y@ == vstd::utf8::encode_utf8(b@),
            forall|k: int| 0 <= k < i ==> x@[k] == y@[k],
        decreases x@.len() - i,
    {
        if x[i] != y[i] {
            return false;
        }
        i = i + 1;
    }
    assert(x@ =~= y@);
    true
}

/// `String::push` appends the character to the string and changes nothing else.
pub assume_specification[ String::push ](s: &mut String, c: char)
    ensures
        final(s)@ == old(s)@.push(c),
;

/// The string that holds the given characters.
pub fn string_of(s: &[char]) -> (r: String)
    ensures
        r@ == s@,
{
    let mut r = String::new();
    let mut i: usize = 0;
    while i < s.len()
        invariant
            i <= s@.len(),
            r@ == s@.take(i as int),
        decreases s@.len() - i,
    {
        r.push(s[i]);
        i = i + 1;
        proof {
            assert(s@.take(i as int) =~= s@.take(i - 1).push(s@[i - 1]));
        }
    }
    proof {
        assert(s@.take(s@.len() as int) =~= s@);
    }
    r
}

/// `s` without its leading white space.
pub open spec fn trim_start(s: Seq<char>) -> Seq<char>
    decreases s.len(),
{
    if s.len() > 0 && white_space(s[0]) {
        trim_start(s.drop_first())
    } else {
        s
    }
}

/// `s` without its trailing white space.
pub open spec fn trim_end(s: Seq<char>) -> Seq<char>
    decreases s.len(),
{
    if s.len() > 0 && white_space(s.last()) {
        trim_end(s.drop_last())
    } else {
        s
    }
}

/// `s` without the white space around it.
pub open spec fn trimmed(s: Seq<char>) -> Seq<char> {
    trim_end(trim_start(s))
}

/// The part of `s` between its leading and its trailing white space.
pub fn trim<'a>(s: &'a [char]) -> (r: &'a [char])
    ensures
        r@ == trimmed(s@),
{
    let mut i: usize = 0;
    proof {
        assert(s@.skip(0) =~= s@);
    }
    while i < s.len() && is_white_space(s[i])
        invariant
            i <= s@.len(),
            trim_start(s@.skip(i as int)) == trim_start(s@),
        decreases s@.len() - i,
    {
        proof {
            assert(s@.skip(i as int).drop_first() =~= s@.skip(i + 1));
        }
        i = i + 1;
    }
    let mut j: usize = s.len();
    proof {
        assert(s@.subrange(i as int, j as int) =~= s@.skip(i as int));
    }
    while i < j && is_white_space(s[j - 1])
        invariant
            i <= j <= s@.len(),
            trim_end(s@.subrange(i as int, j as int)) == trimmed(s@),
        decreases j,
    {
        proof {
            assert(s@.subrange(i as int, j as int).drop_last() =~= s@.subrange(i as int, j - 1));
        }
        j = j - 1;
    }
    slice_subrange(s, i, j)
}

/// What follows `prefix` in `s`, if `s` starts with it.
pub open spec fn after_prefix(s: Seq<char>, prefix: Seq<char>) -> Option<Seq<char>> {
    if prefix.is_prefix_of(s) {
        Some(s.skip(prefix.len() as int))
    } else {
        None
    }
}

/// What follows `prefix` in `s`, if `s` starts with it.
pub fn strip_prefix<'a>(s: &'a [char], prefix: &str) -> (r: Option<&'a [char]>)
    ensures
        match r {
            Some(rest) => after_prefix(s@, prefix@) == Some(rest@),
            None => after_prefix(s@, prefix@) is None,
        },
{
    let p = chars_of(prefix);
    if s.len() < p.len() {
        return None;
    }
    let mut i: usize = 0;
    while i < p.len()
        invariant
            i <= p@.len() <= s@.len(),
            p@ == prefix@,
            forall|k: int| 0 <= k < i ==> s@[k] == p@[k],
        decreases p@.len() - i,
    {
        if s[i] != p[i] {
            proof {
                assert(s@.subrange(0, p@.len() as int)[i as int] != p@[i as int]);
            }
            return None;
        }
        i = i + 1;
    }
    proof {
        assert(p@ =~= s@.subrange(0, p@.len() as int));
        assert(s@.subrange(i as int, s@.len() as int) =~= s@.skip(p@.len() as int));
    }
    Some(slice_subrange(s, i, s.len()))
}

/// The character of a decimal digit.
pub open spec fn digit(n: nat) -> char {
    (48 + n) as char
}

/// The decimal digits of `n`, without leading zeros.
pub open spec fn digits(n: nat) -> Seq<char>
    decreases n,
{
    if n < 10 {
        seq![digit(n)]
    } else {
        digits(n / 10).push(digit(n % 10))
    }
}

/// `n` written in decimal.
pub open spec fn decimal(n: int) -> Seq<char> {
    if n < 0 {
        seq!['-'] + digits((-n) as nat)
    } else {
        digits(n as nat)
    }
}

fn push_digits(out: &mut String, n: u128)
    ensures
        final(out)@ == old(out)@ + digits(n as nat),
    decreases n,
{
    if n >= 10 {
        push_digits(out, n / 10);
    }
    let d: u8 = (n % 10) as u8;
    out.push((48 + d) as char);
    proof {
        assert(out@ =~= old(out)@ + digits(n as nat));
    }
}

/// Appends `n` in decimal.
pub fn push_i64(out: &mut String, n: i64)
    ensures
        final(out)@ == old(out)@ + decimal(n as int),
{
    let wide: i128 = n as i128;
    if wide < 0 {
        out.push('-');
        push_digits(out, (-wide) as u128);
        proof {
            assert(out@ =~= old(out)@ + decimal(n as int));
        }
    } else {
        push_digits(out, wide as u128);
    }
}

/// Appends `n` in decimal.
pub fn push_usize(out: &mut String, n: usize)
    ensures
        final(out)@ == old(out)@ + decimal(n as int),
{
    push_digits(out, n as u128);
}

/// Whether `s` holds the characters of `t`.
pub fn equals(s: &[char], t: &str) -> (r: bool)
    ensures
        r == (s@ == t@),
{
    match strip_prefix(s, t) {
        Some(rest) => {
            proof {
                assert(s@ =~= t@ + rest@);
                assert(rest@.len() == 0 ==> s@ =~= t@);
            }
            rest.len() == 0
        },
        None => {
            proof {
                assert(s@ == t@ ==> s@ =~= t@.subrange(0, t@.len() as int));
            }
            false
        },
    }
}

/// Whether `part` occurs in `s` at position `i`.
pub open spec fn occurs_at(s: Seq<char>, part: Seq<char>, i: int) -> bool {
    0 <= i && i + part.len() <= s.len() && s.subrange(i, i + part.len()) == part
}

/// Whether `part` occurs somewhere in `s`.
pub open spec fn contains_text(s: Seq<char>, part: Seq<char>) -> bool {
    exists|i: int| occurs_at(s, part, i)
}

/// Whether `part` occurs somewhere in `s`.
pub fn contains(s: &[char], part: &str) -> (r: bool)
    ensures
        r == contains_text(s@, part@),
{
    let mut i: usize = 0;
    while i < s.len()
        invariant
            i <= s@.len(),
            forall|k: int| 0 <= k < i ==> !occurs_at(s@, part@, k),
        decreases s@.len() - i,
    {
        let tail = slice_subrange(s, i, s.len());
        let hit = strip_prefix(tail, part).is_some();
        proof {
            assert(part@.len() <= tail@.len() ==> tail@.subrange(0, part@.len() as int)
                =~= s@.subrange(i as int, i + part@.len()));
            assert(hit == occurs_at(s@, part@, i as int));
        }
        if hit {
            return true;
        }
        i = i + 1;
    }
    let r = part.is_empty();
    proof {
        if r {
            assert(s@.subrange(s@.len() as int, s@.len() as int) =~= part@);
            assert(occurs_at(s@, part@, s@.len() as int));
        }
    }
    r
}

/// How many characters of `s` stand before the first `c`; all of them if there
/// is none.
pub open spec fn until(s: Seq<char>, c: char) -> nat
    decreases s.len(),
{
    if s.len() == 0 || s[0] == c {
        0
    } else {
        1 + until(s.drop_first(), c)
    }
}

proof fn lemma_until(s: Seq<char>, c: char)
    ensures
        until(s, c) <= s.len(),
        until(s, c) < s.len() ==> s[until(s, c) as int] == c,
    decreases s.len(),
{
    if s.len() > 0 && s[0] != c {
        lemma_until(s.drop_first(), c);
    }
}

/// A line without the carriage return that ends it, if one does.
pub open spec fn without_cr(line: Seq<char>) -> Seq<char> {
    if line.len() > 0 && line.last() == '\r' {
        line.drop_last()
    } else {
        line
    }
}

/// The lines of `s`. A line ends at a line feed or at a carriage return and line
/// feed, neither of which belongs to it; the last line needs no end.
pub open spec fn lines_of(s: Seq<char>) -> Seq<Seq<char>>
    decreases s.len(),
    via lines_of_shrinks
{
    let n = until(s, '\n');
    if s.len() == 0 {
        Seq::empty()
    } else if n == s.len() {
        seq![s]
    } else {
        seq![without_cr(s.take(n as int))] + lines_of(s.skip(n as int + 1))
    }
}

#[via_fn]
proof fn lines_of_shrinks(s: Seq<char>) {
    lemma_until(s, '\n');
}

/// The character sequences of a list of slices.
pub open spec fn views(v: Seq<&[char]>) -> Seq<Seq<char>> {
    Seq::new(v.len(), |i: int| v[i]@)
}

/// The lines of `s`, in order.
pub fn lines<'a>(s: &'a [char]) -> (r: Vec<&'a [char]>)
    ensures
        views(r@) == lines_of(s@),
{
    let mut r: Vec<&'a [char]> = Vec::new();
    let mut start: usize = 0;
    proof {
        assert(s@.skip(0) =~= s@);
        assert(views(r@) + lines_of(s@) =~= lines_of(s@));
    }
    while start < s.len()
        invariant
            start <= s@.len(),
            views(r@) + lines_of(s@.skip(start as int)) == lines_of(s@),
        decreases s@.len() - start,
    {
        let ghost rest = s@.skip(start as int);
        let ghost done = views(r@);
        let mut end: usize = start;
        while end < s.len() && s[end] != '\n'
            invariant
                start <= end <= s@.len(),
                rest == s@.skip(start as int),
                until(rest, '\n') == (end - start) + until(s@.skip(end as int), '\n'),
            decreases s@.len() - end,
        {
            proof {
                assert(s@.skip(end as int).drop_first() =~= s@.skip(end + 1));
            }
            end = end + 1;
        }
        assert(until(s@.skip(end as int), '\n') == 0);
        assert(until(rest, '\n') == end - start);
        if end == s.len() {
            let line = slice_subrange(s, start, end);
            r.push(line);
            proof {
                assert(line@ =~= rest);
                assert(views(r@) =~= done.push(rest));
                assert(lines_of(rest) =~= seq![rest]);
                assert(s@.skip(end as int).len() == 0);
                assert(views(r@) + lines_of(s@.skip(end as int)) =~= done + seq![rest]);
            }
            start = end;
        } else {
            let ghost whole = s@.subrange(start as int, end as int);
            let line = if end > start && s[end - 1] == '\r' {
                slice_subrange(s, start, end - 1)
            } else {
                slice_subrange(s, start, end)
            };
            r.push(line);
            proof {
                assert(rest.take(end - start) =~= whole);
                assert(whole.len() > 0 ==> whole.last() == s@[end - 1]);
                assert(line@ =~= without_cr(whole));
                assert(views(r@) =~= done.push(line@));
                assert(rest.skip(end - start + 1) =~= s@.skip(end + 1));
                assert(lines_of(rest) == seq![line@] + lines_of(s@.skip(end + 1)));
                assert(views(r@) + lines_of(s@.skip(end + 1)) =~= done + lines_of(rest));
            }
            start = end + 1;
        }
    }
    proof {
        assert(s@.skip(start as int).len() == 0);
        assert(views(r@) + lines_of(s@.skip(start as int)) =~= views(r@));
    }
    r
}

proof fn lemma_trim_start(lead: Seq<char>, rest: Seq<char>)
    requires
        forall|k: int| 0 <= k < lead.len() ==> white_space(#[trigger] lead[k]),
        rest.len() > 0 ==> !white_space(rest[0]),
    ensures
        trim_start(lead + rest) == rest,
    decreases lead.len(),
{
    if lead.len() == 0 {
        assert(lead + rest =~= rest);
    } else {
        assert((lead + rest)[0] == lead[0]);
        assert((lead + rest).drop_first() =~= lead.drop_first() + rest);
        lemma_trim_start(lead.drop_first(), rest);
    }
}

proof fn lemma_trim_end(rest: Seq<char>, trail: Seq<char>)
    requires
        forall|k: int| 0 <= k < trail.len() ==> white_space(#[trigger] trail[k]),
        rest.len() > 0 ==> !white_space(rest.last()),
    ensures
        trim_end(rest + trail) == rest,
    decreases trail.len(),
{
    if trail.len() == 0 {
        assert(rest + trail =~= rest);
    } else {
        assert((rest + trail).last() == trail[trail.len() - 1]);
        assert((rest + trail).drop_last() =~= rest + trail.drop_last());
        lemma_trim_end(rest, trail.drop_last());
    }
}

/// Trimming takes the white space from both ends and nothing else: whatever stands
/// between, white space inside it too, comes out as it is.
pub proof fn law_trimmed(lead: Seq<char>, inner: Seq<char>, trail: Seq<char>)
    requires
        forall|k: int| 0 <= k < lead.len() ==> white_space(#[trigger] lead[k]),
        forall|k: int| 0 <= k < trail.len() ==> white_space(#[trigger] trail[k]),
        inner.len() > 0 ==> !white_space(inner[0]) && !white_space(inner.last()),
    ensures
        trimmed(lead + inner + trail) == inner,
{
    if inner.len() == 0 {
        let all = lead + trail;
        assert(lead + inner + trail =~= all + inner);
        lemma_trim_start(all, inner);
    } else {
        assert(lead + inner + trail =~= lead + (inner + trail));
        lemma_trim_start(lead, inner + trail);
        lemma_trim_end(inner, trail);
    }
}

/// What follows a prefix is the rest of the text, to the letter; a text that does
/// not start with the prefix has nothing after it.
pub proof fn law_after_prefix(prefix: Seq<char>, rest: Seq<char>, other: Seq<char>)
    ensures
        after_prefix(prefix + rest, prefix) == Some(rest),
        after_prefix(other, prefix) matches Some(r) ==> other == prefix + r,
        after_prefix(other, prefix) is None ==> !prefix.is_prefix_of(other),
{
    assert((prefix + rest).subrange(0, prefix.len() as int) =~= prefix);
    assert((prefix + rest).skip(prefix.len() as int) =~= rest);
    if prefix.is_prefix_of(other) {
        assert(other =~= prefix + other.skip(prefix.len() as int));
    }
}

/// A text contains a part wherever the part stands in it, whatever stands around.
pub proof fn law_contains(before: Seq<char>, part: Seq<char>, after: Seq<char>)
    ensures
        contains_text(before + part + after, part),
{
    let s = before + part + after;
    assert(s.subrange(before.len() as int, (before.len() + part.len()) as int) =~= part);
    assert(occurs_at(s, part, before.len() as int));
}

/// A text that contains a part is the part with something around it.
pub proof fn law_contained(s: Seq<char>, part: Seq<char>)
    requires
        contains_text(s, part),
    ensures
        exists|before: Seq<char>, after: Seq<char>| s == #[trigger] (before + part + after),
{
    let i = choose|i: int| occurs_at(s, part, i);
    let before = s.take(i);
    let after = s.skip(i + part.len());
    assert(s =~= before + s.subrange(i, i + part.len()) + after);
    assert(s == before + part + after);
}

proof fn lemma_until_is(line: Seq<char>, rest: Seq<char>, c: char)
    requires
        forall|k: int| 0 <= k < line.len() ==> #[trigger] line[k] != c,
        rest.len() > 0 ==> rest[0] == c,
    ensures
        until(line + rest, c) == line.len(),
    decreases line.len(),
{
    if line.len() == 0 {
        assert(line + rest =~= rest);
    } else {
        assert((line + rest)[0] == line[0]);
        assert((line + rest).drop_first() =~= line.drop_first() + rest);
        lemma_until_is(line.drop_first(), rest, c);
    }
}

/// The lines of a text: what stands before a line feed is a line, without the
/// carriage return that may end it, and the lines of what follows come after it. A
/// text without a line feed is a line as it is, and the empty text has none.
pub proof fn law_lines(line: Seq<char>, rest: Seq<char>)
    requires
        forall|k: int| 0 <= k < line.len() ==> #[trigger] line[k] != '\n',
    ensures
        lines_of(line + seq!['\n'] + rest) == seq![
            if line.len() > 0 && line.last() == '\r' {
                line.take(line.len() - 1)
            } else {
                line
            },
        ] + lines_of(rest),
        line.len() > 0 ==> lines_of(line) == seq![line],
        lines_of(Seq::empty()) == Seq::<Seq<char>>::empty(),
{
    let tail = seq!['\n'] + rest;
    let s = line + tail;
    assert(line + seq!['\n'] + rest =~= s);
    lemma_until_is(line, tail, '\n');
    assert(s.take(line.len() as int) =~= line);
    assert(s.skip(line.len() as int + 1) =~= rest);
    assert(line.len() > 0 ==> line.drop_last() =~= line.take(line.len() - 1));
    lemma_until_is(line, Seq::empty(), '\n');
    assert(line + Seq::<char>::empty() =~= line);
    assert(lines_of(Seq::empty()) =~= Seq::empty());
}

/// The number that decimal digits stand for.
pub open spec fn value_of(s: Seq<char>) -> int
    decreases s.len(),
{
    if s.len() == 0 {
        0
    } else {
        value_of(s.drop_last()) * 10 + (s.last() as int - '0' as int)
    }
}

proof fn lemma_digits(n: nat)
    ensures
        value_of(digits(n)) == n,
        digits(n).len() > 0,
        forall|k: int| 0 <= k < digits(n).len() ==> '0' <= #[trigger] digits(n)[k] <= '9',
        n > 0 ==> digits(n)[0] != '0',
    decreases n,
{
    if n < 10 {
        assert(seq![digit(n)].drop_last() =~= Seq::empty());
        assert(value_of(Seq::empty()) == 0);
    } else {
        lemma_digits(n / 10);
        assert(digits(n).drop_last() =~= digits(n / 10));
    }
}

/// A number in decimal reads as that number: it is made of digits, has no leading
/// zero, and has a minus sign before it exactly if it is negative.
pub proof fn law_decimal(n: int)
    ensures
        n >= 0 ==> value_of(decimal(n)) == n && decimal(n).len() > 0,
        n >= 0 ==> forall|k: int|
            0 <= k < decimal(n).len() ==> '0' <= #[trigger] decimal(n)[k] <= '9',
        n > 0 ==> decimal(n)[0] != '0',
        n < 0 ==> decimal(n) == seq!['-'] + decimal(-n),
        decimal(0) == seq!['0'],
{
    if n >= 0 {
        lemma_digits(n as nat);
    }
    assert(decimal(0) =~= seq!['0']);
}

/// A list of slices holds what each of them holds, in order.
pub proof fn law_views(v: Seq<&[char]>)
    ensures
        views(v).len() == v.len(),
        forall|i: int| 0 <= i < v.len() ==> #[trigger] views(v)[i] == v[i]@,
{
}

} // verus!

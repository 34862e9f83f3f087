//! Server-sent event frames.
//!
//! A stream is a sequence of frames, each closed by a blank line. A frame is a
//! few lines of text, of which those that start with `event:` and `data:` carry
//! a value.
use vstd::prelude::*;
use vstd::slice::slice_subrange;
use vstd::utf8;

use crate::encoding;
use crate::text;

verus! {

/// Whether a line feed `nl` and another one stand at position `i`.
pub open spec fn blank_at<T>(s: Seq<T>, nl: T, i: int) -> bool {
    0 <= i && i + 1 < s.len() && s[i] == nl && s[i + 1] == nl
}

/// Where the first blank line begins: the first position at which two line
/// feeds `nl` stand together.
pub open spec fn blank_line<T>(s: Seq<T>, nl: T) -> Option<int>
    decreases s.len(),
{
    if s.len() < 2 {
        None
    } else if blank_at(s, nl, 0) {
        Some(0)
    } else {
        match blank_line(s.drop_first(), nl) {
            Some(i) => Some(i + 1),
            None => None,
        }
    }
}

/// The position that [`blank_line`] gives is the only one at which two line
/// feeds stand together with no such pair before it; it gives none only if no
/// two line feeds stand together anywhere.
pub proof fn lemma_blank_line<T>(s: Seq<T>, nl: T)
    ensures
        match blank_line(s, nl) {
            Some(i) => blank_at(s, nl, i) && forall|k: int| 0 <= k < i ==> !blank_at(s, nl, k),
            None => forall|k: int| !blank_at(s, nl, k),
        },
    decreases s.len(),
{
    if s.len() >= 2 && !blank_at(s, nl, 0) {
        let t = s.drop_first();
        lemma_blank_line(t, nl);
        assert forall|k: int| 1 <= k implies blank_at(s, nl, k) == blank_at(t, nl, k - 1) by {}
    }
}

/// A pair of line feeds with none before it is what [`blank_line`] finds.
pub proof fn lemma_blank_line_is<T>(s: Seq<T>, nl: T, i: int)
    requires
        blank_at(s, nl, i),
        forall|k: int| 0 <= k < i ==> !blank_at(s, nl, k),
    ensures
        blank_line(s, nl) == Some(i),
{
    lemma_blank_line(s, nl);
}

/// The bytes of the first frame that `buf` holds in full and what stands after
/// the blank line that closes it.
pub open spec fn next_frame(buf: Seq<u8>) -> Option<(Seq<u8>, Seq<u8>)> {
    match blank_line(buf, 10u8) {
        Some(i) => Some((buf.take(i), buf.skip(i + 2))),
        None => None,
    }
}

/// Takes the first complete frame out of the buffer, with the blank line that
/// closes it, and decodes it.
pub fn take_frame(buf: &mut Vec<u8>) -> (r: Option<String>)
    ensures
        match next_frame(old(buf)@) {
            Some((frame, rest)) => {
                &&& r matches Some(text) && text@ == encoding::lossy_text(frame) && (
                utf8::valid_utf8(frame) ==> text@ == utf8::decode_utf8(frame))
                &&& final(buf)@ == rest
            },
            None => r is None && final(buf)@ == old(buf)@,
        },
{
    let mut i: usize = 0;
    while i < buf.len() && buf.len() - i >= 2
        invariant
            i <= buf@.len(),
            buf@ == old(buf)@,
            forall|k: int| 0 <= k < i ==> !blank_at(buf@, 10u8, k),
        decreases buf@.len() - i,
    {
        if buf[i] == 10 && buf[i + 1] == 10 {
            proof {
                lemma_blank_line_is(buf@, 10u8, i as int);
            }
            let rest = buf.split_off(i + 2);
            buf.truncate(i);
            let frame = encoding::decode_lossy(buf.as_slice());
            proof {
                assert(buf@ =~= old(buf)@.take(i as int));
                assert(rest@ =~= old(buf)@.skip(i + 2));
            }
            *buf = rest;
            return Some(frame);
        }
        i = i + 1;
    }
    proof {
        lemma_blank_line(buf@, 10u8);
    }
    None
}

/// The pieces of `s` between its blank lines; a blank line belongs to no piece.
pub open spec fn blocks_of(s: Seq<char>) -> Seq<Seq<char>>
    decreases s.len(),
    via blocks_of_shrinks
{
    match blank_line(s, '\n') {
        Some(i) => seq![s.take(i)] + blocks_of(s.skip(i + 2)),
        None => seq![s],
    }
}

#[via_fn]
proof fn blocks_of_shrinks(s: Seq<char>) {
    lemma_blank_line(s, '\n');
}

/// The first blank line of `s` at or after position `from`.
fn find_blank_line(s: &[char], from: usize) -> (r: Option<usize>)
    requires
        from <= s@.len(),
    ensures
        match r {
            Some(i) => from <= i && i + 2 <= s@.len() && blank_line(s@.skip(from as int), '\n')
                == Some(i - from),
            None => blank_line(s@.skip(from as int), '\n') is None,
        },
{
    let ghost t = s@.skip(from as int);
    let mut i: usize = from;
    while i < s.len() && s.len() - i >= 2
        invariant
            from <= i <= s@.len(),
            t == s@.skip(from as int),
            forall|k: int| 0 <= k < i - from ==> !blank_at(t, '\n', k),
        decreases s@.len() - i,
    {
        if s[i] == '\n' && s[i + 1] == '\n' {
            proof {
                lemma_blank_line_is(t, '\n', i - from);
            }
            return Some(i);
        }
        i = i + 1;
    }
    proof {
        lemma_blank_line(t, '\n');
    }
    None
}

/// The pieces of `s` between its blank lines, in order.
pub fn blocks<'a>(s: &'a [char]) -> (r: Vec<&'a [char]>)
    ensures
        text::views(r@) == blocks_of(s@),
        r@.len() > 0,
{
    let n: usize = s.len();
    let mut r: Vec<&'a [char]> = Vec::new();
    let mut start: usize = 0;
    proof {
        assert(s@.skip(0) =~= s@);
        assert(text::views(r@) + blocks_of(s@) =~= blocks_of(s@));
    }
    loop
        invariant
            start <= s@.len(),
            n == s@.len(),
            text::views(r@) + blocks_of(s@.skip(start as int)) == blocks_of(s@),
        decreases s@.len() - start,
    {
        let ghost rest = s@.skip(start as int);
        let ghost done = text::views(r@);
        match find_blank_line(s, start) {
            Some(i) => {
                let piece = slice_subrange(s, start, i);
                r.push(piece);
                proof {
                    assert(piece@ =~= rest.take(i - start));
                    assert(rest.skip(i - start + 2) =~= s@.skip(i + 2));
                    assert(text::views(r@) =~= done.push(piece@));
                    assert(text::views(r@) + blocks_of(s@.skip(i + 2)) =~= done + blocks_of(rest));
                }
                start = i + 2;
            },
            None => {
                let piece = slice_subrange(s, start, n);
                r.push(piece);
                proof {
                    assert(piece@ =~= rest);
                    assert(text::views(r@) =~= done + blocks_of(rest));
                }
                return r;
            },
        }
    }
}

/// The first two pieces of `buf` between blank lines, once both are closed by a
/// blank line.
pub fn split_two_events(buf: &str) -> (r: Option<(&str, &str)>)
    ensures
        match r {
            Some((first, second)) => {
                let pieces = blocks_of(buf@);
                pieces.len() >= 3 && first@ == pieces[0] && second@ == pieces[1]
            },
            None => blocks_of(buf@).len() < 3,
        },
{
    let s = text::chars_of(buf);
    let ghost all = s@;
    let sl = s.as_slice();
    let n: usize = s.len();
    proof {
        assert(all.skip(0) =~= all);
    }
    match find_blank_line(sl, 0) {
        Some(i) => {
            let ghost rest = all.skip(i + 2);
            assert(i + 2 <= n);
            match find_blank_line(sl, i + 2) {
                Some(j) => {
                    let first = buf.substring_char(0, i);
                    let second = buf.substring_char(i + 2, j);
                    proof {
                        let last = rest.skip(j - (i + 2) + 2);
                        assert(blocks_of(last).len() >= 1);
                        assert(first@ =~= all.take(i as int));
                        assert(second@ =~= rest.take(j - (i + 2)));
                        assert(blocks_of(rest) == seq![second@] + blocks_of(last));
                        assert(blocks_of(all) == seq![first@] + blocks_of(rest));
                    }
                    Some((first, second))
                },
                None => {
                    proof {
                        assert(blocks_of(rest) =~= seq![rest]);
                        assert(blocks_of(all).len() == 2);
                    }
                    None
                },
            }
        },
        None => None,
    }
}

/// The value of the first line that carries `name`: the line may have white
/// space around it, and so may the value after `name`.
pub open spec fn first_value(lines: Seq<Seq<char>>, name: Seq<char>) -> Option<Seq<char>>
    decreases lines.len(),
{
    if lines.len() == 0 {
        None
    } else {
        match text::after_prefix(text::trimmed(lines[0]), name) {
            Some(value) => Some(text::trimmed(value)),
            None => first_value(lines.drop_first(), name),
        }
    }
}

/// The value of the first line of a frame that carries `name`.
pub open spec fn field_of(frame: Seq<char>, name: Seq<char>) -> Option<Seq<char>> {
    first_value(text::lines_of(frame), name)
}

/// The value of the first line of a frame that carries `name`.
pub fn field<'a>(frame: &'a [char], name: &str) -> (r: Option<&'a [char]>)
    ensures
        match r {
            Some(value) => field_of(frame@, name@) == Some(value@),
            None => field_of(frame@, name@) is None,
        },
{
    let lines = text::lines(frame);
    let ghost all = text::views(lines@);
    let mut i: usize = 0;
    proof {
        assert(all.skip(0) =~= all);
    }
    while i < lines.len()
        invariant
            i <= lines@.len(),
            all == text::views(lines@),
            first_value(all.skip(i as int), name@) == first_value(all, name@),
            all == text::lines_of(frame@),
        decreases lines@.len() - i,
    {
        let line = text::trim(lines[i]);
        proof {
            assert(all.skip(i as int)[0] == lines@[i as int]@);
        }
        if let Some(value) = text::strip_prefix(line, name) {
            return Some(text::trim(value));
        }
        proof {
            assert(all.skip(i as int).drop_first() =~= all.skip(i + 1));
        }
        i = i + 1;
    }
    None
}

/// Whether the line is an `event:` line that names the event `kind`.
pub open spec fn names_event(line: Seq<char>, kind: Seq<char>) -> bool {
    text::after_prefix(text::trimmed(line), "event:"@) matches Some(value) && text::trimmed(value)
        == kind
}

/// Whether some line of the frame names the event `kind`.
pub open spec fn is_event(frame: Seq<char>, kind: Seq<char>) -> bool {
    exists|i: int|
        0 <= i < text::lines_of(frame).len() && names_event(
            #[trigger] text::lines_of(frame)[i],
            kind,
        )
}

/// Whether some line of the frame names the event `kind`.
pub fn has_event(frame: &[char], kind: &str) -> (r: bool)
    ensures
        r == is_event(frame@, kind@),
{
    let lines = text::lines(frame);
    let ghost all = text::views(lines@);
    let mut i: usize = 0;
    while i < lines.len()
        invariant
            i <= lines@.len(),
            all == text::views(lines@),
            all == text::lines_of(frame@),
            forall|k: int| 0 <= k < i ==> !names_event(#[trigger] all[k], kind@),
        decreases lines@.len() - i,
    {
        assert(all[i as int] == lines@[i as int]@);
        if let Some(value) = text::strip_prefix(text::trim(lines[i]), "event:") {
            if text::equals(text::trim(value), kind) {
                return true;
            }
        }
        i = i + 1;
    }
    false
}

/// Two line feeds with no such pair before them are what a text or a buffer is cut
/// at, whatever follows.
proof fn lemma_cut<T>(first: Seq<T>, rest: Seq<T>, nl: T)
    requires
        forall|k: int| 0 <= k && k + 1 < first.len() ==> !(#[trigger] first[k] == nl && first[k + 1] == nl),
        first.len() > 0 ==> first.last() != nl,
    ensures
        blank_line(first + seq![nl, nl] + rest, nl) == Some(first.len() as int),
        (first + seq![nl, nl] + rest).take(first.len() as int) == first,
        (first + seq![nl, nl] + rest).skip(first.len() as int + 2) == rest,
{
    let s = first + seq![nl, nl] + rest;
    let n = first.len() as int;
    assert(s[n] == nl && s[n + 1] == nl);
    assert forall|k: int| 0 <= k < n implies !blank_at(s, nl, k) by {
        assert(s[k] == first[k]);
        if k + 1 < n {
            assert(s[k + 1] == first[k + 1]);
        }
    }
    lemma_blank_line_is(s, nl, n);
    assert(s.take(n) =~= first);
    assert(s.skip(n + 2) =~= rest);
}

/// A frame is all that stands before the first two line feeds, byte for byte, and
/// what stands after them is left, byte for byte.
pub proof fn law_frame_is_cut(first: Seq<u8>, rest: Seq<u8>)
    requires
        forall|k: int| 0 <= k && k + 1 < first.len() ==> !(#[trigger] first[k] == 10 && first[k + 1] == 10),
        first.len() > 0 ==> first.last() != 10,
    ensures
        next_frame(first + seq![10u8, 10u8] + rest) == Some((first, rest)),
{
    lemma_cut(first, rest, 10u8);
}

/// Where no two line feeds stand together there is no frame yet, and where two do
/// there is one.
pub proof fn law_frame_is_there(buf: Seq<u8>)
    ensures
        next_frame(buf) is Some <==> exists|k: int|
            0 <= k && k + 1 < buf.len() && #[trigger] buf[k] == 10 && buf[k + 1] == 10,
        next_frame(buf) matches Some((first, rest)) ==> buf == first + seq![10u8, 10u8] + rest,
{
    lemma_blank_line(buf, 10u8);
    match blank_line(buf, 10u8) {
        Some(i) => {
            assert(buf[i] == 10 && buf[i + 1] == 10);
            assert(buf =~= buf.take(i) + seq![10u8, 10u8] + buf.skip(i + 2));
        },
        None => {
            assert forall|k: int| 0 <= k && k + 1 < buf.len() && #[trigger] buf[k] == 10 implies buf[
                k + 1] != 10 by {
                assert(!blank_at(buf, 10u8, k));
            }
        },
    }
}

/// A text is cut into pieces at its blank lines: what stands before the first one
/// is a piece, to the letter, and the pieces of what follows come after it. A text
/// without a blank line is one piece.
pub proof fn law_blocks(first: Seq<char>, rest: Seq<char>)
    requires
        forall|k: int|
            0 <= k && k + 1 < first.len() ==> !(#[trigger] first[k] == '\n' && first[k + 1] == '\n'),
    ensures
        first.len() == 0 || first.last() != '\n' ==> blocks_of(first + seq!['\n', '\n'] + rest)
            == seq![first] + blocks_of(rest),
        blocks_of(first) == seq![first],
{
    if first.len() == 0 || first.last() != '\n' {
        lemma_cut(first, rest, '\n');
    }
    lemma_blank_line(first, '\n');
}

proof fn lemma_first_value(lines: Seq<Seq<char>>, name: Seq<char>)
    ensures
        match first_value(lines, name) {
            Some(v) => exists|i: int, rest: Seq<char>|
                0 <= i < lines.len() && text::trimmed(#[trigger] lines[i]) == #[trigger] (name
                    + rest) && v == text::trimmed(rest) && forall|k: int|
                    0 <= k < i ==> !name.is_prefix_of(text::trimmed(#[trigger] lines[k])),
            None => forall|k: int|
                0 <= k < lines.len() ==> !name.is_prefix_of(text::trimmed(#[trigger] lines[k])),
        },
    decreases lines.len(),
{
    if lines.len() > 0 {
        let tail = lines.drop_first();
        let line = text::trimmed(lines[0]);
        text::law_after_prefix(name, Seq::empty(), line);
        match text::after_prefix(line, name) {
            Some(rest) => {
                assert(text::trimmed(lines[0]) == name + rest);
            },
            None => {
                lemma_first_value(tail, name);
                match first_value(tail, name) {
                    Some(v) => {
                        let (i, rest) = choose|i: int, rest: Seq<char>|
                            0 <= i < tail.len() && text::trimmed(#[trigger] tail[i])
                                == #[trigger] (name + rest) && v == text::trimmed(rest)
                                && forall|k: int|
                                0 <= k < i ==> !name.is_prefix_of(
                                    text::trimmed(#[trigger] tail[k]),
                                );
                        assert(lines[i + 1] == tail[i]);
                        assert forall|k: int| 0 <= k < i + 1 implies !name.is_prefix_of(
                            text::trimmed(#[trigger] lines[k]),
                        ) by {
                            if k > 0 {
                                assert(lines[k] == tail[k - 1]);
                            }
                        }
                        assert(text::trimmed(lines[i + 1]) == name + rest);
                    },
                    None => {
                        assert forall|k: int| 0 <= k < lines.len() implies !name.is_prefix_of(
                            text::trimmed(#[trigger] lines[k]),
                        ) by {
                            if k > 0 {
                                assert(lines[k] == tail[k - 1]);
                            }
                        }
                    },
                }
            },
        }
    }
}

/// The value of a field is what stands after its name on the first line that starts
/// with the name, white space around the line and around the value aside; a frame
/// without such a line has none.
pub proof fn law_field(frame: Seq<char>, name: Seq<char>)
    ensures
        ({
            let lines = text::lines_of(frame);
            match field_of(frame, name) {
                Some(v) => exists|i: int, rest: Seq<char>|
                    0 <= i < lines.len() && text::trimmed(#[trigger] lines[i])
                        == #[trigger] (name + rest) && v == text::trimmed(rest) && forall|k: int|
                        0 <= k < i ==> !name.is_prefix_of(text::trimmed(#[trigger] lines[k])),
                None => forall|k: int|
                    0 <= k < lines.len() ==> !name.is_prefix_of(text::trimmed(#[trigger] lines[k])),
            }
        }),
{
    lemma_first_value(text::lines_of(frame), name);
}

/// A block names an event exactly if one of its lines, white space aside, is
/// `event:` and then the name, whatever the other lines hold.
pub proof fn law_event_is_named(block: Seq<char>, kind: Seq<char>)
    ensures
        is_event(block, kind) <==> exists|i: int, rest: Seq<char>|
            0 <= i < text::lines_of(block).len() && text::trimmed(
                #[trigger] text::lines_of(block)[i],
            ) == "event:"@ + rest && #[trigger] text::trimmed(rest) == kind,
{
    let lines = text::lines_of(block);
    if is_event(block, kind) {
        let i = choose|i: int| 0 <= i < lines.len() && names_event(#[trigger] lines[i], kind);
        let line = text::trimmed(lines[i]);
        text::law_after_prefix("event:"@, Seq::empty(), line);
        let rest = text::after_prefix(line, "event:"@)->0;
        assert(text::trimmed(lines[i]) == "event:"@ + rest && text::trimmed(rest) == kind);
    }
    if exists|i: int, rest: Seq<char>|
        0 <= i < lines.len() && text::trimmed(#[trigger] lines[i]) == "event:"@ + rest
            && #[trigger] text::trimmed(rest) == kind {
        let (i, rest) = choose|i: int, rest: Seq<char>|
            0 <= i < lines.len() && text::trimmed(#[trigger] lines[i]) == "event:"@ + rest
                && #[trigger] text::trimmed(rest) == kind;
        text::law_after_prefix("event:"@, rest, Seq::empty());
        assert(names_event(lines[i], kind));
    }
}

} // verus!

//! Text: decoding, lines, trimming, and writing numbers.
use vstd::prelude::*;
use vstd::slice::slice_subrange;
use vstd::string::*;
use vstd::utf8::*;
use crate::bytes::{copy, same, views};

verus! {

/// The byte that ends a line.
pub const LF: u8 = 0x0a;

/// The byte that may stand before the end of a line.
pub const CR: u8 = 0x0d;

/// The text that `String::from_utf8_lossy` makes of bytes.
pub uninterp spec fn lossy_text(data: Seq<u8>) -> Seq<char>;

/// Calls `std::str::from_utf8`: bytes are text exactly where they are valid UTF-8, and the text
/// then has these bytes.
#[verifier::external_body]
pub(crate) fn from_utf8(data: &[u8]) -> (r: Option<&str>)
    ensures
        r is Some <==> valid_utf8(data@),
        r matches Some(text) ==> text@ == decode_utf8(data@) && encode_utf8(text@) == data@,
{
    std::str::from_utf8(data).ok()
}

/// Calls `String::from_utf8_lossy`: valid UTF-8 becomes the text that it encodes. What stands in
/// place of invalid bytes is left unsaid; it depends on the bytes alone.
#[verifier::external_body]
pub(crate) fn lossy(data: &[u8]) -> (r: String)
    ensures
        r@ == lossy_text(data@),
        valid_utf8(data@) ==> r@ == decode_utf8(data@),
{
    String::from_utf8_lossy(data).into_owned()
}

/// A character with the Unicode property `White_Space`.
pub open spec fn is_white_space(c: char) -> bool {
    let x = c as u32;
    ||| 0x9 <= x <= 0xd
    ||| x == 0x20
    ||| x == 0x85
    ||| x == 0xa0
    ||| x == 0x1680
    ||| 0x2000 <= x <= 0x200a
    ||| x == 0x2028
    ||| x == 0x2029
    ||| x == 0x202f
    ||| x == 0x205f
    ||| x == 0x3000
}

/// Text without the white space that it begins with.
pub open spec fn trim_start_of(s: Seq<char>) -> Seq<char>
    decreases s.len(),
{
    if s.len() > 0 && is_white_space(s[0]) {
        trim_start_of(s.drop_first())
    } else {
        s
    }
}

/// Text without the white space that it ends with.
pub open spec fn trim_end_of(s: Seq<char>) -> Seq<char>
    decreases s.len(),
{
    if s.len() > 0 && is_white_space(s.last()) {
        trim_end_of(s.drop_last())
    } else {
        s
    }
}

/// Calls `str::trim`: the text without the white space at both its ends.
#[verifier::external_body]
pub(crate) fn trim(s: &str) -> (r: &str)
    ensures
        r@ == trim_end_of(trim_start_of(s@)),
{
    s.trim()
}

/// How many bytes stand before the first end of a line.
pub open spec fn line_length(s: Seq<u8>) -> nat
    decreases s.len(),
{
    if s.len() == 0 || s[0] == LF {
        0
    } else {
        1 + line_length(s.drop_first())
    }
}

proof fn lemma_line_length(s: Seq<u8>)
    ensures
        line_length(s) <= s.len(),
        line_length(s) < s.len() ==> s[line_length(s) as int] == LF,
        forall|i: int| 0 <= i < line_length(s) ==> s[i] != LF,
    decreases s.len(),
{
    if s.len() > 0 && s[0] != LF {
        lemma_line_length(s.drop_first());
        assert forall|i: int| 0 <= i < line_length(s) implies s[i] != LF by {
            if i > 0 {
                assert(s[i] == s.drop_first()[i - 1]);
            }
        }
    }
}

proof fn lemma_line_length_is(s: Seq<u8>, n: nat)
    requires
        n <= s.len(),
        n < s.len() ==> s[n as int] == LF,
        forall|i: int| 0 <= i < n ==> s[i] != LF,
    ensures
        line_length(s) == n,
{
    lemma_line_length(s);
    if n < line_length(s) {
        assert(s[n as int] != LF);
    }
}

/// A line that an end of line follows, without the carriage return before it.
pub open spec fn chomped(line: Seq<u8>) -> Seq<u8> {
    if line.len() > 0 && line.last() == CR {
        line.drop_last()
    } else {
        line
    }
}

/// The lines of `s`, without what ends them. What stands behind the last end of line is a line
/// too, unless it is empty.
pub open spec fn lines_of(s: Seq<u8>) -> Seq<Seq<u8>>
    decreases s.len(),
{
    let n = line_length(s);
    if s.len() == 0 {
        Seq::empty()
    } else if n >= s.len() {
        seq![s]
    } else {
        seq![chomped(s.take(n as int))] + lines_of(s.skip(n as int + 1))
    }
}

/// The lines of `s`.
pub fn lines(s: &[u8]) -> (r: Vec<Vec<u8>>)
    ensures
        views(r@) == lines_of(s@),
{
    let mut r: Vec<Vec<u8>> = Vec::new();
    let mut start: usize = 0;
    assert(s@.skip(0) =~= s@);
    assert(views(r@) + lines_of(s@) =~= lines_of(s@));
    while start < s.len()
        invariant
            start <= s@.len(),
            views(r@) + lines_of(s@.skip(start as int)) == lines_of(s@),
        decreases s@.len() - start,
    {
        let ghost rest = s@.skip(start as int);
        let ghost done = views(r@);
        let mut end: usize = start;
        while end < s.len() && s[end] != LF
            invariant
                start <= end <= s@.len(),
                rest == s@.skip(start as int),
                forall|i: int| 0 <= i < end - start ==> rest[i] != LF,
            decreases s@.len() - end,
        {
            end += 1;
        }
        proof {
            lemma_line_length_is(rest, (end - start) as nat);
        }
        if end == s.len() {
            let line: Vec<u8> = copy(slice_subrange(s, start, end));
            proof {
                assert(line@ =~= rest);
                assert(lines_of(rest) =~= seq![line@]);
            }
            r.push(line);
            proof {
                assert(views(r@) =~= done.push(rest));
                assert(s@.skip(end as int) =~= Seq::<u8>::empty());
                assert(views(r@) + lines_of(s@.skip(end as int)) =~= done + lines_of(rest));
            }
            start = end;
        } else {
            let stop: usize = if end > start && s[end - 1] == CR {
                end - 1
            } else {
                end
            };
            let line: Vec<u8> = copy(slice_subrange(s, start, stop));
            let ghost l = line@;
            proof {
                assert(l =~= chomped(rest.take(end - start)));
                assert(rest.skip(end - start + 1) =~= s@.skip(end + 1));
            }
            r.push(line);
            proof {
                assert(views(r@) =~= done.push(l));
                assert(views(r@) + lines_of(s@.skip(end + 1)) =~= done + lines_of(rest));
            }
            start = end + 1;
        }
    }
    assert(views(r@) + lines_of(s@.skip(start as int)) =~= views(r@));
    r
}

/// Each line of text is text.
pub proof fn lemma_lines_are_text(s: Seq<u8>)
    requires
        valid_utf8(s),
    ensures
        forall|i: int| 0 <= i < lines_of(s).len() ==> valid_utf8(#[trigger] lines_of(s)[i]),
    decreases s.len(),
{
    let n = line_length(s);
    lemma_line_length(s);
    if s.len() > 0 && n < s.len() {
        lemma_text_around(s, n as int);
        let first = s.take(n as int);
        if first.len() > 0 && first.last() == CR {
            lemma_text_around(first, first.len() - 1);
            assert(first.take(first.len() - 1) =~= first.drop_last());
        }
        lemma_lines_are_text(s.skip(n as int + 1));
        let rest = lines_of(s.skip(n as int + 1));
        assert forall|i: int| 0 <= i < lines_of(s).len() implies valid_utf8(
            #[trigger] lines_of(s)[i],
        ) by {
            if i > 0 {
                assert(lines_of(s)[i] == rest[i - 1]);
            }
        }
    }
}

/// What stands before and behind an ASCII character of text is text.
proof fn lemma_text_around(s: Seq<u8>, i: int)
    requires
        valid_utf8(s),
        0 <= i < s.len(),
        s[i] < 0x80,
    ensures
        valid_utf8(s.take(i)),
        valid_utf8(s.skip(i + 1)),
{
    is_char_boundary_iff_not_is_continuation_byte(s, i);
    valid_utf8_split(s, i);
    let tail = s.subrange(i, s.len() as int);
    assert(s.take(i) =~= s.subrange(0, i));
    assert(pop_first_scalar(tail) =~= s.skip(i + 1));
}

/// `s` without the byte `b` wherever it begins with it.
pub open spec fn without_leading(s: Seq<u8>, b: u8) -> Seq<u8>
    decreases s.len(),
{
    if s.len() > 0 && s[0] == b {
        without_leading(s.drop_first(), b)
    } else {
        s
    }
}

/// `s` without the byte `b` wherever it begins with it.
pub fn strip_leading<'a>(s: &'a [u8], b: u8) -> (r: &'a [u8])
    ensures
        r@ == without_leading(s@, b),
{
    let mut i: usize = 0;
    assert(s@.skip(0) =~= s@);
    while i < s.len() && s[i] == b
        invariant
            i <= s@.len(),
            without_leading(s@, b) == without_leading(s@.skip(i as int), b),
        decreases s@.len() - i,
    {
        assert(s@.skip(i as int).drop_first() =~= s@.skip(i + 1));
        i += 1;
    }
    let r = slice_subrange(s, i, s.len());
    assert(r@ =~= s@.skip(i as int));
    r
}

/// `s` begins with a byte order mark (U+FEFF).
pub open spec fn begins_with_mark(s: Seq<u8>) -> bool {
    s.len() >= 3 && s[0] == 0xef && s[1] == 0xbb && s[2] == 0xbf
}

/// `s` without the byte order marks that it begins with.
pub open spec fn without_marks(s: Seq<u8>) -> Seq<u8>
    decreases s.len(),
{
    if begins_with_mark(s) {
        without_marks(s.skip(3))
    } else {
        s
    }
}

/// `s` without the byte order marks that it begins with.
pub fn strip_marks<'a>(s: &'a [u8]) -> (r: &'a [u8])
    ensures
        r@ == without_marks(s@),
{
    let mut i: usize = 0;
    assert(s@.skip(0) =~= s@);
    while s.len() - i >= 3 && s[i] == 0xef && s[i + 1] == 0xbb && s[i + 2] == 0xbf
        invariant
            i <= s@.len(),
            without_marks(s@) == without_marks(s@.skip(i as int)),
        decreases s@.len() - i,
    {
        assert(s@.skip(i as int).skip(3) =~= s@.skip(i + 3));
        i += 3;
    }
    let r = slice_subrange(s, i, s.len());
    assert(r@ =~= s@.skip(i as int));
    r
}

/// Whether two texts are the same.
pub fn same_text(a: &str, b: &str) -> (r: bool)
    ensures
        r == (a@ == b@),
{
    proof {
        encode_utf8_decode_utf8(a@);
        encode_utf8_decode_utf8(b@);
    }
    same(a.as_bytes(), b.as_bytes())
}

/// The texts that a list of strings holds.
pub open spec fn texts(list: Seq<String>) -> Seq<Seq<char>> {
    Seq::new(list.len(), |i: int| list[i]@)
}

/// ASCII bytes are text, with one character for each byte.
pub proof fn lemma_ascii_is_text(s: Seq<u8>)
    requires
        forall|i: int| 0 <= i < s.len() ==> #[trigger] s[i] < 0x80,
    ensures
        valid_utf8(s),
    decreases s.len(),
{
    if s.len() > 0 {
        assert(pop_first_scalar(s) =~= s.drop_first());
        lemma_ascii_is_text(s.drop_first());
    }
}

/// Text is cut into lines at every line feed, with the carriage return before it: what stands
/// before the first is the first line, and what stands behind it is cut in the same way. Text
/// without one is a line, unless it is empty.
pub proof fn law_lines_end_at_every_line_feed(a: Seq<u8>, b: Seq<u8>)
    requires
        !a.contains(0x0a),
    ensures
        lines_of(Seq::empty()) == Seq::<Seq<u8>>::empty(),
        a.len() > 0 ==> lines_of(a) == seq![a],
        a.len() == 0 || a.last() != 0x0d ==> lines_of(a + seq![0x0au8] + b) == seq![a]
            + lines_of(b),
        lines_of(a + seq![0x0du8, 0x0au8] + b) == seq![a] + lines_of(b),
{
    assert forall|i: int| 0 <= i < a.len() implies a[i] != 0x0a by {
        assert(a.contains(a[i]));
    }
    lemma_line_length_is(a, a.len());
    let s = a + seq![0x0au8] + b;
    lemma_line_length_is(s, a.len());
    assert(s.take(a.len() as int) =~= a);
    assert(s.skip(a.len() as int + 1) =~= b);
    let t = a + seq![0x0du8, 0x0au8] + b;
    lemma_line_length_is(t, a.len() + 1);
    assert(t.take(a.len() as int + 1) =~= a.push(0x0d));
    assert(a.push(0x0d).drop_last() =~= a);
    assert(t.skip(a.len() as int + 2) =~= b);
}

/// What is stripped from the beginning is all that is this byte up to the first that is not, and
/// nothing else.
pub proof fn law_leading_bytes_are_stripped(s: Seq<u8>, b: u8) -> (n: int)
    ensures
        0 <= n <= s.len(),
        without_leading(s, b) == s.skip(n),
        forall|i: int| 0 <= i < n ==> s[i] == b,
        n < s.len() ==> s[n] != b,
    decreases s.len(),
{
    if s.len() > 0 && s[0] == b {
        let m = law_leading_bytes_are_stripped(s.drop_first(), b);
        assert(s.drop_first().skip(m) =~= s.skip(m + 1));
        assert forall|i: int| 0 <= i < m + 1 implies s[i] == b by {
            if i > 0 {
                assert(s.drop_first()[i - 1] == s[i]);
            }
        }
        m + 1
    } else {
        assert(s.skip(0) =~= s);
        0
    }
}

/// A byte order mark at the beginning does not matter, and without one nothing is stripped.
pub proof fn law_marks_are_stripped(s: Seq<u8>)
    ensures
        without_marks(seq![0xefu8, 0xbbu8, 0xbfu8] + s) == without_marks(s),
        !seq![0xefu8, 0xbbu8, 0xbfu8].is_prefix_of(s) ==> without_marks(s) == s,
{
    let mark = seq![0xefu8, 0xbbu8, 0xbfu8];
    assert((mark + s).skip(3) =~= s);
    if begins_with_mark(s) {
        assert(s.subrange(0, 3) =~= mark);
    }
}

/// White space in ASCII is the space, and tab, line feed, vertical tab, form feed and carriage
/// return.
pub proof fn law_white_space_in_ascii(c: char)
    requires
        c as u32 <= 0x7f,
    ensures
        is_white_space(c) <==> c as u32 == 0x20 || c as u32 == 0x09 || c as u32 == 0x0a || c as u32
            == 0x0b || c as u32 == 0x0c || c as u32 == 0x0d,
{
}

/// White space is trimmed from both ends of text, whatever it is, and only there.
pub proof fn law_white_space_is_trimmed(a: Seq<char>, text: Seq<char>, b: Seq<char>)
    requires
        forall|i: int| 0 <= i < a.len() ==> is_white_space(#[trigger] a[i]),
        forall|i: int| 0 <= i < b.len() ==> is_white_space(#[trigger] b[i]),
        text.len() > 0 ==> !is_white_space(text[0]) && !is_white_space(text.last()),
    ensures
        trim_end_of(trim_start_of(a + text + b)) == text,
    decreases a.len() + b.len(),
{
    let all = a + text + b;
    if a.len() > 0 {
        assert(all.drop_first() =~= a.drop_first() + text + b);
        assert forall|i: int| 0 <= i < a.drop_first().len() implies is_white_space(
            #[trigger] a.drop_first()[i],
        ) by {
            assert(a.drop_first()[i] == a[i + 1]);
        }
        law_white_space_is_trimmed(a.drop_first(), text, b);
    } else if text.len() == 0 && b.len() > 0 {
        assert(all =~= b);
        assert(all.drop_first() =~= a + text + b.drop_first());
        assert forall|i: int| 0 <= i < b.drop_first().len() implies is_white_space(
            #[trigger] b.drop_first()[i],
        ) by {
            assert(b.drop_first()[i] == b[i + 1]);
        }
        law_white_space_is_trimmed(a, text, b.drop_first());
    } else if b.len() > 0 {
        assert(all.drop_last() =~= a + text + b.drop_last());
        assert(trim_start_of(all) == all);
        assert(a + text + b.drop_last() =~= text + b.drop_last());
        assert((text + b.drop_last())[0] == text[0]);
        assert forall|i: int| 0 <= i < b.drop_last().len() implies is_white_space(
            #[trigger] b.drop_last()[i],
        ) by {
            assert(b.drop_last()[i] == b[i]);
        }
        law_white_space_is_trimmed(a, text, b.drop_last());
    } else {
        assert(all =~= text);
    }
}

} // verus!

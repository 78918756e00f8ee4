//! Small verified helpers on strings and byte slices.

use vstd::prelude::*;
use vstd::string::{StrSliceExecFns, StringSliceAdditionalSpecFns};
use vstd::utf8::{
    encode_utf8, encode_utf8_decode_utf8, encode_utf8_valid_utf8, is_char_boundary, is_char_boundary_iff_not_is_continuation_byte,
    is_char_boundary_start_end_of_seq, length_of_first_scalar, pop_first_scalar, valid_first_scalar, valid_utf8,
};

verus! {

/// `String::push`, which appends one character to a string.
#[verifier::external_body]
pub(crate) fn push_char(s: &mut String, c: char)
    ensures
        final(s)@ == old(s)@.push(c),
{
    s.push(c)
}

/// Byte-wise equality of two slices.
pub fn bytes_eq(a: &[u8], b: &[u8]) -> (r: bool)
    ensures
        r == (a@ == b@),
{
    if a.len() != b.len() {
        return false;
    }
    let mut i: usize = 0;
    while i < a.len()
        invariant
            a@.len() == b@.len(),
            0 <= i <= a@.len(),
            forall|j: int| 0 <= j < i ==> a@[j] == b@[j],
        decreases a@.len() - i,
    {
        if a[i] != b[i] {
            return false;
        }
        i = i + 1;
    }
    assert(a@ =~= b@);
    true
}

/// Equality of two string slices by their characters.
pub fn str_eq(a: &str, b: &str) -> (r: bool)
    ensures
        r == (a@ == b@),
{
    let x = a.as_bytes();
    let y = b.as_bytes();
    let same = bytes_eq(x, y);
    proof {
        encode_utf8_decode_utf8(a@);
        encode_utf8_decode_utf8(b@);
    }
    same
}

/// The characters of a sequence of owned strings.
pub open spec fn views(s: Seq<String>) -> Seq<Seq<char>> {
    s.map_values(|x: String| x@)
}

/// Whether `s` is one of the strings held by `v`.
pub open spec fn holds(v: Seq<String>, s: Seq<char>) -> bool {
    exists|i: int| 0 <= i < v.len() && #[trigger] v[i]@ == s
}

/// Whether a vector of strings holds a string equal to `s`.
pub fn contains_str(v: &Vec<String>, s: &str) -> (r: bool)
    ensures
        r == holds(v@, s@),
{
    let mut i: usize = 0;
    while i < v.len()
        invariant
            0 <= i <= v@.len(),
            forall|j: int| 0 <= j < i ==> v@[j]@ != s@,
        decreases v@.len() - i,
    {
        if str_eq(v[i].as_str(), s) {
            return true;
        }
        i = i + 1;
    }
    false
}

/// Whether the sequence `a` starts with the sequence `b`.
pub open spec fn starts_with<T>(a: Seq<T>, b: Seq<T>) -> bool {
    b.len() <= a.len() && a.subrange(0, b.len() as int) == b
}

/// The bytes of `s` from `a` to `b`, where both fall on character boundaries.
pub fn slice_str(s: &str, a: usize, b: usize) -> (r: &str)
    requires
        a <= b <= s.spec_bytes().len(),
        is_char_boundary(s.spec_bytes(), a as int),
        is_char_boundary(s.spec_bytes(), b as int),
    ensures
        r.spec_bytes() == s.spec_bytes().subrange(a as int, b as int),
{
    let ghost bytes = s.spec_bytes();
    proof {
        encode_utf8_valid_utf8(s@);
    }
    let (_, tail) = s.split_at(a);
    proof {
        encode_utf8_valid_utf8(tail@);
        is_char_boundary_start_end_of_seq(tail.spec_bytes());
        if (b - a) < tail.spec_bytes().len() {
            is_char_boundary_iff_not_is_continuation_byte(bytes, b as int);
            is_char_boundary_iff_not_is_continuation_byte(tail.spec_bytes(), (b - a) as int);
            assert(tail.spec_bytes()[(b - a) as int] == bytes[b as int]);
        }
    }
    let (r, _) = tail.split_at(b - a);
    proof {
        assert(r.spec_bytes() =~= bytes.subrange(a as int, b as int));
    }
    r
}

/// A byte that never occurs inside the UTF-8 encoding of another character.
pub open spec fn is_ascii_byte(c: u8) -> bool {
    c < 128
}

/// The position after an ASCII byte of valid UTF-8 begins a character or
/// ends the text.
proof fn lemma_boundary_after_ascii(bytes: Seq<u8>, i: int)
    requires
        valid_utf8(bytes),
        0 < i <= bytes.len(),
        is_ascii_byte(bytes[i - 1]),
    ensures
        is_char_boundary(bytes, i),
    decreases bytes.len(),
{
    let first = length_of_first_scalar(bytes);
    let rest = pop_first_scalar(bytes);
    assert(valid_first_scalar(bytes) && valid_utf8(rest));
    assert(rest.len() == bytes.len() - first);
    if i - 1 < first {
        assert(i - 1 == 0);
        assert(first == 1);
        assert(is_char_boundary(rest, 0));
    } else {
        assert(rest[i - first - 1] == bytes[i - 1]);
        lemma_boundary_after_ascii(rest, i - first);
    }
}

/// The encoding of joined texts joins their encodings.
pub proof fn lemma_encode_concat(a: Seq<char>, b: Seq<char>)
    ensures
        encode_utf8(a + b) == encode_utf8(a) + encode_utf8(b),
    decreases a.len(),
{
    if a.len() == 0 {
        assert(a + b =~= b);
        assert(encode_utf8(a) + encode_utf8(b) =~= encode_utf8(b));
    } else {
        assert((a + b).drop_first() =~= a.drop_first() + b);
        assert((a + b)[0] == a[0]);
        lemma_encode_concat(a.drop_first(), b);
        assert(encode_utf8(a + b) =~= encode_utf8(a) + encode_utf8(b));
    }
}

/// A valid UTF-8 text that begins another valid UTF-8 text ends on a
/// character boundary of it.
pub proof fn lemma_prefix_boundary(bytes: Seq<u8>, prefix: Seq<u8>)
    requires
        valid_utf8(bytes),
        valid_utf8(prefix),
        prefix.len() <= bytes.len(),
        bytes.take(prefix.len() as int) == prefix,
    ensures
        is_char_boundary(bytes, prefix.len() as int),
    decreases prefix.len(),
{
    if prefix.len() > 0 {
        assert(bytes[0] == prefix[0]);
        let first = length_of_first_scalar(prefix);
        assert(valid_first_scalar(prefix));
        assert(valid_first_scalar(bytes));
        assert(length_of_first_scalar(bytes) == first);
        let rest = pop_first_scalar(bytes);
        let prest = pop_first_scalar(prefix);
        assert(rest.take(prest.len() as int) =~= prest) by {
            assert forall|i: int| 0 <= i < prest.len() implies rest[i] == prest[i] by {
                assert(rest[i] == bytes[i + first]);
                assert(prest[i] == prefix[i + first]);
                assert(bytes.take(prefix.len() as int)[i + first] == bytes[i + first]);
            }
        }
        lemma_prefix_boundary(rest, prest);
    }
}

/// Every ASCII byte of valid UTF-8 begins a character, and so does the
/// position after one.
pub proof fn lemma_ascii_boundary(s: &str, i: int)
    requires
        0 <= i <= s.spec_bytes().len(),
        (i < s.spec_bytes().len() && is_ascii_byte(s.spec_bytes()[i])) || i == s.spec_bytes().len() || i == 0 || (0 < i
            && is_ascii_byte(s.spec_bytes()[i - 1])),
    ensures
        is_char_boundary(s.spec_bytes(), i),
{
    encode_utf8_valid_utf8(s@);
    is_char_boundary_start_end_of_seq(s.spec_bytes());
    if 0 < i < s.spec_bytes().len() {
        if is_ascii_byte(s.spec_bytes()[i]) {
            is_char_boundary_iff_not_is_continuation_byte(s.spec_bytes(), i);
        } else {
            lemma_boundary_after_ascii(s.spec_bytes(), i);
        }
    }
}

/// A line without the carriage return that ended it before its line feed.
pub open spec fn drop_cr(line: Seq<u8>) -> Seq<u8> {
    if line.len() > 0 && line.last() == 13 {
        line.drop_last()
    } else {
        line
    }
}

/// The lines of `b` from position `i` on, where the current line began at
/// `start`: lines end at line feeds, a carriage return before a line feed is
/// dropped, and no empty line follows a final line feed.
pub open spec fn lines_from(b: Seq<u8>, i: int, start: int) -> Seq<Seq<u8>>
    decreases b.len() - i,
{
    if i < 0 || i >= b.len() {
        if start < b.len() {
            seq![b.subrange(start, b.len() as int)]
        } else {
            Seq::empty()
        }
    } else if b[i] == 10 {
        seq![drop_cr(b.subrange(start, i))] + lines_from(b, i + 1, i + 1)
    } else {
        lines_from(b, i + 1, start)
    }
}

/// The lines of a text, by their bytes.
pub open spec fn byte_lines(b: Seq<u8>) -> Seq<Seq<u8>> {
    lines_from(b, 0, 0)
}

/// A text has no more lines than bytes.
pub proof fn lemma_lines_len(b: Seq<u8>, i: int, start: int)
    requires
        0 <= start <= i <= b.len(),
    ensures
        lines_from(b, i, start).len() <= b.len() - start,
    decreases b.len() - i,
{
    if i < b.len() {
        if b[i] == 10 {
            lemma_lines_len(b, i + 1, i + 1);
        } else {
            lemma_lines_len(b, i + 1, start);
        }
    }
}

/// Line `n` of a text, counted from one.
pub open spec fn text_line(b: Seq<u8>, n: int) -> Option<Seq<u8>> {
    if 1 <= n <= byte_lines(b).len() {
        Some(byte_lines(b)[n - 1])
    } else {
        None
    }
}

/// Line `n` of `s`, counted from one, without its line ending.
pub fn line_of(s: &str, n: usize) -> (r: Option<&str>)
    ensures
        match text_line(s.spec_bytes(), n as int) {
            Some(l) => r matches Some(x) && x.spec_bytes() == l,
            None => r is None,
        },
{
    let bytes = s.as_bytes();
    let ghost b = bytes@;
    let len = bytes.len();
    if n == 0 {
        return None;
    }
    let mut start: usize = 0;
    let mut count: usize = 0;
    let mut i: usize = 0;
    let ghost mut done: Seq<Seq<u8>> = Seq::empty();
    proof {
        assert(byte_lines(b) =~= done + lines_from(b, 0, 0));
    }
    while i < len
        invariant
            b == bytes@,
            b == s.spec_bytes(),
            len == b.len(),
            1 <= n,
            start <= i <= len,
            count == done.len(),
            count < n,
            byte_lines(b) == done + lines_from(b, i as int, start as int),
            start == 0 || (0 < start && b[start - 1] == 10),
        decreases len - i,
    {
        if bytes[i] == 10 {
            if count + 1 == n {
                let end: usize = if i > start && bytes[i - 1] == 13 {
                    i - 1
                } else {
                    i
                };
                proof {
                    lemma_ascii_boundary(s, start as int);
                    lemma_ascii_boundary(s, end as int);
                    let l = b.subrange(start as int, i as int);
                    assert(lines_from(b, i as int, start as int) == seq![drop_cr(l)] + lines_from(b, i + 1, i + 1));
                    assert(byte_lines(b)[n - 1] == drop_cr(l));
                    if end < i {
                        assert(drop_cr(l) =~= b.subrange(start as int, end as int));
                    } else {
                        assert(drop_cr(l) =~= b.subrange(start as int, end as int));
                    }
                }
                return Some(slice_str(s, start, end));
            }
            proof {
                let l = b.subrange(start as int, i as int);
                assert(done + lines_from(b, i as int, start as int) =~= done.push(drop_cr(l)) + lines_from(
                    b,
                    i + 1,
                    i + 1,
                ));
                done = done.push(drop_cr(l));
            }
            count = count + 1;
            start = i + 1;
        }
        i = i + 1;
    }
    if start < len && count + 1 == n {
        proof {
            lemma_ascii_boundary(s, start as int);
            lemma_ascii_boundary(s, len as int);
            assert(lines_from(b, len as int, start as int) == seq![b.subrange(start as int, len as int)]);
        }
        Some(slice_str(s, start, len))
    } else {
        proof {
            if start < len {
                assert(byte_lines(b).len() == count + 1);
            } else {
                assert(lines_from(b, len as int, start as int) =~= Seq::<Seq<u8>>::empty());
                assert(byte_lines(b) =~= done);
            }
        }
        None
    }
}

/// A character of the Unicode `White_Space` property.
pub open spec fn is_white_space(c: char) -> bool {
    let u = c as u32;
    (9 <= u <= 13) || u == 32 || u == 0x85 || u == 0xA0 || u == 0x1680 || (0x2000 <= u <= 0x200A) || u == 0x2028
        || u == 0x2029 || u == 0x202F || u == 0x205F || u == 0x3000
}

/// Whether a character has the Unicode `White_Space` property.
pub fn white_space(c: char) -> (r: bool)
    ensures
        r == is_white_space(c),
{
    let u = c as u32;
    (9 <= u && u <= 13) || u == 32 || u == 0x85 || u == 0xA0 || u == 0x1680 || (0x2000 <= u && u <= 0x200A) || u
        == 0x2028 || u == 0x2029 || u == 0x202F || u == 0x205F || u == 0x3000
}

/// Whether a text is empty once leading and trailing white space is trimmed:
/// whether all of its characters are white space.
pub fn is_blank(s: &str) -> (r: bool)
    ensures
        r == forall|i: int| 0 <= i < s@.len() ==> is_white_space(#[trigger] s@[i]),
{
    let n = s.unicode_len();
    let mut i: usize = 0;
    while i < n
        invariant
            n == s@.len(),
            i <= n,
            forall|k: int| 0 <= k < i ==> is_white_space(#[trigger] s@[k]),
        decreases n - i,
    {
        if !white_space(s.get_char(i)) {
            return false;
        }
        i = i + 1;
    }
    true
}

/// The text after `prefix`, when `s` starts with it.
pub fn strip_prefix<'a>(s: &'a str, prefix: &str) -> (r: Option<&'a str>)
    ensures
        match r {
            Some(rest) => starts_with(s.spec_bytes(), prefix.spec_bytes()) && rest.spec_bytes() == s.spec_bytes().skip(
                prefix.spec_bytes().len() as int,
            ),
            None => !starts_with(s.spec_bytes(), prefix.spec_bytes()),
        },
{
    let b = s.as_bytes();
    let p = prefix.as_bytes();
    if p.len() > b.len() {
        return None;
    }
    let mut i: usize = 0;
    while i < p.len()
        invariant
            b@ == s.spec_bytes(),
            p@ == prefix.spec_bytes(),
            p@.len() <= b@.len(),
            i <= p@.len(),
            forall|k: int| 0 <= k < i ==> b@[k] == p@[k],
        decreases p@.len() - i,
    {
        if b[i] != p[i] {
            proof {
                assert(b@.subrange(0, p@.len() as int)[i as int] != p@[i as int]);
            }
            return None;
        }
        i = i + 1;
    }
    proof {
        assert(b@.subrange(0, p@.len() as int) =~= p@);
        encode_utf8_valid_utf8(s@);
        encode_utf8_valid_utf8(prefix@);
        lemma_prefix_boundary(b@, p@);
        is_char_boundary_start_end_of_seq(b@);
    }
    let rest = slice_str(s, p.len(), b.len());
    proof {
        assert(rest.spec_bytes() =~= s.spec_bytes().skip(p@.len() as int));
    }
    Some(rest)
}

} // verus!

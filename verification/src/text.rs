//! Byte-level view of string slices: classes of bytes, runs of one class,
//! and cutting a slice at byte offsets that fall between characters.

use vstd::prelude::*;
use vstd::string::*;
use vstd::utf8::*;

verus! {

/// The line feed that ends a line.
pub const NEWLINE: u8 = 0x0a;

/// The tab, one of the two blanks.
pub const TAB: u8 = 0x09;

/// The space, one of the two blanks.
pub const SPACE: u8 = 0x20;

/// `#`, which starts a comment.
pub const HASH: u8 = 0x23;

/// `-`, the one byte of a key that is no letter or digit.
pub const HYPHEN: u8 = 0x2d;

/// `=`, which parts a key from its value.
pub const EQUALS: u8 = 0x3d;

/// `[`, which opens a group header or the locale tag of a key.
pub const OPEN_BRACKET: u8 = 0x5b;

/// `]`, which closes what `[` opened.
pub const CLOSE_BRACKET: u8 = 0x5d;

/// The UTF-8 bytes of a string slice.
pub open spec fn bytes_of(s: &str) -> Seq<u8> {
    s.spec_bytes()
}

/// The UTF-8 bytes of an optional string slice.
pub open spec fn opt_bytes_of(s: Option<&str>) -> Option<Seq<u8>> {
    match s {
        Some(s) => Some(bytes_of(s)),
        None => None,
    }
}

/// The UTF-8 bytes of each string slice of a list.
pub open spec fn bytes_of_each(list: Seq<&str>) -> Seq<Seq<u8>> {
    Seq::new(list.len(), |i: int| bytes_of(list[i]))
}

/// The UTF-8 bytes of both string slices of each pair of a list.
pub open spec fn bytes_of_pairs(list: Seq<(&str, &str)>) -> Seq<(Seq<u8>, Seq<u8>)> {
    Seq::new(list.len(), |i: int| (bytes_of(list[i].0), bytes_of(list[i].1)))
}

/// The classes of bytes that the grammars of this crate tell apart.
#[derive(Clone, Copy, Debug)]
pub enum ByteClass {
    /// A space or a tab.
    Blank,
    /// An ASCII letter.
    Letter,
    /// An ASCII letter, an ASCII digit or a hyphen.
    KeyByte,
    /// Any byte but the given one.
    Except(u8),
}

/// Whether `b` is an ASCII letter.
pub open spec fn is_letter(b: u8) -> bool {
    (0x41 <= b <= 0x5a) || (0x61 <= b <= 0x7a)
}

/// Whether `b` is an ASCII digit.
pub open spec fn is_digit(b: u8) -> bool {
    0x30 <= b <= 0x39
}

impl ByteClass {
    /// Whether `b` belongs to the class.
    pub open spec fn holds(self, b: u8) -> bool {
        match self {
            ByteClass::Blank => b == SPACE || b == TAB,
            ByteClass::Letter => is_letter(b),
            ByteClass::KeyByte => is_letter(b) || is_digit(b) || b == HYPHEN,
            ByteClass::Except(x) => b != x,
        }
    }

    /// Whether `b` belongs to the class.
    pub fn test(&self, b: u8) -> (r: bool)
        ensures
            r == self.holds(b),
    {
        match self {
            ByteClass::Blank => b == SPACE || b == TAB,
            ByteClass::Letter => (0x41 <= b && b <= 0x5a) || (0x61 <= b && b <= 0x7a),
            ByteClass::KeyByte => (0x41 <= b && b <= 0x5a) || (0x61 <= b && b <= 0x7a) || (0x30
                <= b && b <= 0x39) || b == HYPHEN,
            ByteClass::Except(x) => b != *x,
        }
    }
}

/// Where the run of bytes of `class` that starts at `from` ends: the offset
/// of the first byte at or behind `from` that is not of the class, or the
/// length of `t` if there is none.
pub open spec fn run_end(t: Seq<u8>, from: int, class: ByteClass) -> int
    decreases t.len() - from,
{
    if 0 <= from < t.len() && class.holds(t[from]) {
        run_end(t, from + 1, class)
    } else {
        from
    }
}

/// What `run_end` returns: all bytes up to it are of the class, and the byte
/// at it, if there is one, is not.
pub proof fn lemma_run_end(t: Seq<u8>, from: int, class: ByteClass)
    requires
        0 <= from <= t.len(),
    ensures
        from <= run_end(t, from, class) <= t.len(),
        forall|i: int| from <= i < run_end(t, from, class) ==> class.holds(#[trigger] t[i]),
        run_end(t, from, class) < t.len() ==> !class.holds(t[run_end(t, from, class)]),
    decreases t.len() - from,
{
    if from < t.len() && class.holds(t[from]) {
        lemma_run_end(t, from + 1, class);
    }
}

/// `run_end` is the only offset with the properties of `lemma_run_end`.
pub proof fn lemma_run_end_is(t: Seq<u8>, from: int, class: ByteClass, end: int)
    requires
        0 <= from <= end <= t.len(),
        forall|i: int| from <= i < end ==> class.holds(#[trigger] t[i]),
        end < t.len() ==> !class.holds(t[end]),
    ensures
        run_end(t, from, class) == end,
    decreases end - from,
{
    if from < end {
        lemma_run_end_is(t, from + 1, class, end);
    }
}

/// Finds the end of the run of bytes of `class` that starts at `from`.
pub(crate) fn scan(bytes: &[u8], from: usize, class: ByteClass) -> (end: usize)
    requires
        from <= bytes@.len(),
    ensures
        end == run_end(bytes@, from as int, class),
        from <= end <= bytes@.len(),
        forall|i: int| from <= i < end ==> class.holds(#[trigger] bytes@[i]),
        end < bytes@.len() ==> !class.holds(bytes@[end as int]),
{
    proof {
        lemma_run_end(bytes@, from as int, class);
    }
    let mut i: usize = from;
    while i < bytes.len() && class.test(bytes[i])
        invariant
            from <= i <= bytes@.len(),
            run_end(bytes@, from as int, class) == run_end(bytes@, i as int, class),
        decreases bytes@.len() - i,
    {
        i += 1;
    }
    i
}

/// Whether two byte slices hold the same bytes.
pub fn same_bytes(a: &[u8], b: &[u8]) -> (r: bool)
    ensures
        r == (a@ == b@),
{
    if a.len() != b.len() {
        return false;
    }
    let mut i: usize = 0;
    while i < a.len()
        invariant
            a@.len() == b@.len(),
            i <= a@.len(),
            forall|j: int| 0 <= j < i ==> a@[j] == b@[j],
        decreases a@.len() - i,
    {
        if a[i] != b[i] {
            return false;
        }
        i += 1;
    }
    assert(a@ =~= b@);
    true
}

/// Appends the bytes of `more` to `bytes`.
pub fn append_bytes(bytes: &mut Vec<u8>, more: &[u8])
    ensures
        final(bytes)@ == old(bytes)@ + more@,
{
    let mut i: usize = 0;
    while i < more.len()
        invariant
            i <= more@.len(),
            bytes@ == old(bytes)@ + more@.take(i as int),
        decreases more@.len() - i,
    {
        bytes.push(more[i]);
        assert(more@.take(i + 1) =~= more@.take(i as int).push(more@[i as int]));
        i += 1;
    }
    assert(more@.take(i as int) =~= more@);
}

/// An offset that holds an ASCII byte starts a character.
pub proof fn lemma_boundary_at_ascii(bytes: Seq<u8>, i: int)
    requires
        valid_utf8(bytes),
        0 <= i < bytes.len(),
        bytes[i] < 0x80,
    ensures
        is_char_boundary(bytes, i),
{
    is_char_boundary_iff_not_is_continuation_byte(bytes, i);
    let b = bytes[i];
    assert(!is_continuation_byte(b)) by {
        utf8_byte_ranges_bitwise(b);
    }
}

/// The offset behind an ASCII byte starts a character, or is the end.
pub proof fn lemma_boundary_after_ascii(bytes: Seq<u8>, i: int)
    requires
        valid_utf8(bytes),
        0 < i <= bytes.len(),
        bytes[i - 1] < 0x80,
    ensures
        is_char_boundary(bytes, i),
{
    if i == bytes.len() {
        is_char_boundary_start_end_of_seq(bytes);
    } else {
        lemma_boundary_at_ascii(bytes, i - 1);
        valid_utf8_split(bytes, i - 1);
        let tail = bytes.subrange(i - 1, bytes.len() as int);
        let b = tail[0];
        assert(is_leading_byte_width_1(b)) by {
            utf8_byte_ranges_bitwise(b);
        }
        let rest = pop_first_scalar(tail);
        assert(valid_utf8(rest));
        assert(rest =~= bytes.subrange(i, bytes.len() as int));
        assert(valid_first_scalar(rest));
        let c = rest[0];
        assert(c == bytes[i]);
        assert(!is_continuation_byte(c)) by {
            utf8_byte_ranges_bitwise(c);
        }
        is_char_boundary_iff_not_is_continuation_byte(bytes, i);
    }
}

/// The bytes of a string slice are well-formed UTF-8, so that its ends fall
/// between characters.
pub proof fn lemma_bytes_of_valid(s: &str)
    ensures
        valid_utf8(bytes_of(s)),
        is_char_boundary(bytes_of(s), 0),
        is_char_boundary(bytes_of(s), bytes_of(s).len() as int),
{
    encode_utf8_valid_utf8(s@);
    is_char_boundary_start_end_of_seq(bytes_of(s));
}

/// An offset falls between characters where it is an end of the text or
/// lies beside an ASCII byte.
pub proof fn lemma_boundary(s: &str, i: int)
    requires
        0 <= i <= bytes_of(s).len(),
        i == 0 || i == bytes_of(s).len() || bytes_of(s)[i] < 0x80 || bytes_of(s)[i - 1] < 0x80,
    ensures
        is_char_boundary(bytes_of(s), i),
{
    lemma_bytes_of_valid(s);
    if i == 0 || i == bytes_of(s).len() {
    } else if bytes_of(s)[i] < 0x80 {
        lemma_boundary_at_ascii(bytes_of(s), i);
    } else {
        lemma_boundary_after_ascii(bytes_of(s), i);
    }
}

/// The part of `s` between two byte offsets that both fall between characters.
pub(crate) fn slice<'a>(s: &'a str, from: usize, to: usize) -> (r: &'a str)
    requires
        from <= to <= bytes_of(s).len(),
        is_char_boundary(bytes_of(s), from as int),
        is_char_boundary(bytes_of(s), to as int),
    ensures
        bytes_of(r) == bytes_of(s).subrange(from as int, to as int),
{
    let (head, _) = s.split_at(to);
    proof {
        lemma_bytes_of_valid(s);
        lemma_bytes_of_valid(head);
        if from < to {
            is_char_boundary_iff_not_is_continuation_byte(bytes_of(s), from as int);
            is_char_boundary_iff_not_is_continuation_byte(bytes_of(head), from as int);
        }
    }
    let (_, mid) = head.split_at(from);
    assert(bytes_of(mid) =~= bytes_of(s).subrange(from as int, to as int));
    mid
}

/// The part of `s` up to a byte offset that falls between characters.
pub(crate) fn slice_to<'a>(s: &'a str, to: usize) -> (r: &'a str)
    requires
        to <= bytes_of(s).len(),
        is_char_boundary(bytes_of(s), to as int),
    ensures
        bytes_of(r) == bytes_of(s).take(to as int),
{
    proof {
        lemma_bytes_of_valid(s);
    }
    slice(s, 0, to)
}

/// The part of `s` from a byte offset that falls between characters.
pub(crate) fn slice_from<'a>(s: &'a str, from: usize) -> (r: &'a str)
    requires
        from <= bytes_of(s).len(),
        is_char_boundary(bytes_of(s), from as int),
    ensures
        bytes_of(r) == bytes_of(s).skip(from as int),
{
    proof {
        lemma_bytes_of_valid(s);
    }
    slice(s, from, s.as_bytes().len())
}

} // verus!

//! Byte-level primitives for scanning UTF-8 text.

use vstd::prelude::*;
use vstd::string::StringSliceAdditionalSpecFns;
use vstd::utf8::*;

verus! {

/// `lit` stands in `text` at offset `at`.
pub open spec fn occurs_at(text: Seq<u8>, at: int, lit: Seq<u8>) -> bool {
    &&& 0 <= at
    &&& at + lit.len() <= text.len()
    &&& text.subrange(at, at + lit.len()) == lit
}

/// Two pieces stand one after the other exactly when their concatenation stands where the
/// first one does.
pub proof fn lemma_occurs_at_concat(text: Seq<u8>, at: int, first: Seq<u8>, second: Seq<u8>)
    ensures
        occurs_at(text, at, first + second) <==> occurs_at(text, at, first) && occurs_at(
            text,
            at + first.len(),
            second,
        ),
{
    let whole = first + second;
    let mid = at + first.len();
    if occurs_at(text, at, whole) {
        assert(text.subrange(at, mid) =~= whole.subrange(0, first.len() as int));
        assert(whole.subrange(0, first.len() as int) =~= first);
        assert(text.subrange(mid, mid + second.len()) =~= whole.subrange(
            first.len() as int,
            whole.len() as int,
        ));
        assert(whole.subrange(first.len() as int, whole.len() as int) =~= second);
    }
    if occurs_at(text, at, first) && occurs_at(text, mid, second) {
        assert(text.subrange(at, at + whole.len()) =~= text.subrange(at, mid) + text.subrange(
            mid,
            mid + second.len(),
        ));
    }
}

/// Tests whether `lit` stands in `text` at offset `at`.
pub fn matches_at(text: &[u8], at: usize, lit: &[u8]) -> (found: bool)
    ensures
        found == occurs_at(text@, at as int, lit@),
        found ==> at + lit.len() <= text.len(),
{
    if at > text.len() || lit.len() > text.len() - at {
        return false;
    }
    let mut k: usize = 0;
    while k < lit.len()
        invariant
            at + lit.len() <= text.len(),
            k <= lit.len(),
            forall|j: int| 0 <= j < k ==> text[at + j] == lit[j],
        decreases lit.len() - k,
    {
        if text[at + k] != lit[k] {
            proof {
                let window = text@.subrange(at as int, at + lit.len());
                assert(window[k as int] == text[at + k]);
            }
            return false;
        }
        k += 1;
    }
    proof {
        assert(text@.subrange(at as int, at + lit.len()) =~= lit@);
    }
    true
}

/// The byte is an ASCII decimal digit, `0` to `9`.
pub open spec fn is_digit(b: u8) -> bool {
    0x30 <= b <= 0x39
}

/// The byte is an ASCII letter, `a` to `z` or `A` to `Z`.
pub open spec fn is_letter(b: u8) -> bool {
    (0x61 <= b <= 0x7a) || (0x41 <= b <= 0x5a)
}

/// The byte is a lower-case letter from `a` to `f`.
pub open spec fn is_hex_letter(b: u8) -> bool {
    0x61 <= b <= 0x66
}

/// The byte is a hyphen or an underscore.
pub open spec fn is_joiner(b: u8) -> bool {
    b == 0x2d || b == 0x5f
}

/// The sets of bytes that the scanned formats allow in their variable parts.
#[derive(Clone, Copy, Debug)]
pub enum ByteClass {
    /// A decimal digit or a lower-case letter from `a` to `f`.
    LowerHex,
    /// An ASCII letter or decimal digit.
    Alnum,
    /// An ASCII letter or decimal digit, a hyphen or an underscore.
    Token,
}

impl ByteClass {
    /// The byte belongs to this class.
    pub open spec fn holds(self, b: u8) -> bool {
        match self {
            ByteClass::LowerHex => is_digit(b) || is_hex_letter(b),
            ByteClass::Alnum => is_digit(b) || is_letter(b),
            ByteClass::Token => is_digit(b) || is_letter(b) || is_joiner(b),
        }
    }

    /// Tests whether the byte belongs to this class.
    pub fn admits(self, b: u8) -> (yes: bool)
        ensures
            yes == self.holds(b),
    {
        let digit = 0x30 <= b && b <= 0x39;
        let letter = (0x61 <= b && b <= 0x7a) || (0x41 <= b && b <= 0x5a);
        match self {
            ByteClass::LowerHex => digit || (0x61 <= b && b <= 0x66),
            ByteClass::Alnum => digit || letter,
            ByteClass::Token => digit || letter || b == 0x2d || b == 0x5f,
        }
    }
}

/// The end of the longest run of bytes of `class` that starts at `from`: the first offset at
/// or after `from` that lies outside the text or holds a byte of another class.
pub open spec fn run_end(text: Seq<u8>, from: int, class: ByteClass) -> int
    decreases text.len() - from,
{
    if 0 <= from < text.len() && class.holds(text[from]) {
        run_end(text, from + 1, class)
    } else {
        from
    }
}

/// A run is made of bytes of its class, and ends at the end of the text or at a byte of
/// another class.
pub proof fn lemma_run_end(text: Seq<u8>, from: int, class: ByteClass)
    requires
        0 <= from <= text.len(),
    ensures
        from <= run_end(text, from, class) <= text.len(),
        forall|j: int| from <= j < run_end(text, from, class) ==> class.holds(#[trigger] text[j]),
        run_end(text, from, class) < text.len() ==> !class.holds(
            text[run_end(text, from, class)],
        ),
    decreases text.len() - from,
{
    if from < text.len() && class.holds(text[from]) {
        lemma_run_end(text, from + 1, class);
    }
}

/// An offset that the bytes of a class lead up to, and at which they stop, is the end of
/// the run.
pub proof fn lemma_run_end_unique(text: Seq<u8>, from: int, to: int, class: ByteClass)
    requires
        0 <= from <= to <= text.len(),
        forall|j: int| from <= j < to ==> class.holds(#[trigger] text[j]),
        to < text.len() ==> !class.holds(text[to]),
    ensures
        run_end(text, from, class) == to,
    decreases to - from,
{
    if from < to {
        lemma_run_end_unique(text, from + 1, to, class);
    }
}

/// Finds the end of the run of bytes of `class` that starts at `from`.
pub fn scan_run(text: &[u8], from: usize, class: ByteClass) -> (to: usize)
    requires
        from <= text.len(),
    ensures
        to == run_end(text@, from as int, class),
        from <= to <= text.len(),
{
    let mut to: usize = from;
    while to < text.len() && class.admits(text[to])
        invariant
            from <= to <= text.len(),
            run_end(text@, from as int, class) == run_end(text@, to as int, class),
        decreases text.len() - to,
    {
        to += 1;
    }
    to
}

/// An offset that holds an ASCII byte begins a character, and the next offset begins one
/// too or ends the text.
pub proof fn lemma_ascii_byte_boundaries(bytes: Seq<u8>, at: int)
    requires
        valid_utf8(bytes),
        0 <= at < bytes.len(),
        bytes[at] <= 0x7f,
    ensures
        is_char_boundary(bytes, at),
        is_char_boundary(bytes, at + 1),
{
    is_char_boundary_iff_not_is_continuation_byte(bytes, at);
    if at + 1 == bytes.len() {
        is_char_boundary_start_end_of_seq(bytes);
    } else {
        valid_utf8_split(bytes, at);
        let tail = bytes.subrange(at, bytes.len() as int);
        assert(tail[0] == bytes[at]);
        assert(length_of_first_scalar(tail) == 1);
        let rest = pop_first_scalar(tail);
        assert(valid_utf8(rest));
        assert(rest.len() > 0);
        assert(rest[0] == bytes[at + 1]);
        assert(valid_first_scalar(rest));
        assert(!is_continuation_byte(bytes[at + 1]));
        is_char_boundary_iff_not_is_continuation_byte(bytes, at + 1);
    }
}

/// The part of `text` between two byte offsets that both fall on character boundaries.
pub fn slice_between<'a>(text: &'a str, from: usize, to: usize) -> (part: &'a str)
    requires
        from <= to <= text.spec_bytes().len(),
        is_char_boundary(text.spec_bytes(), from as int),
        is_char_boundary(text.spec_bytes(), to as int),
    ensures
        part.spec_bytes() == text.spec_bytes().subrange(from as int, to as int),
{
    let (head, _) = text.split_at(to);
    proof {
        let bytes = text.spec_bytes();
        let front = head.spec_bytes();
        encode_utf8_valid_utf8(text@);
        encode_utf8_valid_utf8(head@);
        if from == to {
            is_char_boundary_start_end_of_seq(front);
        } else {
            assert(front[from as int] == bytes[from as int]);
            is_char_boundary_iff_not_is_continuation_byte(bytes, from as int);
            is_char_boundary_iff_not_is_continuation_byte(front, from as int);
        }
    }
    let (_, part) = head.split_at(from);
    proof {
        assert(part.spec_bytes() =~= text.spec_bytes().subrange(from as int, to as int));
    }
    part
}

} // verus!

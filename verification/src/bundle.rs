//! The form of a reference to the main script bundle, and where the first one stands in a
//! text.
//!
//! A reference is the fixed start `https://abs.twimg.com/responsive-web/client-web/main.`,
//! then one or more lower-case hexadecimal digits, then `.js`. Texts are modelled by their
//! UTF-8 bytes, and places in them by byte offsets.

use vstd::prelude::*;
use vstd::string::*;
use vstd::utf8::*;
use crate::text::{
    lemma_run_end, lemma_run_end_unique, matches_at, occurs_at, run_end, scan_run, ByteClass,
};

verus! {

/// What every reference starts with: scheme, host, path and the start of the file name.
pub open spec fn reference_head() -> Seq<u8> {
    "https://abs.twimg.com/responsive-web/client-web/main.".spec_bytes()
}

/// What every reference ends with.
pub open spec fn reference_tail() -> Seq<u8> {
    ".js".spec_bytes()
}

/// `s` is a reference: head, a non-empty run of lower-case hexadecimal digits, tail.
pub open spec fn is_reference(s: Seq<u8>) -> bool {
    let head = reference_head();
    let tail = reference_tail();
    &&& s.len() > head.len() + tail.len()
    &&& s.subrange(0, head.len() as int) == head
    &&& s.subrange(s.len() - tail.len(), s.len() as int) == tail
    &&& forall|j: int|
        head.len() <= j < s.len() - tail.len() ==> ByteClass::LowerHex.holds(#[trigger] s[j])
}

/// Where the reference that starts at offset `at` ends, if one starts there.
pub open spec fn reference_end(text: Seq<u8>, at: int) -> Option<int> {
    let digits = at + reference_head().len();
    let dot = run_end(text, digits, ByteClass::LowerHex);
    if occurs_at(text, at, reference_head()) && digits < dot && occurs_at(
        text,
        dot,
        reference_tail(),
    ) {
        Some(dot + reference_tail().len())
    } else {
        None
    }
}

/// The least offset at or after `from` at which a reference starts.
pub open spec fn first_reference_from(text: Seq<u8>, from: int) -> Option<int>
    decreases text.len() - from,
{
    if from < 0 || from >= text.len() {
        None
    } else if reference_end(text, from) is Some {
        Some(from)
    } else {
        first_reference_from(text, from + 1)
    }
}

/// The leftmost reference in `text`, byte for byte as it stands there.
pub open spec fn located_reference(text: Seq<u8>) -> Option<Seq<u8>> {
    match first_reference_from(text, 0) {
        Some(at) => Some(text.subrange(at, reference_end(text, at).unwrap())),
        None => None,
    }
}

/// The bytes of the two fixed parts: the head has 53 bytes and starts with `h`, the tail is
/// a full stop, `j` and `s`.
pub proof fn lemma_reference_literals()
    ensures
        reference_head().len() == 53,
        reference_head()[0] == 0x68,
        reference_tail() =~= seq![0x2e, 0x6a, 0x73],
{
    reveal_strlit("https://abs.twimg.com/responsive-web/client-web/main.");
    reveal_strlit(".js");
    let head = "https://abs.twimg.com/responsive-web/client-web/main.";
    let tail = ".js";
    assert(is_ascii(head));
    assert(is_ascii(tail));
    is_ascii_spec_bytes(head);
    is_ascii_spec_bytes(tail);
}

/// A reference starts at `at` and ends at `end` exactly when the bytes between the two
/// offsets have the form of a reference: at one offset at most one reference starts.
pub proof fn lemma_reference_form(text: Seq<u8>, at: int, end: int)
    requires
        0 <= at <= end <= text.len(),
    ensures
        reference_end(text, at) == Some(end) <==> is_reference(text.subrange(at, end)),
{
    lemma_reference_literals();
    let head = reference_head();
    let tail = reference_tail();
    let s = text.subrange(at, end);
    let digits = at + head.len();
    if digits <= text.len() {
        lemma_run_end(text, digits, ByteClass::LowerHex);
    }
    let dot = run_end(text, digits, ByteClass::LowerHex);
    if reference_end(text, at) == Some(end) {
        assert(s.subrange(0, head.len() as int) =~= text.subrange(at, at + head.len()));
        assert(s.subrange(s.len() - tail.len(), s.len() as int) =~= text.subrange(
            dot,
            dot + tail.len(),
        ));
        assert forall|j: int|
            head.len() <= j < s.len() - tail.len() implies ByteClass::LowerHex.holds(
            #[trigger] s[j],
        ) by {
            assert(s[j] == text[at + j]);
        }
    }
    if is_reference(s) {
        let stop = end - tail.len();
        assert(text.subrange(at, at + head.len()) =~= s.subrange(0, head.len() as int));
        assert(text.subrange(stop, stop + tail.len()) =~= s.subrange(
            s.len() - tail.len(),
            s.len() as int,
        ));
        assert forall|j: int| digits <= j < stop implies ByteClass::LowerHex.holds(
            #[trigger] text[j],
        ) by {
            assert(text[j] == s[j - at]);
        }
        assert(text[stop] == text.subrange(stop, stop + tail.len())[0]);
        assert(text[stop] == 0x2e);
        lemma_run_end_unique(text, digits, stop, ByteClass::LowerHex);
    }
}

/// What `first_reference_from` finds: a reference starts at the offset it gives and at none
/// between `from` and it; where it gives none, no reference starts at or after `from`.
pub proof fn lemma_first_reference_from(text: Seq<u8>, from: int)
    requires
        0 <= from,
    ensures
        match first_reference_from(text, from) {
            Some(at) => {
                &&& from <= at < text.len()
                &&& reference_end(text, at) is Some
                &&& forall|j: int| from <= j < at ==> reference_end(text, j) is None
            },
            None => forall|j: int| from <= j ==> reference_end(text, j) is None,
        },
    decreases text.len() - from,
{
    lemma_reference_literals();
    if from < text.len() && reference_end(text, from) is None {
        lemma_first_reference_from(text, from + 1);
    }
}

/// A reference stands in `text` from offset `at` up to offset `end`.
pub open spec fn reference_stands(text: Seq<u8>, at: int, end: int) -> bool {
    0 <= at <= end <= text.len() && is_reference(text.subrange(at, end))
}

/// No reference starts in `text` to the left of offset `at`.
pub open spec fn none_starts_before(text: Seq<u8>, at: int) -> bool {
    forall|a: int, e: int| #[trigger] reference_stands(text, a, e) ==> at <= a
}

/// No reference stands anywhere in `text`.
pub open spec fn holds_no_reference(text: Seq<u8>) -> bool {
    forall|a: int, e: int| !#[trigger] reference_stands(text, a, e)
}

/// The reference that stands leftmost in a text is the one located there, whatever follows
/// it: a second reference further right changes nothing.
pub proof fn lemma_leftmost_reference_is_located(text: Seq<u8>, at: int, end: int)
    requires
        reference_stands(text, at, end),
        none_starts_before(text, at),
    ensures
        located_reference(text) == Some(text.subrange(at, end)),
{
    lemma_reference_form(text, at, end);
    lemma_first_reference_from(text, 0);
    let first = first_reference_from(text, 0).unwrap();
    let first_end = reference_end(text, first).unwrap();
    lemma_reference_literals();
    lemma_run_end(text, first + reference_head().len(), ByteClass::LowerHex);
    lemma_reference_form(text, first, first_end);
    assert(reference_stands(text, first, first_end));
}

/// A text that holds exactly one reference has that reference located, byte for byte.
pub proof fn lemma_sole_reference_is_located(text: Seq<u8>, at: int, end: int)
    requires
        reference_stands(text, at, end),
        forall|a: int, e: int| #[trigger] reference_stands(text, a, e) ==> a == at && e == end,
    ensures
        located_reference(text) == Some(text.subrange(at, end)),
{
    lemma_leftmost_reference_is_located(text, at, end);
}

/// A text that holds no reference has none located.
pub proof fn lemma_no_reference_none_located(text: Seq<u8>)
    requires
        holds_no_reference(text),
    ensures
        located_reference(text) is None,
{
    lemma_first_reference_from(text, 0);
    if first_reference_from(text, 0) is Some {
        let first = first_reference_from(text, 0).unwrap();
        let first_end = reference_end(text, first).unwrap();
        lemma_reference_literals();
        lemma_run_end(text, first + reference_head().len(), ByteClass::LowerHex);
        lemma_reference_form(text, first, first_end);
        assert(reference_stands(text, first, first_end));
    }
}

/// What is located is a reference that stands in the text, with no reference starting to
/// the left of it; where nothing is located, the text holds no reference.
pub proof fn lemma_located_reference(text: Seq<u8>)
    ensures
        located_reference(text) matches Some(found) ==> exists|at: int, end: int|
            #[trigger] reference_stands(text, at, end) && text.subrange(at, end) == found
                && none_starts_before(text, at),
        located_reference(text) is None ==> holds_no_reference(text),
{
    lemma_first_reference_from(text, 0);
    lemma_reference_literals();
    match first_reference_from(text, 0) {
        Some(first) => {
            let first_end = reference_end(text, first).unwrap();
            lemma_run_end(text, first + reference_head().len(), ByteClass::LowerHex);
            lemma_reference_form(text, first, first_end);
            assert forall|a: int, e: int| #[trigger]
                reference_stands(text, a, e) implies first <= a by {
                lemma_reference_form(text, a, e);
            }
            assert(reference_stands(text, first, first_end));
        },
        None => {
            assert forall|a: int, e: int| !#[trigger] reference_stands(text, a, e) by {
                if 0 <= a <= e <= text.len() {
                    lemma_reference_form(text, a, e);
                }
            }
        },
    }
}

/// The bytes that every reference starts with.
pub fn head_bytes() -> (bytes: &'static [u8])
    ensures
        bytes@ == reference_head(),
{
    "https://abs.twimg.com/responsive-web/client-web/main.".as_bytes()
}

/// The bytes that every reference ends with.
pub fn tail_bytes() -> (bytes: &'static [u8])
    ensures
        bytes@ == reference_tail(),
{
    ".js".as_bytes()
}

/// Matches a reference at offset `at` and gives the offset at which it ends.
pub fn match_reference(text: &[u8], at: usize) -> (end: Option<usize>)
    ensures
        match end {
            Some(e) => reference_end(text@, at as int) == Some(e as int) && at < e <= text.len(),
            None => reference_end(text@, at as int) is None,
        },
{
    let head = head_bytes();
    let tail = tail_bytes();
    if !matches_at(text, at, head) {
        return None;
    }
    let digits = at + head.len();
    let dot = scan_run(text, digits, ByteClass::LowerHex);
    if dot == digits || !matches_at(text, dot, tail) {
        return None;
    }
    Some(dot + tail.len())
}

} // verus!

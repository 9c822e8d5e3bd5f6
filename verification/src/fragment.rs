//! The form of the fragments that tie an operation's name to its query id.
//!
//! A fragment is `{queryId:"`, an id, `",operationName:"`, a name, and `",`. The id is one
//! or more letters, digits, hyphens and underscores; the name is one or more letters and
//! digits. Texts are modelled by their UTF-8 bytes, and places in them by byte offsets.

use vstd::prelude::*;
use vstd::string::*;
use vstd::utf8::*;
use crate::text::{
    lemma_occurs_at_concat, lemma_run_end, lemma_run_end_unique, matches_at, occurs_at, run_end,
    scan_run, ByteClass,
};

verus! {

/// What every fragment starts with, up to the id.
pub open spec fn fragment_open() -> Seq<u8> {
    "{queryId:\"".spec_bytes()
}

/// What stands between the id and the name.
pub open spec fn fragment_link() -> Seq<u8> {
    "\",operationName:\"".spec_bytes()
}

/// What follows the name.
pub open spec fn fragment_close() -> Seq<u8> {
    "\",".spec_bytes()
}

/// The text of the fragment that ties `name` to `id`.
pub open spec fn fragment_text(id: Seq<u8>, name: Seq<u8>) -> Seq<u8> {
    fragment_open() + id + fragment_link() + name + fragment_close()
}

/// Every byte of `s` belongs to `class`, and there is at least one.
pub open spec fn is_word(s: Seq<u8>, class: ByteClass) -> bool {
    s.len() > 0 && forall|j: int| 0 <= j < s.len() ==> class.holds(#[trigger] s[j])
}

/// Where the id of a fragment that starts at `at` starts.
pub open spec fn id_start(at: int) -> int {
    at + fragment_open().len()
}

/// Where the id of a fragment that starts at `at` ends.
pub open spec fn id_end(text: Seq<u8>, at: int) -> int {
    run_end(text, id_start(at), ByteClass::Token)
}

/// Where the name of a fragment that starts at `at` starts.
pub open spec fn name_start(text: Seq<u8>, at: int) -> int {
    id_end(text, at) + fragment_link().len()
}

/// Where the name of a fragment that starts at `at` ends.
pub open spec fn name_end(text: Seq<u8>, at: int) -> int {
    run_end(text, name_start(text, at), ByteClass::Alnum)
}

/// Where a fragment that starts at `at` ends.
pub open spec fn fragment_end(text: Seq<u8>, at: int) -> int {
    name_end(text, at) + fragment_close().len()
}

/// A fragment starts at offset `at`.
pub open spec fn fragment_starts(text: Seq<u8>, at: int) -> bool {
    &&& occurs_at(text, at, fragment_open())
    &&& id_start(at) < id_end(text, at)
    &&& occurs_at(text, id_end(text, at), fragment_link())
    &&& name_start(text, at) < name_end(text, at)
    &&& occurs_at(text, name_end(text, at), fragment_close())
}

/// The id of the fragment that starts at `at`.
pub open spec fn fragment_id(text: Seq<u8>, at: int) -> Seq<u8> {
    text.subrange(id_start(at), id_end(text, at))
}

/// The name of the fragment that starts at `at`.
pub open spec fn fragment_name(text: Seq<u8>, at: int) -> Seq<u8> {
    text.subrange(name_start(text, at), name_end(text, at))
}

/// A fragment for the operation `name` starts at offset `at`. The name is taken as it is,
/// byte for byte, whatever it holds.
pub open spec fn fragment_of_starts(text: Seq<u8>, at: int, name: Seq<u8>) -> bool {
    &&& occurs_at(text, at, fragment_open())
    &&& id_start(at) < id_end(text, at)
    &&& occurs_at(text, id_end(text, at), fragment_link() + name + fragment_close())
}

/// The bytes of the three fixed parts. A brace stands at the start of a fragment and
/// nowhere else in them, and the name is followed by a quotation mark.
pub proof fn lemma_fragment_literals()
    ensures
        fragment_open() =~= seq![0x7b, 0x71, 0x75, 0x65, 0x72, 0x79, 0x49, 0x64, 0x3a, 0x22],
        fragment_link() =~= seq![
            0x22,
            0x2c,
            0x6f,
            0x70,
            0x65,
            0x72,
            0x61,
            0x74,
            0x69,
            0x6f,
            0x6e,
            0x4e,
            0x61,
            0x6d,
            0x65,
            0x3a,
            0x22,
        ],
        fragment_close() =~= seq![0x22, 0x2c],
{
    reveal_strlit("{queryId:\"");
    reveal_strlit("\",operationName:\"");
    reveal_strlit("\",");
    let open = "{queryId:\"";
    let link = "\",operationName:\"";
    let close = "\",";
    assert(is_ascii(open));
    assert(is_ascii(link));
    assert(is_ascii(close));
    is_ascii_spec_bytes(open);
    is_ascii_spec_bytes(link);
    is_ascii_spec_bytes(close);
}

/// The parts of the fragment that starts at `at` stand in the text in order, none of them
/// empty; its id and its name are words of their classes; and the text from `at` on is the
/// fragment's text.
pub proof fn lemma_fragment_parts(text: Seq<u8>, at: int)
    requires
        fragment_starts(text, at),
    ensures
        0 <= at < id_start(at) < id_end(text, at) < name_start(text, at) < name_end(text, at)
            < fragment_end(text, at) <= text.len(),
        is_word(fragment_id(text, at), ByteClass::Token),
        is_word(fragment_name(text, at), ByteClass::Alnum),
        occurs_at(text, at, fragment_text(fragment_id(text, at), fragment_name(text, at))),
{
    lemma_fragment_literals();
    lemma_run_end(text, id_start(at), ByteClass::Token);
    lemma_run_end(text, name_start(text, at), ByteClass::Alnum);
    let id = fragment_id(text, at);
    let name = fragment_name(text, at);
    assert(occurs_at(text, id_start(at), id));
    assert(occurs_at(text, name_start(text, at), name));
    lemma_occurs_at_concat(text, at, fragment_open(), id);
    lemma_occurs_at_concat(text, at, fragment_open() + id, fragment_link());
    lemma_occurs_at_concat(text, at, fragment_open() + id + fragment_link(), name);
    lemma_occurs_at_concat(
        text,
        at,
        fragment_open() + id + fragment_link() + name,
        fragment_close(),
    );
}

/// The text of the fragment that ties `name` to `id` stands at `at` exactly when a fragment
/// for `name` starts there and its id is `id`.
pub proof fn lemma_fragment_of_form(text: Seq<u8>, at: int, id: Seq<u8>, name: Seq<u8>)
    requires
        is_word(id, ByteClass::Token),
    ensures
        occurs_at(text, at, fragment_text(id, name)) <==> fragment_of_starts(text, at, name)
            && fragment_id(text, at) == id,
{
    lemma_fragment_literals();
    let open = fragment_open();
    let rest = fragment_link() + name + fragment_close();
    assert(fragment_text(id, name) =~= open + id + rest);
    lemma_occurs_at_concat(text, at, open + id, rest);
    lemma_occurs_at_concat(text, at, open, id);
    let from = id_start(at);
    if occurs_at(text, at, open) {
        lemma_run_end(text, from, ByteClass::Token);
    }
    if occurs_at(text, at, fragment_text(id, name)) {
        let to = from + id.len();
        assert forall|j: int| from <= j < to implies ByteClass::Token.holds(#[trigger] text[j]) by {
            assert(text[j] == text.subrange(from, to)[j - from]);
        }
        assert(text[to] == text.subrange(to, to + rest.len())[0]);
        assert(rest[0] == fragment_link()[0]);
        lemma_run_end_unique(text, from, to, ByteClass::Token);
    }
    if fragment_of_starts(text, at, name) && fragment_id(text, at) == id {
        assert(occurs_at(text, from, id));
    }
}

/// For a name made of letters and digits, a fragment for that name is a fragment whose name
/// it is.
pub proof fn lemma_fragment_of_is_fragment(text: Seq<u8>, at: int, name: Seq<u8>)
    requires
        is_word(name, ByteClass::Alnum),
    ensures
        fragment_of_starts(text, at, name) <==> fragment_starts(text, at) && fragment_name(
            text,
            at,
        ) == name,
{
    lemma_fragment_literals();
    let link = fragment_link();
    let close = fragment_close();
    let stop = id_end(text, at);
    let from = name_start(text, at);
    lemma_occurs_at_concat(text, stop, link + name, close);
    lemma_occurs_at_concat(text, stop, link, name);
    if fragment_of_starts(text, at, name) {
        let to = from + name.len();
        assert forall|j: int| from <= j < to implies ByteClass::Alnum.holds(#[trigger] text[j]) by {
            assert(text[j] == text.subrange(from, to)[j - from]);
        }
        assert(text[to] == text.subrange(to, to + close.len())[0]);
        lemma_run_end_unique(text, from, to, ByteClass::Alnum);
    }
    if fragment_starts(text, at) && fragment_name(text, at) == name {
        assert(occurs_at(text, from, name));
    }
}

/// The text of the fragment that ties a name of letters and digits to `id` stands at `at`
/// exactly when a fragment starts there with that id and that name.
pub proof fn lemma_fragment_form(text: Seq<u8>, at: int, id: Seq<u8>, name: Seq<u8>)
    requires
        is_word(id, ByteClass::Token),
        is_word(name, ByteClass::Alnum),
    ensures
        occurs_at(text, at, fragment_text(id, name)) <==> fragment_starts(text, at) && fragment_id(
            text,
            at,
        ) == id && fragment_name(text, at) == name,
{
    lemma_fragment_of_form(text, at, id, name);
    lemma_fragment_of_is_fragment(text, at, name);
}

/// Every byte of a fragment is an ASCII byte, and only the first one is a brace.
pub proof fn lemma_fragment_bytes(text: Seq<u8>, at: int, inside: int)
    requires
        fragment_starts(text, at),
        at <= inside < fragment_end(text, at),
    ensures
        text[inside] <= 0x7f,
        at < inside ==> text[inside] != 0x7b,
{
    lemma_fragment_literals();
    lemma_fragment_parts(text, at);
    let open = fragment_open();
    let link = fragment_link();
    let close = fragment_close();
    let j = inside;
    if j < id_start(at) {
        assert(text[j] == text.subrange(at, at + open.len())[j - at]);
    } else if j < id_end(text, at) {
        assert(text[j] == fragment_id(text, at)[j - id_start(at)]);
    } else if j < name_start(text, at) {
        let from = id_end(text, at);
        assert(text[j] == text.subrange(from, from + link.len())[j - from]);
    } else if j < name_end(text, at) {
        assert(text[j] == fragment_name(text, at)[j - name_start(text, at)]);
    } else {
        let from = name_end(text, at);
        assert(text[j] == text.subrange(from, from + close.len())[j - from]);
    }
}

/// No fragment starts inside another: the next one starts where the first ends, or later.
pub proof fn lemma_fragments_do_not_overlap(text: Seq<u8>, at: int, inside: int)
    requires
        fragment_starts(text, at),
        at < inside < fragment_end(text, at),
    ensures
        !fragment_starts(text, inside),
{
    lemma_fragment_literals();
    lemma_fragment_bytes(text, at, inside);
    if fragment_starts(text, inside) {
        assert(text[inside] == text.subrange(inside, inside + fragment_open().len())[0]);
    }
}

/// The bytes that every fragment starts with.
pub fn open_bytes() -> (bytes: &'static [u8])
    ensures
        bytes@ == fragment_open(),
{
    "{queryId:\"".as_bytes()
}

/// The bytes that stand between the id and the name.
pub fn link_bytes() -> (bytes: &'static [u8])
    ensures
        bytes@ == fragment_link(),
{
    "\",operationName:\"".as_bytes()
}

/// The bytes that follow the name.
pub fn close_bytes() -> (bytes: &'static [u8])
    ensures
        bytes@ == fragment_close(),
{
    "\",".as_bytes()
}

/// The offsets of a fragment's parts, in the order in which they stand in the text.
#[derive(Clone, Copy, Debug)]
pub struct FragmentSpan {
    /// Where the id starts.
    pub id_from: usize,
    /// Where the id ends.
    pub id_to: usize,
    /// Where the name starts.
    pub name_from: usize,
    /// Where the name ends.
    pub name_to: usize,
    /// Where the fragment ends.
    pub end: usize,
}

impl FragmentSpan {
    /// The span is that of the fragment that starts at `at`.
    pub open spec fn spans(self, text: Seq<u8>, at: int) -> bool {
        &&& fragment_starts(text, at)
        &&& self.id_from == id_start(at)
        &&& self.id_to == id_end(text, at)
        &&& self.name_from == name_start(text, at)
        &&& self.name_to == name_end(text, at)
        &&& self.end == fragment_end(text, at)
    }
}

/// Matches a fragment at offset `at` and gives the offsets of its parts.
pub fn match_fragment(text: &[u8], at: usize) -> (span: Option<FragmentSpan>)
    ensures
        match span {
            Some(s) => s.spans(text@, at as int),
            None => !fragment_starts(text@, at as int),
        },
{
    let open = open_bytes();
    let link = link_bytes();
    let close = close_bytes();
    if !matches_at(text, at, open) {
        return None;
    }
    let id_from = at + open.len();
    let id_to = scan_run(text, id_from, ByteClass::Token);
    if id_to == id_from || !matches_at(text, id_to, link) {
        return None;
    }
    let name_from = id_to + link.len();
    let name_to = scan_run(text, name_from, ByteClass::Alnum);
    if name_to == name_from || !matches_at(text, name_to, close) {
        return None;
    }
    Some(FragmentSpan { id_from, id_to, name_from, name_to, end: name_to + close.len() })
}

/// Matches a fragment for the operation `name` at offset `at` and gives the offsets at which
/// its id starts and ends.
pub fn match_fragment_of(text: &[u8], at: usize, name: &[u8]) -> (id: Option<(usize, usize)>)
    ensures
        match id {
            Some((from, to)) => {
                &&& fragment_of_starts(text@, at as int, name@)
                &&& from == id_start(at as int)
                &&& to == id_end(text@, at as int)
            },
            None => !fragment_of_starts(text@, at as int, name@),
        },
{
    let open = open_bytes();
    let link = link_bytes();
    let close = close_bytes();
    if !matches_at(text, at, open) {
        return None;
    }
    let id_from = at + open.len();
    let id_to = scan_run(text, id_from, ByteClass::Token);
    proof {
        lemma_occurs_at_concat(text@, id_to as int, link@ + name@, close@);
        lemma_occurs_at_concat(text@, id_to as int, link@, name@);
    }
    if id_to == id_from || !matches_at(text, id_to, link) {
        return None;
    }
    let name_from = id_to + link.len();
    if !matches_at(text, name_from, name) {
        return None;
    }
    if !matches_at(text, name_from + name.len(), close) {
        return None;
    }
    Some((id_from, id_to))
}

} // verus!

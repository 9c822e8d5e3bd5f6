//! The query id that a bundle's text gives for one operation.

use vstd::prelude::*;
use crate::fragment::{
    fragment_id, fragment_of_starts, fragment_text, id_start, is_word, lemma_fragment_literals,
    lemma_fragment_of_form,
};
use crate::text::{lemma_run_end, occurs_at, ByteClass};

verus! {

/// The least offset at or after `from` at which a fragment for the operation `name` starts.
pub open spec fn first_fragment_of_from(text: Seq<u8>, name: Seq<u8>, from: int) -> Option<int>
    decreases text.len() - from,
{
    if from < 0 || from >= text.len() {
        None
    } else if fragment_of_starts(text, from, name) {
        Some(from)
    } else {
        first_fragment_of_from(text, name, from + 1)
    }
}

/// The id in the leftmost fragment for the operation `name`.
pub open spec fn query_id_of(text: Seq<u8>, name: Seq<u8>) -> Option<Seq<u8>> {
    match first_fragment_of_from(text, name, 0) {
        Some(at) => Some(fragment_id(text, at)),
        None => None,
    }
}

/// No fragment for the operation `name` starts in `text` to the left of offset `at`.
pub open spec fn none_of_starts_before(text: Seq<u8>, name: Seq<u8>, at: int) -> bool {
    forall|j: int| j < at ==> !#[trigger] fragment_of_starts(text, j, name)
}

/// No fragment for the operation `name` starts anywhere in `text`.
pub open spec fn holds_no_fragment_of(text: Seq<u8>, name: Seq<u8>) -> bool {
    forall|j: int| !#[trigger] fragment_of_starts(text, j, name)
}

/// What `first_fragment_of_from` finds: a fragment for `name` starts at the offset it gives
/// and at none between `from` and it; where it gives none, no such fragment starts at or
/// after `from`.
pub proof fn lemma_first_fragment_of_from(text: Seq<u8>, name: Seq<u8>, from: int)
    requires
        0 <= from,
    ensures
        match first_fragment_of_from(text, name, from) {
            Some(at) => {
                &&& from <= at < text.len()
                &&& fragment_of_starts(text, at, name)
                &&& forall|j: int| from <= j < at ==> !#[trigger] fragment_of_starts(text, j, name)
            },
            None => forall|j: int| from <= j ==> !#[trigger] fragment_of_starts(text, j, name),
        },
    decreases text.len() - from,
{
    if from < text.len() && !fragment_of_starts(text, from, name) {
        lemma_first_fragment_of_from(text, name, from + 1);
    }
}

/// Where the text of a fragment that ties `name` to `id` stands in a bundle, with no fragment
/// for `name` further left, the id found for `name` is `id`.
pub proof fn lemma_leftmost_fragment_gives_id(
    text: Seq<u8>,
    name: Seq<u8>,
    id: Seq<u8>,
    at: int,
)
    requires
        is_word(id, ByteClass::Token),
        occurs_at(text, at, fragment_text(id, name)),
        none_of_starts_before(text, name, at),
    ensures
        query_id_of(text, name) == Some(id),
{
    lemma_fragment_of_form(text, at, id, name);
    lemma_first_fragment_of_from(text, name, 0);
}

/// Where no fragment for `name` stands in a bundle, no id is found for `name`.
pub proof fn lemma_no_fragment_gives_no_id(text: Seq<u8>, name: Seq<u8>)
    requires
        holds_no_fragment_of(text, name),
    ensures
        query_id_of(text, name) is None,
{
    lemma_first_fragment_of_from(text, name, 0);
}

/// An id that is found stands in the leftmost fragment for the name, and is a word of
/// letters, digits, hyphens and underscores; where none is found, the bundle holds no
/// fragment for the name.
pub proof fn lemma_query_id_of(text: Seq<u8>, name: Seq<u8>)
    ensures
        query_id_of(text, name) matches Some(id) ==> is_word(id, ByteClass::Token) && exists|
            at: int,
        |
            #[trigger] occurs_at(text, at, fragment_text(id, name)) && none_of_starts_before(
                text,
                name,
                at,
            ),
        query_id_of(text, name) is None ==> holds_no_fragment_of(text, name),
{
    lemma_first_fragment_of_from(text, name, 0);
    if let Some(at) = first_fragment_of_from(text, name, 0) {
        let id = fragment_id(text, at);
        lemma_fragment_literals();
        lemma_run_end(text, id_start(at), ByteClass::Token);
        assert(is_word(id, ByteClass::Token));
        lemma_fragment_of_form(text, at, id, name);
        assert(occurs_at(text, at, fragment_text(id, name)));
        assert(none_of_starts_before(text, name, at));
    }
}

} // verus!

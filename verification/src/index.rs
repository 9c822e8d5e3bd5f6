//! The operations that a bundle's text names, each with its query id.

use vstd::prelude::*;
use crate::fragment::{
    fragment_end, fragment_id, fragment_name, fragment_of_starts, fragment_starts, is_word,
    lemma_fragment_of_is_fragment, lemma_fragment_parts, lemma_fragments_do_not_overlap,
};
use crate::lookup::{first_fragment_of_from, lemma_first_fragment_of_from, query_id_of};
use crate::text::ByteClass;

verus! {

/// What the fragments that start before offset `upto` say, taken from left to right: each
/// ties its name to its id, and a name that comes again is tied anew.
pub open spec fn index_upto(text: Seq<u8>, upto: int) -> Map<Seq<u8>, Seq<u8>>
    decreases upto,
{
    if upto <= 0 {
        Map::empty()
    } else if fragment_starts(text, upto - 1) {
        index_upto(text, upto - 1).insert(
            fragment_name(text, upto - 1),
            fragment_id(text, upto - 1),
        )
    } else {
        index_upto(text, upto - 1)
    }
}

/// The index of a bundle's text: every operation that a fragment names, with the id from
/// the rightmost fragment that names it.
pub open spec fn operation_index(text: Seq<u8>) -> Map<Seq<u8>, Seq<u8>> {
    index_upto(text, text.len() as int)
}

/// The greatest offset before `upto` at which a fragment with the name `name` starts.
pub open spec fn last_fragment_named_before(text: Seq<u8>, name: Seq<u8>, upto: int) -> Option<
    int,
>
    decreases upto,
{
    if upto <= 0 {
        None
    } else if fragment_starts(text, upto - 1) && fragment_name(text, upto - 1) == name {
        Some(upto - 1)
    } else {
        last_fragment_named_before(text, name, upto - 1)
    }
}

/// How many fragments start before offset `upto`.
pub open spec fn fragment_count_upto(text: Seq<u8>, upto: int) -> nat
    decreases upto,
{
    if upto <= 0 {
        0
    } else if fragment_starts(text, upto - 1) {
        fragment_count_upto(text, upto - 1) + 1
    } else {
        fragment_count_upto(text, upto - 1)
    }
}

/// How many fragments the text holds.
pub open spec fn fragment_count(text: Seq<u8>) -> nat {
    fragment_count_upto(text, text.len() as int)
}

/// No two fragments of the text carry the same name.
pub open spec fn names_are_distinct(text: Seq<u8>) -> bool {
    forall|a: int, b: int|
        #[trigger] fragment_starts(text, a) && #[trigger] fragment_starts(text, b) && a != b
            ==> fragment_name(text, a) != fragment_name(text, b)
}

/// No fragment starts anywhere in the text.
pub open spec fn holds_no_fragment(text: Seq<u8>) -> bool {
    forall|at: int| !#[trigger] fragment_starts(text, at)
}

/// What `last_fragment_named_before` finds: a fragment with that name starts at the offset
/// it gives and at none between it and `upto`; where it gives none, no fragment before
/// `upto` has the name.
pub proof fn lemma_last_fragment_named_before(text: Seq<u8>, name: Seq<u8>, upto: int)
    ensures
        match last_fragment_named_before(text, name, upto) {
            Some(at) => {
                &&& 0 <= at < upto
                &&& fragment_starts(text, at)
                &&& fragment_name(text, at) == name
                &&& forall|j: int|
                    at < j < upto && #[trigger] fragment_starts(text, j) ==> fragment_name(text, j)
                        != name
            },
            None => forall|j: int|
                j < upto && #[trigger] fragment_starts(text, j) ==> fragment_name(text, j) != name,
        },
    decreases upto,
{
    if upto > 0 && !(fragment_starts(text, upto - 1) && fragment_name(text, upto - 1) == name) {
        lemma_last_fragment_named_before(text, name, upto - 1);
    }
}

/// The index holds a name exactly when a fragment with that name starts before `upto`, and
/// ties it to the id of the rightmost such fragment. It holds finitely many names.
pub proof fn lemma_index_upto(text: Seq<u8>, upto: int)
    ensures
        index_upto(text, upto).dom().finite(),
        forall|name: Seq<u8>| #[trigger]
            index_upto(text, upto).contains_key(name) <==> last_fragment_named_before(
                text,
                name,
                upto,
            ) is Some,
        forall|name: Seq<u8>| #[trigger]
            index_upto(text, upto).contains_key(name) ==> index_upto(text, upto)[name]
                == fragment_id(text, last_fragment_named_before(text, name, upto).unwrap()),
    decreases upto,
{
    if upto > 0 {
        lemma_index_upto(text, upto - 1);
    }
}

/// Scanning may go on where a fragment ends: up to there the fragment adds its own name and
/// id to the index and nothing else is added.
pub proof fn lemma_index_over_fragment(text: Seq<u8>, at: int)
    requires
        fragment_starts(text, at),
    ensures
        index_upto(text, fragment_end(text, at)) == index_upto(text, at).insert(
            fragment_name(text, at),
            fragment_id(text, at),
        ),
{
    lemma_fragment_parts(text, at);
    lemma_index_inside_fragment(text, at, fragment_end(text, at));
}

proof fn lemma_index_inside_fragment(text: Seq<u8>, at: int, upto: int)
    requires
        fragment_starts(text, at),
        at < upto <= fragment_end(text, at),
    ensures
        index_upto(text, upto) == index_upto(text, at + 1),
    decreases upto,
{
    if at + 1 < upto {
        lemma_fragments_do_not_overlap(text, at, upto - 1);
        lemma_index_inside_fragment(text, at, upto - 1);
    }
}

/// A bundle that holds no fragment has an empty index.
pub proof fn lemma_no_fragment_empty_index(text: Seq<u8>)
    requires
        holds_no_fragment(text),
    ensures
        operation_index(text) == Map::<Seq<u8>, Seq<u8>>::empty(),
{
    lemma_no_fragment_empty_upto(text, text.len() as int);
}

proof fn lemma_no_fragment_empty_upto(text: Seq<u8>, upto: int)
    requires
        holds_no_fragment(text),
    ensures
        index_upto(text, upto) == Map::<Seq<u8>, Seq<u8>>::empty(),
    decreases upto,
{
    if upto > 0 {
        lemma_no_fragment_empty_upto(text, upto - 1);
    }
}

/// The rightmost fragment with a name decides: the index ties the name to its id.
pub proof fn lemma_rightmost_fragment_wins(text: Seq<u8>, at: int)
    requires
        fragment_starts(text, at),
        forall|j: int|
            at < j && #[trigger] fragment_starts(text, j) ==> fragment_name(text, j)
                != fragment_name(text, at),
    ensures
        operation_index(text).contains_key(fragment_name(text, at)),
        operation_index(text)[fragment_name(text, at)] == fragment_id(text, at),
{
    let name = fragment_name(text, at);
    let len = text.len() as int;
    lemma_fragment_parts(text, at);
    lemma_index_upto(text, len);
    lemma_last_fragment_named_before(text, name, len);
    assert(last_fragment_named_before(text, name, len) == Some(at));
    assert(index_upto(text, len).contains_key(name));
}

/// The index names exactly the operations for which an id is found, as far as names of
/// letters and digits go; every name in the index is such a name.
pub proof fn lemma_index_names(text: Seq<u8>, name: Seq<u8>)
    ensures
        operation_index(text).contains_key(name) ==> is_word(name, ByteClass::Alnum),
        is_word(name, ByteClass::Alnum) ==> (operation_index(text).contains_key(name)
            <==> query_id_of(text, name) is Some),
{
    let len = text.len() as int;
    lemma_index_upto(text, len);
    lemma_last_fragment_named_before(text, name, len);
    lemma_first_fragment_of_from(text, name, 0);
    if let Some(last) = last_fragment_named_before(text, name, len) {
        lemma_fragment_parts(text, last);
    }
    if is_word(name, ByteClass::Alnum) {
        if let Some(last) = last_fragment_named_before(text, name, len) {
            lemma_fragment_of_is_fragment(text, last, name);
        }
        if let Some(first) = first_fragment_of_from(text, name, 0) {
            lemma_fragment_of_is_fragment(text, first, name);
        }
    }
}

/// In a bundle whose fragments all carry different names, the index has as many entries as
/// the bundle has fragments, and the id it gives for a name is the id found for that name.
pub proof fn lemma_distinct_names_index(text: Seq<u8>)
    requires
        names_are_distinct(text),
    ensures
        operation_index(text).dom().finite(),
        operation_index(text).len() == fragment_count(text),
        forall|name: Seq<u8>| #[trigger]
            operation_index(text).contains_key(name) ==> query_id_of(text, name) == Some(
                operation_index(text)[name],
            ),
{
    let len = text.len() as int;
    lemma_index_upto(text, len);
    lemma_distinct_names_count(text, len);
    assert forall|name: Seq<u8>| #[trigger]
        operation_index(text).contains_key(name) implies query_id_of(text, name) == Some(
        operation_index(text)[name],
    ) by {
        lemma_last_fragment_named_before(text, name, len);
        let last = last_fragment_named_before(text, name, len).unwrap();
        lemma_fragment_parts(text, last);
        lemma_fragment_of_is_fragment(text, last, name);
        lemma_first_fragment_of_from(text, name, 0);
        let first = first_fragment_of_from(text, name, 0).unwrap();
        lemma_fragment_of_is_fragment(text, first, name);
        assert(first == last);
    }
}

proof fn lemma_distinct_names_count(text: Seq<u8>, upto: int)
    requires
        names_are_distinct(text),
    ensures
        index_upto(text, upto).dom().finite(),
        index_upto(text, upto).len() == fragment_count_upto(text, upto),
    decreases upto,
{
    lemma_index_upto(text, upto);
    if upto > 0 {
        lemma_distinct_names_count(text, upto - 1);
        lemma_index_upto(text, upto - 1);
        if fragment_starts(text, upto - 1) {
            let name = fragment_name(text, upto - 1);
            lemma_last_fragment_named_before(text, name, upto - 1);
            assert(!index_upto(text, upto - 1).contains_key(name));
        }
    }
}

} // verus!

//! Locating the main script bundle in a landing page, and reading the GraphQL operations
//! and their query ids out of the bundle's text.

use vstd::hash_map::StringHashMap;
use vstd::prelude::*;
use vstd::set_lib::lemma_map_size;
use vstd::string::*;
use vstd::utf8::*;
use crate::bundle::{
    first_reference_from, lemma_reference_literals, located_reference, match_reference,
    reference_head,
};
use crate::fragment::{
    lemma_fragment_bytes, lemma_fragment_parts, match_fragment, match_fragment_of,
};
use crate::index::{
    fragment_count, holds_no_fragment, index_upto, lemma_distinct_names_index,
    lemma_index_over_fragment, lemma_no_fragment_empty_index, names_are_distinct, operation_index,
};
use crate::lookup::{first_fragment_of_from, query_id_of};
use crate::text::{lemma_ascii_byte_boundaries, lemma_run_end, run_end, slice_between, ByteClass};

verus! {

/// The id of a GraphQL query, as the server knows it.
pub type QueryId = String;

/// The name of a GraphQL operation, as the client's code calls it.
pub type OperationName = String;

/// Finds the address of the main script bundle in the text of a landing page: the leftmost
/// reference that stands there, returned as the part of the page that holds it.
pub fn find_main_js(homepage_html: &str) -> (found: Option<&str>)
    ensures
        match found {
            Some(url) => located_reference(homepage_html.spec_bytes()) == Some(url.spec_bytes()),
            None => located_reference(homepage_html.spec_bytes()) is None,
        },
{
    let text = homepage_html.as_bytes();
    let mut at: usize = 0;
    while at < text.len()
        invariant
            at <= text.len(),
            text@ == homepage_html.spec_bytes(),
            first_reference_from(text@, 0) == first_reference_from(text@, at as int),
        decreases text.len() - at,
    {
        if let Some(end) = match_reference(text, at) {
            proof {
                let digits = at + reference_head().len();
                lemma_reference_literals();
                lemma_run_end(text@, digits, ByteClass::LowerHex);
                let dot = run_end(text@, digits, ByteClass::LowerHex);
                assert(text@[at as int] == text@.subrange(at as int, digits)[0]);
                assert(text@[end - 1] == text@.subrange(dot, dot + 3)[2]);
                encode_utf8_valid_utf8(homepage_html@);
                lemma_ascii_byte_boundaries(text@, at as int);
                lemma_ascii_byte_boundaries(text@, end - 1);
            }
            return Some(slice_between(homepage_html, at, end));
        }
        at += 1;
    }
    None
}

/// Finds the query id of one operation in the text of the bundle: the id in the leftmost
/// fragment for that operation, returned as the part of the bundle that holds it. The name
/// is looked for as it is, byte for byte: no character in it has a special meaning.
pub fn find_graphql_query_id<'a>(main_js: &'a str, operation_name: &'a str) -> (found: Option<
    &'a str,
>)
    ensures
        match found {
            Some(id) => query_id_of(main_js.spec_bytes(), operation_name.spec_bytes()) == Some(
                id.spec_bytes(),
            ),
            None => query_id_of(main_js.spec_bytes(), operation_name.spec_bytes()) is None,
        },
{
    let text = main_js.as_bytes();
    let name = operation_name.as_bytes();
    let mut at: usize = 0;
    while at < text.len()
        invariant
            at <= text.len(),
            text@ == main_js.spec_bytes(),
            name@ == operation_name.spec_bytes(),
            first_fragment_of_from(text@, name@, 0) == first_fragment_of_from(
                text@,
                name@,
                at as int,
            ),
        decreases text.len() - at,
    {
        if let Some((from, to)) = match_fragment_of(text, at, name) {
            proof {
                lemma_run_end(text@, from as int, ByteClass::Token);
                encode_utf8_valid_utf8(main_js@);
                lemma_ascii_byte_boundaries(text@, from as int);
                lemma_ascii_byte_boundaries(text@, to - 1);
            }
            return Some(slice_between(main_js, from, to));
        }
        at += 1;
    }
    None
}

/// What an index holds, with each name and each id given by its bytes.
pub open spec fn index_bytes(entries: Map<Seq<char>, QueryId>) -> Map<Seq<u8>, Seq<u8>> {
    Map::new(
        |name: Seq<u8>| valid_utf8(name) && entries.contains_key(decode_utf8(name)),
        |name: Seq<u8>| encode_utf8(entries[decode_utf8(name)]@),
    )
}

/// An index holds a name exactly when its bytes are among `index_bytes`, and the bytes of
/// the id that it gives for the name are what `index_bytes` gives for the name's bytes.
pub proof fn lemma_index_bytes_entry(entries: Map<Seq<char>, QueryId>, name: Seq<char>)
    ensures
        entries.contains_key(name) <==> index_bytes(entries).contains_key(encode_utf8(name)),
        entries.contains_key(name) ==> index_bytes(entries)[encode_utf8(name)] == encode_utf8(
            entries[name]@,
        ),
{
    encode_utf8_valid_utf8(name);
    encode_utf8_decode_utf8(name);
}

/// Putting an entry into an index puts the bytes of its name and of its id among
/// `index_bytes`.
pub proof fn lemma_index_bytes_insert(
    entries: Map<Seq<char>, QueryId>,
    name: Seq<char>,
    id: QueryId,
)
    ensures
        index_bytes(entries.insert(name, id)) == index_bytes(entries).insert(
            encode_utf8(name),
            encode_utf8(id@),
        ),
{
    encode_utf8_valid_utf8(name);
    encode_utf8_decode_utf8(name);
    let after = index_bytes(entries.insert(name, id));
    let expected = index_bytes(entries).insert(encode_utf8(name), encode_utf8(id@));
    assert forall|key: Seq<u8>| after.contains_key(key) <==> expected.contains_key(key) by {
        if valid_utf8(key) {
            decode_utf8_encode_utf8(key);
        }
    }
    assert forall|key: Seq<u8>| after.contains_key(key) implies after[key] == expected[key] by {
        decode_utf8_encode_utf8(key);
    }
    assert(after =~= expected);
}

/// An index has as many entries as `index_bytes` has.
pub proof fn lemma_index_bytes_len(entries: Map<Seq<char>, QueryId>)
    requires
        entries.dom().finite(),
    ensures
        index_bytes(entries).dom().finite(),
        index_bytes(entries).len() == entries.len(),
{
    let bytes_of = |name: Seq<char>| encode_utf8(name);
    assert forall|a: Seq<char>, b: Seq<char>| #[trigger]
        bytes_of(a) == #[trigger] bytes_of(b) implies a == b by {
        encode_utf8_decode_utf8(a);
        encode_utf8_decode_utf8(b);
    }
    assert forall|key: Seq<u8>|
        entries.dom().map(bytes_of).contains(key) <==> index_bytes(entries).dom().contains(
            key,
        ) by {
        if index_bytes(entries).dom().contains(key) {
            decode_utf8_encode_utf8(key);
            assert(entries.dom().contains(decode_utf8(key)));
            assert(bytes_of(decode_utf8(key)) == key);
        }
        if entries.dom().map(bytes_of).contains(key) {
            let name = choose|name: Seq<char>|
                entries.dom().contains(name) && bytes_of(name) == key;
            lemma_index_bytes_entry(entries, name);
        }
    }
    assert(entries.dom().map(bytes_of) =~= index_bytes(entries).dom());
    lemma_map_size(entries.dom(), index_bytes(entries).dom(), bytes_of);
}

/// Two answers to the same lookup are the same answer: both hold no id, or both hold the
/// same one.
pub proof fn lemma_lookup_is_repeatable(
    main_js: &str,
    operation_name: &str,
    first: Option<&str>,
    second: Option<&str>,
)
    requires
        match first {
            Some(id) => query_id_of(main_js.spec_bytes(), operation_name.spec_bytes()) == Some(
                id.spec_bytes(),
            ),
            None => query_id_of(main_js.spec_bytes(), operation_name.spec_bytes()) is None,
        },
        match second {
            Some(id) => query_id_of(main_js.spec_bytes(), operation_name.spec_bytes()) == Some(
                id.spec_bytes(),
            ),
            None => query_id_of(main_js.spec_bytes(), operation_name.spec_bytes()) is None,
        },
    ensures
        first is Some <==> second is Some,
        first is Some ==> first.unwrap()@ == second.unwrap()@,
{
    if first is Some {
        encode_utf8_decode_utf8(first.unwrap()@);
        encode_utf8_decode_utf8(second.unwrap()@);
    }
}

/// Two indexes of the same bundle are the same index: they hold the same names and give the
/// same id for each.
pub proof fn lemma_index_is_repeatable(
    main_js: &str,
    first: Map<Seq<char>, QueryId>,
    second: Map<Seq<char>, QueryId>,
)
    requires
        index_bytes(first) == operation_index(main_js.spec_bytes()),
        index_bytes(second) == operation_index(main_js.spec_bytes()),
    ensures
        first.dom() == second.dom(),
        forall|name: Seq<char>| #[trigger]
            first.contains_key(name) ==> first[name]@ == second[name]@,
{
    assert forall|name: Seq<char>| first.contains_key(name) <==> second.contains_key(name) by {
        lemma_index_bytes_entry(first, name);
        lemma_index_bytes_entry(second, name);
    }
    assert(first.dom() =~= second.dom());
    assert forall|name: Seq<char>| #[trigger] first.contains_key(name) implies first[name]@
        == second[name]@ by {
        lemma_index_bytes_entry(first, name);
        lemma_index_bytes_entry(second, name);
        encode_utf8_decode_utf8(first[name]@);
        encode_utf8_decode_utf8(second[name]@);
    }
}

/// An index of a bundle whose fragments all carry different names has one entry for each
/// fragment, and gives for each of its names the id that a lookup of that name finds.
pub proof fn lemma_index_agrees_with_lookup(main_js: &str, entries: Map<Seq<char>, QueryId>)
    requires
        names_are_distinct(main_js.spec_bytes()),
        index_bytes(entries) == operation_index(main_js.spec_bytes()),
        entries.dom().finite(),
    ensures
        entries.len() == fragment_count(main_js.spec_bytes()),
        forall|name: Seq<char>| #[trigger]
            entries.contains_key(name) ==> query_id_of(main_js.spec_bytes(), encode_utf8(name))
                == Some(encode_utf8(entries[name]@)),
{
    lemma_distinct_names_index(main_js.spec_bytes());
    lemma_index_bytes_len(entries);
    assert forall|name: Seq<char>| #[trigger] entries.contains_key(name) implies query_id_of(
        main_js.spec_bytes(),
        encode_utf8(name),
    ) == Some(encode_utf8(entries[name]@)) by {
        lemma_index_bytes_entry(entries, name);
    }
}

/// An index of a bundle that holds no fragment is empty.
pub proof fn lemma_no_fragment_no_entry(main_js: &str, entries: Map<Seq<char>, QueryId>)
    requires
        holds_no_fragment(main_js.spec_bytes()),
        index_bytes(entries) == operation_index(main_js.spec_bytes()),
    ensures
        entries == Map::<Seq<char>, QueryId>::empty(),
{
    lemma_no_fragment_empty_index(main_js.spec_bytes());
    assert forall|name: Seq<char>| !entries.contains_key(name) by {
        lemma_index_bytes_entry(entries, name);
    }
    assert(entries =~= Map::<Seq<char>, QueryId>::empty());
}

/// Builds the index of all operations that the text of the bundle names, each with its query
/// id. Where a name stands in several fragments, the rightmost one decides.
pub fn find_graphql_query_ids(main_js: &str) -> (index: StringHashMap<QueryId>)
    ensures
        index_bytes(index@) == operation_index(main_js.spec_bytes()),
        index@.dom().finite(),
{
    let text = main_js.as_bytes();
    let mut index: StringHashMap<QueryId> = StringHashMap::new();
    let mut at: usize = 0;
    proof {
        assert(index_bytes(index@) =~= index_upto(text@, 0));
    }
    while at < text.len()
        invariant
            at <= text.len(),
            text@ == main_js.spec_bytes(),
            index_bytes(index@) == index_upto(text@, at as int),
            index@.dom().finite(),
        decreases text.len() - at,
    {
        match match_fragment(text, at) {
            Some(span) => {
                proof {
                    lemma_fragment_parts(text@, at as int);
                    lemma_index_over_fragment(text@, at as int);
                    encode_utf8_valid_utf8(main_js@);
                    lemma_fragment_bytes(text@, at as int, span.id_from as int);
                    lemma_fragment_bytes(text@, at as int, span.id_to - 1);
                    lemma_fragment_bytes(text@, at as int, span.name_from as int);
                    lemma_fragment_bytes(text@, at as int, span.name_to - 1);
                    lemma_ascii_byte_boundaries(text@, span.id_from as int);
                    lemma_ascii_byte_boundaries(text@, span.id_to - 1);
                    lemma_ascii_byte_boundaries(text@, span.name_from as int);
                    lemma_ascii_byte_boundaries(text@, span.name_to - 1);
                }
                let name = slice_between(main_js, span.name_from, span.name_to);
                let id = slice_between(main_js, span.id_from, span.id_to);
                let key: OperationName = name.to_owned();
                let value: QueryId = id.to_owned();
                proof {
                    lemma_index_bytes_insert(index@, key@, value);
                }
                index.insert(key, value);
                at = span.end;
            },
            None => {
                at += 1;
            },
        }
    }
    index
}

} // verus!

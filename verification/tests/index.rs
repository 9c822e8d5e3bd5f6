use twitter_scraper::homepage::{find_graphql_query_id, find_graphql_query_ids};

fn main_js() -> String {
    let mut js = String::new();
    js.push_str("(self.webpackChunk=self.webpackChunk||[]).push([[179],{12345:(e,t,n)=>{");
    js.push_str("e.exports={queryId:\"Wlmlj2-xzyS1GN3a6cj-mQ\",operationName:\"DeleteBookmark\",");
    js.push_str("operationType:\"mutation\",metadata:{featureSwitches:[]}}},");
    js.push_str("23456:(e,t,n)=>{e.exports={queryId:\"WCPfjCbV22zfq-_pPrAGeQ\",");
    js.push_str("operationName:\"TweetDetail\",operationType:\"query\",metadata:");
    js.push_str("{featureSwitches:[\"rweb_lists_timeline_redesign_enabled\"]}}}}]);");
    js
}

#[test]
fn test_find_graphql_query_ids() {
    let main_js = main_js();
    let ops = find_graphql_query_ids(&main_js);
    assert!(ops.len() > 0);
    assert_eq!(ops.get("DeleteBookmark").unwrap(), "Wlmlj2-xzyS1GN3a6cj-mQ");
    assert_eq!(ops.get("TweetDetail").unwrap(), "WCPfjCbV22zfq-_pPrAGeQ");
}

#[test]
fn index_holds_exactly_the_fragments_of_the_bundle() {
    let ops = find_graphql_query_ids(&main_js());
    assert_eq!(ops.len(), 2);
    assert!(ops.contains_key("DeleteBookmark"));
    assert!(ops.contains_key("TweetDetail"));
    assert!(!ops.contains_key("CreateBookmark"));
    assert!(ops.get("CreateBookmark").is_none());
}

#[test]
fn bundle_without_fragments_gives_an_empty_index() {
    assert_eq!(find_graphql_query_ids("").len(), 0);
    assert!(find_graphql_query_ids("").is_empty());
    assert!(find_graphql_query_ids("function(){return 1}").is_empty());
    assert!(find_graphql_query_ids("{operationName:\"Op\",queryId:\"abc\",").is_empty());
    assert!(find_graphql_query_ids("{queryId:\"abc\",operationName:\"Op\"}").is_empty());
}

#[test]
fn rightmost_fragment_of_a_name_decides() {
    let js = "{queryId:\"first\",operationName:\"Op\",x},{queryId:\"second\",operationName:\"Op\",y},\
              {queryId:\"other\",operationName:\"Else\",z}";
    let ops = find_graphql_query_ids(js);
    assert_eq!(ops.len(), 2);
    assert_eq!(ops.get("Op").unwrap(), "second");
    assert_eq!(ops.get("Else").unwrap(), "other");
    assert_eq!(find_graphql_query_id(js, "Op"), Some("first"));
}

#[test]
fn index_agrees_with_lookup_where_names_are_distinct() {
    let js = "{queryId:\"a-1\",operationName:\"One\",}{queryId:\"b_2\",operationName:\"Two\",}\
              {queryId:\"c3\",operationName:\"Three3\",}";
    let ops = find_graphql_query_ids(js);
    assert_eq!(ops.len(), 3);
    for name in ["One", "Two", "Three3"] {
        assert_eq!(ops.get(name).map(|id| id.as_str()), find_graphql_query_id(js, name));
    }
    assert_eq!(ops.get("One").unwrap(), "a-1");
    assert_eq!(ops.get("Two").unwrap(), "b_2");
    assert_eq!(ops.get("Three3").unwrap(), "c3");
}

#[test]
fn name_takes_letters_and_digits_only() {
    assert!(find_graphql_query_ids("{queryId:\"q\",operationName:\"A-B\",").is_empty());
    assert!(find_graphql_query_ids("{queryId:\"q\",operationName:\"A_B\",").is_empty());
    assert!(find_graphql_query_ids("{queryId:\"q\",operationName:\"\",").is_empty());
    assert!(find_graphql_query_ids("{queryId:\"q\",operationName:\"caf\u{e9}\",").is_empty());
    let ops = find_graphql_query_ids("{queryId:\"q\",operationName:\"A1b2\",");
    assert_eq!(ops.len(), 1);
    assert_eq!(ops.get("A1b2").unwrap(), "q");
}

#[test]
fn fragments_back_to_back_are_all_read() {
    let js = "{queryId:\"x\",operationName:\"A\",{queryId:\"y\",operationName:\"B\",";
    let ops = find_graphql_query_ids(js);
    assert_eq!(ops.len(), 2);
    assert_eq!(ops.get("A").unwrap(), "x");
    assert_eq!(ops.get("B").unwrap(), "y");
}

#[test]
fn fragment_that_breaks_off_does_not_hide_the_next() {
    let js = "{queryId:\"x\",operationName:\"{queryId:\"y\",operationName:\"B\",";
    let ops = find_graphql_query_ids(js);
    assert_eq!(ops.len(), 1);
    assert_eq!(ops.get("B").unwrap(), "y");
    let js = "{queryId:\"{queryId:\"y\",operationName:\"B\",";
    let ops = find_graphql_query_ids(js);
    assert_eq!(ops.len(), 1);
    assert_eq!(ops.get("B").unwrap(), "y");
}

#[test]
fn fragments_among_characters_of_several_bytes() {
    let js = "\u{1f600}{queryId:\"x\",operationName:\"A\",\u{e9}\u{4e2d}{queryId:\"y\",operationName:\"B\",\u{1f600}";
    let ops = find_graphql_query_ids(js);
    assert_eq!(ops.len(), 2);
    assert_eq!(ops.get("A").unwrap(), "x");
    assert_eq!(ops.get("B").unwrap(), "y");
}

#[test]
fn indexing_twice_gives_the_same() {
    let main_js = main_js();
    let first = find_graphql_query_ids(&main_js);
    let second = find_graphql_query_ids(&main_js);
    assert_eq!(first.len(), second.len());
    for name in ["DeleteBookmark", "TweetDetail", "Missing"] {
        assert_eq!(first.get(name), second.get(name));
    }
}

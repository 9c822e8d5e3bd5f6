//! The scanners against a regular-expression engine: the same answers on the same texts.

use regex::Regex;
use std::collections::HashMap;
use twitter_scraper::homepage::{find_graphql_query_id, find_graphql_query_ids, find_main_js};

const REFERENCE: &str = r"https://abs\.twimg\.com/responsive-web/client-web/main\.[a-f0-9]+\.js";
const FRAGMENT: &str = r#"\{queryId:"([[:alnum:]\-_]+)",operationName:"([[:alnum:]]+)","#;

const PIECES: [&str; 40] = [
    "https://abs.twimg.com/responsive-web/client-web/main.",
    "https://abs.twimg.com/responsive-web/client-web/main",
    "https://abs.twimg.com/responsive-web/client-web/",
    "https://",
    ".js",
    ".j",
    ".",
    "4722fff5",
    "0",
    "f",
    "g",
    "F",
    "{queryId:\"",
    "{queryId:",
    "queryId:\"",
    "\",operationName:\"",
    "\",operationName:",
    ",operationName:\"",
    "\",",
    "\"",
    ",",
    "{",
    "}",
    "TweetDetail",
    "DeleteBookmark",
    "Op",
    "A",
    "b",
    "7",
    "WCPfjCbV22zfq-_pPrAGeQ",
    "-",
    "_",
    " ",
    "\n",
    "\u{e9}",
    "\u{4e2d}",
    "\u{1f600}",
    "{queryId:\"abc\",operationName:\"Op\",",
    "{queryId:\"x-1\",operationName:\"TweetDetail\",",
    "https://abs.twimg.com/responsive-web/client-web/main.beef01.js",
];

const NAMES: [&str; 8] = ["TweetDetail", "DeleteBookmark", "Op", "A", "b", "7", "OpA", "Ab7"];

struct Lcg(u64);

impl Lcg {
    fn next(&mut self, bound: usize) -> usize {
        self.0 = self.0.wrapping_mul(6364136223846793005).wrapping_add(1442695040888963407);
        ((self.0 >> 33) as usize) % bound
    }

    fn text(&mut self) -> String {
        let mut text = String::new();
        for _ in 0..self.next(12) {
            text.push_str(PIECES[self.next(PIECES.len())]);
        }
        text
    }
}

fn lookup_pattern(name: &str) -> Regex {
    let mut pattern = String::from(r#"\{queryId:"([[:alnum:]\-_]+)",operationName:""#);
    pattern.push_str(name);
    pattern.push_str(r#"","#);
    Regex::new(&pattern).unwrap()
}

#[test]
fn locator_agrees_with_the_pattern() {
    let pattern = Regex::new(REFERENCE).unwrap();
    let mut lcg = Lcg(1);
    for _ in 0..4000 {
        let text = lcg.text();
        let expected = pattern.find(&text).map(|m| m.as_str());
        assert_eq!(find_main_js(&text), expected, "text: {:?}", text);
    }
}

#[test]
fn lookup_agrees_with_the_pattern() {
    let patterns: Vec<Regex> = NAMES.iter().map(|name| lookup_pattern(name)).collect();
    let mut lcg = Lcg(2);
    for _ in 0..3000 {
        let text = lcg.text();
        for (name, pattern) in NAMES.iter().zip(patterns.iter()) {
            let expected = pattern.captures(&text).and_then(|c| c.get(1)).map(|m| m.as_str());
            assert_eq!(find_graphql_query_id(&text, name), expected, "text: {:?}", text);
        }
    }
}

#[test]
fn lookup_of_any_name_agrees_with_the_escaped_pattern() {
    let names = ["", "A.B", "Op*", "(", "[[:alnum:]]+", "caf\u{e9}", "a\"b", "\\", "{", "Op\","];
    let patterns: Vec<Regex> =
        names.iter().map(|name| lookup_pattern(&regex::escape(name))).collect();
    let mut lcg = Lcg(3);
    for round in 0..2000 {
        let mut text = lcg.text();
        if round % 2 == 0 {
            text.push_str("{queryId:\"q-1\",operationName:\"");
            text.push_str(names[lcg.next(names.len())]);
            text.push_str("\",");
            text.push_str(&lcg.text());
        }
        for (name, pattern) in names.iter().zip(patterns.iter()) {
            let expected = pattern.captures(&text).and_then(|c| c.get(1)).map(|m| m.as_str());
            assert_eq!(find_graphql_query_id(&text, name), expected, "text: {:?}", text);
        }
    }
}

#[test]
fn index_agrees_with_the_pattern() {
    let pattern = Regex::new(FRAGMENT).unwrap();
    let mut lcg = Lcg(4);
    for _ in 0..4000 {
        let text = lcg.text();
        let mut expected = HashMap::<String, String>::new();
        for captures in pattern.captures_iter(&text) {
            let name = String::from(captures.get(2).unwrap().as_str());
            let id = String::from(captures.get(1).unwrap().as_str());
            expected.insert(name, id);
        }
        let index = find_graphql_query_ids(&text);
        assert_eq!(index.len(), expected.len(), "text: {:?}", text);
        for (name, id) in expected.iter() {
            assert_eq!(index.get(name), Some(id), "text: {:?}", text);
        }
    }
}

#[test]
fn large_bundle_is_read_in_one_pass() {
    let mut text = String::new();
    let mut expected = Vec::new();
    for k in 0..20000 {
        text.push_str("n.d(t,{a:()=>r});var r=function(){return \u{201c}x\u{201d}};e.exports=");
        let name = format!("Operation{}", k);
        let id = format!("id_{}-{}", k, k * 7);
        text.push_str(&format!("{{queryId:\"{}\",operationName:\"{}\",operationType:\"query\"}}", id, name));
        expected.push((name, id));
    }
    text.push_str("https://abs.twimg.com/responsive-web/client-web/main.4722fff5.js");
    let index = find_graphql_query_ids(&text);
    assert_eq!(index.len(), expected.len());
    for (name, id) in expected.iter() {
        assert_eq!(index.get(name), Some(id));
    }
    assert_eq!(find_graphql_query_id(&text, "Operation19999"), Some("id_19999-139993"));
    assert_eq!(
        find_main_js(&text),
        Some("https://abs.twimg.com/responsive-web/client-web/main.4722fff5.js")
    );
}

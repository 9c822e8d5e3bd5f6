use twitter_scraper::homepage::find_main_js;

const MAIN_JS: &str = "https://abs.twimg.com/responsive-web/client-web/main.4722fff5.js";

fn homepage_html() -> String {
    let mut page = String::new();
    page.push_str("<!DOCTYPE html><html dir=\"ltr\" lang=\"en\"><head><meta charset=\"utf-8\" />");
    page.push_str("<title>Twitter \u{2013} caf\u{e9} \u{1f426}</title>");
    page.push_str("<link rel=\"preload\" as=\"script\" crossorigin=\"anonymous\" ");
    page.push_str("href=\"https://abs.twimg.com/responsive-web/client-web/polyfills.cad508b5.js\" ");
    page.push_str("nonce=\"MzU2\" /><link rel=\"preload\" as=\"script\" crossorigin=\"anonymous\" ");
    page.push_str("href=\"https://abs.twimg.com/responsive-web/client-web/vendor.f5e1939a.js\" ");
    page.push_str("nonce=\"MzU2\" /><link rel=\"preload\" as=\"script\" crossorigin=\"anonymous\" ");
    page.push_str("href=\"https://abs.twimg.com/responsive-web/client-web/main.4722fff5.js\" ");
    page.push_str("nonce=\"MzU2\" /></head><body><div id=\"react-root\"></div></body></html>");
    page
}

#[test]
fn test_find_main_js() {
    let homepage_html = homepage_html();
    assert_eq!(find_main_js(&homepage_html), Some(MAIN_JS));
}

#[test]
fn sole_reference_is_returned_unchanged() {
    let page = format!("<script src=\"{}\"></script>", MAIN_JS);
    assert_eq!(find_main_js(&page), Some(MAIN_JS));
    assert_eq!(find_main_js(MAIN_JS), Some(MAIN_JS));
}

#[test]
fn page_without_reference_gives_none() {
    assert_eq!(find_main_js(""), None);
    assert_eq!(find_main_js("<html><body>nothing here</body></html>"), None);
    assert_eq!(
        find_main_js("https://abs.twimg.com/responsive-web/client-web/vendor.f5e1939a.js"),
        None
    );
}

#[test]
fn leftmost_of_several_references_is_returned() {
    let page = "a https://abs.twimg.com/responsive-web/client-web/main.0a1b.js b \
                https://abs.twimg.com/responsive-web/client-web/main.ffff9999.js c";
    assert_eq!(
        find_main_js(page),
        Some("https://abs.twimg.com/responsive-web/client-web/main.0a1b.js")
    );
}

#[test]
fn hash_needs_a_digit() {
    assert_eq!(find_main_js("https://abs.twimg.com/responsive-web/client-web/main..js"), None);
    assert_eq!(find_main_js("https://abs.twimg.com/responsive-web/client-web/main.js"), None);
    assert_eq!(
        find_main_js("https://abs.twimg.com/responsive-web/client-web/main.0.js"),
        Some("https://abs.twimg.com/responsive-web/client-web/main.0.js")
    );
}

#[test]
fn hash_is_lower_case_hexadecimal() {
    assert_eq!(find_main_js("https://abs.twimg.com/responsive-web/client-web/main.4722FFF5.js"), None);
    assert_eq!(find_main_js("https://abs.twimg.com/responsive-web/client-web/main.4722g.js"), None);
    assert_eq!(find_main_js("https://abs.twimg.com/responsive-web/client-web/main.47-22.js"), None);
}

#[test]
fn reference_must_be_complete() {
    assert_eq!(find_main_js("https://abs.twimg.com/responsive-web/client-web/main.4722fff5"), None);
    assert_eq!(find_main_js("https://abs.twimg.com/responsive-web/client-web/main.4722fff5.j"), None);
    assert_eq!(find_main_js("https://abs.twimg.com/responsive-web/client-web/main.4722fff5.css"), None);
    assert_eq!(find_main_js("http://abs.twimg.com/responsive-web/client-web/main.4722fff5.js"), None);
    assert_eq!(find_main_js("https://absXtwimg.com/responsive-web/client-web/main.4722fff5.js"), None);
}

#[test]
fn reference_ends_after_its_suffix() {
    assert_eq!(
        find_main_js("https://abs.twimg.com/responsive-web/client-web/main.4722fff5.json"),
        Some(MAIN_JS)
    );
    assert_eq!(
        find_main_js("https://abs.twimg.com/responsive-web/client-web/main.4722fff5.js.js"),
        Some(MAIN_JS)
    );
}

#[test]
fn broken_reference_before_a_whole_one_is_passed_over() {
    let page = "https://abs.twimg.com/responsive-web/client-web/main.zz.js \
                https://abs.twimg.com/responsive-web/client-web/main.https://abs.twimg.com/\
                responsive-web/client-web/main.4722fff5.js";
    assert_eq!(find_main_js(page), Some(MAIN_JS));
}

#[test]
fn reference_among_characters_of_several_bytes() {
    let page = format!("\u{e9}\u{4e2d}\u{1f600}{}\u{1f600}\u{e9}", MAIN_JS);
    assert_eq!(find_main_js(&page), Some(MAIN_JS));
}

#[test]
fn locating_twice_gives_the_same() {
    let page = homepage_html();
    assert_eq!(find_main_js(&page), find_main_js(&page));
}

use html_utils::{
    compress_css_classes, compress_css_classes_html, encode_number, extract_css_class,
    extract_images, generate_css_class, split_class_value, CompressionState,
};

fn s(text: &str) -> String {
    text.to_string()
}

fn strings(items: &[&str]) -> Vec<String> {
    items.iter().map(|t| t.to_string()).collect()
}

fn empty_state() -> CompressionState {
    CompressionState::new(Vec::new(), 0, Vec::new(), Vec::new())
}

fn lookup(state: &CompressionState, key: &str) -> Option<String> {
    state.mapping.iter().rev().find(|(k, _)| k == key).map(|(_, v)| v.clone())
}

#[test]
fn numerals_follow_spreadsheet_columns() {
    assert_eq!(encode_number(1), "a");
    assert_eq!(encode_number(26), "z");
    assert_eq!(encode_number(27), "aa");
    assert_eq!(encode_number(52), "az");
    assert_eq!(encode_number(53), "ba");
    assert_eq!(encode_number(702), "zz");
    assert_eq!(encode_number(703), "aaa");
    assert_eq!(encode_number(0), "");
}

#[test]
fn numerals_are_distinct() {
    let mut seen = std::collections::HashSet::new();
    for n in 1..3000u64 {
        assert!(seen.insert(encode_number(n)));
    }
}

#[test]
fn minting_advances_counter() {
    let mut counter: u64 = 0;
    assert_eq!(generate_css_class(&mut counter, "c"), "ca");
    assert_eq!(counter, 1);
    assert_eq!(generate_css_class(&mut counter, "c"), "cb");
    assert_eq!(counter, 2);
}

#[test]
fn reserved_name_is_skipped() {
    let mut counter: u64 = 29;
    assert_eq!(generate_css_class(&mut counter, ""), "ae");
    assert_eq!(counter, 31);
    let mut counter: u64 = 3;
    assert_eq!(generate_css_class(&mut counter, "a"), "ae");
    assert_eq!(counter, 5);
    let mut counter: u64 = 29;
    assert_eq!(generate_css_class(&mut counter, "x"), "xad");
    assert_eq!(counter, 30);
}

#[test]
fn layer_is_renamed() {
    let mut state = CompressionState::new(Vec::new(), 0, Vec::new(), vec![(s("dark"), s("d"))]);
    let out = compress_css_classes(&strings(&["dark@btn-primary"]), &mut state, "");
    assert_eq!(out, strings(&["d@a"]));
    assert_eq!(state.counter, 1);
    assert_eq!(lookup(&state, "dark@btn-primary"), Some(s("d@a")));
}

#[test]
fn layer_without_rename_is_kept_and_split_at_first_at() {
    let mut state = empty_state();
    let out = compress_css_classes(&strings(&["md@x@y", "plain", "@lead"]), &mut state, "p");
    assert_eq!(out, strings(&["md@pa", "pb", "@pc"]));
}

#[test]
fn safelist_takes_precedence() {
    let mut state = CompressionState::new(vec![(s("foo"), s("zz"))], 5, vec![s("foo")], Vec::new());
    let out = compress_css_classes(&strings(&["foo", "bar"]), &mut state, "");
    assert_eq!(out, strings(&["foo", "f"]));
    assert_eq!(lookup(&state, "foo"), Some(s("foo")));
    assert_eq!(state.counter, 6);
}

#[test]
fn known_tokens_keep_their_value() {
    let mut state = CompressionState::new(vec![(s("foo"), s("q"))], 7, Vec::new(), Vec::new());
    let out = compress_css_classes(&strings(&["foo", "foo"]), &mut state, "");
    assert_eq!(out, strings(&["q", "q"]));
    assert_eq!(state.counter, 7);
}

#[test]
fn second_pass_is_idempotent() {
    let tokens = strings(&["foo", "bar", "safe", "foo", "l@x"]);
    let mut state = CompressionState::new(Vec::new(), 0, vec![s("safe")], Vec::new());
    let first = compress_css_classes(&tokens, &mut state, "c");
    let mapping = state.mapping.clone();
    let counter = state.counter;
    let second = compress_css_classes(&tokens, &mut state, "c");
    assert_eq!(first, second);
    assert_eq!(counter, state.counter);
    for (k, _) in &mapping {
        assert_eq!(lookup(&state, k), lookup(&CompressionState::new(mapping.clone(), 0, Vec::new(), Vec::new()), k));
    }
}

#[test]
fn compression_is_deterministic() {
    let tokens = strings(&["one", "two", "x@three", "one"]);
    let mut a = CompressionState::new(Vec::new(), 40, vec![s("two")], vec![(s("x"), s("y"))]);
    let mut b = CompressionState::new(Vec::new(), 40, vec![s("two")], vec![(s("x"), s("y"))]);
    assert_eq!(compress_css_classes(&tokens, &mut a, "k"), compress_css_classes(&tokens, &mut b, "k"));
    assert_eq!(a.counter, b.counter);
    assert_eq!(a.mapping, b.mapping);
}

#[test]
fn distinct_tokens_get_distinct_names() {
    let mut state = empty_state();
    let tokens: Vec<String> = (0..800).map(|i| format!("token-{}", i)).collect();
    let first = compress_css_classes(&tokens[..400].to_vec(), &mut state, "");
    let second = compress_css_classes(&tokens[400..].to_vec(), &mut state, "");
    let mut seen = std::collections::HashSet::new();
    for name in first.iter().chain(second.iter()) {
        assert!(seen.insert(name.clone()));
        assert_ne!(name, "ad");
    }
}

#[test]
fn order_is_preserved() {
    let mut state = empty_state();
    let out = compress_css_classes(&strings(&["c", "a", "b", "a"]), &mut state, "");
    assert_eq!(out, strings(&["a", "b", "c", "b"]));
}

#[test]
fn splitting_drops_empty_pieces() {
    assert_eq!(split_class_value("  foo \t\n bar  "), strings(&["foo", "bar"]));
    assert_eq!(split_class_value("   "), Vec::<String>::new());
    assert_eq!(split_class_value("a"), strings(&["a"]));
}

#[test]
fn streaming_matches_batch() {
    let html = "<p class=\"foo bar\">x</p>";
    let mut streamed = CompressionState::new(Vec::new(), 3, Vec::new(), Vec::new());
    let rewritten = compress_css_classes_html(html, &mut streamed, "c").unwrap();
    let mut batch = CompressionState::new(Vec::new(), 3, Vec::new(), Vec::new());
    let mut found = Vec::new();
    extract_css_class(&mut found, html);
    let out = compress_css_classes(&found, &mut batch, "c");
    assert_eq!(rewritten, format!("<p class=\"{}\">x</p>", out.join(" ")));
    assert_eq!(streamed.counter, batch.counter);
}

#[test]
fn end_to_end_document() {
    let html = "<div class=\"foo bar\"><img src=\"a.png\"></div>";
    assert_eq!(extract_images(html), strings(&["a.png"]));
    let mut classes = Vec::new();
    extract_css_class(&mut classes, html);
    classes.sort();
    assert_eq!(classes, strings(&["bar", "foo"]));
    let mut state = empty_state();
    let out = compress_css_classes(&strings(&["foo", "bar"]), &mut state, "c");
    assert_eq!(out, strings(&["ca", "cb"]));
    let mut state = empty_state();
    let rewritten = compress_css_classes_html(html, &mut state, "c").unwrap();
    assert_eq!(rewritten, "<div class=\"ca cb\"><img src=\"a.png\"></div>");
    assert_eq!(state.counter, 2);
}

#[test]
fn rewriting_tolerates_irregular_whitespace() {
    let html = "<!-- c --><a class=\"  x\t y \">t</a><b>u</b><i class=\"x\"></i>";
    let mut state = empty_state();
    let rewritten = compress_css_classes_html(html, &mut state, "").unwrap();
    assert_eq!(rewritten, "<!-- c --><a class=\"a b\">t</a><b>u</b><i class=\"a\"></i>");
}

#[test]
fn rewriting_refuses_when_counter_would_run_out() {
    let html = "<a class=\"x y\"></a>";
    let mut state = CompressionState::new(Vec::new(), u64::MAX - 3, Vec::new(), Vec::new());
    assert_eq!(compress_css_classes_html(html, &mut state, ""), None);
    assert_eq!(state.counter, u64::MAX - 3);
    assert!(state.mapping.is_empty());
}

#[test]
fn extraction_keeps_set_distinct() {
    let html = "<div class=\"a b\"><span class=\"b  c\"></span><p class=\"\"></p></div>";
    let mut set = strings(&["z", "a"]);
    extract_css_class(&mut set, html);
    assert_eq!(set, strings(&["z", "a", "b", "c"]));
}

#[test]
fn images_in_document_order_with_duplicates() {
    let html = "<img src=\"1.png\"><img alt=\"none\"><p><img src=\"2.png\"><img src=\"1.png\"></p>";
    assert_eq!(extract_images(html), strings(&["1.png", "2.png", "1.png"]));
}

#[test]
fn lenient_parsing_recovers() {
    let html = "<div class=\"open\"><p class=\"inner\">text";
    let mut set = Vec::new();
    extract_css_class(&mut set, html);
    assert_eq!(set, strings(&["open", "inner"]));
}

#[test]
fn safelisted_token_is_recorded_once() {
    let mut state = CompressionState::new(Vec::new(), 0, vec![s("keep")], Vec::new());
    compress_css_classes(&strings(&["keep", "keep"]), &mut state, "");
    compress_css_classes(&strings(&["keep"]), &mut state, "");
    assert_eq!(state.mapping, vec![(s("keep"), s("keep"))]);
    assert_eq!(state.counter, 0);
}

#[test]
fn ambiguous_markup_does_not_panic() {
    let html = "<select><xmp class=\"a b\">x</xmp></select><p class=\"c\">y</p>";
    let mut state = empty_state();
    assert!(compress_css_classes_html(html, &mut state, "").is_some());
    let mut set = Vec::new();
    extract_css_class(&mut set, html);
    assert!(set.contains(&s("c")));
}

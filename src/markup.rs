//! Class tokens and image sources read out of whole documents.
use vstd::prelude::*;
use crate::compress::{text_set, texts};

verus! {

/// What splitting a text at each run of whitespace gives, empty pieces at
/// either end included.
pub uninterp spec fn whitespace_pieces(s: Seq<char>) -> Seq<Seq<char>>;

/// The values of attribute `attr` on the elements of a parsed document that
/// match a selector, in document order.
pub uninterp spec fn selected_attribute_values(
    html: Seq<char>,
    selector: Seq<char>,
    attr: Seq<char>,
) -> Seq<Seq<char>>;

/// Whether a character is ASCII whitespace, which `\s` matches.
pub open spec fn is_ascii_space(c: char) -> bool {
    c == ' ' || c == '\t' || c == '\n' || c == '\r' || c == '\x0B' || c == '\x0C'
}

/// Whether no text of a list holds ASCII whitespace.
pub open spec fn free_of_spaces(items: Seq<String>) -> bool {
    forall|i: int, j: int| 0 <= i < items.len() && 0 <= j < items[i]@.len() ==> !is_ascii_space(#[trigger] items[i]@[j])
}

/// Relies on regex's `Regex::new` and `Regex::split` with the pattern `\s+`:
/// the pieces between runs of whitespace, which depend on the text alone
/// and, `\s` matching every ASCII whitespace character, hold none.
#[verifier::external_body]
fn split_whitespace_runs(s: &str) -> (r: Vec<String>)
    ensures
        texts(r@) == whitespace_pieces(s@),
        free_of_spaces(r@),
{
    regex::Regex::new(r"\s+").unwrap().split(s).map(|p| p.to_string()).collect()
}

/// Relies on scraper's `Html::parse_document`, `Selector::parse`,
/// `Html::select` and `Node::attr`: the values of `attr` on the matching
/// elements of the parsed document, none where the selector does not parse.
#[verifier::external_body]
fn select_attribute_values(html: &str, selector: &str, attr: &str) -> (r: Vec<String>)
    ensures
        texts(r@) == selected_attribute_values(html@, selector@, attr@),
{
    let document = scraper::Html::parse_document(html);
    match scraper::Selector::parse(selector) {
        Ok(sel) => document.select(&sel).filter_map(|e| e.value().attr(attr)).map(|v| v.to_string()).collect(),
        Err(_) => Vec::new(),
    }
}

/// The pieces of a sequence that are not empty, in order.
pub open spec fn non_empty(pieces: Seq<Seq<char>>) -> Seq<Seq<char>>
    decreases pieces.len(),
{
    if pieces.len() == 0 {
        Seq::empty()
    } else if pieces.last().len() == 0 {
        non_empty(pieces.drop_last())
    } else {
        non_empty(pieces.drop_last()).push(pieces.last())
    }
}

/// The tokens of a class attribute value: the non-empty pieces between runs
/// of whitespace.
pub open spec fn class_tokens(value: Seq<char>) -> Seq<Seq<char>> {
    non_empty(whitespace_pieces(value))
}

/// The tokens of several class attribute values, one after another.
pub open spec fn all_class_tokens(values: Seq<Seq<char>>) -> Seq<Seq<char>>
    decreases values.len(),
{
    if values.len() == 0 {
        Seq::empty()
    } else {
        all_class_tokens(values.drop_last()) + class_tokens(values.last())
    }
}

/// The class attribute values of a document, in document order.
pub open spec fn class_values_of(html: Seq<char>) -> Seq<Seq<char>> {
    selected_attribute_values(html, "[class]"@, "class"@)
}

/// The source attribute values of a document's images, in document order.
pub open spec fn image_sources_of(html: Seq<char>) -> Seq<Seq<char>> {
    selected_attribute_values(html, "img[src]"@, "src"@)
}

/// The tokens of a class attribute value.
pub fn split_class_value(value: &str) -> (r: Vec<String>)
    ensures
        texts(r@) == class_tokens(value@),
        free_of_spaces(r@),
        forall|i: int| 0 <= i < r@.len() ==> #[trigger] r@[i]@.len() > 0,
{
    let pieces = split_whitespace_runs(value);
    let mut out: Vec<String> = Vec::new();
    let mut i: usize = 0;
    while i < pieces.len()
        invariant
            i <= pieces.len(),
            texts(pieces@) == whitespace_pieces(value@),
            texts(out@) == non_empty(texts(pieces@).take(i as int)),
            free_of_spaces(pieces@),
            free_of_spaces(out@),
            forall|k: int| 0 <= k < out@.len() ==> #[trigger] out@[k]@.len() > 0,
        decreases pieces.len() - i,
    {
        let ghost before = out@;
        proof {
            assert(texts(pieces@).take(i + 1).drop_last() =~= texts(pieces@).take(i as int));
            assert(texts(pieces@).take(i + 1).last() == pieces@[i as int]@);
        }
        if pieces[i].as_str().unicode_len() > 0 {
            out.push(pieces[i].clone());
            proof {
                assert(texts(out@) =~= texts(before).push(pieces@[i as int]@));
                assert forall|a: int, b: int| 0 <= a < out@.len() && 0 <= b < out@[a]@.len() implies !is_ascii_space(
                    #[trigger] out@[a]@[b],
                ) by {
                    if a < before.len() {
                        assert(out@[a] == before[a]);
                    } else {
                        assert(out@[a] == pieces@[i as int]);
                    }
                }
                assert forall|a: int| 0 <= a < out@.len() implies #[trigger] out@[a]@.len() > 0 by {
                    if a < before.len() {
                        assert(out@[a] == before[a]);
                    }
                }
            }
        }
        i = i + 1;
    }
    proof {
        assert(texts(pieces@).take(pieces.len() as int) =~= texts(pieces@));
    }
    out
}

/// Tokens of several class attribute values, one after another.
pub fn split_class_values(values: &Vec<String>) -> (r: Vec<String>)
    ensures
        texts(r@) == all_class_tokens(texts(values@)),
{
    let mut out: Vec<String> = Vec::new();
    let mut i: usize = 0;
    while i < values.len()
        invariant
            i <= values.len(),
            texts(out@) == all_class_tokens(texts(values@).take(i as int)),
        decreases values.len() - i,
    {
        let mut pieces = split_class_value(values[i].as_str());
        let ghost before = out@;
        let ghost added = pieces@;
        out.append(&mut pieces);
        proof {
            assert(texts(values@).take(i + 1).drop_last() =~= texts(values@).take(i as int));
            assert(texts(values@).take(i + 1).last() == values@[i as int]@);
            assert(texts(out@) =~= texts(before) + texts(added));
        }
        i = i + 1;
    }
    proof {
        assert(texts(values@).take(values.len() as int) =~= texts(values@));
    }
    out
}

proof fn lemma_text_set_push(items: Seq<String>, x: String)
    ensures
        text_set(items.push(x)) == text_set(items).insert(x@),
{
    let longer = items.push(x);
    assert forall|t: Seq<char>| #[trigger] text_set(items).insert(x@).contains(t) implies text_set(longer).contains(t) by {
        if t != x@ {
            let i = choose|i: int| 0 <= i < items.len() && #[trigger] items[i]@ == t;
            assert(longer[i]@ == t);
        } else {
            assert(longer[items.len() as int]@ == t);
        }
    }
    assert forall|t: Seq<char>| #[trigger] text_set(longer).contains(t) implies text_set(items).insert(x@).contains(t) by {
        let i = choose|i: int| 0 <= i < longer.len() && #[trigger] longer[i]@ == t;
        if i < items.len() {
            assert(items[i]@ == t);
        }
    }
    assert(text_set(longer) =~= text_set(items).insert(x@));
}

/// Adds a text to a list used as a set, unless the list holds it already.
pub fn insert_text(set: &mut Vec<String>, text: String)
    ensures
        text_set(final(set)@) == text_set(old(set)@).insert(text@),
        final(set)@ == old(set)@ || final(set)@ == old(set)@.push(text),
        final(set)@.len() >= old(set)@.len(),
        texts(old(set)@).no_duplicates() ==> texts(final(set)@).no_duplicates(),
{
    let mut i: usize = 0;
    while i < set.len()
        invariant
            i <= set.len(),
            forall|j: int| 0 <= j < i ==> #[trigger] set@[j]@ != text@,
        decreases set.len() - i,
    {
        if set[i] == text {
            proof {
                assert(text_set(set@).contains(text@));
                assert(text_set(set@).insert(text@) =~= text_set(set@));
            }
            return;
        }
        i = i + 1;
    }
    proof {
        lemma_text_set_push(set@, text);
        assert(texts(set@.push(text)) =~= texts(set@).push(text@));
    }
    set.push(text);
}

/// Adds every class token of a document to `set`, a list of distinct texts
/// that the caller keeps.
pub fn extract_css_class(set: &mut Vec<String>, html: &str)
    ensures
        text_set(final(set)@) == text_set(old(set)@) + all_class_tokens(class_values_of(html@)).to_set(),
        old(set)@.is_prefix_of(final(set)@),
        texts(old(set)@).no_duplicates() ==> texts(final(set)@).no_duplicates(),
{
    let values = select_attribute_values(html, "[class]", "class");
    let tokens = split_class_values(&values);
    let ghost all = texts(tokens@);
    let ghost start = set@;
    let mut k: usize = 0;
    while k < tokens.len()
        invariant
            k <= tokens.len(),
            all == texts(tokens@),
            start.is_prefix_of(set@),
            text_set(set@) == text_set(start) + all.take(k as int).to_set(),
            texts(start).no_duplicates() ==> texts(set@).no_duplicates(),
        decreases tokens.len() - k,
    {
        let ghost before = set@;
        insert_text(set, tokens[k].clone());
        proof {
            assert(all.take(k + 1) =~= all.take(k as int).push(all[k as int]));
            all.take(k as int).lemma_push_to_set_commute(all[k as int]);
            assert(text_set(set@) =~= text_set(start) + all.take(k + 1).to_set());
            assert(start.is_prefix_of(set@)) by {
                assert forall|j: int| 0 <= j < start.len() implies #[trigger] start[j] == set@[j] by {
                    assert(before[j] == set@[j]);
                }
            }
        }
        k = k + 1;
    }
    proof {
        assert(all.take(tokens.len() as int) =~= all);
    }
}

/// The source of every image of a document, in document order.
pub fn extract_images(html: &str) -> (r: Vec<String>)
    ensures
        texts(r@) == image_sources_of(html@),
{
    select_attribute_values(html, "img[src]", "src")
}

} // verus!

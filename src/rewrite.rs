//! Rewriting the class attributes of a document as it streams through.
use vstd::prelude::*;
use std::borrow::Cow;
use lol_html::html_content::Element;
use lol_html::{ElementContentHandlers, HandlerResult, HtmlRewriter, Settings};
use crate::compress::{classify_all, compress_css_classes, texts, CompressionState, StateModel};
use crate::ident::lemma_mint_never_reserved;
use crate::laws::{lemma_classify_all_keeps_names, names_consistent};
use crate::markup::{all_class_tokens, class_tokens, split_class_value, split_class_values};

verus! {

/// The class attribute values that a streaming pass over a document meets,
/// in the order it meets them.
pub uninterp spec fn streamed_class_values(html: Seq<char>) -> Seq<Seq<char>>;

/// The document that a streaming pass writes out when it sets the class
/// attributes it meets, in order, to the given values.
pub uninterp spec fn streamed_with_class_values(html: Seq<char>, values: Seq<Seq<char>>) -> Seq<char>;

/// Hands out replacement values in order, one per class attribute met.
pub struct ClassValueQueue {
    values: Vec<String>,
    next: usize,
}

impl ClassValueQueue {
    #[verifier::type_invariant]
    spec fn within(&self) -> bool {
        self.next <= self.values.len()
    }

    pub closed spec fn pending(&self) -> Seq<Seq<char>> {
        texts(self.values@).skip(self.next as int)
    }

    /// A queue that hands out `values`, first to last.
    pub fn new(values: Vec<String>) -> (r: Self)
        ensures
            r.pending() == texts(values@),
    {
        let r = ClassValueQueue { values, next: 0 };
        proof {
            assert(texts(r.values@).skip(0) =~= texts(r.values@));
        }
        r
    }

    /// The next value, or `current` once every value has been handed out.
    pub fn next_value(&mut self, current: String) -> (r: String)
        ensures
            old(self).pending().len() > 0 ==> r@ == old(self).pending()[0]
                && final(self).pending() == old(self).pending().drop_first(),
            old(self).pending().len() == 0 ==> r == current && final(self).pending().len() == 0,
    {
        proof {
            use_type_invariant(&*self);
        }
        if self.next < self.values.len() {
            let r = self.values[self.next].clone();
            proof {
                assert(old(self).pending()[0] == self.values@[self.next as int]@);
            }
            self.next = self.next + 1;
            proof {
                assert(texts(self.values@).skip(self.next as int) =~= texts(self.values@).skip(self.next - 1).drop_first());
            }
            r
        } else {
            current
        }
    }
}

/// Relies on lol_html's `HtmlRewriter` with an element handler on `[class]`
/// and `Element::get_attribute`: the class values met in one streaming pass,
/// which depend on the document alone. `HtmlRewriter::end` is called only
/// after a successful `write`, since after a failed one it panics; a failed
/// pass keeps what it met before the failure.
#[verifier::external_body]
fn stream_class_values(html: &str) -> (r: Vec<String>)
    ensures
        texts(r@) == streamed_class_values(html@),
{
    let mut values: Vec<String> = Vec::new();
    let handlers = ElementContentHandlers::default().element(|el: &mut Element<'_, '_>| -> HandlerResult {
        values.push(el.get_attribute("class").unwrap_or_default());
        Ok(())
    });
    let settings = Settings::new().append_element_content_handler((Cow::Owned("[class]".parse().unwrap()), handlers));
    let mut rewriter = HtmlRewriter::new(settings, |_: &[u8]| {});
    match rewriter.write(html.as_bytes()) {
        Ok(()) => drop(rewriter.end()),
        Err(_) => drop(rewriter),
    }
    values
}

/// Relies on lol_html's `HtmlRewriter` with an element handler on `[class]`
/// and `Element::set_attribute`: one streaming pass that sets the class
/// attributes it meets to `values`, in order, and passes every other byte
/// through; a failed attribute write leaves that element as it was.
/// `HtmlRewriter::end` is called only after a successful `write`, since
/// after a failed one it panics; a failed pass keeps what it wrote out
/// before the failure.
#[verifier::external_body]
fn stream_replace_class_values(html: &str, values: Vec<String>) -> (r: String)
    ensures
        r@ == streamed_with_class_values(html@, texts(values@)),
{
    let mut queue = ClassValueQueue::new(values);
    let mut output: Vec<u8> = Vec::new();
    let handlers = ElementContentHandlers::default().element(|el: &mut Element<'_, '_>| -> HandlerResult {
        let _ = el.set_attribute("class", queue.next_value(el.get_attribute("class").unwrap_or_default()).as_str());
        Ok(())
    });
    let settings = Settings::new().append_element_content_handler((Cow::Owned("[class]".parse().unwrap()), handlers));
    let mut rewriter = HtmlRewriter::new(settings, |c: &[u8]| output.extend_from_slice(c));
    match rewriter.write(html.as_bytes()) {
        Ok(()) => drop(rewriter.end()),
        Err(_) => drop(rewriter),
    }
    String::from_utf8_lossy(&output).into_owned()
}

/// Tokens joined with single spaces.
pub open spec fn join_tokens(tokens: Seq<Seq<char>>) -> Seq<char>
    decreases tokens.len(),
{
    if tokens.len() == 0 {
        Seq::empty()
    } else if tokens.len() == 1 {
        tokens[0]
    } else {
        join_tokens(tokens.drop_last()) + seq![' '] + tokens.last()
    }
}

/// Class attribute values through the classifier, in order and with one
/// state: each value's tokens compressed and joined with single spaces.
pub open spec fn compress_values(st: StateModel, prefix: Seq<char>, values: Seq<Seq<char>>) -> (
    Seq<Seq<char>>,
    StateModel,
)
    decreases values.len(),
{
    if values.len() == 0 {
        (Seq::empty(), st)
    } else {
        let (done, mid) = compress_values(st, prefix, values.drop_last());
        let (tokens, after) = classify_all(mid, prefix, class_tokens(values.last()));
        (done.push(join_tokens(tokens)), after)
    }
}

/// Tokens joined with single spaces.
pub fn join_with_spaces(tokens: &Vec<String>) -> (r: String)
    ensures
        r@ == join_tokens(texts(tokens@)),
{
    let mut out = String::new();
    let mut i: usize = 0;
    proof {
        reveal_strlit(" ");
    }
    while i < tokens.len()
        invariant
            i <= tokens.len(),
            out@ == join_tokens(texts(tokens@).take(i as int)),
        decreases tokens.len() - i,
    {
        proof {
            assert(texts(tokens@).take(i + 1).drop_last() =~= texts(tokens@).take(i as int));
            assert(texts(tokens@).take(i + 1).last() == tokens@[i as int]@);
        }
        if i == 0 {
            out = tokens[i].clone();
            proof {
                assert(texts(tokens@).take(1)[0] == tokens@[0]@);
            }
        } else {
            proof {
                reveal_strlit(" ");
            }
            out = out.concat(" ").concat(tokens[i].as_str());
        }
        i = i + 1;
    }
    proof {
        assert(texts(tokens@).take(tokens.len() as int) =~= texts(tokens@));
    }
    out
}

/// The counter moves on by at most two for each token classified.
pub proof fn lemma_classify_all_counter(st: StateModel, prefix: Seq<char>, tokens: Seq<Seq<char>>)
    ensures
        st.counter <= classify_all(st, prefix, tokens).1.counter <= st.counter + 2 * tokens.len(),
    decreases tokens.len(),
{
    if tokens.len() > 0 {
        lemma_classify_all_counter(st, prefix, tokens.drop_last());
        let mid = classify_all(st, prefix, tokens.drop_last()).1;
        lemma_mint_never_reserved(mid.counter, prefix);
    }
}

proof fn lemma_count_prefix(values: Seq<Seq<char>>, i: int)
    requires
        0 <= i <= values.len(),
    ensures
        all_class_tokens(values.take(i)).len() <= all_class_tokens(values).len(),
    decreases values.len(),
{
    if i < values.len() {
        lemma_count_prefix(values.drop_last(), i);
        assert(values.drop_last().take(i) =~= values.take(i));
    } else {
        assert(values.take(i) =~= values);
    }
}

/// Compresses the class attributes of a document in one streaming pass,
/// every token through one state. Gives nothing, and leaves the state as it
/// was, where the counter could run out before the document's tokens do.
pub fn compress_css_classes_html(html: &str, state: &mut CompressionState, prefix: &str) -> (r: Option<String>)
    ensures
        r is None <==> old(state).counter + 2 * all_class_tokens(streamed_class_values(html@)).len() > u64::MAX,
        r is None ==> *final(state) == *old(state),
        r is Some ==> ({
            let (values, after) = compress_values(old(state).model(), prefix@, streamed_class_values(html@));
            &&& r->0@ == streamed_with_class_values(html@, values)
            &&& final(state).model() == after
        }),
{
    let values = stream_class_values(html);
    let all = split_class_values(&values);
    let budget: u64 = (u64::MAX - state.counter) / 2;
    if all.len() as u128 > budget as u128 {
        return None;
    }
    let ghost start = state.model();
    let ghost vals = texts(values@);
    let mut out: Vec<String> = Vec::new();
    let mut i: usize = 0;
    while i < values.len()
        invariant
            i <= values.len(),
            vals == texts(values@),
            vals == streamed_class_values(html@),
            start.counter + 2 * all_class_tokens(vals).len() <= u64::MAX,
            state.counter <= start.counter + 2 * all_class_tokens(vals.take(i as int)).len(),
            (texts(out@), state.model()) == compress_values(start, prefix@, vals.take(i as int)),
        decreases values.len() - i,
    {
        proof {
            assert(vals.take(i + 1).drop_last() =~= vals.take(i as int));
            assert(vals.take(i + 1).last() == values@[i as int]@);
            lemma_count_prefix(vals, i + 1);
        }
        let tokens = split_class_value(values[i].as_str());
        let ghost mid = state.model();
        proof {
            lemma_classify_all_counter(mid, prefix@, texts(tokens@));
        }
        let compressed = compress_css_classes(&tokens, state, prefix);
        let joined = join_with_spaces(&compressed);
        let ghost out_before = out@;
        out.push(joined);
        proof {
            assert(texts(out@) =~= texts(out_before).push(joined@));
        }
        i = i + 1;
    }
    proof {
        assert(vals.take(values.len() as int) =~= vals);
    }
    Some(stream_replace_class_values(html, out))
}

/// A document with a single class attribute is rewritten to what batch
/// compression of that attribute's tokens gives, joined with spaces, and
/// leaves the state as batch compression does.
pub proof fn lemma_single_value_matches_batch(st: StateModel, prefix: Seq<char>, value: Seq<char>)
    ensures
        ({
            let (tokens, after) = classify_all(st, prefix, class_tokens(value));
            compress_values(st, prefix, seq![value]) == (seq![join_tokens(tokens)], after)
        }),
{
    assert(seq![value].drop_last() =~= Seq::<Seq<char>>::empty());
    assert(seq![value].last() == value);
    assert(compress_values(st, prefix, Seq::empty()) == (Seq::<Seq<char>>::empty(), st));
    assert(Seq::<Seq<char>>::empty().push(join_tokens(classify_all(st, prefix, class_tokens(value)).0))
        =~= seq![join_tokens(classify_all(st, prefix, class_tokens(value)).0)]);
}

/// A document whose only class attribute holds `value` is rewritten with
/// that attribute set to the batch compression of the value's tokens,
/// joined with spaces, and leaves the state that batch compression leaves.
pub proof fn lemma_single_class_document(html: Seq<char>, st: StateModel, prefix: Seq<char>, value: Seq<char>)
    requires
        streamed_class_values(html) == seq![value],
    ensures
        ({
            let (tokens, after) = classify_all(st, prefix, class_tokens(value));
            let (values, end) = compress_values(st, prefix, streamed_class_values(html));
            &&& streamed_with_class_values(html, values) == streamed_with_class_values(html, seq![join_tokens(tokens)])
            &&& end == after
        }),
{
    lemma_single_value_matches_batch(st, prefix, value);
}

/// Rewriting documents keeps the records consistent, as batch compression
/// does: every newly recorded token gets a counter value past the counter
/// the pass started from, and earlier tokens keep theirs.
pub proof fn lemma_compress_values_keeps_names(
    st: StateModel,
    prefix: Seq<char>,
    values: Seq<Seq<char>>,
    ids: Map<Seq<char>, nat>,
) -> (next: Map<Seq<char>, nat>)
    requires
        names_consistent(st, prefix, ids),
    ensures
        names_consistent(compress_values(st, prefix, values).1, prefix, next),
        forall|k: Seq<char>| #[trigger] ids.contains_key(k) ==> next.contains_key(k) && next[k] == ids[k],
        forall|k: Seq<char>| #[trigger] next.contains_key(k) && !ids.contains_key(k) ==> st.counter < next[k]
            <= compress_values(st, prefix, values).1.counter,
        st.counter <= compress_values(st, prefix, values).1.counter,
    decreases values.len(),
{
    if values.len() == 0 {
        ids
    } else {
        let mid_ids = lemma_compress_values_keeps_names(st, prefix, values.drop_last(), ids);
        let mid = compress_values(st, prefix, values.drop_last()).1;
        let next = lemma_classify_all_keeps_names(mid, prefix, class_tokens(values.last()), mid_ids);
        assert forall|k: Seq<char>| #[trigger] next.contains_key(k) && !ids.contains_key(k) implies st.counter < next[k]
            <= compress_values(st, prefix, values).1.counter by {
            if mid_ids.contains_key(k) {
                assert(next[k] == mid_ids[k]);
            }
        }
        assert forall|k: Seq<char>| #[trigger] ids.contains_key(k) implies next.contains_key(k) && next[k] == ids[k] by {
            assert(mid_ids.contains_key(k));
        }
        next
    }
}

} // verus!

//! The substitution state and the classification of class tokens.
use vstd::prelude::*;
use crate::ident::{mint, generate_css_class, lemma_mint_never_reserved, reserved};

verus! {

/// Pairs of texts read as a table: a later pair for a key replaces an
/// earlier one.
pub open spec fn table_of(pairs: Seq<(String, String)>) -> Map<Seq<char>, Seq<char>>
    decreases pairs.len(),
{
    if pairs.len() == 0 {
        Map::empty()
    } else {
        table_of(pairs.drop_last()).insert(pairs.last().0@, pairs.last().1@)
    }
}

/// The texts of a list, as a set.
pub open spec fn text_set(items: Seq<String>) -> Set<Seq<char>> {
    Set::new(|t: Seq<char>| exists|i: int| 0 <= i < items.len() && #[trigger] items[i]@ == t)
}

/// What a compression state stands for.
pub ghost struct StateModel {
    /// Tokens as written to the tokens they compress to.
    pub mapping: Map<Seq<char>, Seq<char>>,
    /// The last number an identifier was minted from.
    pub counter: nat,
    /// Tokens that pass through unchanged.
    pub safelist: Set<Seq<char>>,
    /// Layer names to the names that replace them.
    pub layers: Map<Seq<char>, Seq<char>>,
}

/// The state that is threaded through every compression call. The caller
/// owns it and keeps it between calls.
pub struct CompressionState {
    /// Token as written and the token it compresses to; a later pair for a
    /// token replaces an earlier one.
    pub mapping: Vec<(String, String)>,
    /// The last number an identifier was minted from.
    pub counter: u64,
    /// Tokens that pass through unchanged.
    pub safelist: Vec<String>,
    /// Layer name and the name that replaces it; a later pair replaces an
    /// earlier one.
    pub layers: Vec<(String, String)>,
}

impl CompressionState {
    pub open spec fn model(&self) -> StateModel {
        StateModel {
            mapping: table_of(self.mapping@),
            counter: self.counter as nat,
            safelist: text_set(self.safelist@),
            layers: table_of(self.layers@),
        }
    }

    /// A state with the given contents.
    pub fn new(
        mapping: Vec<(String, String)>,
        counter: u64,
        safelist: Vec<String>,
        layers: Vec<(String, String)>,
    ) -> (r: Self)
        ensures
            r.mapping@ == mapping@,
            r.counter == counter,
            r.safelist@ == safelist@,
            r.layers@ == layers@,
    {
        CompressionState { mapping, counter, safelist, layers }
    }
}

/// Index of the first `@` in a token, or its length where it has none.
pub open spec fn layer_end(token: Seq<char>) -> nat
    decreases token.len(),
{
    if token.len() == 0 {
        0
    } else if token[0] == '@' {
        0
    } else {
        1 + layer_end(token.drop_first())
    }
}

/// What a fresh token compresses to, given its minted identifier: the
/// identifier, behind the token's layer (renamed where the table says so)
/// and an `@` where the token has a layer.
pub open spec fn compressed_value(
    token: Seq<char>,
    layers: Map<Seq<char>, Seq<char>>,
    name: Seq<char>,
) -> Seq<char> {
    let end = layer_end(token);
    if end < token.len() {
        let layer = token.subrange(0, end as int);
        let renamed = if layers.contains_key(layer) {
            layers[layer]
        } else {
            layer
        };
        renamed + seq!['@'] + name
    } else {
        name
    }
}

/// One token through the classifier: the token it becomes and the state
/// after it.
pub open spec fn classify(st: StateModel, prefix: Seq<char>, token: Seq<char>) -> (
    Seq<char>,
    StateModel,
) {
    if st.safelist.contains(token) {
        (token, StateModel { mapping: st.mapping.insert(token, token), ..st })
    } else if st.mapping.contains_key(token) {
        (st.mapping[token], st)
    } else {
        let (name, counter) = mint(st.counter, prefix);
        let value = compressed_value(token, st.layers, name);
        (value, StateModel { mapping: st.mapping.insert(token, value), counter, ..st })
    }
}

/// Tokens through the classifier in order, one state threaded through them.
pub open spec fn classify_all(st: StateModel, prefix: Seq<char>, tokens: Seq<Seq<char>>) -> (
    Seq<Seq<char>>,
    StateModel,
)
    decreases tokens.len(),
{
    if tokens.len() == 0 {
        (Seq::empty(), st)
    } else {
        let (done, mid) = classify_all(st, prefix, tokens.drop_last());
        let (value, after) = classify(mid, prefix, tokens.last());
        (done.push(value), after)
    }
}

/// The texts of a list.
pub open spec fn texts(items: Seq<String>) -> Seq<Seq<char>> {
    items.map_values(|s: String| s@)
}

proof fn lemma_table_lookup(pairs: Seq<(String, String)>, i: int, key: Seq<char>)
    requires
        0 <= i <= pairs.len(),
        forall|j: int| i <= j < pairs.len() ==> #[trigger] pairs[j].0@ != key,
    ensures
        table_of(pairs).contains_key(key) == table_of(pairs.subrange(0, i)).contains_key(key),
        table_of(pairs)[key] == table_of(pairs.subrange(0, i))[key],
    decreases pairs.len() - i,
{
    if i < pairs.len() {
        let shorter = pairs.drop_last();
        lemma_table_lookup(shorter, i, key);
        assert(shorter.subrange(0, i) =~= pairs.subrange(0, i));
    } else {
        assert(pairs.subrange(0, i) =~= pairs);
    }
}

/// Looks a key up in a table of pairs; the last pair for the key decides.
pub fn table_get(pairs: &Vec<(String, String)>, key: &String) -> (r: Option<String>)
    ensures
        r is Some <==> table_of(pairs@).contains_key(key@),
        r is Some ==> r->0@ == table_of(pairs@)[key@],
{
    let mut i: usize = pairs.len();
    while i > 0
        invariant
            i <= pairs.len(),
            forall|j: int| i <= j < pairs.len() ==> #[trigger] pairs@[j].0@ != key@,
        decreases i,
    {
        if pairs[i - 1].0 == *key {
            proof {
                lemma_table_lookup(pairs@, i as int, key@);
                assert(pairs@.subrange(0, i as int).drop_last() =~= pairs@.subrange(0, i - 1));
            }
            return Some(pairs[i - 1].1.clone());
        }
        i = i - 1;
    }
    proof {
        lemma_table_lookup(pairs@, 0, key@);
        assert(pairs@.subrange(0, 0) =~= Seq::<(String, String)>::empty());
    }
    None
}

/// Whether a list holds a text.
pub fn list_contains(items: &Vec<String>, key: &String) -> (r: bool)
    ensures
        r == text_set(items@).contains(key@),
{
    let mut i: usize = 0;
    while i < items.len()
        invariant
            i <= items.len(),
            forall|j: int| 0 <= j < i ==> #[trigger] items@[j]@ != key@,
        decreases items.len() - i,
    {
        if items[i] == *key {
            return true;
        }
        i = i + 1;
    }
    false
}

/// Index of the first `@` in a token, or its length where it has none.
pub fn find_layer_end(token: &str) -> (r: usize)
    ensures
        r == layer_end(token@),
{
    let n = token.unicode_len();
    let mut i: usize = 0;
    while i < n && token.get_char(i) != '@'
        invariant
            n == token@.len(),
            i <= n,
            forall|j: int| 0 <= j < i ==> #[trigger] token@[j] != '@',
        decreases n - i,
    {
        i = i + 1;
    }
    proof {
        lemma_layer_end(token@, i as int);
    }
    i
}

proof fn lemma_layer_end(s: Seq<char>, k: int)
    requires
        0 <= k <= s.len(),
        forall|j: int| 0 <= j < k ==> #[trigger] s[j] != '@',
        k == s.len() || s[k] == '@',
    ensures
        layer_end(s) == k,
    decreases s.len(),
{
    if k > 0 {
        let rest = s.drop_first();
        assert forall|j: int| 0 <= j < k - 1 implies #[trigger] rest[j] != '@' by {
            assert(rest[j] == s[j + 1]);
        }
        lemma_layer_end(rest, k - 1);
    }
}

/// Runs one token through the classifier: safelisted tokens stay as they
/// are, known tokens take their recorded value, and a fresh token gets a
/// newly minted identifier, behind its (possibly renamed) layer.
pub fn compress_token(state: &mut CompressionState, token: &String, prefix: &str) -> (r: String)
    requires
        old(state).counter + 2 <= u64::MAX,
    ensures
        (r@, final(state).model()) == classify(old(state).model(), prefix@, token@),
{
    let ghost pairs = state.mapping@;
    if list_contains(&state.safelist, token) {
        let recorded_as_itself = match table_get(&state.mapping, token) {
            Some(v) => v == *token,
            None => false,
        };
        if recorded_as_itself {
            proof {
                assert(table_of(pairs).insert(token@, token@) =~= table_of(pairs));
            }
        } else {
            state.mapping.push((token.clone(), token.clone()));
            proof {
                assert(state.mapping@.drop_last() =~= pairs);
            }
        }
        return token.clone();
    }
    if let Some(found) = table_get(&state.mapping, token) {
        return found;
    }
    let name = generate_css_class(&mut state.counter, prefix);
    let end = find_layer_end(token.as_str());
    let len = token.as_str().unicode_len();
    let value = if end < len {
        let layer = String::from_str(token.as_str().substring_char(0, end));
        let renamed = match table_get(&state.layers, &layer) {
            Some(l) => l,
            None => layer,
        };
        let with_at = renamed.concat("@");
        proof {
            reveal_strlit("@");
            assert(layer@ == token@.subrange(0, end as int));
            assert(with_at@ =~= renamed@ + seq!['@']);
        }
        with_at.concat(name.as_str())
    } else {
        name
    };
    assert(value@ == compressed_value(token@, table_of(state.layers@), name@));
    state.mapping.push((token.clone(), value.clone()));
    proof {
        assert(state.mapping@.drop_last() =~= pairs);
        if end < len {
            reveal_strlit("@");
        }
    }
    value
}

/// Compresses a list of tokens in order, with one state for all of them.
pub fn compress_css_classes(
    tokens: &Vec<String>,
    state: &mut CompressionState,
    prefix: &str,
) -> (r: Vec<String>)
    requires
        old(state).counter + 2 * tokens.len() <= u64::MAX,
    ensures
        (texts(r@), final(state).model()) == classify_all(old(state).model(), prefix@, texts(tokens@)),
{
    let mut out: Vec<String> = Vec::new();
    let mut i: usize = 0;
    while i < tokens.len()
        invariant
            i <= tokens.len(),
            state.counter + 2 * (tokens.len() - i) <= u64::MAX,
            (texts(out@), state.model()) == classify_all(old(state).model(), prefix@, texts(tokens@).take(i as int)),
        decreases tokens.len() - i,
    {
        let ghost before = state.model();
        let value = compress_token(state, &tokens[i], prefix);
        proof {
            lemma_mint_never_reserved(before.counter, prefix@);
            assert(texts(tokens@).take(i + 1).drop_last() =~= texts(tokens@).take(i as int));
            assert(texts(tokens@).take(i + 1).last() == tokens@[i as int]@);
        }
        let ghost out_before = out@;
        out.push(value);
        proof {
            assert(texts(out@) =~= texts(out_before).push(value@));
        }
        i = i + 1;
    }
    proof {
        assert(texts(tokens@).take(tokens.len() as int) =~= texts(tokens@));
    }
    out
}

} // verus!

//! Laws that hold of compression across tokens and calls.
use vstd::prelude::*;
use crate::compress::{classify, classify_all, compressed_value, layer_end, StateModel};
use crate::ident::{alphabet, encode, lemma_encode_bijective, lemma_mint_never_reserved, mint};

verus! {

/// Every token of `tokens` is recorded in the state, a safelisted one as
/// itself.
pub open spec fn settled(st: StateModel, tokens: Seq<Seq<char>>) -> bool {
    forall|i: int|
        0 <= i < tokens.len() ==> {
            &&& st.mapping.contains_key(#[trigger] tokens[i])
            &&& st.safelist.contains(tokens[i]) ==> st.mapping[tokens[i]] == tokens[i]
        }
}

/// Each token's recorded value.
pub open spec fn recorded(st: StateModel, tokens: Seq<Seq<char>>) -> Seq<Seq<char>> {
    tokens.map_values(|t: Seq<char>| st.mapping[t])
}

/// Tokens that are all settled pass through as their recorded values, and
/// the state stays as it is.
pub proof fn lemma_settled_pass(st: StateModel, prefix: Seq<char>, tokens: Seq<Seq<char>>)
    requires
        settled(st, tokens),
    ensures
        classify_all(st, prefix, tokens) == (recorded(st, tokens), st),
    decreases tokens.len(),
{
    if tokens.len() > 0 {
        let shorter = tokens.drop_last();
        assert forall|i: int| 0 <= i < shorter.len() implies {
            &&& st.mapping.contains_key(#[trigger] shorter[i])
            &&& st.safelist.contains(shorter[i]) ==> st.mapping[shorter[i]] == shorter[i]
        } by {
            assert(shorter[i] == tokens[i]);
        }
        lemma_settled_pass(st, prefix, shorter);
        let last = tokens.last();
        assert(tokens[tokens.len() - 1] == last);
        if st.safelist.contains(last) {
            assert(st.mapping.insert(last, last) =~= st.mapping);
        }
        assert(recorded(st, tokens) =~= recorded(st, shorter).push(st.mapping[last]));
    }
}

/// After one pass every token is settled, and the output is what the state
/// records for each token.
pub proof fn lemma_pass_settles(st: StateModel, prefix: Seq<char>, tokens: Seq<Seq<char>>)
    ensures
        settled(classify_all(st, prefix, tokens).1, tokens),
        classify_all(st, prefix, tokens).0 == recorded(classify_all(st, prefix, tokens).1, tokens),
        classify_all(st, prefix, tokens).1.safelist == st.safelist,
    decreases tokens.len(),
{
    if tokens.len() > 0 {
        let shorter = tokens.drop_last();
        lemma_pass_settles(st, prefix, shorter);
        let mid = classify_all(st, prefix, shorter).1;
        let last = tokens.last();
        let after = classify(mid, prefix, last).1;
        let out = classify_all(st, prefix, tokens).0;
        assert forall|i: int| 0 <= i < tokens.len() implies {
            &&& after.mapping.contains_key(#[trigger] tokens[i])
            &&& after.safelist.contains(tokens[i]) ==> after.mapping[tokens[i]] == tokens[i]
        } by {
            if i < tokens.len() - 1 {
                assert(tokens[i] == shorter[i]);
            }
        }
        assert forall|i: int| 0 <= i < tokens.len() implies #[trigger] out[i] == after.mapping[tokens[i]] by {
            if i < tokens.len() - 1 {
                assert(tokens[i] == shorter[i]);
                assert(out[i] == classify_all(st, prefix, shorter).0[i]);
            }
        }
        assert(out =~= recorded(after, tokens));
    }
}

/// Compressing the same tokens a second time with the state that the first
/// pass left gives the same output and leaves the state unchanged.
pub proof fn lemma_compress_idempotent(st: StateModel, prefix: Seq<char>, tokens: Seq<Seq<char>>)
    ensures
        classify_all(classify_all(st, prefix, tokens).1, prefix, tokens) == classify_all(st, prefix, tokens),
{
    lemma_pass_settles(st, prefix, tokens);
    lemma_settled_pass(classify_all(st, prefix, tokens).1, prefix, tokens);
}

/// Equal states, tokens and prefixes give equal output and equal states.
pub proof fn lemma_compress_deterministic(
    a: StateModel,
    b: StateModel,
    prefix: Seq<char>,
    tokens: Seq<Seq<char>>,
)
    requires
        a == b,
    ensures
        classify_all(a, prefix, tokens) == classify_all(b, prefix, tokens),
{
}

/// A safelisted token comes out unchanged and is recorded as itself,
/// whatever the state held for it before.
pub proof fn lemma_safelist_precedence(st: StateModel, prefix: Seq<char>, token: Seq<char>)
    requires
        st.safelist.contains(token),
    ensures
        classify(st, prefix, token).0 == token,
        classify(st, prefix, token).1.mapping[token] == token,
        classify(st, prefix, token).1.counter == st.counter,
{
}

/// The output has one token for each input token, in input order: the
/// token at each place is what that input token gives in the state that
/// the tokens before it left.
pub proof fn lemma_compress_keeps_order(st: StateModel, prefix: Seq<char>, tokens: Seq<Seq<char>>)
    ensures
        classify_all(st, prefix, tokens).0.len() == tokens.len(),
        forall|i: int|
            0 <= i < tokens.len() ==> #[trigger] classify_all(st, prefix, tokens).0[i] == classify(
                classify_all(st, prefix, tokens.take(i)).1,
                prefix,
                tokens[i],
            ).0,
    decreases tokens.len(),
{
    if tokens.len() > 0 {
        let shorter = tokens.drop_last();
        lemma_compress_keeps_order(st, prefix, shorter);
        assert forall|i: int| 0 <= i < tokens.len() implies #[trigger] classify_all(st, prefix, tokens).0[i]
            == classify(classify_all(st, prefix, tokens.take(i)).1, prefix, tokens[i]).0 by {
            if i < tokens.len() - 1 {
                assert(shorter.take(i) =~= tokens.take(i));
                assert(shorter[i] == tokens[i]);
            } else {
                assert(tokens.take(i) =~= shorter);
            }
        }
    }
}

/// A name minted once the counter has passed an earlier minting differs
/// from the earlier name: no minted identifier is handed out twice.
pub proof fn lemma_minted_names_distinct(earlier: nat, later: nat, prefix: Seq<char>)
    requires
        mint(earlier, prefix).1 <= later,
    ensures
        mint(earlier, prefix).0 != mint(later, prefix).0,
{
    lemma_mint_never_reserved(earlier, prefix);
    lemma_mint_never_reserved(later, prefix);
    let n = mint(earlier, prefix).1;
    let m = mint(later, prefix).1;
    lemma_encode_bijective(n, m);
    let a = prefix + encode(n);
    let b = prefix + encode(m);
    if a == b {
        assert(encode(n) =~= a.subrange(prefix.len() as int, a.len() as int));
        assert(encode(m) =~= b.subrange(prefix.len() as int, b.len() as int));
    }
}

/// The counter never goes back, and a token that is recorded and not
/// safelisted keeps its value.
pub proof fn lemma_records_stable(st: StateModel, prefix: Seq<char>, tokens: Seq<Seq<char>>, key: Seq<char>)
    requires
        st.mapping.contains_key(key),
        !st.safelist.contains(key),
    ensures
        classify_all(st, prefix, tokens).1.counter >= st.counter,
        classify_all(st, prefix, tokens).1.mapping.contains_key(key),
        classify_all(st, prefix, tokens).1.mapping[key] == st.mapping[key],
    decreases tokens.len(),
{
    if tokens.len() > 0 {
        lemma_records_stable(st, prefix, tokens.drop_last(), key);
        lemma_pass_settles(st, prefix, tokens.drop_last());
        let mid = classify_all(st, prefix, tokens.drop_last()).1;
        lemma_mint_never_reserved(mid.counter, prefix);
    }
}

/// Whether a text holds no `@`.
pub open spec fn no_at(s: Seq<char>) -> bool {
    forall|i: int| 0 <= i < s.len() ==> #[trigger] s[i] != '@'
}

/// `ids` gives, for every recorded token that is not safelisted, the
/// counter value its name was minted from: each such value is at most the
/// counter, the token's record is the name minted from it, and no two
/// tokens share one.
pub open spec fn names_consistent(st: StateModel, prefix: Seq<char>, ids: Map<Seq<char>, nat>) -> bool {
    &&& forall|k: Seq<char>| #[trigger] ids.contains_key(k) ==> {
        &&& st.mapping.contains_key(k)
        &&& !st.safelist.contains(k)
        &&& 1 <= ids[k] <= st.counter
        &&& st.mapping[k] == compressed_value(k, st.layers, prefix + encode(ids[k]))
    }
    &&& forall|k: Seq<char>| st.mapping.contains_key(k) && !st.safelist.contains(k) ==> #[trigger] ids.contains_key(k)
    &&& forall|a: Seq<char>, b: Seq<char>|
        ids.contains_key(a) && ids.contains_key(b) && a != b ==> #[trigger] ids[a] != #[trigger] ids[b]
}

/// A state with nothing recorded is consistent with no minted names.
pub proof fn lemma_fresh_state_consistent(st: StateModel, prefix: Seq<char>)
    requires
        st.mapping == Map::<Seq<char>, Seq<char>>::empty(),
    ensures
        names_consistent(st, prefix, Map::empty()),
{
}

/// One token keeps the records consistent: a fresh token gets a counter
/// value past every earlier one, and no other token's value changes.
pub proof fn lemma_classify_keeps_names(
    st: StateModel,
    prefix: Seq<char>,
    token: Seq<char>,
    ids: Map<Seq<char>, nat>,
) -> (next: Map<Seq<char>, nat>)
    requires
        names_consistent(st, prefix, ids),
    ensures
        names_consistent(classify(st, prefix, token).1, prefix, next),
        forall|k: Seq<char>| #[trigger] ids.contains_key(k) ==> next.contains_key(k) && next[k] == ids[k],
        forall|k: Seq<char>| #[trigger] next.contains_key(k) && !ids.contains_key(k) ==> st.counter < next[k]
            <= classify(st, prefix, token).1.counter,
        st.counter <= classify(st, prefix, token).1.counter,
{
    lemma_mint_never_reserved(st.counter, prefix);
    if st.safelist.contains(token) {
        ids.remove(token)
    } else if st.mapping.contains_key(token) {
        ids
    } else {
        let n = mint(st.counter, prefix).1;
        let next = ids.insert(token, n);
        let after = classify(st, prefix, token).1;
        assert forall|a: Seq<char>, b: Seq<char>|
            next.contains_key(a) && next.contains_key(b) && a != b implies #[trigger] next[a] != #[trigger] next[b] by {
            if a != token && b != token {
                assert(ids[a] != ids[b]);
            }
        }
        assert forall|k: Seq<char>| #[trigger] next.contains_key(k) implies {
            &&& after.mapping.contains_key(k)
            &&& !after.safelist.contains(k)
            &&& 1 <= next[k] <= after.counter
            &&& after.mapping[k] == compressed_value(k, after.layers, prefix + encode(next[k]))
        } by {
            if k != token {
                assert(ids.contains_key(k));
            }
        }
        assert forall|k: Seq<char>| #[trigger] next.contains_key(k) implies !after.safelist.contains(k) by {
            if k != token {
                assert(ids.contains_key(k));
            }
        }
        next
    }
}

/// A run of tokens keeps the records consistent, with every newly recorded
/// token's counter value past the counter the run started from.
pub proof fn lemma_classify_all_keeps_names(
    st: StateModel,
    prefix: Seq<char>,
    tokens: Seq<Seq<char>>,
    ids: Map<Seq<char>, nat>,
) -> (next: Map<Seq<char>, nat>)
    requires
        names_consistent(st, prefix, ids),
    ensures
        names_consistent(classify_all(st, prefix, tokens).1, prefix, next),
        forall|k: Seq<char>| #[trigger] ids.contains_key(k) ==> next.contains_key(k) && next[k] == ids[k],
        forall|k: Seq<char>| #[trigger] next.contains_key(k) && !ids.contains_key(k) ==> st.counter < next[k]
            <= classify_all(st, prefix, tokens).1.counter,
        st.counter <= classify_all(st, prefix, tokens).1.counter,
    decreases tokens.len(),
{
    if tokens.len() == 0 {
        ids
    } else {
        let mid_ids = lemma_classify_all_keeps_names(st, prefix, tokens.drop_last(), ids);
        let mid = classify_all(st, prefix, tokens.drop_last()).1;
        let next = lemma_classify_keeps_names(mid, prefix, tokens.last(), mid_ids);
        assert forall|k: Seq<char>| #[trigger] next.contains_key(k) && !ids.contains_key(k) implies st.counter < next[k]
            <= classify_all(st, prefix, tokens).1.counter by {
            if mid_ids.contains_key(k) {
                assert(next[k] == mid_ids[k]);
            }
        }
        assert forall|k: Seq<char>| #[trigger] ids.contains_key(k) implies next.contains_key(k) && next[k] == ids[k] by {
            assert(mid_ids.contains_key(k));
        }
        next
    }
}

proof fn lemma_alphabet_no_at(n: nat)
    ensures
        no_at(encode(n)),
    decreases n,
{
    if n > 0 {
        lemma_alphabet_no_at(((n - 1) / 26) as nat);
        let e = encode(n);
        assert forall|i: int| 0 <= i < e.len() implies #[trigger] e[i] != '@' by {
            if i < e.len() - 1 {
                assert(e[i] == encode(((n - 1) / 26) as nat)[i]);
            } else {
                assert(alphabet()[(n - 1) % 26] != '@');
            }
        }
    }
}

/// A value that is `name`, or ends in `@` and then `name`.
pub open spec fn ends_in_name(v: Seq<char>, name: Seq<char>) -> bool {
    &&& name.len() <= v.len()
    &&& v.subrange(v.len() - name.len(), v.len() as int) == name
    &&& v.len() == name.len() || v[v.len() - name.len() - 1] == '@'
}

proof fn lemma_value_ends_in_name(token: Seq<char>, layers: Map<Seq<char>, Seq<char>>, name: Seq<char>)
    ensures
        ends_in_name(compressed_value(token, layers, name), name),
{
    let v = compressed_value(token, layers, name);
    if layer_end(token) < token.len() {
        assert(v.subrange(v.len() - name.len(), v.len() as int) =~= name);
    } else {
        assert(v.subrange(0, v.len() as int) =~= name);
    }
}

proof fn lemma_name_suffix_unique(v: Seq<char>, a: Seq<char>, b: Seq<char>)
    requires
        ends_in_name(v, a),
        ends_in_name(v, b),
        no_at(a),
        no_at(b),
    ensures
        a == b,
{
    if a.len() < b.len() {
        let i = v.len() - a.len() - 1;
        assert(v[i] == b[i - (v.len() - b.len())]);
    } else if b.len() < a.len() {
        let i = v.len() - b.len() - 1;
        assert(v[i] == a[i - (v.len() - a.len())]);
    }
}

/// No collision: where the prefix holds no `@`, two distinct recorded
/// tokens that are not safelisted never share a compressed value.
pub proof fn lemma_no_collision(
    st: StateModel,
    prefix: Seq<char>,
    ids: Map<Seq<char>, nat>,
    a: Seq<char>,
    b: Seq<char>,
)
    requires
        names_consistent(st, prefix, ids),
        no_at(prefix),
        st.mapping.contains_key(a),
        st.mapping.contains_key(b),
        !st.safelist.contains(a),
        !st.safelist.contains(b),
        a != b,
    ensures
        st.mapping[a] != st.mapping[b],
{
    assert(ids.contains_key(a));
    assert(ids.contains_key(b));
    let na = prefix + encode(ids[a]);
    let nb = prefix + encode(ids[b]);
    lemma_value_ends_in_name(a, st.layers, na);
    lemma_value_ends_in_name(b, st.layers, nb);
    lemma_alphabet_no_at(ids[a]);
    lemma_alphabet_no_at(ids[b]);
    assert(no_at(na)) by {
        assert forall|i: int| 0 <= i < na.len() implies #[trigger] na[i] != '@' by {
            if i >= prefix.len() {
                assert(na[i] == encode(ids[a])[i - prefix.len()]);
            }
        }
    }
    assert(no_at(nb)) by {
        assert forall|i: int| 0 <= i < nb.len() implies #[trigger] nb[i] != '@' by {
            if i >= prefix.len() {
                assert(nb[i] == encode(ids[b])[i - prefix.len()]);
            }
        }
    }
    if st.mapping[a] == st.mapping[b] {
        lemma_name_suffix_unique(st.mapping[a], na, nb);
        assert(encode(ids[a]) =~= na.subrange(prefix.len() as int, na.len() as int));
        assert(encode(ids[b]) =~= nb.subrange(prefix.len() as int, nb.len() as int));
        lemma_encode_bijective(ids[a], ids[b]);
    }
}

} // verus!

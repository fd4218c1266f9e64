//! Short identifiers: a prefix followed by a bijective base-26 numeral.
use vstd::prelude::*;

verus! {

/// The letters of a numeral, least to greatest digit value.
pub open spec fn alphabet() -> Seq<char> {
    seq![
        'a', 'b', 'c', 'd', 'e', 'f', 'g', 'h', 'i', 'j', 'k', 'l', 'm',
        'n', 'o', 'p', 'q', 'r', 's', 't', 'u', 'v', 'w', 'x', 'y', 'z',
    ]
}

/// The value of a letter as a digit, `a` being 0.
pub open spec fn digit_of(c: char) -> int {
    c as int - 'a' as int
}

/// Bijective base-26 numeral of `n` (spreadsheet column names): 1 is "a",
/// 26 is "z", 27 is "aa". Zero has the empty numeral.
pub open spec fn encode(n: nat) -> Seq<char>
    decreases n,
{
    if n == 0 {
        Seq::empty()
    } else {
        encode(((n - 1) / 26) as nat).push(alphabet()[(n - 1) % 26])
    }
}

/// The number that a numeral stands for.
pub open spec fn decode(s: Seq<char>) -> int
    decreases s.len(),
{
    if s.len() == 0 {
        0
    } else {
        decode(s.drop_last()) * 26 + digit_of(s.last()) + 1
    }
}

/// The one identifier that is never handed out: ad blockers hide elements
/// that carry it.
pub open spec fn reserved() -> Seq<char> {
    seq!['a', 'd']
}

/// The identifier minted from a counter and the counter after it: the next
/// numeral after `counter`, or the one after that where the first would be
/// the reserved identifier.
pub open spec fn mint(counter: nat, prefix: Seq<char>) -> (Seq<char>, nat) {
    let first = prefix + encode(counter + 1);
    if first == reserved() {
        (prefix + encode(counter + 2), counter + 2)
    } else {
        (first, counter + 1)
    }
}

proof fn lemma_digits()
    ensures
        alphabet().len() == 26,
        forall|d: int| 0 <= d < 26 ==> #[trigger] digit_of(alphabet()[d]) == d,
{
    assert forall|d: int| 0 <= d < 26 implies #[trigger] digit_of(alphabet()[d]) == d by {
        assert(alphabet()[d] as int == 'a' as int + d);
    }
}

/// Decoding undoes encoding.
pub proof fn lemma_decode_encode(n: nat)
    ensures
        decode(encode(n)) == n,
    decreases n,
{
    if n > 0 {
        lemma_digits();
        let q = ((n - 1) / 26) as nat;
        lemma_decode_encode(q);
        assert(encode(n).drop_last() =~= encode(q));
    }
}

/// Whether every character of a text is a lowercase ASCII letter.
pub open spec fn is_numeral(s: Seq<char>) -> bool {
    forall|i: int| 0 <= i < s.len() ==> alphabet().contains(#[trigger] s[i])
}

/// Every numeral of lowercase letters is the encoding of the number it
/// stands for, so the numbering leaves no text out.
pub proof fn lemma_encode_decode(s: Seq<char>)
    requires
        is_numeral(s),
    ensures
        decode(s) >= 0,
        s.len() > 0 ==> decode(s) >= 1,
        encode(decode(s) as nat) == s,
    decreases s.len(),
{
    if s.len() > 0 {
        lemma_digits();
        let init = s.drop_last();
        assert forall|i: int| 0 <= i < init.len() implies alphabet().contains(#[trigger] init[i]) by {
            assert(init[i] == s[i]);
        }
        lemma_encode_decode(init);
        assert(alphabet().contains(s[s.len() - 1]));
        let j = choose|j: int| 0 <= j < alphabet().len() && alphabet()[j] == s.last();
        assert(digit_of(s.last()) == j);
        let n = decode(s);
        assert(n == decode(init) * 26 + j + 1);
        assert((n - 1) / 26 == decode(init));
        assert((n - 1) % 26 == j);
        assert(encode(n as nat) == encode(decode(init) as nat).push(alphabet()[j]));
        assert(s =~= init.push(s.last()));
    }
}

/// The numbering is a bijection: every number decodes back from its numeral,
/// and distinct numbers have distinct numerals.
pub proof fn lemma_encode_bijective(n: nat, m: nat)
    ensures
        decode(encode(n)) == n,
        n != m ==> encode(n) != encode(m),
{
    lemma_decode_encode(n);
    lemma_decode_encode(m);
}

/// Minting never yields the reserved identifier, and it always moves the
/// counter on by one or, past the reserved identifier, by two.
pub proof fn lemma_mint_never_reserved(counter: nat, prefix: Seq<char>)
    ensures
        mint(counter, prefix).0 != reserved(),
        mint(counter, prefix).1 == counter + 1 || mint(counter, prefix).1 == counter + 2,
        mint(counter, prefix).0 == prefix + encode(mint(counter, prefix).1),
{
    let first = prefix + encode(counter + 1);
    let second = prefix + encode(counter + 2);
    if first == reserved() {
        lemma_encode_bijective(counter + 1, counter + 2);
        if second == first {
            assert(encode(counter + 1) =~= first.subrange(prefix.len() as int, first.len() as int));
            assert(encode(counter + 2) =~= second.subrange(prefix.len() as int, second.len() as int));
        }
    }
}

proof fn lemma_step(i: u64)
    requires
        i >= 1,
    ensures
        ({
            let index = i % 26;
            let rest = i / 26;
            if index == 0 {
                rest - 1 == (i - 1) / 26 && 25 == (i - 1) % 26
            } else {
                rest == (i - 1) / 26 && index - 1 == (i - 1) % 26
            }
        }),
{
}

/// The numeral of `n`, built from the lowest digit up: a digit of zero
/// becomes `z` and borrows one from the next position.
pub fn encode_number(n: u64) -> (r: String)
    ensures
        r@ == encode(n as nat),
{
    let letters: &str = "abcdefghijklmnopqrstuvwxyz";
    proof {
        reveal_strlit("abcdefghijklmnopqrstuvwxyz");
        assert(letters@ =~= alphabet());
    }
    let mut i: u64 = n;
    let mut partial = String::new();
    while i >= 1
        invariant
            letters@ == alphabet(),
            encode(n as nat) == encode(i as nat) + partial@,
        decreases i,
    {
        let ghost before = i;
        let mut index: u64 = i % 26;
        i = i / 26;
        if index == 0 {
            index = 26;
            i = i - 1;
        }
        proof {
            lemma_step(before);
        }
        let letter = letters.substring_char((index - 1) as usize, index as usize);
        let ghost old_partial = partial@;
        partial = String::from_str(letter).concat(partial.as_str());
        proof {
            assert(letter@ =~= seq![alphabet()[(before - 1) % 26]]);
            assert(encode(before as nat) == encode(i as nat).push(alphabet()[(before - 1) % 26]));
            assert(partial@ =~= seq![alphabet()[(before - 1) % 26]] + old_partial);
            assert(encode(before as nat) + old_partial =~= encode(i as nat) + partial@);
        }
    }
    proof {
        assert(encode(n as nat) =~= partial@);
    }
    partial
}

/// Mints the next identifier: advances `counter`, and where the candidate is
/// the reserved identifier advances it once more.
pub fn generate_css_class(counter: &mut u64, prefix: &str) -> (name: String)
    requires
        *old(counter) + 2 <= u64::MAX,
    ensures
        (name@, *final(counter) as nat) == mint(*old(counter) as nat, prefix@),
{
    *counter = *counter + 1;
    let name = String::from_str(prefix).concat(encode_number(*counter).as_str());
    let reserved_name = String::from_str("ad");
    proof {
        reveal_strlit("ad");
        assert(reserved_name@ =~= reserved());
    }
    if name == reserved_name {
        *counter = *counter + 1;
        String::from_str(prefix).concat(encode_number(*counter).as_str())
    } else {
        name
    }
}

} // verus!

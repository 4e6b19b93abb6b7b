//! Signatures: the letters of a word in ascending order, so that two words
//! share a signature exactly when they are anagrams of each other.
use vstd::prelude::*;
use vstd::relations::{sorted_by, total_ordering};
use vstd::seq_lib::lemma_sorted_unique;

verus! {

broadcast use vstd::seq_lib::group_to_multiset_ensures;

/// The order on characters by code point.
pub open spec fn char_leq(a: char, b: char) -> bool {
    a <= b
}

/// The signature of a word: its characters in ascending order.
pub open spec fn signature_of(w: Seq<char>) -> Seq<char> {
    w.sort_by(|a: char, b: char| char_leq(a, b))
}

/// A sequence of characters in ascending order.
pub open spec fn is_sorted(s: Seq<char>) -> bool {
    forall|i: int, j: int| 0 <= i < j < s.len() ==> s[i] <= s[j]
}

proof fn lemma_char_leq_total()
    ensures
        total_ordering(|a: char, b: char| char_leq(a, b)),
{
}

/// The signature holds the same characters as the word, in ascending order,
/// and it is the only sequence that does.
pub proof fn lemma_signature_of_is_sorted_permutation(w: Seq<char>)
    ensures
        is_sorted(signature_of(w)),
        signature_of(w).to_multiset() == w.to_multiset(),
        signature_of(w).len() == w.len(),
        forall|s: Seq<char>|
            is_sorted(s) && s.to_multiset() == w.to_multiset() ==> s == signature_of(w),
{
    let leq = |a: char, b: char| char_leq(a, b);
    lemma_char_leq_total();
    w.lemma_sort_by_ensures(leq);
    assert(sorted_by(signature_of(w), leq));
    assert forall|i: int, j: int| 0 <= i < j < signature_of(w).len() implies signature_of(w)[i]
        <= signature_of(w)[j] by {
        assert(leq(signature_of(w)[i], signature_of(w)[j]));
    }
    assert forall|s: Seq<char>| is_sorted(s) && s.to_multiset() == w.to_multiset() implies s
        == signature_of(w) by {
        assert(sorted_by(s, leq));
        lemma_sorted_unique(s, signature_of(w), leq);
    }
    assert(signature_of(w).len() == signature_of(w).to_multiset().len());
}

/// Two words that hold the same characters, in any order, have the same
/// signature.
pub proof fn lemma_signature_invariant(w1: Seq<char>, w2: Seq<char>)
    requires
        w1.to_multiset() == w2.to_multiset(),
    ensures
        signature_of(w1) == signature_of(w2),
{
    lemma_signature_of_is_sorted_permutation(w1);
    lemma_signature_of_is_sorted_permutation(w2);
}

/// The characters of a string, in order.
pub fn chars_of(s: &str) -> (r: Vec<char>)
    ensures
        r@ == s@,
{
    let n = s.unicode_len();
    let mut r: Vec<char> = Vec::new();
    let mut i: usize = 0;
    while i < n
        invariant
            n == s@.len(),
            i <= n,
            r@ == s@.subrange(0, i as int),
        decreases n - i,
    {
        r.push(s.get_char(i));
        i += 1;
    }
    r
}

/// Relies on `String`'s `FromIterator<char>`: the string holds the characters
/// in the order given.
#[verifier::external_body]
pub(crate) fn string_from_chars(v: &Vec<char>) -> (r: String)
    ensures
        r@ == v@,
{
    v.iter().collect::<String>()
}

/// Sorts characters into ascending order by insertion.
pub fn sort_chars(v: &mut Vec<char>)
    ensures
        is_sorted(final(v)@),
        final(v)@.to_multiset() == old(v)@.to_multiset(),
{
    let n = v.len();
    let mut i: usize = 1;
    if n == 0 {
        return;
    }
    while i < n
        invariant
            1 <= i <= n,
            n == v.len(),
            forall|a: int, b: int| 0 <= a < b < i ==> v@[a] <= v@[b],
            v@.to_multiset() == old(v)@.to_multiset(),
        decreases n - i,
    {
        let mut j: usize = i;
        while j > 0 && v[j - 1] > v[j]
            invariant
                0 <= j <= i < n,
                n == v.len(),
                v@.to_multiset() == old(v)@.to_multiset(),
                forall|a: int, b: int| 0 <= a < b <= i && b != j ==> v@[a] <= v@[b],
            decreases j,
        {
            let x = v[j - 1];
            let y = v[j];
            proof {
                lemma_swap_keeps_multiset(v@, j as int - 1, j as int);
            }
            v.set(j - 1, y);
            v.set(j, x);
            j -= 1;
        }
        i += 1;
    }
}

proof fn lemma_swap_keeps_multiset(s: Seq<char>, a: int, b: int)
    requires
        0 <= a < b < s.len(),
    ensures
        s.update(a, s[b]).update(b, s[a]).to_multiset() == s.to_multiset(),
{
    let t = s.update(a, s[b]).update(b, s[a]);
    assert(t.remove(b).remove(a) =~= s.remove(b).remove(a));
    assert(t.remove(b).to_multiset() == t.to_multiset().remove(s[a]));
    assert(t.remove(b).remove(a).to_multiset() == t.remove(b).to_multiset().remove(s[b]));
    assert(s.remove(b).to_multiset() == s.to_multiset().remove(s[b]));
    assert(s.remove(b).remove(a).to_multiset() == s.remove(b).to_multiset().remove(s[a]));
    assert(t.to_multiset() =~= s.to_multiset());
}

/// The signature of a word: its characters in ascending order.
pub fn signature(word: &str) -> (r: String)
    ensures
        r@ == signature_of(word@),
{
    let mut v = chars_of(word);
    sort_chars(&mut v);
    proof {
        lemma_signature_of_is_sorted_permutation(word@);
    }
    string_from_chars(&v)
}

/// Lexicographic order on character sequences, a proper prefix first.
pub open spec fn lex_lt(a: Seq<char>, b: Seq<char>) -> bool
    decreases a.len(),
{
    if a.len() == 0 {
        b.len() > 0
    } else if b.len() == 0 {
        false
    } else if a[0] != b[0] {
        a[0] < b[0]
    } else {
        lex_lt(a.drop_first(), b.drop_first())
    }
}

pub proof fn lemma_lex_irreflexive(a: Seq<char>)
    ensures
        !lex_lt(a, a),
    decreases a.len(),
{
    if a.len() > 0 {
        lemma_lex_irreflexive(a.drop_first());
    }
}

pub proof fn lemma_lex_transitive(a: Seq<char>, b: Seq<char>, c: Seq<char>)
    requires
        lex_lt(a, b),
        lex_lt(b, c),
    ensures
        lex_lt(a, c),
    decreases a.len(),
{
    if a.len() > 0 && a[0] == b[0] && b[0] == c[0] {
        lemma_lex_transitive(a.drop_first(), b.drop_first(), c.drop_first());
    }
}

pub proof fn lemma_lex_total(a: Seq<char>, b: Seq<char>)
    requires
        a != b,
    ensures
        lex_lt(a, b) || lex_lt(b, a),
    decreases a.len(),
{
    if a.len() > 0 && b.len() > 0 && a[0] == b[0] {
        if a.drop_first() == b.drop_first() {
            assert(a =~= seq![a[0]] + a.drop_first());
            assert(b =~= seq![b[0]] + b.drop_first());
        }
        lemma_lex_total(a.drop_first(), b.drop_first());
    } else if a.len() == 0 && b.len() == 0 {
        assert(a =~= b);
    }
}

/// Whether `a` comes before `b` in lexicographic order.
pub(crate) fn lex_less(a: &Vec<char>, b: &Vec<char>) -> (r: bool)
    ensures
        r == lex_lt(a@, b@),
{
    let mut k: usize = 0;
    assert(a@.skip(0) =~= a@);
    assert(b@.skip(0) =~= b@);
    while k < a.len() && k < b.len() && a[k] == b[k]
        invariant
            k <= a.len(),
            k <= b.len(),
            lex_lt(a@, b@) == lex_lt(a@.skip(k as int), b@.skip(k as int)),
        decreases a.len() - k,
    {
        assert(a@.skip(k as int).drop_first() =~= a@.skip(k + 1));
        assert(b@.skip(k as int).drop_first() =~= b@.skip(k + 1));
        k += 1;
    }
    if k == a.len() {
        k < b.len()
    } else if k == b.len() {
        false
    } else {
        a[k] < b[k]
    }
}

} // verus!

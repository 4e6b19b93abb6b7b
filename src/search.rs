//! The search: every word of the index that can be spelled from some of the
//! given letters, keeping only the longest, ranked longest first and then
//! alphabetically.
use vstd::prelude::*;
use crate::candidates::{
    deletions, is_candidate, lemma_next_level, lemma_sub_multiset_len, lemma_top_level,
};
use crate::index::{is_grouping, same_chars, strings_of, strings_view, words_view, Index};
use crate::signature::{
    chars_of, is_sorted, lemma_lex_irreflexive, lemma_lex_total, lemma_lex_transitive,
    lemma_signature_of_is_sorted_permutation, lex_less, lex_lt, signature_of, sort_chars,
};

verus! {

broadcast use vstd::seq_lib::group_to_multiset_ensures, vstd::multiset::group_multiset_axioms;

/// `w` can be spelled from the letters `q`: no character occurs more often in
/// `w` than in `q`.
pub open spec fn fits(w: Seq<char>, q: Seq<char>) -> bool {
    w.to_multiset().subset_of(q.to_multiset())
}

/// `w` is one of the words of the index.
pub open spec fn in_index(m: Map<Seq<char>, Seq<Seq<char>>>, w: Seq<char>) -> bool {
    exists|k: Seq<char>| m.contains_key(k) && #[trigger] m[k].contains(w)
}

/// `w` is a word of the index that can be spelled from `q`.
pub open spec fn is_match(m: Map<Seq<char>, Seq<Seq<char>>>, q: Seq<char>, w: Seq<char>) -> bool {
    in_index(m, w) && fits(w, q)
}

/// `w` is a match, and no match is longer.
pub open spec fn is_longest_match(
    m: Map<Seq<char>, Seq<Seq<char>>>,
    q: Seq<char>,
    w: Seq<char>,
) -> bool {
    is_match(m, q, w) && forall|v: Seq<char>| #[trigger] is_match(m, q, v) ==> v.len() <= w.len()
}

/// `a` is ranked before `b`: it is longer, or as long and alphabetically first.
pub open spec fn ranks_before(a: Seq<char>, b: Seq<char>) -> bool {
    a.len() > b.len() || (a.len() == b.len() && lex_lt(a, b))
}

/// Every word is ranked before the words after it (so none is repeated).
pub open spec fn is_ranked(s: Seq<Seq<char>>) -> bool {
    forall|i: int, j: int| 0 <= i < j < s.len() ==> ranks_before(#[trigger] s[i], #[trigger] s[j])
}

/// What a search returns: nothing when no word of the index fits the letters;
/// otherwise every longest match, each once, in ranked order.
pub open spec fn is_search_result(
    m: Map<Seq<char>, Seq<Seq<char>>>,
    q: Seq<char>,
    r: Option<Seq<Seq<char>>>,
) -> bool {
    match r {
        None => forall|w: Seq<char>| !is_match(m, q, w),
        Some(s) => s.len() > 0 && is_ranked(s) && forall|w: Seq<char>|
            s.contains(w) <==> is_longest_match(m, q, w),
    }
}

/// Every word is alphabetically before the words after it.
pub open spec fn lex_sorted(s: Seq<Seq<char>>) -> bool {
    forall|i: int, j: int| 0 <= i < j < s.len() ==> lex_lt(#[trigger] s[i], #[trigger] s[j])
}

/// Puts `w` into its alphabetical place, unless it is already there.
pub(crate) fn insert_sorted(v: &mut Vec<Vec<char>>, w: Vec<char>)
    requires
        lex_sorted(words_view(old(v)@)),
    ensures
        lex_sorted(words_view(final(v)@)),
        forall|x: Seq<char>|
            #[trigger] words_view(final(v)@).contains(x) <==> (words_view(old(v)@).contains(x) || x
                == w@),
{
    let mut p: usize = 0;
    while p < v.len() && lex_less(&v[p], &w)
        invariant
            p <= v.len(),
            forall|j: int| 0 <= j < p ==> lex_lt(#[trigger] v@[j]@, w@),
        decreases v.len() - p,
    {
        p += 1;
    }
    if p < v.len() && same_chars(&v[p], &w) {
        assert(words_view(v@)[p as int] == w@);
        return;
    }
    let ghost before = words_view(v@);
    let ghost wv = w@;
    v.insert(p, w);
    proof {
        assert(words_view(v@) =~= before.insert(p as int, wv));
        let after = words_view(v@);
        assert forall|i: int, j: int| 0 <= i < j < after.len() implies lex_lt(
            #[trigger] after[i],
            #[trigger] after[j],
        ) by {
            if j == p {
                assert(lex_lt(v@[i]@, wv));
            } else if i == p {
                lemma_lex_total(before[p as int], wv);
                if j - 1 > p {
                    lemma_lex_transitive(wv, before[p as int], before[j - 1]);
                }
            } else if i > p {
                assert(lex_lt(before[i - 1], before[j - 1]));
            } else if j > p {
                assert(lex_lt(before[i], before[j - 1]));
            } else {
                assert(lex_lt(before[i], before[j]));
            }
        }
        assert forall|x: Seq<char>| after.contains(x) <==> (before.contains(x) || x == wv) by {
            if after.contains(x) {
                let i = choose|i: int| 0 <= i < after.len() && after[i] == x;
                if i < p {
                    assert(before[i] == x);
                } else if i > p {
                    assert(before[i - 1] == x);
                }
            }
            if before.contains(x) {
                let i = choose|i: int| 0 <= i < before.len() && before[i] == x;
                if i < p {
                    assert(after[i] == x);
                } else {
                    assert(after[i + 1] == x);
                }
            }
            if x == wv {
                assert(after[p as int] == x);
            }
        }
    }
}

/// A fresh copy of a list of characters.
pub(crate) fn copy_chars(v: &Vec<char>) -> (r: Vec<char>)
    ensures
        r@ == v@,
{
    let mut r: Vec<char> = Vec::new();
    let mut i: usize = 0;
    while i < v.len()
        invariant
            i <= v.len(),
            r@ == v@.subrange(0, i as int),
        decreases v.len() - i,
    {
        r.push(v[i]);
        i += 1;
    }
    assert(r@ =~= v@);
    r
}

/// Puts each of `ws` into its alphabetical place in `acc`, once.
pub(crate) fn insert_all(acc: Vec<Vec<char>>, ws: &Vec<Vec<char>>) -> (r: Vec<Vec<char>>)
    requires
        lex_sorted(words_view(acc@)),
    ensures
        lex_sorted(words_view(r@)),
        forall|x: Seq<char>|
            #[trigger] words_view(r@).contains(x) <==> (words_view(acc@).contains(x)
                || words_view(ws@).contains(x)),
{
    let ghost start = words_view(acc@);
    let mut found = acc;
    let mut k: usize = 0;
    while k < ws.len()
        invariant
            k <= ws.len(),
            lex_sorted(words_view(found@)),
            start == words_view(acc@),
            forall|x: Seq<char>|
                #[trigger] words_view(found@).contains(x) <==> (start.contains(x)
                    || words_view(ws@.subrange(0, k as int)).contains(x)),
        decreases ws.len() - k,
    {
        let w = copy_chars(&ws[k]);
        let ghost prev = words_view(found@);
        insert_sorted(&mut found, w);
        proof {
            let s1 = words_view(ws@.subrange(0, k as int));
            let s2 = words_view(ws@.subrange(0, k + 1));
            assert(s2 =~= s1.push(ws@[k as int]@));
            assert forall|x: Seq<char>| s2.contains(x) <==> (s1.contains(x) || x == ws@[k as int]@) by {
                if s2.contains(x) {
                    let i = choose|i: int| 0 <= i < s2.len() && s2[i] == x;
                    if i < k {
                        assert(s1[i] == x);
                    }
                }
                if s1.contains(x) {
                    let i = choose|i: int| 0 <= i < s1.len() && s1[i] == x;
                    assert(s2[i] == x);
                }
                if x == ws@[k as int]@ {
                    assert(s2[k as int] == x);
                }
            }
            assert forall|x: Seq<char>| words_view(found@).contains(x) <==> (start.contains(x)
                || s2.contains(x)) by {
                assert(words_view(found@).contains(x) <==> (prev.contains(x) || x == ws@[k as int]@));
                assert(prev.contains(x) <==> (start.contains(x) || s1.contains(x)));
            }
        }
        k += 1;
    }
    assert(ws@.subrange(0, ws.len() as int) =~= ws@);
    found
}

/// Facts about the words of a grouping: each sits under its own signature,
/// which is sorted and holds the same characters.
proof fn lemma_grouping_words(m: Map<Seq<char>, Seq<Seq<char>>>)
    requires
        is_grouping(m),
    ensures
        forall|k: Seq<char>| m.contains_key(k) ==> is_sorted(k),
        forall|k: Seq<char>, x: Seq<char>|
            m.contains_key(k) && #[trigger] m[k].contains(x) ==> signature_of(x) == k
                && x.to_multiset() == k.to_multiset() && x.len() == k.len(),
{
    assert forall|k: Seq<char>, x: Seq<char>| m.contains_key(k) && #[trigger] m[k].contains(
        x,
    ) implies signature_of(x) == k && x.to_multiset() == k.to_multiset() && x.len() == k.len() by {
        let j = choose|j: int| 0 <= j < m[k].len() && m[k][j] == x;
        assert(signature_of(m[k][j]) == k);
        lemma_signature_of_is_sorted_permutation(x);
    }
    assert forall|k: Seq<char>| m.contains_key(k) implies is_sorted(k) by {
        assert(m[k].contains(m[k][0]));
        lemma_signature_of_is_sorted_permutation(m[k][0]);
    }
}

/// A level on which no candidate is a signature of the index: every
/// signature that fits the letters is shorter.
proof fn lemma_level_miss(m: Map<Seq<char>, Seq<Seq<char>>>, q: Seq<char>, l: nat, lv: Seq<Seq<char>>)
    requires
        is_grouping(m),
        forall|x: Seq<char>| lv.contains(x) <==> is_candidate(x, q, l),
        forall|k: Seq<char>| m.contains_key(k) && fits(k, q) ==> k.len() <= l,
        forall|a: int| 0 <= a < lv.len() ==> !m.contains_key(#[trigger] lv[a]),
    ensures
        forall|k: Seq<char>| m.contains_key(k) && fits(k, q) ==> k.len() < l,
{
    lemma_grouping_words(m);
    assert forall|k: Seq<char>| m.contains_key(k) && fits(k, q) implies k.len() < l by {
        if k.len() == l {
            assert(is_candidate(k, q, l));
            assert(lv.contains(k));
            let a = choose|a: int| 0 <= a < lv.len() && lv[a] == k;
            assert(!m.contains_key(lv[a]));
        }
    }
}

/// Every match sits under a signature that fits the letters and is as long.
proof fn lemma_match_key(m: Map<Seq<char>, Seq<Seq<char>>>, q: Seq<char>, w: Seq<char>) -> (k: Seq<char>)
    requires
        is_grouping(m),
        is_match(m, q, w),
    ensures
        m.contains_key(k),
        m[k].contains(w),
        fits(k, q),
        k.len() == w.len(),
{
    lemma_grouping_words(m);
    let k = choose|k: Seq<char>| m.contains_key(k) && #[trigger] m[k].contains(w);
    k
}

/// The first level on which some candidate is a signature of the index
/// gives the search result: the words of those signatures.
proof fn lemma_level_hit(
    m: Map<Seq<char>, Seq<Seq<char>>>,
    q: Seq<char>,
    l: nat,
    lv: Seq<Seq<char>>,
    found: Seq<Seq<char>>,
)
    requires
        is_grouping(m),
        forall|x: Seq<char>| lv.contains(x) <==> is_candidate(x, q, l),
        forall|k: Seq<char>| m.contains_key(k) && fits(k, q) ==> k.len() <= l,
        exists|a: int| 0 <= a < lv.len() && m.contains_key(#[trigger] lv[a]),
        lex_sorted(found),
        forall|x: Seq<char>|
            found.contains(x) <==> exists|a: int|
                0 <= a < lv.len() && m.contains_key(lv[a]) && #[trigger] m[lv[a]].contains(x),
    ensures
        is_search_result(m, q, Some(found)),
{
    lemma_grouping_words(m);
    let a0 = choose|a: int| 0 <= a < lv.len() && m.contains_key(#[trigger] lv[a]);
    assert(lv.contains(lv[a0]));
    let y = m[lv[a0]][0];
    assert(m[lv[a0]].contains(y));
    assert(found.contains(y));
    assert forall|x: Seq<char>| found.contains(x) implies is_longest_match(m, q, x) && x.len() == l by {
        let a = choose|a: int| 0 <= a < lv.len() && m.contains_key(lv[a]) && #[trigger] m[lv[a]].contains(x);
        assert(lv.contains(lv[a]));
        assert(is_candidate(lv[a], q, l));
        assert(x.to_multiset() == lv[a].to_multiset());
        assert(is_match(m, q, x));
        assert forall|v: Seq<char>| #[trigger] is_match(m, q, v) implies v.len() <= x.len() by {
            let k = lemma_match_key(m, q, v);
        }
    }
    assert forall|x: Seq<char>| is_longest_match(m, q, x) implies found.contains(x) by {
        let k = lemma_match_key(m, q, x);
        assert(is_match(m, q, y));
        assert(is_candidate(k, q, l));
        assert(lv.contains(k));
        let a = choose|a: int| 0 <= a < lv.len() && lv[a] == k;
        assert(m[lv[a]].contains(x));
    }
    assert forall|i: int, j: int| 0 <= i < j < found.len() implies ranks_before(
        #[trigger] found[i],
        #[trigger] found[j],
    ) by {
        assert(found.contains(found[i]));
        assert(found.contains(found[j]));
    }
}

/// Looks up each candidate of a level: whether any is a signature of the
/// index, and the words of those that are, each once, in alphabetical order.
fn gather(index: &Index, level: &Vec<Vec<char>>) -> (r: (bool, Vec<Vec<char>>))
    requires
        index.wf(),
    ensures
        r.0 <==> exists|a: int|
            0 <= a < level@.len() && index@.contains_key(#[trigger] words_view(level@)[a]),
        lex_sorted(words_view(r.1@)),
        forall|x: Seq<char>|
            words_view(r.1@).contains(x) <==> exists|a: int|
                0 <= a < level@.len() && index@.contains_key(words_view(level@)[a])
                    && #[trigger] index@[words_view(level@)[a]].contains(x),
{
    let ghost lv = words_view(level@);
    let mut hit = false;
    let mut found: Vec<Vec<char>> = Vec::new();
    let mut i: usize = 0;
    while i < level.len()
        invariant
            index.wf(),
            i <= level.len(),
            lv == words_view(level@),
            hit <==> exists|a: int| 0 <= a < i && index@.contains_key(#[trigger] lv[a]),
            lex_sorted(words_view(found@)),
            forall|x: Seq<char>|
                words_view(found@).contains(x) <==> exists|a: int|
                    0 <= a < i && index@.contains_key(lv[a]) && #[trigger] index@[lv[a]].contains(
                        x,
                    ),
        decreases level.len() - i,
    {
        let ghost before = words_view(found@);
        let (present, e) = index.locate(&level[i]);
        match present {
            true => {
                proof {
                    index.lemma_entries();
                    assert(index@[lv[i as int]] == words_view(index.entries@[e as int].words@));
                }
                found = insert_all(found, &index.entries[e].words);
                hit = true;
                proof {
                    assert forall|x: Seq<char>|
                        words_view(found@).contains(x) <==> exists|a: int|
                            0 <= a < i + 1 && index@.contains_key(lv[a])
                                && #[trigger] index@[lv[a]].contains(x) by {
                        if index@[lv[i as int]].contains(x) {
                            assert(0 <= i < i + 1 && index@.contains_key(lv[i as int])
                                && index@[lv[i as int]].contains(x));
                        }
                        if !before.contains(x) && words_view(found@).contains(x) {
                            assert(index@[lv[i as int]].contains(x));
                        }
                    }
                    assert(index@.contains_key(lv[i as int]));
                }
            },
            false => {
                proof {
                    assert(!index@.contains_key(lv[i as int]));
                }
            },
        }
        i += 1;
    }
    (hit, found)
}

/// Finds the words of the index that can be spelled from some of `letters`.
/// Returns `None` when no word of the index can; otherwise every word of the
/// greatest length that can, each once, in alphabetical order.
///
/// The candidates are searched longest first: the sorted letters, then all
/// that is left of them after one deletion, and so on, until some candidate
/// is a signature of the index.
pub fn find_words_q(index: &Index, letters: &str) -> (r: Option<Vec<String>>)
    requires
        index.wf(),
    ensures
        is_search_result(
            index@,
            letters@,
            match r {
                None => None,
                Some(v) => Some(strings_view(v@)),
            },
        ),
{
    let ghost q = letters@;
    let mut top = chars_of(letters);
    sort_chars(&mut top);
    proof {
        lemma_signature_of_is_sorted_permutation(q);
        lemma_top_level(q);
        index.lemma_wf_is_grouping();
        assert forall|k: Seq<char>| index@.contains_key(k) && fits(k, q) implies k.len() <= q.len() by {
            lemma_sub_multiset_len(k.to_multiset(), q.to_multiset());
        }
    }
    let mut l: usize = top.len();
    let mut level: Vec<Vec<char>> = Vec::new();
    level.push(top);
    proof {
        assert(top@ == signature_of(q));
        assert(words_view(level@) =~= seq![signature_of(q)]);
        assert forall|x: Seq<char>| words_view(level@).contains(x) <==> is_candidate(x, q, l as nat) by {
            if x == signature_of(q) {
                assert(words_view(level@)[0] == x);
            }
        }
    }
    loop
        invariant
            index.wf(),
            is_grouping(index@),
            q == letters@,
            l <= q.len(),
            forall|x: Seq<char>| words_view(level@).contains(x) <==> is_candidate(x, q, l as nat),
            forall|k: Seq<char>| index@.contains_key(k) && fits(k, q) ==> k.len() <= l,
        decreases l,
    {
        let (hit, found) = gather(index, &level);
        if hit {
            proof {
                lemma_level_hit(index@, q, l as nat, words_view(level@), words_view(found@));
            }
            return Some(strings_of(&found));
        }
        proof {
            lemma_level_miss(index@, q, l as nat, words_view(level@));
        }
        if l == 0 {
            proof {
                assert forall|w: Seq<char>| !is_match(index@, q, w) by {
                    if is_match(index@, q, w) {
                        let k = lemma_match_key(index@, q, w);
                    }
                }
            }
            return None;
        }
        proof {
            lemma_next_level(words_view(level@), q, l as nat);
        }
        level = deletions(&level);
        l -= 1;
    }
}

proof fn lemma_ranks_irreflexive(a: Seq<char>)
    ensures
        !ranks_before(a, a),
{
    lemma_lex_irreflexive(a);
}

proof fn lemma_ranks_transitive(a: Seq<char>, b: Seq<char>, c: Seq<char>)
    requires
        ranks_before(a, b),
        ranks_before(b, c),
    ensures
        ranks_before(a, c),
{
    if a.len() == b.len() && b.len() == c.len() {
        lemma_lex_transitive(a, b, c);
    }
}

/// Two ranked lists that hold the same words are the same list.
pub proof fn lemma_ranked_unique(s1: Seq<Seq<char>>, s2: Seq<Seq<char>>)
    requires
        is_ranked(s1),
        is_ranked(s2),
        forall|x: Seq<char>| s1.contains(x) <==> s2.contains(x),
    ensures
        s1 == s2,
    decreases s1.len(),
{
    if s1.len() == 0 {
        if s2.len() > 0 {
            assert(s2.contains(s2[0]));
        }
        assert(s1 =~= s2);
    } else {
        assert(s1.contains(s1[0]));
        assert(s2.len() > 0);
        assert(s2.contains(s2[0]));
        if s1[0] != s2[0] {
            let j = choose|j: int| 0 <= j < s2.len() && s2[j] == s1[0];
            let i = choose|i: int| 0 <= i < s1.len() && s1[i] == s2[0];
            assert(ranks_before(s2[0], s2[j]));
            assert(ranks_before(s1[0], s1[i]));
            lemma_ranks_transitive(s1[0], s2[0], s1[0]);
            lemma_ranks_irreflexive(s1[0]);
        }
        let t1 = s1.drop_first();
        let t2 = s2.drop_first();
        assert forall|x: Seq<char>| t1.contains(x) <==> t2.contains(x) by {
            if t1.contains(x) {
                let i = choose|i: int| 0 <= i < t1.len() && t1[i] == x;
                assert(ranks_before(s1[0], s1[i + 1]));
                lemma_ranks_irreflexive(x);
                assert(s1.contains(x));
                let j = choose|j: int| 0 <= j < s2.len() && s2[j] == x;
                assert(j != 0);
                assert(t2[j - 1] == x);
            }
            if t2.contains(x) {
                let j = choose|j: int| 0 <= j < t2.len() && t2[j] == x;
                assert(ranks_before(s2[0], s2[j + 1]));
                lemma_ranks_irreflexive(x);
                assert(s2.contains(x));
                let i = choose|i: int| 0 <= i < s1.len() && s1[i] == x;
                assert(i != 0);
                assert(t1[i - 1] == x);
            }
        }
        assert forall|i: int, j: int| 0 <= i < j < t1.len() implies ranks_before(
            #[trigger] t1[i],
            #[trigger] t1[j],
        ) by {
            assert(ranks_before(s1[i + 1], s1[j + 1]));
        }
        assert forall|i: int, j: int| 0 <= i < j < t2.len() implies ranks_before(
            #[trigger] t2[i],
            #[trigger] t2[j],
        ) by {
            assert(ranks_before(s2[i + 1], s2[j + 1]));
        }
        lemma_ranked_unique(t1, t2);
        assert(s1 =~= seq![s1[0]] + t1);
        assert(s2 =~= seq![s2[0]] + t2);
    }
}

/// The same letters against the same index always give the same answer:
/// there is exactly one search result.
pub proof fn lemma_search_deterministic(
    m: Map<Seq<char>, Seq<Seq<char>>>,
    q: Seq<char>,
    r1: Option<Seq<Seq<char>>>,
    r2: Option<Seq<Seq<char>>>,
)
    requires
        is_search_result(m, q, r1),
        is_search_result(m, q, r2),
    ensures
        r1 == r2,
{
    match (r1, r2) {
        (Some(s1), Some(s2)) => {
            lemma_ranked_unique(s1, s2);
        },
        (Some(s1), None) => {
            assert(s1.contains(s1[0]));
            assert(is_match(m, q, s1[0]));
        },
        (None, Some(s2)) => {
            assert(s2.contains(s2[0]));
            assert(is_match(m, q, s2[0]));
        },
        (None, None) => {},
    }
}

/// A word of the index that no other spellable word of the index is longer
/// than is found exactly when its letters are among the given letters, each
/// as often as it occurs in the word.
pub proof fn lemma_found_iff_fits(
    m: Map<Seq<char>, Seq<Seq<char>>>,
    q: Seq<char>,
    r: Option<Seq<Seq<char>>>,
    d: Seq<char>,
)
    requires
        is_search_result(m, q, r),
        in_index(m, d),
        forall|v: Seq<char>| #[trigger] is_match(m, q, v) ==> v.len() <= d.len(),
    ensures
        (r is Some && r->0.contains(d)) <==> fits(d, q),
{
    if fits(d, q) {
        assert(is_match(m, q, d));
    }
}

/// Every word that a search finds is a word of the index whose letters are
/// among the given letters.
pub proof fn lemma_found_words_fit(
    m: Map<Seq<char>, Seq<Seq<char>>>,
    q: Seq<char>,
    r: Option<Seq<Seq<char>>>,
    d: Seq<char>,
)
    requires
        is_search_result(m, q, r),
        r is Some && r->0.contains(d),
    ensures
        in_index(m, d),
        fits(d, q),
{
}

} // verus!

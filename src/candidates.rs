//! Candidates: what is left of the sorted query letters after some deletions,
//! one level per length.
use vstd::prelude::*;
use vstd::multiset::Multiset;
use crate::index::words_view;
use crate::search::{fits, insert_sorted, lex_sorted};
use crate::signature::{is_sorted, lemma_signature_of_is_sorted_permutation, signature_of};

verus! {

broadcast use vstd::seq_lib::group_to_multiset_ensures, vstd::multiset::group_multiset_axioms;

/// A candidate of length `l` for the letters `q`: a sorted sequence of `l`
/// of them, each used at most as often as it occurs in `q`.
pub open spec fn is_candidate(c: Seq<char>, q: Seq<char>, l: nat) -> bool {
    is_sorted(c) && c.len() == l && fits(c, q)
}

/// `x` is one of `level` with one character deleted.
pub open spec fn is_deletion_of(x: Seq<char>, level: Seq<Seq<char>>) -> bool {
    exists|i: int, p: int|
        0 <= i < level.len() && 0 <= p < level[i].len() && x == #[trigger] level[i].remove(p)
}

proof fn lemma_sorted_remove(c: Seq<char>, p: int)
    requires
        is_sorted(c),
        0 <= p < c.len(),
    ensures
        is_sorted(c.remove(p)),
        c.remove(p).to_multiset() == c.to_multiset().remove(c[p]),
{
    let r = c.remove(p);
    assert forall|i: int, j: int| 0 <= i < j < r.len() implies r[i] <= r[j] by {
        let a = if i < p { i } else { i + 1 };
        let b = if j < p { j } else { j + 1 };
        assert(r[i] == c[a] && r[j] == c[b]);
    }
}

pub(crate) proof fn lemma_sub_multiset_len(s: Multiset<char>, q: Multiset<char>)
    requires
        s.subset_of(q),
    ensures
        s.len() <= q.len(),
        s.len() == q.len() ==> s == q,
        s.len() < q.len() ==> exists|x: char| s.count(x) < q.count(x),
{
    let d = q.sub(s);
    assert(d.len() == q.len() - s.len());
    if s.len() == q.len() {
        assert(d =~= Multiset::empty());
        assert forall|v: char| s.count(v) == q.count(v) by {
            assert(d.count(v) == 0);
        }
        assert(s =~= q);
    }
    if s.len() < q.len() {
        let x = d.choose();
        assert(d.count(x) > 0);
        assert(s.count(x) < q.count(x));
    }
}

/// The only candidate as long as the letters is their signature.
pub proof fn lemma_top_level(q: Seq<char>)
    ensures
        forall|x: Seq<char>| is_candidate(x, q, q.len()) <==> x == signature_of(q),
{
    lemma_signature_of_is_sorted_permutation(q);
    assert forall|x: Seq<char>| is_candidate(x, q, q.len()) implies x == signature_of(q) by {
        lemma_sub_multiset_len(x.to_multiset(), q.to_multiset());
    }
    assert(signature_of(q).to_multiset().subset_of(q.to_multiset()));
}

/// The deletions of all candidates of length `l` are the candidates of
/// length `l - 1`.
pub proof fn lemma_next_level(level: Seq<Seq<char>>, q: Seq<char>, l: nat)
    requires
        1 <= l <= q.len(),
        forall|x: Seq<char>| level.contains(x) <==> is_candidate(x, q, l),
    ensures
        forall|x: Seq<char>| is_deletion_of(x, level) <==> is_candidate(x, q, (l - 1) as nat),
{
    assert forall|x: Seq<char>| is_deletion_of(x, level) implies is_candidate(
        x,
        q,
        (l - 1) as nat,
    ) by {
        let (i, p) = choose|i: int, p: int|
            0 <= i < level.len() && 0 <= p < level[i].len() && x == #[trigger] level[i].remove(p);
        let c = level[i];
        assert(level.contains(c));
        lemma_sorted_remove(c, p);
        assert forall|v: char| x.to_multiset().count(v) <= q.to_multiset().count(v) by {
            assert(x.to_multiset().count(v) <= c.to_multiset().count(v));
            assert(c.to_multiset().subset_of(q.to_multiset()));
        }
    }
    assert forall|x: Seq<char>| is_candidate(x, q, (l - 1) as nat) implies is_deletion_of(
        x,
        level,
    ) by {
        lemma_sub_multiset_len(x.to_multiset(), q.to_multiset());
        let y = choose|y: char| x.to_multiset().count(y) < q.to_multiset().count(y);
        let w = x.push(y);
        let t = signature_of(w);
        lemma_signature_of_is_sorted_permutation(w);
        lemma_signature_of_is_sorted_permutation(x);
        assert(w.to_multiset() == x.to_multiset().insert(y));
        assert forall|v: char| t.to_multiset().count(v) <= q.to_multiset().count(v) by {}
        assert(is_candidate(t, q, l));
        assert(level.contains(t));
        assert(t.to_multiset().count(y) > 0);
        assert(t.contains(y));
        let p = choose|p: int| 0 <= p < t.len() && t[p] == y;
        lemma_sorted_remove(t, p);
        assert(t.remove(p).to_multiset() =~= x.to_multiset());
        assert(t.remove(p) == signature_of(x));
        assert(x == signature_of(x));
        let i = choose|i: int| 0 <= i < level.len() && level[i] == t;
        assert(x == level[i].remove(p));
    }
}

/// The characters of `c` but the one at `p`.
fn remove_at(c: &Vec<char>, p: usize) -> (r: Vec<char>)
    requires
        p < c.len(),
    ensures
        r@ == c@.remove(p as int),
{
    let mut r: Vec<char> = Vec::new();
    let mut i: usize = 0;
    while i < c.len()
        invariant
            p < c.len(),
            i <= c.len(),
            r@ == (if i <= p {
                c@.subrange(0, i as int)
            } else {
                c@.remove(p as int).subrange(0, i - 1)
            }),
        decreases c.len() - i,
    {
        if i != p {
            r.push(c[i]);
        }
        proof {
            if i + 1 <= p {
                assert(r@ =~= c@.subrange(0, i + 1));
            } else if i == p {
                assert(r@ =~= c@.remove(p as int).subrange(0, i as int));
            } else {
                assert(r@ =~= c@.remove(p as int).subrange(0, i as int));
            }
        }
        i += 1;
    }
    assert(r@ =~= c@.remove(p as int));
    r
}

/// Every sequence obtained by deleting one character of one of `level`, each
/// once, in alphabetical order.
pub fn deletions(level: &Vec<Vec<char>>) -> (next: Vec<Vec<char>>)
    ensures
        lex_sorted(words_view(next@)),
        forall|x: Seq<char>|
            words_view(next@).contains(x) <==> is_deletion_of(x, words_view(level@)),
{
    let ghost lv = words_view(level@);
    let mut next: Vec<Vec<char>> = Vec::new();
    let mut i: usize = 0;
    while i < level.len()
        invariant
            i <= level.len(),
            lv == words_view(level@),
            lex_sorted(words_view(next@)),
            forall|x: Seq<char>|
                words_view(next@).contains(x) <==> exists|a: int, p: int|
                    0 <= a < i && 0 <= p < lv[a].len() && x == #[trigger] lv[a].remove(p),
        decreases level.len() - i,
    {
        let c = &level[i];
        let mut p: usize = 0;
        while p < c.len()
            invariant
                i < level.len(),
                p <= c.len(),
                *c == level@[i as int],
                lv == words_view(level@),
                lex_sorted(words_view(next@)),
                forall|x: Seq<char>|
                    words_view(next@).contains(x) <==> (exists|a: int, p2: int|
                        0 <= a < i && 0 <= p2 < lv[a].len() && x == #[trigger] lv[a].remove(p2))
                        || exists|p2: int| 0 <= p2 < p && x == lv[i as int].remove(p2),
            decreases c.len() - p,
        {
            let d = remove_at(c, p);
            let ghost before = words_view(next@);
            insert_sorted(&mut next, d);
            proof {
                assert(lv[i as int] == c@);
                assert forall|x: Seq<char>|
                    words_view(next@).contains(x) <==> (exists|a: int, p2: int|
                        0 <= a < i && 0 <= p2 < lv[a].len() && x == #[trigger] lv[a].remove(p2))
                        || exists|p2: int| 0 <= p2 < p + 1 && x == lv[i as int].remove(p2) by {
                    assert(words_view(next@).contains(x) <==> (before.contains(x) || x == d@));
                    if x == d@ {
                        assert(0 <= p < p + 1 && x == lv[i as int].remove(p as int));
                    }
                    if exists|p2: int| 0 <= p2 < p + 1 && x == lv[i as int].remove(p2) {
                        let p2 = choose|p2: int| 0 <= p2 < p + 1 && x == lv[i as int].remove(p2);
                        if p2 < p {
                            assert(before.contains(x));
                        }
                    }
                }
            }
            p += 1;
        }
        proof {
            assert forall|x: Seq<char>|
                words_view(next@).contains(x) <==> exists|a: int, p2: int|
                    0 <= a < i + 1 && 0 <= p2 < lv[a].len() && x == #[trigger] lv[a].remove(p2) by {
                if exists|p2: int| 0 <= p2 < c.len() && x == lv[i as int].remove(p2) {
                    let p2 = choose|p2: int| 0 <= p2 < c.len() && x == lv[i as int].remove(p2);
                    assert(0 <= i < i + 1 && 0 <= p2 < lv[i as int].len() && x == lv[i as int].remove(p2));
                }
            }
        }
        i += 1;
    }
    next
}

} // verus!

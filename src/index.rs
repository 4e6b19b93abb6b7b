//! The dictionary index: a map from each signature to the words that have it,
//! in the order in which they were added. The entries are kept sorted by
//! signature, so that a signature is found by binary search.
use vstd::prelude::*;
use crate::signature::{
    chars_of, lemma_lex_irreflexive, lemma_lex_total, lemma_lex_transitive, lex_less, lex_lt,
    lemma_signature_of_is_sorted_permutation, signature_of, sort_chars, string_from_chars,
};

verus! {

/// One signature and the words that have it.
pub(crate) struct Entry {
    pub(crate) key: Vec<char>,
    pub(crate) words: Vec<Vec<char>>,
}

/// The words of a dictionary, grouped by signature.
pub struct Index {
    pub(crate) entries: Vec<Entry>,
}

/// The character sequences held by a list of words.
pub open spec fn words_view(ws: Seq<Vec<char>>) -> Seq<Seq<char>> {
    ws.map_values(|w: Vec<char>| w@)
}

/// The character sequences held by a list of strings.
pub open spec fn strings_view(v: Seq<String>) -> Seq<Seq<char>> {
    v.map_values(|s: String| s@)
}

/// The map after one more word: the word is appended to the words of its
/// signature, which start out empty.
pub open spec fn with_word(m: Map<Seq<char>, Seq<Seq<char>>>, w: Seq<char>) -> Map<
    Seq<char>,
    Seq<Seq<char>>,
> {
    let k = signature_of(w);
    m.insert(k, (if m.contains_key(k) { m[k] } else { Seq::empty() }).push(w))
}

/// The map built from a list of words, taken in order.
pub open spec fn grouped(ws: Seq<Seq<char>>) -> Map<Seq<char>, Seq<Seq<char>>>
    decreases ws.len(),
{
    if ws.len() == 0 {
        Map::empty()
    } else {
        with_word(grouped(ws.drop_last()), ws.last())
    }
}

/// The map after a list of entries, taken in order: each word is added, and
/// an entry without a word is passed over.
pub open spec fn with_entries(
    m: Map<Seq<char>, Seq<Seq<char>>>,
    es: Seq<Option<Seq<char>>>,
) -> Map<Seq<char>, Seq<Seq<char>>>
    decreases es.len(),
{
    if es.len() == 0 {
        m
    } else {
        let prev = with_entries(m, es.drop_last());
        match es.last() {
            Some(w) => with_word(prev, w),
            None => prev,
        }
    }
}

/// How many entries have no word.
pub open spec fn missing_count(es: Seq<Option<Seq<char>>>) -> nat
    decreases es.len(),
{
    if es.len() == 0 {
        0
    } else {
        missing_count(es.drop_last()) + if es.last() is None {
            1nat
        } else {
            0nat
        }
    }
}

/// The words of a list of entries, as character sequences.
pub open spec fn entries_view(es: Seq<Option<String>>) -> Seq<Option<Seq<char>>> {
    es.map_values(
        |e: Option<String>|
            match e {
                Some(s) => Some(s@),
                None => None,
            },
    )
}

/// Every signature of the map has at least one word, and every word sits
/// under its own signature.
pub open spec fn is_grouping(m: Map<Seq<char>, Seq<Seq<char>>>) -> bool {
    forall|k: Seq<char>|
        #![trigger m[k]]
        m.contains_key(k) ==> m[k].len() > 0 && forall|j: int|
            0 <= j < m[k].len() ==> signature_of(#[trigger] m[k][j]) == k
}

/// The map that a list of entries stands for.
pub(crate) closed spec fn entries_map(es: Seq<Entry>) -> Map<Seq<char>, Seq<Seq<char>>>
    decreases es.len(),
{
    if es.len() == 0 {
        Map::empty()
    } else {
        entries_map(es.drop_last()).insert(es.last().key@, words_view(es.last().words@))
    }
}

pub(crate) open spec fn keys_sorted(es: Seq<Entry>) -> bool {
    forall|i: int, j: int| 0 <= i < j < es.len() ==> lex_lt(#[trigger] es[i].key@, #[trigger] es[j].key@)
}

pub(crate) open spec fn keys_unique(es: Seq<Entry>) -> bool {
    forall|i: int, j: int| 0 <= i < j < es.len() ==> es[i].key@ != es[j].key@
}

proof fn lemma_entries_map(es: Seq<Entry>)
    requires
        keys_unique(es),
    ensures
        forall|k: Seq<char>|
            entries_map(es).contains_key(k) <==> exists|i: int|
                0 <= i < es.len() && (#[trigger] es[i]).key@ == k,
        forall|i: int|
            0 <= i < es.len() ==> entries_map(es)[(#[trigger] es[i]).key@] == words_view(
                es[i].words@,
            ),
    decreases es.len(),
{
    if es.len() > 0 {
        let p = es.drop_last();
        let last = es[es.len() - 1];
        assert(keys_unique(p));
        lemma_entries_map(p);
        assert(entries_map(es) == entries_map(p).insert(last.key@, words_view(last.words@)));
        assert forall|k: Seq<char>|
            entries_map(es).contains_key(k) implies exists|i: int|
                0 <= i < es.len() && (#[trigger] es[i]).key@ == k by {
            if k != last.key@ {
                assert(entries_map(p).contains_key(k));
                let i = choose|i: int| 0 <= i < p.len() && (#[trigger] p[i]).key@ == k;
                assert(es[i] == p[i]);
                assert(0 <= i < es.len() && es[i].key@ == k);
            } else {
                assert(es[es.len() - 1].key@ == k);
            }
        }
        assert forall|k: Seq<char>| (exists|i: int|
            0 <= i < es.len() && (#[trigger] es[i]).key@ == k) implies entries_map(
            es,
        ).contains_key(k) by {
            let i = choose|i: int| 0 <= i < es.len() && (#[trigger] es[i]).key@ == k;
            if i < es.len() - 1 {
                assert(es[i] == p[i]);
            }
        }
        assert forall|i: int| 0 <= i < es.len() implies entries_map(es)[(
        #[trigger] es[i]).key@] == words_view(es[i].words@) by {
            if i < es.len() - 1 {
                assert(es[i] == p[i]);
            }
        }
    }
}

proof fn lemma_insert_entry(es: Seq<Entry>, p: int, e: Entry)
    requires
        0 <= p <= es.len(),
        forall|i: int| 0 <= i < es.len() ==> (#[trigger] es[i]).key@ != e.key@,
    ensures
        entries_map(es.insert(p, e)) =~= entries_map(es).insert(e.key@, words_view(e.words@)),
    decreases es.len(),
{
    let u = es.insert(p, e);
    if p == es.len() {
        assert(u.drop_last() =~= es);
    } else {
        let d = es.drop_last();
        assert(u.drop_last() =~= d.insert(p, e));
        assert(u.last() == es.last());
        assert forall|i: int| 0 <= i < d.len() implies (#[trigger] d[i]).key@ != e.key@ by {
            assert(d[i] == es[i]);
        }
        lemma_insert_entry(d, p, e);
        assert(es[es.len() - 1].key@ != e.key@);
    }
}

proof fn lemma_update_entry(es: Seq<Entry>, i: int, e: Entry)
    requires
        keys_unique(es),
        0 <= i < es.len(),
        e.key@ == es[i].key@,
    ensures
        entries_map(es.update(i, e)) =~= entries_map(es).insert(e.key@, words_view(e.words@)),
    decreases es.len(),
{
    let p = es.drop_last();
    let u = es.update(i, e);
    if i == es.len() - 1 {
        assert(u.drop_last() =~= p);
    } else {
        assert(keys_unique(p));
        assert(u.drop_last() =~= p.update(i, e));
        lemma_update_entry(p, i, e);
        assert(es.last().key@ != e.key@);
    }
}

impl Index {
    /// What the index holds: each signature's words, in the order added.
    pub closed spec fn view(&self) -> Map<Seq<char>, Seq<Seq<char>>> {
        entries_map(self.entries@)
    }

    /// One entry per signature, in ascending order, none empty, every word
    /// under its signature.
    pub closed spec fn wf(&self) -> bool {
        &&& keys_sorted(self.entries@)
        &&& keys_unique(self.entries@)
        &&& forall|i: int|
            0 <= i < self.entries@.len() ==> (#[trigger] self.entries@[i]).words@.len() > 0
        &&& forall|i: int, j: int|
            0 <= i < self.entries@.len() && 0 <= j < self.entries@[i].words@.len()
                ==> signature_of(#[trigger] self.entries@[i].words@[j]@)
                == self.entries@[i].key@
    }

    /// What a well-formed index holds is a grouping by signature.
    pub proof fn lemma_wf_is_grouping(&self)
        requires
            self.wf(),
        ensures
            is_grouping(self@),
    {
        self.lemma_entries();
    }

    /// How the entries make up the view.
    pub(crate) proof fn lemma_entries(&self)
        requires
            self.wf(),
        ensures
            forall|k: Seq<char>|
                self@.contains_key(k) <==> exists|i: int|
                    0 <= i < self.entries@.len() && (#[trigger] self.entries@[i]).key@ == k,
            forall|i: int|
                0 <= i < self.entries@.len() ==> self@[(#[trigger] self.entries@[i]).key@]
                    == words_view(self.entries@[i].words@),
            is_grouping(self@),
    {
        lemma_entries_map(self.entries@);
        assert forall|k: Seq<char>| #[trigger] self@.contains_key(k) implies self@[k].len() > 0
            && forall|j: int| 0 <= j < self@[k].len() ==> signature_of(#[trigger] self@[k][j]) == k by {
            let i = choose|i: int| 0 <= i < self.entries@.len() && (#[trigger] self.entries@[i]).key@ == k;
            assert forall|j: int| 0 <= j < self@[k].len() implies signature_of(#[trigger] self@[k][j]) == k by {
                assert(self.entries@[i].words@[j]@ == self@[k][j]);
            }
        }
    }

    /// An index with no words.
    pub fn new() -> (r: Index)
        ensures
            r.wf(),
            r@ == Map::<Seq<char>, Seq<Seq<char>>>::empty(),
    {
        Index { entries: Vec::new() }
    }

    /// Adds a word under its signature, after the words already there.
    pub fn add(&mut self, word: &str)
        requires
            old(self).wf(),
        ensures
            final(self).wf(),
            final(self)@ == with_word(old(self)@, word@),
    {
        let mut key = chars_of(word);
        sort_chars(&mut key);
        proof {
            lemma_signature_of_is_sorted_permutation(word@);
        }
        let w = chars_of(word);
        let (present, i) = self.locate(&key);
        let ghost before = self.entries@;
        if present {
            self.entries.push(Entry { key: Vec::new(), words: Vec::new() });
            let mut e = self.entries.swap_remove(i);
            e.words.push(w);
            self.entries.set(i, e);
            proof {
                assert(self.entries@ =~= before.update(i as int, e));
                assert(words_view(e.words@) =~= words_view(before[i as int].words@).push(word@));
                lemma_update_entry(before, i as int, e);
                lemma_entries_map(before);
                assert(old(self)@.contains_key(key@));
                assert(old(self)@[key@] == words_view(before[i as int].words@));
                assert(self@ =~= with_word(old(self)@, word@));
                assert forall|a: int, b: int| 0 <= a < b < self.entries@.len() implies lex_lt(
                    #[trigger] self.entries@[a].key@,
                    #[trigger] self.entries@[b].key@,
                ) by {
                    assert(lex_lt(before[a].key@, before[b].key@));
                }
            }
        } else {
            let e = Entry { key, words: vec![w] };
            self.entries.insert(i, e);
            proof {
                assert(self.entries@ =~= before.insert(i as int, e));
                assert forall|j: int| 0 <= j < before.len() implies (#[trigger] before[j]).key@
                    != e.key@ by {
                    lemma_lex_irreflexive(e.key@);
                }
                lemma_insert_entry(before, i as int, e);
                assert(words_view(e.words@) =~= seq![word@]);
                assert(self@ =~= with_word(old(self)@, word@));
                let es = self.entries@;
                assert forall|a: int, b: int| 0 <= a < b < es.len() implies lex_lt(
                    #[trigger] es[a].key@,
                    #[trigger] es[b].key@,
                ) by {
                    if b < i {
                        assert(lex_lt(before[a].key@, before[b].key@));
                    } else if b == i {
                        assert(es[a] == before[a]);
                    } else if a < i {
                        assert(es[a] == before[a] && es[b] == before[b - 1]);
                        lemma_lex_transitive(before[a].key@, key@, before[b - 1].key@);
                    } else if a == i {
                        assert(es[b] == before[b - 1]);
                    } else {
                        assert(lex_lt(before[a - 1].key@, before[b - 1].key@));
                    }
                }
                assert forall|a: int, b: int| 0 <= a < b < es.len() implies es[a].key@ != es[b].key@ by {
                    assert(lex_lt(es[a].key@, es[b].key@));
                    lemma_lex_irreflexive(es[a].key@);
                }
            }
        }
    }

    /// Builds the index of a list of words, each under its signature, in the
    /// order given.
    pub fn build(words: &Vec<String>) -> (r: Index)
        ensures
            r.wf(),
            r@ == grouped(words.deep_view()),
    {
        let mut r = Index::new();
        let mut i: usize = 0;
        while i < words.len()
            invariant
                i <= words.len(),
                r.wf(),
                r@ == grouped(words.deep_view().subrange(0, i as int)),
            decreases words.len() - i,
        {
            r.add(words[i].as_str());
            proof {
                let s = words.deep_view().subrange(0, i + 1);
                assert(s.drop_last() =~= words.deep_view().subrange(0, i as int));
            }
            i += 1;
        }
        proof {
            assert(words.deep_view().subrange(0, words.len() as int) =~= words.deep_view());
        }
        r
    }

    /// Where a signature stands among the entries, by binary search: whether
    /// it is there, and the position of its entry, or else of the first entry
    /// after it.
    pub(crate) fn locate(&self, k: &Vec<char>) -> (r: (bool, usize))
        requires
            self.wf(),
        ensures
            r.1 <= self.entries@.len(),
            forall|j: int| 0 <= j < r.1 ==> lex_lt(#[trigger] self.entries@[j].key@, k@),
            r.0 ==> r.1 < self.entries@.len() && self.entries@[r.1 as int].key@ == k@,
            !r.0 ==> forall|j: int|
                r.1 <= j < self.entries@.len() ==> lex_lt(k@, #[trigger] self.entries@[j].key@),
            !r.0 ==> !self@.contains_key(k@),
    {
        let mut lo: usize = 0;
        let mut hi: usize = self.entries.len();
        while lo < hi
            invariant
                self.wf(),
                lo <= hi <= self.entries@.len(),
                forall|j: int| 0 <= j < lo ==> lex_lt(#[trigger] self.entries@[j].key@, k@),
                forall|j: int| hi <= j < self.entries@.len() ==> lex_lt(k@, #[trigger] self.entries@[j].key@),
            decreases hi - lo,
        {
            let mid = lo + (hi - lo) / 2;
            let ghost km = self.entries@[mid as int].key@;
            if same_chars(&self.entries[mid].key, k) {
                proof {
                    assert forall|j: int| 0 <= j < mid implies lex_lt(
                        #[trigger] self.entries@[j].key@,
                        k@,
                    ) by {
                        assert(lex_lt(self.entries@[j].key@, km));
                    }
                }
                return (true, mid);
            }
            if lex_less(&self.entries[mid].key, k) {
                proof {
                    assert forall|j: int| 0 <= j < mid + 1 implies lex_lt(
                        #[trigger] self.entries@[j].key@,
                        k@,
                    ) by {
                        if j < mid {
                            assert(lex_lt(self.entries@[j].key@, km));
                            lemma_lex_transitive(self.entries@[j].key@, km, k@);
                        }
                    }
                }
                lo = mid + 1;
            } else {
                proof {
                    lemma_lex_total(km, k@);
                    assert forall|j: int| mid <= j < self.entries@.len() implies lex_lt(
                        k@,
                        #[trigger] self.entries@[j].key@,
                    ) by {
                        if j > mid {
                            assert(lex_lt(km, self.entries@[j].key@));
                            lemma_lex_transitive(k@, km, self.entries@[j].key@);
                        }
                    }
                }
                hi = mid;
            }
        }
        proof {
            lemma_entries_map(self.entries@);
            assert forall|j: int| 0 <= j < self.entries@.len() implies (
            #[trigger] self.entries@[j]).key@ != k@ by {
                if j < lo {
                    assert(lex_lt(self.entries@[j].key@, k@));
                } else {
                    assert(lex_lt(k@, self.entries@[j].key@));
                }
                lemma_lex_irreflexive(k@);
            }
        }
        (false, lo)
    }

    /// The words filed under a signature, in the order added; `None` when
    /// no word has it.
    pub fn lookup(&self, key: &str) -> (r: Option<Vec<String>>)
        requires
            self.wf(),
        ensures
            r is Some <==> self@.contains_key(key@),
            r is Some ==> strings_view(r->0@) == self@[key@],
    {
        let k = chars_of(key);
        let (present, i) = self.locate(&k);
        if present {
            proof {
                lemma_entries_map(self.entries@);
            }
            Some(strings_of(&self.entries[i].words))
        } else {
            None
        }
    }

    /// Adds the word of each entry, in order, and passes over the entries
    /// that have none. Returns how many were passed over.
    pub fn add_entries(&mut self, entries: &Vec<Option<String>>) -> (skipped: usize)
        requires
            old(self).wf(),
        ensures
            final(self).wf(),
            final(self)@ == with_entries(old(self)@, entries_view(entries@)),
            skipped == missing_count(entries_view(entries@)),
    {
        let mut skipped: usize = 0;
        let mut i: usize = 0;
        while i < entries.len()
            invariant
                i <= entries.len(),
                skipped <= i,
                self.wf(),
                self@ == with_entries(old(self)@, entries_view(entries@).subrange(0, i as int)),
                skipped == missing_count(entries_view(entries@).subrange(0, i as int)),
            decreases entries.len() - i,
        {
            proof {
                let es = entries_view(entries@);
                assert(es.subrange(0, i + 1).drop_last() =~= es.subrange(0, i as int));
            }
            match &entries[i] {
                Some(w) => {
                    self.add(w.as_str());
                },
                None => {
                    skipped += 1;
                },
            }
            i += 1;
        }
        proof {
            assert(entries_view(entries@).subrange(0, entries.len() as int) =~= entries_view(
                entries@,
            ));
        }
        skipped
    }
}

/// The words as strings.
pub(crate) fn strings_of(ws: &Vec<Vec<char>>) -> (r: Vec<String>)
    ensures
        strings_view(r@) == words_view(ws@),
{
    let mut out: Vec<String> = Vec::new();
    let mut t: usize = 0;
    while t < ws.len()
        invariant
            t <= ws.len(),
            strings_view(out@) == words_view(ws@).subrange(0, t as int),
        decreases ws.len() - t,
    {
        let s = string_from_chars(&ws[t]);
        let ghost prev = out@;
        out.push(s);
        proof {
            assert(out@ == prev.push(s));
            assert(strings_view(out@) =~= strings_view(prev).push(ws@[t as int]@));
            assert(strings_view(out@) =~= words_view(ws@).subrange(0, t + 1));
        }
        t += 1;
    }
    assert(words_view(ws@).subrange(0, ws.len() as int) =~= words_view(ws@));
    out
}

/// Whether two lists of characters are equal.
pub(crate) fn same_chars(a: &Vec<char>, b: &Vec<char>) -> (r: bool)
    ensures
        r == (a@ == b@),
{
    if a.len() != b.len() {
        return false;
    }
    let mut i: usize = 0;
    while i < a.len()
        invariant
            i <= a.len() == b.len(),
            forall|j: int| 0 <= j < i ==> a@[j] == b@[j],
        decreases a.len() - i,
    {
        if a[i] != b[i] {
            return false;
        }
        i += 1;
    }
    assert(a@ =~= b@);
    true
}

} // verus!

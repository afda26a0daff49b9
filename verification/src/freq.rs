//! The per-document frequency accumulator.
//!
//! A `FreqMap` maps each distinct term of one document to its occurrence
//! count. Every stored count is at least one; terms that never occurred are
//! simply absent and count as zero.

use vstd::prelude::*;
use crate::lexer::lex_tokens;
use crate::lexer::lemma_step_len;
use crate::lexer::Lexer;

verus! {

/// The views of a sequence of owned entries.
pub open spec fn entry_views(es: Seq<(Vec<char>, u64)>) -> Seq<(Seq<char>, u64)> {
    es.map_values(|e: (Vec<char>, u64)| (e.0@, e.1))
}

/// The count stored for `k`: the first matching entry's count, zero if none.
pub open spec fn count_of(m: Seq<(Seq<char>, u64)>, k: Seq<char>) -> u64
    decreases m.len(),
{
    if m.len() == 0 {
        0
    } else if m[0].0 == k {
        m[0].1
    } else {
        count_of(m.drop_first(), k)
    }
}

/// The sum of all stored counts.
pub open spec fn total_of(m: Seq<(Seq<char>, u64)>) -> int
    decreases m.len(),
{
    if m.len() == 0 {
        0
    } else {
        m[0].1 + total_of(m.drop_first())
    }
}

/// Distinct terms, no zero counts, and a total that a `u64` can hold.
pub open spec fn entries_wf(m: Seq<(Seq<char>, u64)>) -> bool {
    &&& forall|i: int, j: int| 0 <= i < j < m.len() ==> (#[trigger] m[i]).0 != (#[trigger] m[j]).0
    &&& forall|i: int| 0 <= i < m.len() ==> (#[trigger] m[i]).1 >= 1
    &&& total_of(m) <= u64::MAX
}

pub proof fn lemma_total_nonneg(m: Seq<(Seq<char>, u64)>)
    ensures
        total_of(m) >= 0,
        m.len() > 0 && (forall|i: int| 0 <= i < m.len() ==> (#[trigger] m[i]).1 >= 1)
            ==> total_of(m) >= 1,
    decreases m.len(),
{
    if m.len() > 0 {
        lemma_total_nonneg(m.drop_first());
    }
}

/// The count of any one term never exceeds the total.
pub proof fn lemma_count_le_total(m: Seq<(Seq<char>, u64)>, k: Seq<char>)
    ensures
        count_of(m, k) <= total_of(m),
    decreases m.len(),
{
    lemma_total_nonneg(m);
    if m.len() > 0 {
        lemma_count_le_total(m.drop_first(), k);
        lemma_total_nonneg(m.drop_first());
    }
}

/// A term under none of the entries counts zero.
pub proof fn lemma_count_absent(m: Seq<(Seq<char>, u64)>, k: Seq<char>)
    requires
        forall|j: int| 0 <= j < m.len() ==> (#[trigger] m[j]).0 != k,
    ensures
        count_of(m, k) == 0,
    decreases m.len(),
{
    if m.len() > 0 {
        assert(m[0].0 != k);
        assert(forall|j: int| 0 <= j < m.drop_first().len() ==> (#[trigger] m.drop_first()[j]).0
            != k) by {
            assert(forall|j: int| 0 <= j < m.drop_first().len() ==> m.drop_first()[j] == m[j + 1]);
        }
        lemma_count_absent(m.drop_first(), k);
    }
}

/// The first entry that holds `k` gives its count.
pub proof fn lemma_count_present(m: Seq<(Seq<char>, u64)>, i: int)
    requires
        0 <= i < m.len(),
        forall|j: int| 0 <= j < i ==> (#[trigger] m[j]).0 != m[i].0,
    ensures
        count_of(m, m[i].0) == m[i].1,
    decreases m.len(),
{
    if i > 0 {
        assert(m[0].0 != m[i].0);
        assert(m.drop_first()[i - 1] == m[i]);
        assert(forall|j: int| 0 <= j < i - 1 ==> m.drop_first()[j] == m[j + 1]);
        lemma_count_present(m.drop_first(), i - 1);
    }
}

/// Replacing the count at one entry changes that term's count and no other.
pub proof fn lemma_count_update(m: Seq<(Seq<char>, u64)>, i: int, c2: u64, k: Seq<char>)
    requires
        0 <= i < m.len(),
    ensures
        k != m[i].0 ==> count_of(m.update(i, (m[i].0, c2)), k) == count_of(m, k),
        (k == m[i].0 && (forall|j: int| 0 <= j < i ==> (#[trigger] m[j]).0 != k)) ==> count_of(
            m.update(i, (m[i].0, c2)),
            k,
        ) == c2,
    decreases m.len(),
{
    let m2 = m.update(i, (m[i].0, c2));
    if i == 0 {
        if k != m[0].0 {
            assert(m2.drop_first() =~= m.drop_first());
        }
    } else {
        assert(m2[0] == m[0]);
        if m[0].0 != k {
            assert(m2.drop_first() =~= m.drop_first().update(i - 1, (m.drop_first()[i - 1].0, c2)));
            assert(forall|j: int| 0 <= j < i - 1 ==> m.drop_first()[j] == m[j + 1]);
            lemma_count_update(m.drop_first(), i - 1, c2, k);
        }
    }
}

pub proof fn lemma_total_update(m: Seq<(Seq<char>, u64)>, i: int, c2: u64)
    requires
        0 <= i < m.len(),
    ensures
        total_of(m.update(i, (m[i].0, c2))) == total_of(m) - m[i].1 + c2,
    decreases m.len(),
{
    let m2 = m.update(i, (m[i].0, c2));
    if i == 0 {
        assert(m2.drop_first() =~= m.drop_first());
    } else {
        assert(m2[0] == m[0]);
        assert(m2.drop_first() =~= m.drop_first().update(i - 1, (m.drop_first()[i - 1].0, c2)));
        lemma_total_update(m.drop_first(), i - 1, c2);
    }
}

/// Appending an entry leaves every term already present unchanged; a term
/// absent before counts what the new entry gives it.
pub proof fn lemma_count_push(m: Seq<(Seq<char>, u64)>, e: (Seq<char>, u64), k: Seq<char>)
    ensures
        (forall|j: int| 0 <= j < m.len() ==> (#[trigger] m[j]).0 != k) ==> count_of(m.push(e), k)
            == (if e.0 == k {
            e.1
        } else {
            0
        }),
        (exists|j: int| 0 <= j < m.len() && (#[trigger] m[j]).0 == k) ==> count_of(m.push(e), k)
            == count_of(m, k),
    decreases m.len(),
{
    if m.len() == 0 {
        assert(m.push(e)[0] == e);
        assert(m.push(e).drop_first() =~= Seq::<(Seq<char>, u64)>::empty());
        assert(count_of(m.push(e).drop_first(), k) == 0);
        if e.0 == k {
            assert(count_of(m.push(e), k) == e.1);
        } else {
            assert(count_of(m.push(e), k) == count_of(m.push(e).drop_first(), k));
        }
    } else {
        assert(m.push(e)[0] == m[0]);
        assert(m.push(e).drop_first() =~= m.drop_first().push(e));
        assert(forall|j: int| 0 <= j < m.drop_first().len() ==> m.drop_first()[j] == m[j + 1]);
        lemma_count_push(m.drop_first(), e, k);
        if m[0].0 == k {
            assert(count_of(m.push(e), k) == m[0].1);
            assert(count_of(m, k) == m[0].1);
        } else {
            assert(count_of(m.push(e), k) == count_of(m.push(e).drop_first(), k));
            assert(count_of(m, k) == count_of(m.drop_first(), k));
        }
        if exists|j: int| 0 <= j < m.len() && (#[trigger] m[j]).0 == k {
            let j = choose|j: int| 0 <= j < m.len() && (#[trigger] m[j]).0 == k;
            if j > 0 {
                assert(m.drop_first()[j - 1].0 == k);
            }
        }
    }
}

pub proof fn lemma_total_push(m: Seq<(Seq<char>, u64)>, e: (Seq<char>, u64))
    ensures
        total_of(m.push(e)) == total_of(m) + e.1,
    decreases m.len(),
{
    if m.len() == 0 {
        assert(m.push(e)[0] == e);
        assert(m.push(e).drop_first() =~= Seq::<(Seq<char>, u64)>::empty());
        assert(total_of(m.push(e).drop_first()) == 0);
        assert(total_of(m.push(e)) == e.1 + total_of(m.push(e).drop_first()));
    } else {
        assert(m.push(e)[0] == m[0]);
        assert(m.push(e).drop_first() =~= m.drop_first().push(e));
        lemma_total_push(m.drop_first(), e);
        assert(total_of(m.push(e)) == m[0].1 + total_of(m.push(e).drop_first()));
        assert(total_of(m) == m[0].1 + total_of(m.drop_first()));
    }
}

/// How often `k` occurs among the tokens.
pub open spec fn occurrences(toks: Seq<Seq<char>>, k: Seq<char>) -> int
    decreases toks.len(),
{
    if toks.len() == 0 {
        0
    } else {
        occurrences(toks.drop_last(), k) + if toks.last() == k {
            1int
        } else {
            0int
        }
    }
}

/// One document's term-frequency record.
pub struct FreqMap {
    entries: Vec<(Vec<char>, u64)>,
}

/// Whether the views of two terms are the same term.
pub fn term_eq(a: &Vec<char>, b: &Vec<char>) -> (r: bool)
    ensures
        r == (a@ == b@),
{
    if a.len() != b.len() {
        return false;
    }
    let mut i: usize = 0;
    while i < a.len()
        invariant
            i <= a@.len(),
            a@.len() == b@.len(),
            forall|j: int| 0 <= j < i ==> a@[j] == b@[j],
        decreases a@.len() - i,
    {
        if a[i] != b[i] {
            return false;
        }
        i = i + 1;
    }
    proof {
        assert(a@ =~= b@);
    }
    true
}

impl FreqMap {
    /// The record as a sequence of (term, count) entries.
    pub closed spec fn model(&self) -> Seq<(Seq<char>, u64)> {
        entry_views(self.entries@)
    }

    pub open spec fn wf(&self) -> bool {
        entries_wf(self.model())
    }

    /// The count recorded for `k`, zero when absent.
    pub open spec fn spec_count(&self, k: Seq<char>) -> u64 {
        count_of(self.model(), k)
    }

    /// The sum of all recorded counts.
    pub open spec fn spec_total(&self) -> int {
        total_of(self.model())
    }

    /// Wraps an already well-formed entry list.
    pub(crate) fn from_entries(entries: Vec<(Vec<char>, u64)>) -> (r: FreqMap)
        ensures
            r.model() == entry_views(entries@),
    {
        FreqMap { entries }
    }

    /// The underlying entry list.
    pub(crate) fn entries(&self) -> (r: &Vec<(Vec<char>, u64)>)
        ensures
            entry_views(r@) == self.model(),
    {
        &self.entries
    }

    /// The sum of all recorded counts.
    pub fn total(&self) -> (r: u64)
        requires
            self.wf(),
        ensures
            r == self.spec_total(),
    {
        let ghost m = self.model();
        let mut sum: u64 = 0;
        let mut i: usize = 0;
        proof {
            assert(m.skip(0) =~= m);
        }
        while i < self.entries.len()
            invariant
                i <= self.entries@.len(),
                m.len() == self.entries@.len(),
                m == entry_views(self.entries@),
                total_of(m) <= u64::MAX,
                sum + total_of(m.skip(i as int)) == total_of(m),
            decreases self.entries@.len() - i,
        {
            proof {
                lemma_total_nonneg(m.skip(i as int));
                lemma_total_nonneg(m.skip(i + 1));
                assert(m.skip(i as int)[0] == m[i as int]);
                assert(m.skip(i as int).drop_first() =~= m.skip(i + 1));
                assert(m[i as int].1 == self.entries@[i as int].1);
            }
            sum = sum + self.entries[i].1;
            i = i + 1;
        }
        proof {
            assert(m.skip(i as int).len() == 0);
        }
        sum
    }

    pub fn new() -> (r: FreqMap)
        ensures
            r.wf(),
            r.model() == Seq::<(Seq<char>, u64)>::empty(),
    {
        let r = FreqMap { entries: Vec::new() };
        proof {
            assert(r.model() =~= Seq::<(Seq<char>, u64)>::empty());
        }
        r
    }

    /// The number of distinct terms recorded.
    pub fn len(&self) -> (r: usize)
        ensures
            r == self.model().len(),
    {
        self.entries.len()
    }

    pub fn is_empty(&self) -> (r: bool)
        ensures
            r == (self.model().len() == 0),
    {
        self.entries.len() == 0
    }

    /// The index of the entry holding `term`, if one does.
    fn find(&self, term: &Vec<char>) -> (r: Option<usize>)
        ensures
            match r {
                Some(i) => i < self.model().len() && self.model()[i as int].0 == term@
                    && (forall|j: int| 0 <= j < i ==> (#[trigger] self.model()[j]).0 != term@),
                None => forall|j: int|
                    0 <= j < self.model().len() ==> (#[trigger] self.model()[j]).0 != term@,
            },
    {
        let mut i: usize = 0;
        while i < self.entries.len()
            invariant
                i <= self.model().len(),
                self.model().len() == self.entries@.len(),
                forall|j: int| 0 <= j < i ==> (#[trigger] self.model()[j]).0 != term@,
            decreases self.entries@.len() - i,
        {
            if term_eq(&self.entries[i].0, term) {
                proof {
                    assert(self.model()[i as int].0 == self.entries@[i as int].0@);
                }
                return Some(i);
            }
            proof {
                assert(self.model()[i as int].0 == self.entries@[i as int].0@);
            }
            i = i + 1;
        }
        None
    }

    /// The count stored for `term`: zero exactly when the term is absent.
    pub fn get(&self, term: &Vec<char>) -> (r: u64)
        ensures
            r == self.spec_count(term@),
    {
        match self.find(term) {
            Some(i) => {
                proof {
                    lemma_count_present(self.model(), i as int);
                }
                self.entries[i].1
            },
            None => {
                proof {
                    lemma_count_absent(self.model(), term@);
                }
                0
            },
        }
    }

    /// Whether `term` is recorded at all.
    pub fn contains(&self, term: &Vec<char>) -> (r: bool)
        requires
            self.wf(),
        ensures
            r == (self.spec_count(term@) != 0),
    {
        let c = self.get(term);
        c != 0
    }

    /// Records one more occurrence of `term`.
    fn increment(&mut self, term: Vec<char>)
        requires
            old(self).wf(),
            old(self).spec_total() < u64::MAX,
        ensures
            final(self).wf(),
            final(self).spec_count(term@) == old(self).spec_count(term@) + 1,
            forall|k: Seq<char>| k != term@ ==> final(self).spec_count(k) == old(self).spec_count(
                k,
            ),
            final(self).spec_total() == old(self).spec_total() + 1,
            final(self).model().len() >= 1,
    {
        let ghost m = self.model();
        match self.find(&term) {
            Some(i) => {
                proof {
                    lemma_count_present(m, i as int);
                    lemma_count_le_total(m, term@);
                    lemma_total_nonneg(m);
                }
                let c = self.entries[i].1;
                proof {
                    // the stored count stays below the total, so it can grow
                    assert(c < u64::MAX);
                }
                let e = vstd::std_specs::vec::vec_index_mut(&mut self.entries, i);
                e.1 = c + 1;
                proof {
                    let m2 = self.model();
                    assert(m2 =~= m.update(i as int, (m[i as int].0, (c + 1) as u64)));
                    lemma_total_update(m, i as int, (c + 1) as u64);
                    assert forall|k: Seq<char>| k != term@ implies count_of(m2, k) == count_of(
                        m,
                        k,
                    ) by {
                        lemma_count_update(m, i as int, (c + 1) as u64, k);
                    }
                    lemma_count_update(m, i as int, (c + 1) as u64, term@);
                    assert forall|a: int, b: int| 0 <= a < b < m2.len() implies (
                    #[trigger] m2[a]).0 != (#[trigger] m2[b]).0 by {
                        assert(m2[a].0 == m[a].0 && m2[b].0 == m[b].0);
                    }
                }
            },
            None => {
                proof {
                    lemma_count_absent(m, term@);
                    lemma_total_nonneg(m);
                }
                let ghost tv = term@;
                self.entries.push((term, 1));
                proof {
                    let m2 = self.model();
                    assert(m2 =~= m.push((tv, 1u64)));
                    lemma_total_push(m, (tv, 1u64));
                    assert forall|k: Seq<char>| k != tv implies count_of(m2, k) == count_of(
                        m,
                        k,
                    ) by {
                        lemma_count_push(m, (tv, 1u64), k);
                        if forall|j: int| 0 <= j < m.len() ==> (#[trigger] m[j]).0 != k {
                            lemma_count_absent(m, k);
                        } else {
                            assert(exists|j: int| 0 <= j < m.len() && (#[trigger] m[j]).0 == k);
                        }
                    }
                    lemma_count_push(m, (tv, 1u64), tv);
                    assert forall|a: int, b: int| 0 <= a < b < m2.len() implies (
                    #[trigger] m2[a]).0 != (#[trigger] m2[b]).0 by {
                        if b < m.len() {
                            assert(m2[a].0 == m[a].0 && m2[b].0 == m[b].0);
                        } else {
                            assert(m2[b].0 == tv && m2[a].0 == m[a].0);
                        }
                    }
                }
            },
        }
    }

    /// Consumes the whole token stream of `text` and counts each term:
    /// afterwards every term's count is its number of occurrences among the
    /// tokens, and the total count is the number of tokens.
    pub fn accumulate(text: Vec<char>) -> (m: FreqMap)
        ensures
            m.wf(),
            forall|k: Seq<char>| m.spec_count(k) == occurrences(lex_tokens(text@), k),
            m.spec_total() == lex_tokens(text@).len(),
            m.model().len() == 0 <==> lex_tokens(text@).len() == 0,
    {
        let ghost whole = text@;
        let text_len = text.len();
        let mut lexer = Lexer::new(text);
        let mut m = FreqMap::new();
        let ghost mut done = Seq::<Seq<char>>::empty();
        let mut fetched = lexer.next_token();
        proof {
            lemma_step_len(whole);
            match &fetched {
                Some(t) => {
                    assert(lex_tokens(whole) =~= done + seq![t@] + lex_tokens(lexer.remaining()));
                    assert(done.len() + 1 + lexer.remaining().len() <= whole.len());
                },
                None => {
                    assert(lexer.remaining().len() == 0);
                    assert(lex_tokens(whole) =~= done + Seq::<Seq<char>>::empty() + lex_tokens(
                        lexer.remaining(),
                    ));
                },
            }
            assert forall|k: Seq<char>| m.spec_count(k) == occurrences(done, k) by {
                assert(occurrences(done, k) == 0);
            }
        }
        while fetched.is_some()
            invariant
                lexer.wf(),
                m.wf(),
                fetched is None ==> lexer.remaining().len() == 0,
                lex_tokens(whole) == done + (match fetched {
                    Some(t) => seq![t@],
                    None => Seq::<Seq<char>>::empty(),
                }) + lex_tokens(lexer.remaining()),
                done.len() + (match fetched {
                    Some(t) => 1int,
                    None => 0int,
                }) + lexer.remaining().len() <= whole.len(),
                forall|k: Seq<char>| m.spec_count(k) == occurrences(done, k),
                m.spec_total() == done.len(),
                whole.len() <= usize::MAX,
            decreases lexer.remaining().len() + (match fetched {
                Some(t) => 1int,
                None => 0int,
            }),
        {
            let t = fetched.unwrap();
            let ghost tv = t@;
            proof {
                lemma_total_nonneg(m.model());
            }
            m.increment(t);
            proof {
                let done2 = done.push(tv);
                assert(done2.drop_last() =~= done);
                assert forall|k: Seq<char>| m.spec_count(k) == occurrences(done2, k) by {
                    assert(occurrences(done2, k) == occurrences(done, k) + if tv == k {
                        1int
                    } else {
                        0int
                    });
                }
            }
            proof {
                done = done.push(tv);
            }
            let ghost before = lexer.remaining();
            fetched = lexer.next_token();
            proof {
                lemma_step_len(before);
                match &fetched {
                    Some(t2) => {
                        assert(lex_tokens(before) =~= seq![t2@] + lex_tokens(lexer.remaining()));
                        assert(lex_tokens(whole) =~= done + seq![t2@] + lex_tokens(
                            lexer.remaining(),
                        ));
                    },
                    None => {
                        assert(lexer.remaining().len() == 0);
                        assert(lex_tokens(before) =~= Seq::<Seq<char>>::empty() + lex_tokens(
                            lexer.remaining(),
                        ));
                        assert(lex_tokens(whole) =~= done + Seq::<Seq<char>>::empty()
                            + lex_tokens(lexer.remaining()));
                    },
                }
            }
        }
        proof {
            assert(lex_tokens(lexer.remaining()) =~= Seq::<Seq<char>>::empty());
            assert(lex_tokens(whole) =~= done);
            if m.model().len() > 0 {
                lemma_total_nonneg(m.model());
            }
        }
        m
    }
}

/// Tokenises one document's text and counts its terms; yields nothing when
/// the text holds no token at all, the record otherwise. A document that
/// yields nothing is not to be persisted.
pub fn index_text(text: Vec<char>) -> (r: Option<FreqMap>)
    ensures
        match r {
            None => lex_tokens(text@).len() == 0,
            Some(m) => {
                &&& lex_tokens(text@).len() > 0
                &&& m.wf()
                &&& m.model().len() > 0
                &&& forall|k: Seq<char>| m.spec_count(k) == occurrences(lex_tokens(text@), k)
                &&& m.spec_total() == lex_tokens(text@).len()
            },
        },
{
    let m = FreqMap::accumulate(text);
    if m.is_empty() {
        None
    } else {
        Some(m)
    }
}

} // verus!

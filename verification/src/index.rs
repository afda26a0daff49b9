//! The in-memory index: every document's frequency record, keyed by the
//! document's path, together with the exact integer quantities that TF-IDF
//! scoring is computed from.
//!
//! A score itself is floating point (`tf * log10((N+1)/(M+1))`) and is
//! assembled by the caller from the four integers this module computes
//! exactly: the term's count in the document, the document's total count,
//! the number of documents, and the number of documents holding the term.

use vstd::prelude::*;
use crate::freq::FreqMap;
use crate::freq::entries_wf;
use crate::freq::count_of;
use crate::freq::total_of;
use crate::freq::term_eq;
use crate::codec::spec_decode;
use crate::codec::DecodeError;
use crate::codec::decode;

verus! {

/// The views of a document list: each path with its record's entries.
pub open spec fn doc_views(ds: Seq<(Vec<char>, FreqMap)>) -> Seq<
    (Seq<char>, Seq<(Seq<char>, u64)>),
> {
    ds.map_values(|d: (Vec<char>, FreqMap)| (d.0@, d.1.model()))
}

/// Distinct paths, well-formed records, and no empty record.
pub open spec fn index_wf(ix: Seq<(Seq<char>, Seq<(Seq<char>, u64)>)>) -> bool {
    &&& forall|i: int, j: int| 0 <= i < j < ix.len() ==> (#[trigger] ix[i]).0 != (
    #[trigger] ix[j]).0
    &&& forall|i: int| 0 <= i < ix.len() ==> entries_wf((#[trigger] ix[i]).1)
    &&& forall|i: int| 0 <= i < ix.len() ==> (#[trigger] ix[i]).1.len() > 0
}

/// How many documents hold the term at least once.
pub open spec fn docs_with_term(ix: Seq<(Seq<char>, Seq<(Seq<char>, u64)>)>, k: Seq<char>) -> int
    decreases ix.len(),
{
    if ix.len() == 0 {
        0
    } else {
        (if count_of(ix[0].1, k) != 0 {
            1int
        } else {
            0int
        }) + docs_with_term(ix.drop_first(), k)
    }
}

pub proof fn lemma_docs_with_term_bound(ix: Seq<(Seq<char>, Seq<(Seq<char>, u64)>)>, k: Seq<char>)
    ensures
        0 <= docs_with_term(ix, k) <= ix.len(),
    decreases ix.len(),
{
    if ix.len() > 0 {
        lemma_docs_with_term_bound(ix.drop_first(), k);
    }
}

/// What storing one record does to the index: an empty record is skipped, a
/// known path is overwritten, a new path is appended.
pub open spec fn spec_insert(
    ix: Seq<(Seq<char>, Seq<(Seq<char>, u64)>)>,
    p: Seq<char>,
    mm: Seq<(Seq<char>, u64)>,
) -> Seq<(Seq<char>, Seq<(Seq<char>, u64)>)> {
    if mm.len() == 0 {
        ix
    } else if exists|j: int| 0 <= j < ix.len() && (#[trigger] ix[j]).0 == p {
        ix.update(choose|j: int| 0 <= j < ix.len() && (#[trigger] ix[j]).0 == p, (p, mm))
    } else {
        ix.push((p, mm))
    }
}

/// The views of a list of persisted records.
pub open spec fn record_views(rs: Seq<(Vec<char>, Vec<u8>)>) -> Seq<(Seq<char>, Seq<u8>)> {
    rs.map_values(|r: (Vec<char>, Vec<u8>)| (r.0@, r.1@))
}

/// Reading a whole store back: every record decoded and stored in order;
/// nothing at all if any record is malformed.
pub open spec fn spec_load(rs: Seq<(Seq<char>, Seq<u8>)>) -> Option<
    Seq<(Seq<char>, Seq<(Seq<char>, u64)>)>,
>
    decreases rs.len(),
{
    if rs.len() == 0 {
        Some(Seq::empty())
    } else {
        match spec_load(rs.drop_last()) {
            None => None,
            Some(ix) => match spec_decode(rs.last().1) {
                None => None,
                Some(mm) => Some(spec_insert(ix, rs.last().0, mm)),
            },
        }
    }
}

/// Copies a path or term into an owned value.
pub fn clone_term(v: &Vec<char>) -> (r: Vec<char>)
    ensures
        r@ == v@,
{
    let mut r: Vec<char> = Vec::new();
    let mut j: usize = 0;
    while j < v.len()
        invariant
            j <= v@.len(),
            r@ == v@.subrange(0, j as int),
        decreases v@.len() - j,
    {
        r.push(v[j]);
        proof {
            assert(r@ =~= v@.subrange(0, j + 1));
        }
        j = j + 1;
    }
    proof {
        assert(r@ =~= v@);
    }
    r
}

/// The full in-memory index.
pub struct Index {
    docs: Vec<(Vec<char>, FreqMap)>,
}

impl Index {
    /// The index as a sequence of (path, record) views.
    pub closed spec fn model(&self) -> Seq<(Seq<char>, Seq<(Seq<char>, u64)>)> {
        doc_views(self.docs@)
    }

    pub open spec fn wf(&self) -> bool {
        index_wf(self.model())
    }

    pub fn new() -> (r: Index)
        ensures
            r.wf(),
            r.model() == Seq::<(Seq<char>, Seq<(Seq<char>, u64)>)>::empty(),
    {
        let r = Index { docs: Vec::new() };
        proof {
            assert(r.model() =~= Seq::<(Seq<char>, Seq<(Seq<char>, u64)>)>::empty());
        }
        r
    }

    /// The number of indexed documents.
    pub fn len(&self) -> (r: usize)
        ensures
            r == self.model().len(),
    {
        self.docs.len()
    }

    /// The path of the document at `i`.
    pub fn path_at(&self, i: usize) -> (r: &Vec<char>)
        requires
            i < self.model().len(),
        ensures
            r@ == self.model()[i as int].0,
    {
        proof {
            assert(self.model()[i as int].0 == self.docs@[i as int].0@);
        }
        &self.docs[i].0
    }

    /// The frequency record of the document at `i`.
    pub fn map_at(&self, i: usize) -> (r: &FreqMap)
        requires
            i < self.model().len(),
        ensures
            r.model() == self.model()[i as int].1,
    {
        proof {
            assert(self.model()[i as int].1 == self.docs@[i as int].1.model());
        }
        &self.docs[i].1
    }

    /// Stores one document's record: an empty record is skipped, a record
    /// under a known path overwrites it, any other is appended.
    pub fn insert(&mut self, path: Vec<char>, map: FreqMap)
        requires
            old(self).wf(),
            map.wf(),
        ensures
            final(self).wf(),
            final(self).model() == spec_insert(old(self).model(), path@, map.model()),
    {
        let ghost ix = self.model();
        if map.is_empty() {
            return;
        }
        let mut i: usize = 0;
        while i < self.docs.len()
            invariant
                i <= ix.len(),
                ix.len() == self.docs@.len(),
                ix == doc_views(self.docs@),
                self.model() == ix,
                ix == old(self).model(),
                index_wf(ix),
                map.wf(),
                map.model().len() > 0,
                forall|j: int| 0 <= j < i ==> (#[trigger] ix[j]).0 != path@,
            decreases self.docs@.len() - i,
        {
            proof {
                assert(ix[i as int].0 == self.docs@[i as int].0@);
            }
            if term_eq(&self.docs[i].0, &path) {
                let ghost pv = path@;
                let ghost mv = map.model();
                let e = vstd::std_specs::vec::vec_index_mut(&mut self.docs, i);
                *e = (path, map);
                proof {
                    let ix2 = self.model();
                    assert(ix2 =~= ix.update(i as int, (pv, mv)));
                    assert(ix[i as int].0 == pv);
                    assert(exists|j: int| 0 <= j < ix.len() && (#[trigger] ix[j]).0 == pv);
                    let jj = choose|j: int| 0 <= j < ix.len() && (#[trigger] ix[j]).0 == pv;
                    assert(index_wf(ix));
                    if jj < i as int {
                        assert(ix[jj].0 != pv);
                        assert(false);
                    } else if jj > i as int {
                        assert(ix[i as int].0 != ix[jj].0);
                        assert(false);
                    }
                    assert(ix2 == spec_insert(ix, pv, mv));
                    assert forall|a: int, b: int| 0 <= a < b < ix2.len() implies (
                    #[trigger] ix2[a]).0 != (#[trigger] ix2[b]).0 by {
                        assert(ix2[a].0 == ix[a].0 && ix2[b].0 == ix[b].0);
                    }
                    assert forall|i2: int| 0 <= i2 < ix2.len() implies entries_wf((
                    #[trigger] ix2[i2]).1) && ix2[i2].1.len() > 0 by {
                        if i2 != i as int {
                            assert(ix2[i2] == ix[i2]);
                        } else {
                            assert(ix2[i2].1 == mv);
                        }
                    }
                }
                return;
            }
            i = i + 1;
        }
        let ghost pv = path@;
        let ghost mv = map.model();
        self.docs.push((path, map));
        proof {
            let ix2 = self.model();
            assert(ix2 =~= ix.push((pv, mv)));
            assert(!(exists|j: int| 0 <= j < ix.len() && (#[trigger] ix[j]).0 == pv));
            assert forall|a: int, b: int| 0 <= a < b < ix2.len() implies (#[trigger] ix2[a]).0
                != (#[trigger] ix2[b]).0 by {
                if b < ix.len() {
                    assert(ix2[a] == ix[a] && ix2[b] == ix[b]);
                } else {
                    assert(ix2[b].0 == pv);
                    assert(ix2[a] == ix[a]);
                }
            }
            assert forall|i2: int| 0 <= i2 < ix2.len() implies entries_wf((#[trigger] ix2[i2]).1)
                && ix2[i2].1.len() > 0 by {
                if i2 < ix.len() {
                    assert(ix2[i2] == ix[i2]);
                } else {
                    assert(ix2[i2].1 == mv);
                }
            }
        }
    }

    /// Rebuilds the index from every persisted record. One malformed record
    /// is a hard error for the whole load, never silently dropped.
    pub fn load_index(records: Vec<(Vec<char>, Vec<u8>)>) -> (r: Result<Index, DecodeError>)
        ensures
            match r {
                Ok(ix) => spec_load(record_views(records@)) == Some(ix.model()) && ix.wf(),
                Err(_) => spec_load(record_views(records@)) is None,
            },
    {
        let ghost rs = record_views(records@);
        let mut ix = Index::new();
        let mut i: usize = 0;
        proof {
            assert(rs.take(0) =~= Seq::<(Seq<char>, Seq<u8>)>::empty());
        }
        while i < records.len()
            invariant
                i <= records@.len(),
                rs == record_views(records@),
                rs.len() == records@.len(),
                ix.wf(),
                spec_load(rs.take(i as int)) == Some(ix.model()),
            decreases records@.len() - i,
        {
            proof {
                assert(rs[i as int] == (records@[i as int].0@, records@[i as int].1@));
                assert(rs.take(i + 1).drop_last() =~= rs.take(i as int));
                assert(rs.take(i + 1).last() == rs[i as int]);
            }
            let path = clone_term(&records[i].0);
            match decode(&records[i].1) {
                Ok(m) => {
                    ix.insert(path, m);
                },
                Err(e) => {
                    proof {
                        // this record refutes every longer prefix as well
                        lemma_load_prefix_none(rs, i + 1);
                    }
                    return Err(e);
                },
            }
            i = i + 1;
        }
        proof {
            assert(rs.take(i as int) =~= rs);
        }
        Ok(ix)
    }

    /// How many documents hold `term` at least once.
    pub fn docs_containing(&self, term: &Vec<char>) -> (r: usize)
        requires
            self.wf(),
        ensures
            r == docs_with_term(self.model(), term@),
            r <= self.model().len(),
    {
        let ghost ix = self.model();
        let mut count: usize = 0;
        let mut i: usize = 0;
        proof {
            assert(ix.skip(0) =~= ix);
            lemma_docs_with_term_bound(ix, term@);
        }
        while i < self.docs.len()
            invariant
                i <= ix.len(),
                ix.len() == self.docs@.len(),
                ix == self.model(),
                self.wf(),
                count + docs_with_term(ix.skip(i as int), term@) == docs_with_term(ix, term@),
                count <= i,
            decreases self.docs@.len() - i,
        {
            proof {
                assert(ix.skip(i as int)[0] == ix[i as int]);
                assert(ix.skip(i as int).drop_first() =~= ix.skip(i + 1));
                lemma_docs_with_term_bound(ix.skip(i + 1), term@);
            }
            let m = self.map_at(i);
            if m.contains(term) {
                count = count + 1;
            }
            i = i + 1;
        }
        proof {
            assert(ix.skip(i as int).len() == 0);
        }
        count
    }

    /// The exact integer components of one document's score for a tokenised
    /// query, one tuple per query token, repeated tokens contributing once
    /// per occurrence: the token's count in the document, the document's
    /// total count, the number of documents, and the number of documents
    /// holding the token. The result is a function of the index and the
    /// tokens alone, so re-running a query always yields identical scores.
    pub fn doc_score_parts(&self, i: usize, query_tokens: &Vec<Vec<char>>) -> (r: Vec<
        (u64, u64, usize, usize),
    >)
        requires
            self.wf(),
            i < self.model().len(),
        ensures
            r@.len() == query_tokens@.len(),
            forall|j: int|
                0 <= j < r@.len() ==> (#[trigger] r@[j]) == (
                    count_of(self.model()[i as int].1, query_tokens@[j]@),
                    total_of(self.model()[i as int].1) as u64,
                    self.model().len() as usize,
                    docs_with_term(self.model(), query_tokens@[j]@) as usize,
                ),
    {
        let n_docs = self.len();
        let m = self.map_at(i);
        proof {
            assert(entries_wf(m.model()));
        }
        let total = m.total();
        let mut r: Vec<(u64, u64, usize, usize)> = Vec::new();
        let mut j: usize = 0;
        while j < query_tokens.len()
            invariant
                j <= query_tokens@.len(),
                self.wf(),
                i < self.model().len(),
                n_docs == self.model().len(),
                m.model() == self.model()[i as int].1,
                entries_wf(m.model()),
                total == total_of(m.model()),
                r@.len() == j,
                forall|jj: int|
                    0 <= jj < j ==> (#[trigger] r@[jj]) == (
                        count_of(self.model()[i as int].1, query_tokens@[jj]@),
                        total_of(self.model()[i as int].1) as u64,
                        self.model().len() as usize,
                        docs_with_term(self.model(), query_tokens@[jj]@) as usize,
                    ),
            decreases query_tokens@.len() - j,
        {
            let k = m.get(&query_tokens[j]);
            let dwt = self.docs_containing(&query_tokens[j]);
            r.push((k, total, n_docs, dwt));
            j = j + 1;
        }
        r
    }
}

/// Ranking is deterministic: the contract of `doc_score_parts` pins every
/// field of the result from the index and the query tokens alone, so any two
/// results it allows for the same index and query are identical, and
/// re-running a query yields identical scores.
pub proof fn lemma_ranking_deterministic(
    ix: Seq<(Seq<char>, Seq<(Seq<char>, u64)>)>,
    d: int,
    toks: Seq<Seq<char>>,
    r1: Seq<(u64, u64, usize, usize)>,
    r2: Seq<(u64, u64, usize, usize)>,
)
    requires
        0 <= d < ix.len(),
        r1.len() == toks.len(),
        r2.len() == toks.len(),
        forall|j: int|
            0 <= j < toks.len() ==> (#[trigger] r1[j]) == (
                count_of(ix[d].1, toks[j]),
                total_of(ix[d].1) as u64,
                ix.len() as usize,
                docs_with_term(ix, toks[j]) as usize,
            ),
        forall|j: int|
            0 <= j < toks.len() ==> (#[trigger] r2[j]) == (
                count_of(ix[d].1, toks[j]),
                total_of(ix[d].1) as u64,
                ix.len() as usize,
                docs_with_term(ix, toks[j]) as usize,
            ),
    ensures
        r1 == r2,
{
    assert(r1 =~= r2);
}

/// A load that fails on its prefix fails as a whole.
proof fn lemma_load_prefix_none(rs: Seq<(Seq<char>, Seq<u8>)>, i: int)
    requires
        0 <= i <= rs.len(),
        spec_load(rs.take(i)) is None,
    ensures
        spec_load(rs) is None,
    decreases rs.len() - i,
{
    if i < rs.len() {
        assert(rs.take(i + 1).drop_last() =~= rs.take(i));
        assert(spec_load(rs.take(i + 1)) is None);
        lemma_load_prefix_none(rs, i + 1);
    } else {
        assert(rs.take(i) =~= rs);
    }
}

} // verus!

//! A collection: vectors of one dimension with their values and source tags.

use crate::error::Error;
use crate::index::{rank, ranked, Hit};
use crate::model::{shown, CollectionView};
use vstd::prelude::*;

verus! {

/// The vectors as sequences of components.
pub open spec fn vectors(points: Seq<Vec<u32>>) -> Seq<Seq<u32>> {
    points.map_values(|p: Vec<u32>| p@)
}

/// The strings as sequences of characters.
pub open spec fn texts(strings: Seq<String>) -> Seq<Seq<char>> {
    strings.map_values(|s: String| s@)
}

/// The results of a query with each value as a sequence of characters.
pub open spec fn scored(results: Seq<(u32, String)>) -> Seq<(u32, Seq<char>)> {
    results.map_values(|r: (u32, String)| (r.0, r.1@))
}

/// A fixed-dimension bucket of vectors. The vector, the value and the source
/// tag at one position belong together.
pub struct Collection {
    dimension: usize,
    points: Vec<Vec<u32>>,
    values: Vec<String>,
    file_names: Vec<String>,
    indexed: Option<usize>,
}

impl View for Collection {
    type V = CollectionView;

    closed spec fn view(&self) -> CollectionView {
        CollectionView {
            dimension: self.dimension as nat,
            points: vectors(self.points@),
            values: texts(self.values@),
            sources: texts(self.file_names@),
            indexed: match self.indexed {
                Some(n) => Some(n as nat),
                None => None,
            },
        }
    }
}

/// Copies a list of strings.
pub(crate) fn copy_texts(strings: &Vec<String>) -> (copy: Vec<String>)
    ensures
        copy@ == strings@,
{
    let mut copy: Vec<String> = Vec::new();
    let mut i: usize = 0;
    while i < strings.len()
        invariant
            i <= strings.len(),
            copy@ == strings@.take(i as int),
        decreases strings.len() - i,
    {
        copy.push(strings[i].clone());
        assert(strings@.take(i + 1) =~= strings@.take(i as int).push(strings@[i as int]));
        i += 1;
    }
    assert(strings@.take(i as int) =~= strings@);
    copy
}

/// Copies the first `count` vectors of a list.
fn copy_vectors(points: &Vec<Vec<u32>>, count: usize) -> (copy: Vec<Vec<u32>>)
    requires
        count <= points.len(),
    ensures
        vectors(copy@) == vectors(points@).take(count as int),
{
    let mut copy: Vec<Vec<u32>> = Vec::new();
    let mut i: usize = 0;
    while i < count
        invariant
            i <= count <= points.len(),
            vectors(copy@) == vectors(points@).take(i as int),
        decreases count - i,
    {
        let point: Vec<u32> = points[i].clone();
        assert(point@ =~= points@[i as int]@);
        let ghost copied = copy@;
        copy.push(point);
        assert(vectors(copy@) =~= vectors(copied).push(point@));
        assert(vectors(points@).take(i + 1) =~= vectors(points@).take(i as int).push(point@));
        i += 1;
    }
    copy
}

impl Collection {
    /// The invariant of a collection; see [`CollectionView::wf`].
    pub open spec fn wf(&self) -> bool {
        self@.wf()
    }

    /// Creates an empty collection for vectors of the given dimension, which
    /// must not be zero.
    pub fn new(dimension: usize) -> (r: Result<Collection, Error>)
        ensures
            match r {
                Ok(c) => dimension > 0 && c@ == CollectionView::empty(dimension as nat) && c.wf(),
                Err(e) => dimension == 0 && e == Error::InvalidDimension,
            },
    {
        if dimension == 0 {
            return Err(Error::InvalidDimension);
        }
        let c = Collection {
            dimension,
            points: Vec::new(),
            values: Vec::new(),
            file_names: Vec::new(),
            indexed: None,
        };
        assert(c@ =~= CollectionView::empty(dimension as nat));
        Ok(c)
    }

    /// The length of every vector of the collection.
    pub fn dimension(&self) -> (d: usize)
        ensures
            d == self@.dimension,
    {
        self.dimension
    }

    /// The number of stored vectors.
    pub fn len(&self) -> (n: usize)
        ensures
            n == self@.points.len(),
    {
        self.points.len()
    }

    /// How many of the stored vectors the index covers, if it was ever built.
    pub fn indexed(&self) -> (n: Option<usize>)
        ensures
            match n {
                Some(n) => self@.indexed == Some(n as nat),
                None => self@.indexed is None,
            },
    {
        self.indexed
    }

    /// The stored vectors, in insertion order.
    pub fn points(&self) -> (points: &Vec<Vec<u32>>)
        ensures
            vectors(points@) == self@.points,
    {
        &self.points
    }

    /// The value stored with each vector, in insertion order.
    pub fn values(&self) -> (values: &Vec<String>)
        ensures
            texts(values@) == self@.values,
    {
        &self.values
    }

    /// Decides whether a batch may be appended.
    pub fn accepts(&self, points: &Vec<Vec<u32>>, values: &Vec<String>) -> (ok: bool)
        ensures
            ok == self@.accepts(vectors(points@), texts(values@)),
    {
        if points.len() != values.len() {
            return false;
        }
        let mut i: usize = 0;
        while i < points.len()
            invariant
                i <= points.len(),
                forall|j: int| 0 <= j < i ==> (#[trigger] vectors(points@)[j]).len() == self.dimension,
            decreases points.len() - i,
        {
            if points[i].len() != self.dimension {
                assert(vectors(points@)[i as int].len() != self.dimension);
                return false;
            }
            i += 1;
        }
        true
    }

    /// Appends a batch under one source tag, position by position. The index
    /// is not rebuilt: it keeps covering what it covered.
    pub fn append(&mut self, points: Vec<Vec<u32>>, values: Vec<String>, file_name: String)
        requires
            old(self).wf(),
            old(self)@.accepts(vectors(points@), texts(values@)),
        ensures
            final(self)@ == old(self)@.append(vectors(points@), texts(values@), file_name@),
            final(self).wf(),
    {
        let count: usize = points.len();
        let mut points = points;
        let mut values = values;
        let ghost added_points = points@;
        let ghost added_values = values@;
        self.points.append(&mut points);
        self.values.append(&mut values);
        let mut i: usize = 0;
        while i < count
            invariant
                i <= count,
                self.dimension == old(self).dimension,
                self.indexed == old(self).indexed,
                self.points@ == old(self).points@ + added_points,
                self.values@ == old(self).values@ + added_values,
                texts(self.file_names@) == texts(old(self).file_names@) + Seq::new(
                    i as nat,
                    |j: int| file_name@,
                ),
            decreases count - i,
        {
            let ghost tagged = self.file_names@;
            self.file_names.push(file_name.clone());
            assert(texts(self.file_names@) =~= texts(tagged).push(file_name@));
            assert(texts(self.file_names@) =~= texts(old(self).file_names@) + Seq::new(
                (i + 1) as nat,
                |j: int| file_name@,
            ));
            i += 1;
        }
        proof {
            let before = old(self)@;
            let after = before.append(vectors(added_points), texts(added_values), file_name@);
            assert(vectors(self.points@) =~= after.points);
            assert(texts(self.values@) =~= after.values);
            assert(self@ =~= after);
            assert forall|i: int| 0 <= i < after.points.len() implies (#[trigger] after.points[i]).len()
                == after.dimension by {
                if i < before.points.len() {
                    assert(after.points[i] == before.points[i]);
                } else {
                    assert(after.points[i] == vectors(added_points)[i - before.points.len()]);
                }
            }
        }
    }

    /// Rebuilds the index over all stored vectors.
    pub fn build_index(&mut self)
        requires
            old(self).wf(),
        ensures
            final(self)@ == old(self)@.build_index(),
            final(self).wf(),
    {
        self.indexed = Some(self.points.len());
        assert(self@ =~= old(self)@.build_index());
    }

    /// Answers a query for which the search found `hits`: the best `limit`
    /// of them, best first, each with its score and the value stored with its
    /// point. Refused where the index was never built or a neighbor names a
    /// point that the index does not cover.
    pub fn query(&self, hits: &Vec<Hit>, limit: i32) -> (r: Result<Vec<(u32, String)>, Error>)
        requires
            self.wf(),
        ensures
            match self@.query(hits@, limit as int) {
                Ok(answer) => r matches Ok(results) && scored(results@) == answer,
                Err(e) => r matches Err(f) && f == e,
            },
    {
        let covered: usize = match self.indexed {
            Some(n) => n,
            None => {
                return Err(Error::IndexNotBuilt);
            },
        };
        let mut i: usize = 0;
        while i < hits.len()
            invariant
                i <= hits.len(),
                self@.indexed == Some(covered as nat),
                forall|j: int| 0 <= j < i ==> (#[trigger] hits@[j]).id < covered,
            decreases hits.len() - i,
        {
            if hits[i].id >= covered {
                assert(hits@[i as int].id >= covered);
                return Err(Error::UnknownPoint);
            }
            i += 1;
        }
        let best: Vec<Hit> = rank(hits);
        let count: usize = if limit <= 0 {
            0
        } else if (limit as usize) < hits.len() {
            limit as usize
        } else {
            hits.len()
        };
        proof {
            crate::index::lemma_ranked(hits@);
            assert(count == shown(hits@.len(), limit as int));
            assert forall|j: int| 0 <= j < best@.len() implies (#[trigger] best@[j]).id < covered by {
                assert(best@.to_multiset().count(best@[j]) > 0) by {
                    broadcast use vstd::seq_lib::group_to_multiset_ensures;

                }
                assert(hits@.contains(best@[j])) by {
                    broadcast use vstd::seq_lib::group_to_multiset_ensures;

                }
            }
        }
        let ghost answer = self@.answer(hits@, limit as int);
        let mut results: Vec<(u32, String)> = Vec::new();
        let mut k: usize = 0;
        while k < count
            invariant
                k <= count <= best.len(),
                self.wf(),
                covered <= self.values.len(),
                best@ == ranked(hits@),
                count == shown(hits@.len(), limit as int),
                answer == self@.answer(hits@, limit as int),
                forall|j: int| 0 <= j < best@.len() ==> (#[trigger] best@[j]).id < covered,
                scored(results@) == answer.take(k as int),
            decreases count - k,
        {
            let hit: Hit = best[k];
            let value: String = self.values[hit.id].clone();
            let ghost listed = results@;
            results.push((hit.score, value));
            assert(scored(results@) =~= scored(listed).push((hit.score, value@)));
            assert(answer[k as int] == (hit.score, value@));
            assert(answer.take(k + 1) =~= answer.take(k as int).push(answer[k as int]));
            k += 1;
        }
        assert(answer.take(k as int) =~= answer);
        Ok(results)
    }

    /// The source tags, one per stored vector in insertion order.
    pub fn file_names(&self) -> (tags: Vec<String>)
        ensures
            texts(tags@) == self@.sources,
    {
        copy_texts(&self.file_names)
    }

    /// The vectors that the index covers, in insertion order: what a
    /// nearest-neighbor structure for this collection is to be built from.
    /// `None` where the index was never built.
    pub fn indexed_points(&self) -> (points: Option<Vec<Vec<u32>>>)
        requires
            self.wf(),
        ensures
            match self@.indexed {
                Some(n) => points matches Some(p) && vectors(p@) == self@.points.take(n as int),
                None => points is None,
            },
    {
        match self.indexed {
            Some(n) => Some(copy_vectors(&self.points, n)),
            None => None,
        }
    }
}

} // verus!

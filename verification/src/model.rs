//! The mathematical model of collections and databases: what each operation
//! returns and how it changes the state, as functions on sequences and maps.

use crate::error::Error;
use crate::index::{lemma_ranked, lemma_ranked_unique, ranked, ranking, score_key, Hit};
use vstd::prelude::*;

verus! {

/// A collection as a mathematical value.
#[verifier::ext_equal]
pub struct CollectionView {
    /// The length of every stored vector.
    pub dimension: nat,
    /// The stored vectors, in insertion order.
    pub points: Seq<Seq<u32>>,
    /// The value stored with each vector.
    pub values: Seq<Seq<char>>,
    /// The source tag stored with each vector.
    pub sources: Seq<Seq<char>>,
    /// How many of the points the index covers, if it was ever built. The
    /// index covers the points that were stored when it was last built.
    pub indexed: Option<nat>,
}

/// How many results a query lists when the search found `found` neighbors.
pub open spec fn shown(found: nat, limit: int) -> nat {
    if limit <= 0 {
        0
    } else if limit < found {
        limit as nat
    } else {
        found
    }
}

impl CollectionView {
    /// The invariant of a collection: a positive dimension, one value and
    /// one source tag per vector, every vector of the collection's dimension,
    /// and an index that covers no more than what is stored.
    pub open spec fn wf(self) -> bool {
        &&& self.dimension > 0
        &&& self.values.len() == self.points.len()
        &&& self.sources.len() == self.points.len()
        &&& forall|i: int|
            0 <= i < self.points.len() ==> (#[trigger] self.points[i]).len() == self.dimension
        &&& self.indexed matches Some(n) ==> n <= self.points.len()
    }

    /// The collection as created: nothing stored, no index.
    pub open spec fn empty(dimension: nat) -> CollectionView {
        CollectionView {
            dimension,
            points: Seq::empty(),
            values: Seq::empty(),
            sources: Seq::empty(),
            indexed: None,
        }
    }

    /// Whether a batch may be appended: as many values as vectors, and every
    /// vector of the collection's dimension.
    pub open spec fn accepts(self, points: Seq<Seq<u32>>, values: Seq<Seq<char>>) -> bool {
        &&& points.len() == values.len()
        &&& forall|i: int| 0 <= i < points.len() ==> (#[trigger] points[i]).len() == self.dimension
    }

    /// The collection after a batch was appended under one source tag. The
    /// index is left as it was.
    pub open spec fn append(
        self,
        points: Seq<Seq<u32>>,
        values: Seq<Seq<char>>,
        source: Seq<char>,
    ) -> CollectionView {
        CollectionView {
            dimension: self.dimension,
            points: self.points + points,
            values: self.values + values,
            sources: self.sources + Seq::new(points.len(), |i: int| source),
            indexed: self.indexed,
        }
    }

    /// The collection after its index was rebuilt over all stored points.
    pub open spec fn build_index(self) -> CollectionView {
        CollectionView {
            dimension: self.dimension,
            points: self.points,
            values: self.values,
            sources: self.sources,
            indexed: Some(self.points.len()),
        }
    }

    /// Whether every neighbor names a point that the index covers.
    pub open spec fn covers(self, hits: Seq<Hit>) -> bool {
        self.indexed matches Some(n) && forall|i: int|
            0 <= i < hits.len() ==> (#[trigger] hits[i]).id < n
    }

    /// Whether `result` is one of the neighbors with the value stored at its
    /// position.
    pub open spec fn resolves(self, hits: Seq<Hit>, result: (u32, Seq<char>)) -> bool {
        exists|h: int|
            0 <= h < hits.len() && result == ((#[trigger] hits[h]).score, self.values[hits[h].id as int])
    }

    /// The answer to a query whose search found `hits`: the best `limit` of
    /// them in ranked order, each with its score and the value of its point.
    pub open spec fn answer(self, hits: Seq<Hit>, limit: int) -> Seq<(u32, Seq<char>)> {
        let top = ranked(hits).take(shown(hits.len(), limit) as int);
        Seq::new(top.len(), |i: int| (top[i].score, self.values[top[i].id as int]))
    }

    /// What a query returns.
    pub open spec fn query(self, hits: Seq<Hit>, limit: int) -> Result<
        Seq<(u32, Seq<char>)>,
        Error,
    > {
        if self.indexed is None {
            Err(Error::IndexNotBuilt)
        } else if !self.covers(hits) {
            Err(Error::UnknownPoint)
        } else {
            Ok(self.answer(hits, limit))
        }
    }
}

/// A database as a mathematical value: its collections by name.
#[verifier::ext_equal]
pub struct DatabaseView {
    pub collections: Map<Seq<char>, CollectionView>,
}

impl DatabaseView {
    /// The invariant of a database: finitely many collections, each of them
    /// well formed.
    pub open spec fn wf(self) -> bool {
        &&& self.collections.dom().finite()
        &&& forall|name: Seq<char>| #[trigger]
            self.collections.contains_key(name) ==> self.collections[name].wf()
    }

    /// The database without collections.
    pub open spec fn empty() -> DatabaseView {
        DatabaseView { collections: Map::empty() }
    }

    /// Whether a collection of that name exists.
    pub open spec fn contains(self, name: Seq<char>) -> bool {
        self.collections.contains_key(name)
    }

    /// The database with the collection `name` set to `collection`.
    pub open spec fn with(self, name: Seq<char>, collection: CollectionView) -> DatabaseView {
        DatabaseView { collections: self.collections.insert(name, collection) }
    }

    /// The state that an operation leaves: the new one where it succeeded,
    /// the old one where it was refused.
    pub open spec fn after(self, outcome: Result<DatabaseView, Error>) -> DatabaseView {
        match outcome {
            Ok(next) => next,
            Err(_) => self,
        }
    }

    /// Creating a collection: refused where the name is taken or the
    /// dimension is zero, else the new collection is empty.
    pub open spec fn create_collection(self, name: Seq<char>, dimension: nat) -> Result<
        DatabaseView,
        Error,
    > {
        if self.contains(name) {
            Err(Error::UniqueViolation)
        } else if dimension == 0 {
            Err(Error::InvalidDimension)
        } else {
            Ok(self.with(name, CollectionView::empty(dimension)))
        }
    }

    /// Deleting a collection: refused where the name is unknown.
    pub open spec fn delete_collection(self, name: Seq<char>) -> Result<DatabaseView, Error> {
        if !self.contains(name) {
            Err(Error::NotFound)
        } else {
            Ok(DatabaseView { collections: self.collections.remove(name) })
        }
    }

    /// Appending a batch to a collection: refused where the name is unknown
    /// or the collection does not accept the batch.
    pub open spec fn insert_into_collection(
        self,
        name: Seq<char>,
        keys: Seq<Seq<u32>>,
        values: Seq<Seq<char>>,
        source: Seq<char>,
    ) -> Result<DatabaseView, Error> {
        if !self.contains(name) {
            Err(Error::NotFound)
        } else if !self.collections[name].accepts(keys, values) {
            Err(Error::DimensionMismatch)
        } else {
            Ok(self.with(name, self.collections[name].append(keys, values, source)))
        }
    }

    /// Rebuilding the index of a collection: refused where the name is
    /// unknown.
    pub open spec fn build_index(self, name: Seq<char>) -> Result<DatabaseView, Error> {
        if !self.contains(name) {
            Err(Error::NotFound)
        } else {
            Ok(self.with(name, self.collections[name].build_index()))
        }
    }

    /// Querying a collection with the vector `q`, for which the search found
    /// `hits`.
    pub open spec fn query(self, name: Seq<char>, q: Seq<u32>, limit: int, hits: Seq<Hit>) -> Result<
        Seq<(u32, Seq<char>)>,
        Error,
    > {
        if !self.contains(name) {
            Err(Error::NotFound)
        } else if q.len() != self.collections[name].dimension {
            Err(Error::DimensionMismatch)
        } else {
            self.collections[name].query(hits, limit)
        }
    }

    /// The vectors that the index of a collection covers, in insertion order.
    pub open spec fn indexed_points(self, name: Seq<char>) -> Result<Seq<Seq<u32>>, Error> {
        if !self.contains(name) {
            Err(Error::NotFound)
        } else {
            match self.collections[name].indexed {
                Some(n) => Ok(self.collections[name].points.take(n as int)),
                None => Err(Error::IndexNotBuilt),
            }
        }
    }

    /// The source tags of a collection, one per stored vector in insertion
    /// order.
    pub open spec fn get_docs(self, name: Seq<char>) -> Result<Seq<Seq<char>>, Error> {
        if !self.contains(name) {
            Err(Error::NotFound)
        } else {
            Ok(self.collections[name].sources)
        }
    }
}

/// A name can be created once: after an attempt to create a collection with
/// a dimension that is not zero, every further attempt under the same name is
/// refused with `UniqueViolation`.
pub proof fn lemma_create_twice(db: DatabaseView, name: Seq<char>, dimension: nat, again: nat)
    requires
        dimension > 0,
    ensures
        db.after(db.create_collection(name, dimension)).create_collection(name, again)
            == Err::<DatabaseView, Error>(Error::UniqueViolation),
{
}

/// Deleting an unknown name is refused with `NotFound`. Deleting a known name
/// removes it and nothing else, so that queries and listings of its source
/// tags are refused with `NotFound` from there on.
pub proof fn lemma_delete(
    db: DatabaseView,
    name: Seq<char>,
    q: Seq<u32>,
    limit: int,
    hits: Seq<Hit>,
)
    ensures
        !db.contains(name) ==> db.delete_collection(name) == Err::<DatabaseView, Error>(
            Error::NotFound,
        ),
        db.contains(name) ==> db.delete_collection(name) is Ok,
        !db.after(db.delete_collection(name)).contains(name),
        db.after(db.delete_collection(name)).query(name, q, limit, hits) == Err::<
            Seq<(u32, Seq<char>)>,
            Error,
        >(Error::NotFound),
        db.after(db.delete_collection(name)).get_docs(name) == Err::<Seq<Seq<char>>, Error>(
            Error::NotFound,
        ),
        forall|other: Seq<char>|
            other != name ==> (#[trigger] db.after(db.delete_collection(name)).contains(other)
                <==> db.contains(other)),
        forall|other: Seq<char>|
            other != name && db.contains(other) ==> #[trigger] db.after(
                db.delete_collection(name),
            ).collections[other] == db.collections[other],
{
}

/// A batch with a different number of vectors than of values is never
/// stored, in whole or in part. On a known name it is refused with
/// `DimensionMismatch`.
pub proof fn lemma_insert_count_mismatch(
    db: DatabaseView,
    name: Seq<char>,
    keys: Seq<Seq<u32>>,
    values: Seq<Seq<char>>,
    source: Seq<char>,
)
    requires
        keys.len() != values.len(),
    ensures
        db.insert_into_collection(name, keys, values, source) is Err,
        db.after(db.insert_into_collection(name, keys, values, source)) == db,
        db.contains(name) ==> db.insert_into_collection(name, keys, values, source) == Err::<
            DatabaseView,
            Error,
        >(Error::DimensionMismatch),
{
}

/// A batch in which some vector is not of the collection's dimension is
/// refused with `DimensionMismatch`, and nothing of it is stored.
pub proof fn lemma_insert_length_mismatch(
    db: DatabaseView,
    name: Seq<char>,
    keys: Seq<Seq<u32>>,
    values: Seq<Seq<char>>,
    source: Seq<char>,
    i: int,
)
    requires
        db.contains(name),
        0 <= i < keys.len(),
        keys[i].len() != db.collections[name].dimension,
    ensures
        db.insert_into_collection(name, keys, values, source) == Err::<DatabaseView, Error>(
            Error::DimensionMismatch,
        ),
        db.after(db.insert_into_collection(name, keys, values, source)) == db,
{
}

/// An accepted batch grows the collection by exactly the batch and touches
/// neither what was stored before nor what the index covers.
pub proof fn lemma_insert_appends(
    db: DatabaseView,
    name: Seq<char>,
    keys: Seq<Seq<u32>>,
    values: Seq<Seq<char>>,
    source: Seq<char>,
)
    requires
        db.wf(),
        db.contains(name),
        db.collections[name].accepts(keys, values),
    ensures
        db.insert_into_collection(name, keys, values, source) matches Ok(next) && {
            let before = db.collections[name];
            let after = next.collections[name];
            &&& next.wf()
            &&& after.points.len() == before.points.len() + keys.len()
            &&& after.points.take(before.points.len() as int) == before.points
            &&& after.values.take(before.points.len() as int) == before.values
            &&& after.sources.take(before.points.len() as int) == before.sources
            &&& after.indexed == before.indexed
            &&& forall|j: int|
                0 <= j < keys.len() ==> after.points[before.points.len() + j] == keys[j]
                    && after.values[before.points.len() + j] == values[j]
                    && after.sources[before.points.len() + j] == source
        },
{
    let before = db.collections[name];
    let after = before.append(keys, values, source);
    let next = db.with(name, after);
    assert(after.points.take(before.points.len() as int) =~= before.points);
    assert(after.values.take(before.points.len() as int) =~= before.values);
    assert(after.sources.take(before.points.len() as int) =~= before.sources);
    assert forall|i: int| 0 <= i < after.points.len() implies (#[trigger] after.points[i]).len()
        == after.dimension by {
        if i < before.points.len() {
            assert(after.points[i] == before.points[i]);
        } else {
            assert(after.points[i] == keys[i - before.points.len()]);
        }
    }
    assert(after.wf());
    assert forall|other: Seq<char>| #[trigger]
        next.collections.contains_key(other) implies next.collections[other].wf() by {
        if other != name {
            assert(db.collections.contains_key(other));
        }
    }
}

/// A query lists at most `limit` results and no more than the search found,
/// in order of scores that never increase. Each result is one of the
/// neighbors found, with the value stored at its position.
pub proof fn lemma_query_ranked(
    db: DatabaseView,
    name: Seq<char>,
    q: Seq<u32>,
    limit: int,
    hits: Seq<Hit>,
)
    requires
        db.wf(),
    ensures
        db.query(name, q, limit, hits) matches Ok(results) ==> {
            &&& results.len() == shown(hits.len(), limit)
            &&& results.len() <= hits.len()
            &&& limit >= 0 ==> results.len() <= limit
            &&& forall|i: int, j: int|
                0 <= i < j < results.len() ==> score_key((#[trigger] results[i]).0) >= score_key(
                    (#[trigger] results[j]).0,
                )
            &&& forall|i: int|
                0 <= i < results.len() ==> db.collections[name].resolves(
                    hits,
                    #[trigger] results[i],
                )
        },
{
    if db.query(name, q, limit, hits) is Ok {
        let results = db.collections[name].answer(hits, limit);
        let best = ranked(hits);
        lemma_ranked(hits);
        assert forall|i: int, j: int| 0 <= i < j < results.len() implies score_key(
            (#[trigger] results[i]).0,
        ) >= score_key((#[trigger] results[j]).0) by {
            assert(score_key(best[i].score) >= score_key(best[j].score));
        }
        assert forall|i: int| 0 <= i < results.len() implies db.collections[name].resolves(
            hits,
            #[trigger] results[i],
        ) by {
            broadcast use vstd::seq_lib::group_to_multiset_ensures;

            assert(best.to_multiset().count(best[i]) > 0);
            assert(hits.contains(best[i]));
            let h = hits.index_of(best[i]);
            assert(hits[h] == best[i]);
        }
    }
}

/// Vectors that are appended after a build are found once the index is
/// rebuilt: every stored vector is covered again, and a neighbor that names
/// an appended vector is answered with the value that was appended with it.
pub proof fn lemma_rebuild_covers_appended(
    db: DatabaseView,
    name: Seq<char>,
    keys: Seq<Seq<u32>>,
    values: Seq<Seq<char>>,
    source: Seq<char>,
    q: Seq<u32>,
    j: int,
    score: u32,
)
    requires
        db.wf(),
        db.contains(name),
        db.collections[name].accepts(keys, values),
        db.collections[name].points.len() + keys.len() <= usize::MAX,
        q.len() == db.collections[name].dimension,
        0 <= j < keys.len(),
    ensures
        db.insert_into_collection(name, keys, values, source) matches Ok(grown) && grown.build_index(
            name,
        ) matches Ok(built) && {
            let stored = db.collections[name].points.len();
            let hit = Hit { id: (stored + j) as usize, score };
            &&& built.indexed_points(name) == Ok::<Seq<Seq<u32>>, Error>(
                db.collections[name].points + keys,
            )
            &&& built.query(name, q, 1, seq![hit]) == Ok::<Seq<(u32, Seq<char>)>, Error>(
                seq![(score, values[j])],
            )
        },
{
    let before = db.collections[name];
    let stored = before.points.len();
    let after = before.append(keys, values, source).build_index();
    let hit = Hit { id: (stored + j) as usize, score };
    let hits = seq![hit];
    assert(after.points.take(after.points.len() as int) =~= before.points + keys);
    assert(hits.len() == 1 && hits[0] == hit);
    assert(after.covers(hits));
    assert(vstd::relations::sorted_by(hits, ranking()));
    lemma_ranked_unique(hits, hits);
    assert(ranked(hits).take(1) =~= hits);
    assert(after.answer(hits, 1) =~= seq![(score, values[j])]);
}

} // verus!

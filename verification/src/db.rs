//! The database: collections by name.

use crate::collection::{copy_texts, scored, texts, vectors, Collection};
use crate::error::Error;
use crate::index::Hit;
use crate::model::{CollectionView, DatabaseView};
use vstd::prelude::*;

verus! {

/// The position of `name` in a list of names.
spec fn slot(names: Seq<Seq<char>>, name: Seq<char>) -> int {
    choose|i: int| 0 <= i < names.len() && names[i] == name
}

/// The database that holds `collections[i]` under `names[i]`.
spec fn model_of(names: Seq<Seq<char>>, collections: Seq<CollectionView>) -> DatabaseView {
    DatabaseView {
        collections: Map::new(
            |name: Seq<char>| names.contains(name),
            |name: Seq<char>| collections[slot(names, name)],
        ),
    }
}

/// The collections as mathematical values.
spec fn views(collections: Seq<Collection>) -> Seq<CollectionView> {
    collections.map_values(|c: Collection| c@)
}

proof fn lemma_model_at(names: Seq<Seq<char>>, collections: Seq<CollectionView>, i: int)
    requires
        names.no_duplicates(),
        0 <= i < names.len(),
    ensures
        model_of(names, collections).contains(names[i]),
        model_of(names, collections).collections[names[i]] == collections[i],
{
    assert(names.contains(names[i]));
    assert(slot(names, names[i]) == i);
}

proof fn lemma_model_dom(names: Seq<Seq<char>>, collections: Seq<CollectionView>)
    ensures
        model_of(names, collections).collections.dom() == names.to_set(),
        model_of(names, collections).collections.dom().finite(),
{
    assert(model_of(names, collections).collections.dom() =~= names.to_set());
    vstd::seq_lib::seq_to_set_is_finite(names);
}

proof fn lemma_model_push(
    names: Seq<Seq<char>>,
    collections: Seq<CollectionView>,
    name: Seq<char>,
    collection: CollectionView,
)
    requires
        names.no_duplicates(),
        names.len() == collections.len(),
        !names.contains(name),
    ensures
        names.push(name).no_duplicates(),
        model_of(names.push(name), collections.push(collection)) == model_of(
            names,
            collections,
        ).with(name, collection),
{
    let grown = names.push(name);
    let before = model_of(names, collections);
    let after = model_of(grown, collections.push(collection));
    assert forall|i: int, j: int|
        0 <= i < grown.len() && 0 <= j < grown.len() && i != j implies grown[i] != grown[j] by {
        if i < names.len() {
            assert(names.contains(grown[i]));
        }
        if j < names.len() {
            assert(names.contains(grown[j]));
        }
    }
    assert forall|key: Seq<char>| #[trigger]
        after.collections.contains_key(key) <==> before.with(
            name,
            collection,
        ).collections.contains_key(key) by {
        if names.contains(key) {
            let i = names.index_of(key);
            assert(grown[i] == key);
        }
        if key == name {
            assert(grown[names.len() as int] == key);
        }
    }
    assert forall|key: Seq<char>| #[trigger]
        after.collections.contains_key(key) implies after.collections[key]
        == before.with(name, collection).collections[key] by {
        let i = slot(grown, key);
        lemma_model_at(grown, collections.push(collection), i);
        if key != name {
            lemma_model_at(names, collections, i);
        }
    }
    assert(after.collections =~= before.with(name, collection).collections);
}

proof fn lemma_model_remove(names: Seq<Seq<char>>, collections: Seq<CollectionView>, i: int)
    requires
        names.no_duplicates(),
        names.len() == collections.len(),
        0 <= i < names.len(),
    ensures
        names.remove(i).no_duplicates(),
        model_of(names.remove(i), collections.remove(i)).collections == model_of(
            names,
            collections,
        ).collections.remove(names[i]),
{
    let fewer = names.remove(i);
    let before = model_of(names, collections);
    let after = model_of(fewer, collections.remove(i));
    assert forall|a: int, b: int|
        0 <= a < fewer.len() && 0 <= b < fewer.len() && a != b implies fewer[a] != fewer[b] by {
        let a0 = if a < i { a } else { a + 1 };
        let b0 = if b < i { b } else { b + 1 };
        assert(fewer[a] == names[a0] && fewer[b] == names[b0]);
    }
    assert forall|key: Seq<char>| #[trigger]
        after.collections.contains_key(key) <==> before.collections.remove(
            names[i],
        ).contains_key(key) by {
        if fewer.contains(key) {
            let a = fewer.index_of(key);
            let a0 = if a < i { a } else { a + 1 };
            assert(names[a0] == key);
        }
        if names.contains(key) && key != names[i] {
            let a0 = names.index_of(key);
            let a = if a0 < i { a0 } else { a0 - 1 };
            assert(fewer[a] == key);
        }
    }
    assert forall|key: Seq<char>| #[trigger]
        after.collections.contains_key(key) implies after.collections[key]
        == before.collections.remove(names[i])[key] by {
        let a = slot(fewer, key);
        let a0 = if a < i { a } else { a + 1 };
        lemma_model_at(fewer, collections.remove(i), a);
        assert(names[a0] == key);
        lemma_model_at(names, collections, a0);
    }
    assert(after.collections =~= before.collections.remove(names[i]));
}

proof fn lemma_model_update(
    names: Seq<Seq<char>>,
    collections: Seq<CollectionView>,
    i: int,
    collection: CollectionView,
)
    requires
        names.no_duplicates(),
        names.len() == collections.len(),
        0 <= i < names.len(),
    ensures
        model_of(names, collections.update(i, collection)) == model_of(names, collections).with(
            names[i],
            collection,
        ),
{
    let before = model_of(names, collections);
    let after = model_of(names, collections.update(i, collection));
    assert(names.contains(names[i]));
    assert forall|key: Seq<char>| #[trigger]
        after.collections.contains_key(key) implies after.collections[key]
        == before.with(names[i], collection).collections[key] by {
        let a = slot(names, key);
        lemma_model_at(names, collections.update(i, collection), a);
        lemma_model_at(names, collections, a);
    }
    assert(after.collections =~= before.with(names[i], collection).collections);
}

/// A set of named collections. No two collections share a name.
pub struct Database {
    names: Vec<String>,
    collections: Vec<Collection>,
}

impl View for Database {
    type V = DatabaseView;

    closed spec fn view(&self) -> DatabaseView {
        model_of(texts(self.names@), views(self.collections@))
    }
}

impl Database {
    /// The invariant of a database: every collection has one name, no name is
    /// used twice, and every collection is well formed.
    pub closed spec fn wf(&self) -> bool {
        &&& self.names@.len() == self.collections@.len()
        &&& texts(self.names@).no_duplicates()
        &&& forall|i: int|
            0 <= i < self.collections@.len() ==> (#[trigger] self.collections@[i]).wf()
    }

    /// A well-formed database is well formed as a mathematical value.
    pub proof fn lemma_wf(&self)
        requires
            self.wf(),
        ensures
            self@.wf(),
    {
        let names = texts(self.names@);
        let collections = views(self.collections@);
        lemma_model_dom(names, collections);
        assert forall|name: Seq<char>| #[trigger]
            self@.collections.contains_key(name) implies self@.collections[name].wf() by {
            let i = slot(names, name);
            lemma_model_at(names, collections, i);
            assert(self.collections@[i].wf());
        }
    }

    /// Creates a database without collections.
    pub fn new() -> (db: Database)
        ensures
            db@ == DatabaseView::empty(),
            db.wf(),
    {
        let db = Database { names: Vec::new(), collections: Vec::new() };
        assert(db@.collections =~= DatabaseView::empty().collections);
        db
    }

    /// Finds the position of the collection of the given name.
    fn position(&self, name: &String) -> (at: Option<usize>)
        requires
            self.wf(),
        ensures
            match at {
                Some(i) => i < self.names@.len() && self.names@[i as int]@ == name@
                    && self@.contains(name@) && self@.collections[name@]
                    == self.collections@[i as int]@,
                None => !self@.contains(name@),
            },
    {
        let mut i: usize = 0;
        while i < self.names.len()
            invariant
                self.wf(),
                i <= self.names@.len(),
                forall|j: int| 0 <= j < i ==> (#[trigger] texts(self.names@)[j]) != name@,
            decreases self.names@.len() - i,
        {
            if self.names[i] == *name {
                proof {
                    lemma_model_at(texts(self.names@), views(self.collections@), i as int);
                }
                return Some(i);
            }
            i += 1;
        }
        None
    }

    /// The collection of the given name, if there is one.
    pub fn collection(&self, name: &String) -> (found: Option<&Collection>)
        requires
            self.wf(),
        ensures
            match found {
                Some(c) => self@.contains(name@) && c@ == self@.collections[name@] && c.wf(),
                None => !self@.contains(name@),
            },
    {
        match self.position(name) {
            Some(i) => Some(&self.collections[i]),
            None => None,
        }
    }

    /// Creates an empty collection. Refused with `UniqueViolation` where the
    /// name is taken, and with `InvalidDimension` where the dimension is zero.
    pub fn create_collection(&mut self, name: &String, dimension: usize) -> (r: Result<(), Error>)
        requires
            old(self).wf(),
        ensures
            match old(self)@.create_collection(name@, dimension as nat) {
                Ok(next) => r is Ok && final(self)@ == next,
                Err(e) => r matches Err(f) && f == e && final(self)@ == old(self)@,
            },
            final(self).wf(),
    {
        if self.position(name).is_some() {
            return Err(Error::UniqueViolation);
        }
        let collection = match Collection::new(dimension) {
            Ok(c) => c,
            Err(e) => {
                return Err(e);
            },
        };
        proof {
            lemma_model_push(
                texts(self.names@),
                views(self.collections@),
                name@,
                collection@,
            );
            assert(texts(self.names@.push(*name)) =~= texts(self.names@).push(name@));
            assert(views(self.collections@.push(collection)) =~= views(self.collections@).push(
                collection@,
            ));
        }
        self.names.push(name.clone());
        self.collections.push(collection);
        Ok(())
    }

    /// Appends vectors with their values to a collection, all under one
    /// source tag. Refused with `NotFound` where the name is unknown, and with
    /// `DimensionMismatch` where the numbers of vectors and values differ or
    /// a vector is not of the collection's dimension. The whole batch is
    /// checked before anything is stored. The index is not rebuilt.
    pub fn insert_into_collection(
        &mut self,
        name: &String,
        keys: Vec<Vec<u32>>,
        values: Vec<String>,
        file_name: String,
    ) -> (r: Result<(), Error>)
        requires
            old(self).wf(),
        ensures
            match old(self)@.insert_into_collection(
                name@,
                vectors(keys@),
                texts(values@),
                file_name@,
            ) {
                Ok(next) => r is Ok && final(self)@ == next,
                Err(e) => r matches Err(f) && f == e && final(self)@ == old(self)@,
            },
            final(self).wf(),
    {
        let i: usize = match self.position(name) {
            Some(i) => i,
            None => {
                return Err(Error::NotFound);
            },
        };
        if !self.collections[i].accepts(&keys, &values) {
            return Err(Error::DimensionMismatch);
        }
        self.collections[i].append(keys, values, file_name);
        proof {
            let updated = self.collections@[i as int]@;
            lemma_model_update(
                texts(self.names@),
                views(old(self).collections@),
                i as int,
                updated,
            );
            assert(views(self.collections@) =~= views(old(self).collections@).update(
                i as int,
                updated,
            ));
        }
        Ok(())
    }

    /// Rebuilds the index of a collection over all vectors it stores.
    /// Refused with `NotFound` where the name is unknown.
    pub fn build_index(&mut self, name: &String) -> (r: Result<(), Error>)
        requires
            old(self).wf(),
        ensures
            match old(self)@.build_index(name@) {
                Ok(next) => r is Ok && final(self)@ == next,
                Err(e) => r matches Err(f) && f == e && final(self)@ == old(self)@,
            },
            final(self).wf(),
    {
        let i: usize = match self.position(name) {
            Some(i) => i,
            None => {
                return Err(Error::NotFound);
            },
        };
        self.collections[i].build_index();
        proof {
            let updated = self.collections@[i as int]@;
            lemma_model_update(
                texts(self.names@),
                views(old(self).collections@),
                i as int,
                updated,
            );
            assert(views(self.collections@) =~= views(old(self).collections@).update(
                i as int,
                updated,
            ));
        }
        Ok(())
    }

    /// Answers a query with the vector `q`, for which the search of the
    /// collection's index found `hits`: at most `limit` results, best first,
    /// each a score and the value stored with the point. Refused with
    /// `NotFound` where the name is unknown, with `DimensionMismatch` where
    /// `q` is not of the collection's dimension, with `IndexNotBuilt` where
    /// the collection's index was never built, and with `UnknownPoint` where
    /// a neighbor names a point that the index does not cover.
    pub fn query(&self, name: &String, q: Vec<u32>, limit: i32, hits: Vec<Hit>) -> (r: Result<
        Vec<(u32, String)>,
        Error,
    >)
        requires
            self.wf(),
        ensures
            match self@.query(name@, q@, limit as int, hits@) {
                Ok(answer) => r matches Ok(results) && scored(results@) == answer,
                Err(e) => r matches Err(f) && f == e,
            },
    {
        let i: usize = match self.position(name) {
            Some(i) => i,
            None => {
                return Err(Error::NotFound);
            },
        };
        if q.len() != self.collections[i].dimension() {
            return Err(Error::DimensionMismatch);
        }
        self.collections[i].query(&hits, limit)
    }

    /// Deletes a collection with all it stores. Refused with `NotFound` where
    /// the name is unknown.
    pub fn delete_collection(&mut self, name: &String) -> (r: Result<(), Error>)
        requires
            old(self).wf(),
        ensures
            match old(self)@.delete_collection(name@) {
                Ok(next) => r is Ok && final(self)@ == next,
                Err(e) => r matches Err(f) && f == e && final(self)@ == old(self)@,
            },
            final(self).wf(),
    {
        let i: usize = match self.position(name) {
            Some(i) => i,
            None => {
                return Err(Error::NotFound);
            },
        };
        proof {
            lemma_model_remove(texts(self.names@), views(self.collections@), i as int);
            assert(texts(self.names@.remove(i as int)) =~= texts(self.names@).remove(i as int));
            assert(views(self.collections@.remove(i as int)) =~= views(self.collections@).remove(
                i as int,
            ));
        }
        self.names.remove(i);
        self.collections.remove(i);
        Ok(())
    }

    /// The names of all collections, each once.
    pub fn get_all_collections(&self) -> (names: Vec<String>)
        requires
            self.wf(),
        ensures
            texts(names@).no_duplicates(),
            texts(names@).to_set() == self@.collections.dom(),
            names@.len() == self@.collections.dom().len(),
    {
        proof {
            lemma_model_dom(texts(self.names@), views(self.collections@));
            texts(self.names@).unique_seq_to_set();
        }
        copy_texts(&self.names)
    }

    /// The source tags of a collection, one per stored vector in insertion
    /// order. Refused with `NotFound` where the name is unknown.
    pub fn get_docs(&self, index_name: &String) -> (r: Result<Vec<String>, Error>)
        requires
            self.wf(),
        ensures
            match self@.get_docs(index_name@) {
                Ok(tags) => r matches Ok(docs) && texts(docs@) == tags,
                Err(e) => r matches Err(f) && f == e,
            },
    {
        match self.position(index_name) {
            Some(i) => Ok(self.collections[i].file_names()),
            None => Err(Error::NotFound),
        }
    }

    /// The vectors that the index of a collection covers, in insertion order:
    /// what a nearest-neighbor structure for the collection is to be built
    /// from. Refused with `NotFound` where the name is unknown, and with
    /// `IndexNotBuilt` where the index was never built.
    pub fn indexed_points(&self, name: &String) -> (r: Result<Vec<Vec<u32>>, Error>)
        requires
            self.wf(),
        ensures
            match self@.indexed_points(name@) {
                Ok(points) => r matches Ok(p) && vectors(p@) == points,
                Err(e) => r matches Err(f) && f == e,
            },
    {
        let i: usize = match self.position(name) {
            Some(i) => i,
            None => {
                return Err(Error::NotFound);
            },
        };
        match self.collections[i].indexed_points() {
            Some(points) => Ok(points),
            None => Err(Error::IndexNotBuilt),
        }
    }
}

} // verus!

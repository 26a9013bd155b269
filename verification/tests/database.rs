use instant_distance::{Builder, Point, Search};
use vectordb::{Database, Error, Hit};

#[derive(Clone)]
struct Vector(Vec<f32>);

impl Point for Vector {
    fn distance(&self, other: &Self) -> f32 {
        1.0 - cosine_similarity(&self.0, &other.0)
    }
}

fn cosine_similarity(a: &[f32], b: &[f32]) -> f32 {
    let dot: f32 = a.iter().zip(b.iter()).map(|(x, y)| x * y).sum();
    let norm_a: f32 = a.iter().map(|x| x * x).sum::<f32>().sqrt();
    let norm_b: f32 = b.iter().map(|x| x * x).sum::<f32>().sqrt();
    dot / (norm_a * norm_b)
}

fn to_bits(keys: Vec<Vec<f32>>) -> Vec<Vec<u32>> {
    keys.into_iter()
        .map(|key| key.into_iter().map(f32::to_bits).collect())
        .collect()
}

fn from_bits(points: Vec<Vec<u32>>) -> Vec<Vector> {
    points
        .into_iter()
        .map(|point| Vector(point.into_iter().map(f32::from_bits).collect()))
        .collect()
}

/// Searches the points that the collection's index covers for the
/// neighbors of `q`, nearest first.
fn search(db: &Database, name: &String, q: &[f32]) -> Vec<Hit> {
    let points = match db.indexed_points(name) {
        Ok(points) => from_bits(points),
        Err(_) => return Vec::new(),
    };
    let ids: Vec<usize> = (0..points.len()).collect();
    let index = Builder::default().build(points, ids);
    let mut search = Search::default();
    index
        .search(&Vector(q.to_vec()), &mut search)
        .map(|item| Hit {
            id: *item.value,
            score: (1.0 - item.distance).to_bits(),
        })
        .collect()
}

fn insert(
    db: &mut Database,
    name: &String,
    keys: Vec<Vec<f32>>,
    values: Vec<String>,
    file_name: String,
) -> Result<(), Error> {
    db.insert_into_collection(name, to_bits(keys), values, file_name)
}

fn run_query(
    db: &Database,
    name: &String,
    q: Vec<f32>,
    limit: i32,
) -> Result<Vec<(f32, String)>, Error> {
    let hits = search(db, name, &q);
    let q_bits: Vec<u32> = q.iter().map(|x| x.to_bits()).collect();
    db.query(name, q_bits, limit, hits).map(|results| {
        results
            .into_iter()
            .map(|(score, value)| (f32::from_bits(score), value))
            .collect()
    })
}

fn colors() -> (Vec<Vec<f32>>, Vec<String>) {
    (
        vec![
            vec![10.0, 12.0, 4.5],
            vec![10.0, 11.0, 10.5],
            vec![10.0, 20.5, 15.0],
        ],
        vec!["red".to_string(), "green".to_string(), "blue".to_string()],
    )
}

#[test]
fn create_collection() {
    let mut db: Database = Database::new();
    let result = db.create_collection(&"test".to_string(), 3);
    assert!(result.is_ok())
}

#[test]
fn create_duplicate_collection() {
    let mut db: Database = Database::new();
    let _ = db.create_collection(&"test".to_string(), 3);
    let result = db.create_collection(&"test".to_string(), 3);
    let expected = Err(Error::UniqueViolation);
    assert_eq!(result, expected);
}

#[test]
fn delete_existing_collection() {
    let mut db: Database = Database::new();
    let _ = db.create_collection(&"test".to_string(), 3);

    assert_eq!(db.delete_collection(&"test".to_string()), Ok(()))
}

#[test]
fn delete_non_existing_collection() {
    let mut db: Database = Database::new();

    assert_eq!(
        db.delete_collection(&"test".to_string()),
        Err(Error::NotFound)
    )
}

#[test]
fn build_index() {
    let mut db: Database = Database::new();
    let _ = db.create_collection(&"test".to_string(), 3);
    let keys: Vec<Vec<f32>> = vec![
        vec![10.0, 12.0, 4.5],
        vec![10.0, 11.0, 10.5],
        vec![10.0, 20.5, 15.0],
    ];
    let values: Vec<String> = vec!["red".to_string(), "green".to_string(), "blue".to_string()];
    let _ = insert(
        &mut db,
        &"test".to_string(),
        keys,
        values,
        "test_file_name".to_string(),
    );
    let result = db.build_index(&"test".to_string());
    assert_eq!(result, Ok(()));
}

#[test]
fn append_and_build_index() {
    let mut db: Database = Database::new();
    let _ = db.create_collection(&"test".to_string(), 3);

    let keys: Vec<Vec<f32>> = vec![
        vec![10.0, 12.0, 4.5],
        vec![10.0, 11.0, 10.5],
        vec![10.0, 20.5, 15.0],
    ];
    let values: Vec<String> = vec!["red".to_string(), "green".to_string(), "blue".to_string()];
    let _ = insert(
        &mut db,
        &"test".to_string(),
        keys,
        values,
        "test_file_name".to_string(),
    );
    let _ = db.build_index(&"test".to_string());

    let keys: Vec<Vec<f32>> = vec![vec![20.0, 20.5, 15.0]];
    let values: Vec<String> = vec!["black".to_string()];
    let _ = insert(
        &mut db,
        &"test".to_string(),
        keys,
        values,
        "test_file_name".to_string(),
    );
    let result = db.build_index(&"test".to_string());
    assert_eq!(result, Ok(()));
}

#[test]
fn delete_collection_with_embeddings() {
    let mut db: Database = Database::new();
    let _ = db.create_collection(&"test".to_string(), 3);
    let keys: Vec<Vec<f32>> = vec![
        vec![10.0, 12.0, 4.5],
        vec![10.0, 11.0, 10.5],
        vec![10.0, 20.5, 15.0],
    ];
    let values: Vec<String> = vec!["red".to_string(), "green".to_string(), "blue".to_string()];
    let _ = insert(
        &mut db,
        &"test".to_string(),
        keys,
        values,
        "test_file_name".to_string(),
    );
    let _ = db.build_index(&"test".to_string());
    assert_eq!(db.delete_collection(&"test".to_string()), Ok(()));
}

#[test]
fn insert_into_collection_dimensions_mismatch_keys_values() {
    let mut db: Database = Database::new();

    let _ = db.create_collection(&"test".to_string(), 3);

    let keys: Vec<Vec<f32>> = vec![
        vec![10.0, 12.0, 4.5],
        vec![10.0, 11.0, 10.5],
        vec![10.0, 20.5, 15.0],
    ];
    let values: Vec<String> = vec!["red".to_string(), "green".to_string()];
    let result = insert(
        &mut db,
        &"test".to_string(),
        keys,
        values,
        "test_file_name".to_string(),
    );

    assert_eq!(result, Err(Error::DimensionMismatch));
}

#[test]
fn insert_into_collection_dimensions_mismatch_keys() {
    let mut db: Database = Database::new();

    let _ = db.create_collection(&"test".to_string(), 3);

    let keys: Vec<Vec<f32>> = vec![
        vec![10.0, 12.0, 4.5],
        vec![10.0, 11.0, 10.5],
        vec![10.0, 20.5, 15.0, 10.2],
    ];
    let values: Vec<String> = vec!["red".to_string(), "green".to_string(), "blue".to_string()];
    let result = insert(
        &mut db,
        &"test".to_string(),
        keys,
        values,
        "test_file_name".to_string(),
    );

    assert_eq!(result, Err(Error::DimensionMismatch));
}

#[test]
fn insert_into_collection_dimensions_mismatch() {
    let mut db: Database = Database::new();

    let _ = db.create_collection(&"test".to_string(), 4);

    let keys: Vec<Vec<f32>> = vec![
        vec![10.0, 12.0, 4.5],
        vec![10.0, 11.0, 10.5],
        vec![10.0, 20.5, 15.0],
    ];
    let values: Vec<String> = vec!["red".to_string(), "green".to_string(), "blue".to_string()];
    let result = insert(
        &mut db,
        &"test".to_string(),
        keys,
        values,
        "test_file_name".to_string(),
    );

    assert_eq!(result, Err(Error::DimensionMismatch));
}

#[test]
fn insert_into_non_existing_collection() {
    let mut db: Database = Database::new();

    let keys: Vec<Vec<f32>> = vec![
        vec![10.0, 12.0, 4.5],
        vec![10.0, 11.0, 10.5],
        vec![10.0, 20.5, 15.0],
    ];
    let values: Vec<String> = vec!["red".to_string(), "green".to_string(), "blue".to_string()];

    let result = insert(
        &mut db,
        &"test".to_string(),
        keys,
        values,
        "test_file_name".to_string(),
    );

    assert_eq!(result, Err(Error::NotFound));
}

#[test]
fn query() {
    let mut db = Database::new();
    let _ = db.create_collection(&"test".to_string(), 3);
    let keys: Vec<Vec<f32>> = vec![
        vec![10.0, 12.0, 4.5],
        vec![10.0, 11.0, 10.5],
        vec![10.0, 20.5, 15.0],
    ];
    let values: Vec<String> = vec!["red".to_string(), "green".to_string(), "blue".to_string()];
    let _ = insert(
        &mut db,
        &"test".to_string(),
        keys,
        values,
        "test_file_name".to_string(),
    );

    let _ = db.build_index(&"test".to_string());

    let query_vec: Vec<f32> = vec![10.0, 12.5, 4.5];
    let result = run_query(&db, &"test".to_string(), query_vec, 1);
    assert_eq!(result, Ok(vec![(0.9997943, "red".to_string())]));
}

#[test]
fn query_with_append() {
    let mut db = Database::new();
    let _ = db.create_collection(&"test".to_string(), 3);
    let keys: Vec<Vec<f32>> = vec![
        vec![10.0, 12.0, 4.5],
        vec![10.0, 11.0, 10.5],
        vec![10.0, 20.5, 15.0],
    ];
    let values: Vec<String> = vec!["red".to_string(), "green".to_string(), "blue".to_string()];
    let _ = insert(
        &mut db,
        &"test".to_string(),
        keys,
        values,
        "test_file_name".to_string(),
    );

    let _ = db.build_index(&"test".to_string());

    let keys: Vec<Vec<f32>> = vec![vec![10.0, 12.0, 16.5], vec![10.0, 30.0, 40.5]];
    let values: Vec<String> = vec!["yellow".to_string(), "happy".to_string()];
    let _ = insert(
        &mut db,
        &"test".to_string(),
        keys,
        values,
        "test_file_name".to_string(),
    );

    let _ = db.build_index(&"test".to_string());

    let query_vec: Vec<f32> = vec![10.0, 30.5, 35.5];
    let result = run_query(&db, &"test".to_string(), query_vec, 1);
    assert_eq!(result, Ok(vec![(0.9973914, "happy".to_string())]));
}

#[test]
fn new_database_has_no_collections() {
    let db = Database::new();
    assert!(db.get_all_collections().is_empty());
    assert!(db.collection(&"test".to_string()).is_none());
}

#[test]
fn create_with_zero_dimension_is_refused() {
    let mut db = Database::new();
    assert_eq!(
        db.create_collection(&"test".to_string(), 0),
        Err(Error::InvalidDimension)
    );
    assert!(db.get_all_collections().is_empty());
}

#[test]
fn duplicate_is_reported_before_zero_dimension() {
    let mut db = Database::new();
    assert_eq!(db.create_collection(&"test".to_string(), 3), Ok(()));
    assert_eq!(
        db.create_collection(&"test".to_string(), 0),
        Err(Error::UniqueViolation)
    );
}

#[test]
fn duplicate_create_keeps_the_first_collection() {
    let mut db = Database::new();
    let name = "test".to_string();
    assert_eq!(db.create_collection(&name, 3), Ok(()));
    let (keys, values) = colors();
    assert_eq!(insert(&mut db, &name, keys, values, "a".to_string()), Ok(()));
    assert_eq!(db.create_collection(&name, 7), Err(Error::UniqueViolation));
    let kept = db.collection(&name).unwrap();
    assert_eq!(kept.dimension(), 3);
    assert_eq!(kept.len(), 3);
}

#[test]
fn list_collections_names_each_once() {
    let mut db = Database::new();
    for name in ["a", "b", "c"] {
        assert_eq!(db.create_collection(&name.to_string(), 2), Ok(()));
    }
    let mut names = db.get_all_collections();
    names.sort();
    assert_eq!(names, vec!["a".to_string(), "b".to_string(), "c".to_string()]);
    assert_eq!(db.delete_collection(&"b".to_string()), Ok(()));
    let mut names = db.get_all_collections();
    names.sort();
    assert_eq!(names, vec!["a".to_string(), "c".to_string()]);
}

#[test]
fn deleted_collection_is_gone_for_readers() {
    let mut db = Database::new();
    let name = "test".to_string();
    let other = "other".to_string();
    let _ = db.create_collection(&name, 3);
    let _ = db.create_collection(&other, 3);
    let (keys, values) = colors();
    let _ = insert(&mut db, &name, keys, values, "a".to_string());
    let (keys, values) = colors();
    let _ = insert(&mut db, &other, keys, values, "b".to_string());
    let _ = db.build_index(&name);
    assert_eq!(db.delete_collection(&name), Ok(()));
    assert_eq!(db.get_docs(&name), Err(Error::NotFound));
    assert_eq!(
        run_query(&db, &name, vec![10.0, 12.5, 4.5], 1),
        Err(Error::NotFound)
    );
    assert_eq!(db.build_index(&name), Err(Error::NotFound));
    assert_eq!(db.indexed_points(&name), Err(Error::NotFound));
    assert_eq!(db.delete_collection(&name), Err(Error::NotFound));
    assert_eq!(db.get_docs(&other), Ok(vec!["b".to_string(); 3]));
    assert_eq!(db.create_collection(&name, 5), Ok(()));
    assert_eq!(db.get_docs(&name), Ok(Vec::new()));
}

#[test]
fn refused_insert_leaves_the_collection_unchanged() {
    let mut db = Database::new();
    let name = "test".to_string();
    let _ = db.create_collection(&name, 3);
    let (keys, values) = colors();
    assert_eq!(insert(&mut db, &name, keys, values, "first".to_string()), Ok(()));

    let (keys, mut values) = colors();
    values.pop();
    assert_eq!(
        insert(&mut db, &name, keys, values, "second".to_string()),
        Err(Error::DimensionMismatch)
    );
    let (mut keys, values) = colors();
    keys[2].push(1.0);
    assert_eq!(
        insert(&mut db, &name, keys, values, "third".to_string()),
        Err(Error::DimensionMismatch)
    );
    let (mut keys, values) = colors();
    keys[0].pop();
    assert_eq!(
        insert(&mut db, &name, keys, values, "fourth".to_string()),
        Err(Error::DimensionMismatch)
    );

    let kept = db.collection(&name).unwrap();
    assert_eq!(kept.len(), 3);
    assert_eq!(kept.points(), &to_bits(colors().0));
    assert_eq!(kept.values(), &colors().1);
    assert_eq!(db.get_docs(&name), Ok(vec!["first".to_string(); 3]));
}

#[test]
fn mismatched_counts_on_unknown_name_report_not_found() {
    let mut db = Database::new();
    let (keys, mut values) = colors();
    values.pop();
    assert_eq!(
        insert(&mut db, &"test".to_string(), keys, values, "a".to_string()),
        Err(Error::NotFound)
    );
}

#[test]
fn empty_batch_is_accepted() {
    let mut db = Database::new();
    let name = "test".to_string();
    let _ = db.create_collection(&name, 3);
    assert_eq!(
        insert(&mut db, &name, Vec::new(), Vec::new(), "a".to_string()),
        Ok(())
    );
    assert_eq!(db.get_docs(&name), Ok(Vec::new()));
}

#[test]
fn get_docs_lists_one_tag_per_vector_in_insertion_order() {
    let mut db = Database::new();
    let name = "test".to_string();
    let _ = db.create_collection(&name, 3);
    let (keys, values) = colors();
    let _ = insert(&mut db, &name, keys, values, "first".to_string());
    let _ = insert(
        &mut db,
        &name,
        vec![vec![1.0, 2.0, 3.0]],
        vec!["black".to_string()],
        "second".to_string(),
    );
    assert_eq!(
        db.get_docs(&name),
        Ok(vec![
            "first".to_string(),
            "first".to_string(),
            "first".to_string(),
            "second".to_string(),
        ])
    );
    assert_eq!(db.get_docs(&"none".to_string()), Err(Error::NotFound));
}

#[test]
fn insert_does_not_rebuild_the_index() {
    let mut db = Database::new();
    let name = "test".to_string();
    let _ = db.create_collection(&name, 3);
    let (keys, values) = colors();
    let _ = insert(&mut db, &name, keys, values, "a".to_string());
    assert_eq!(db.indexed_points(&name), Err(Error::IndexNotBuilt));
    assert_eq!(db.collection(&name).unwrap().indexed(), None);

    assert_eq!(db.build_index(&name), Ok(()));
    assert_eq!(db.indexed_points(&name), Ok(to_bits(colors().0)));

    let _ = insert(
        &mut db,
        &name,
        vec![vec![10.0, 30.0, 40.5]],
        vec!["happy".to_string()],
        "a".to_string(),
    );
    assert_eq!(db.collection(&name).unwrap().len(), 4);
    assert_eq!(db.collection(&name).unwrap().indexed(), Some(3));
    assert_eq!(db.indexed_points(&name), Ok(to_bits(colors().0)));

    assert_eq!(db.build_index(&name), Ok(()));
    assert_eq!(db.collection(&name).unwrap().indexed(), Some(4));
    assert_eq!(db.indexed_points(&name).map(|p| p.len()), Ok(4));
}

#[test]
fn build_index_on_unknown_name_is_refused() {
    let mut db = Database::new();
    assert_eq!(db.build_index(&"test".to_string()), Err(Error::NotFound));
}

#[test]
fn query_errors_in_order_of_precedence() {
    let mut db = Database::new();
    let name = "test".to_string();
    let hit = Hit { id: 0, score: 1.0f32.to_bits() };
    assert_eq!(
        db.query(&name, vec![0, 0, 0], 1, vec![hit]),
        Err(Error::NotFound)
    );
    let _ = db.create_collection(&name, 3);
    assert_eq!(
        db.query(&name, vec![0, 0], 1, vec![hit]),
        Err(Error::DimensionMismatch)
    );
    assert_eq!(
        db.query(&name, vec![0, 0, 0], 1, vec![hit]),
        Err(Error::IndexNotBuilt)
    );
    let _ = db.build_index(&name);
    assert_eq!(
        db.query(&name, vec![0, 0, 0], 1, vec![hit]),
        Err(Error::UnknownPoint)
    );
    assert_eq!(db.query(&name, vec![0, 0, 0], 1, Vec::new()), Ok(Vec::new()));
}

#[test]
fn query_with_wrong_dimension_is_refused() {
    let mut db = Database::new();
    let name = "test".to_string();
    let _ = db.create_collection(&name, 3);
    let (keys, values) = colors();
    let _ = insert(&mut db, &name, keys, values, "a".to_string());
    let _ = db.build_index(&name);
    assert_eq!(
        run_query(&db, &name, vec![10.0, 12.5], 1),
        Err(Error::DimensionMismatch)
    );
    assert_eq!(
        run_query(&db, &name, vec![10.0, 12.5, 4.5, 1.0], 1),
        Err(Error::DimensionMismatch)
    );
}

#[test]
fn query_on_an_empty_index_finds_nothing() {
    let mut db = Database::new();
    let name = "test".to_string();
    let _ = db.create_collection(&name, 3);
    let _ = db.build_index(&name);
    assert_eq!(run_query(&db, &name, vec![10.0, 12.5, 4.5], 5), Ok(Vec::new()));
}

#[test]
fn neighbor_beyond_the_index_is_refused_until_rebuild() {
    let mut db = Database::new();
    let name = "test".to_string();
    let _ = db.create_collection(&name, 3);
    let (keys, values) = colors();
    let _ = insert(&mut db, &name, keys, values, "a".to_string());
    let _ = db.build_index(&name);
    let _ = insert(
        &mut db,
        &name,
        vec![vec![10.0, 30.0, 40.5]],
        vec!["happy".to_string()],
        "a".to_string(),
    );
    let hit = Hit { id: 3, score: 0.5f32.to_bits() };
    assert_eq!(
        db.query(&name, vec![0, 0, 0], 1, vec![hit]),
        Err(Error::UnknownPoint)
    );
    let _ = db.build_index(&name);
    assert_eq!(
        db.query(&name, vec![0, 0, 0], 1, vec![hit]),
        Ok(vec![(0.5f32.to_bits(), "happy".to_string())])
    );
}

#[test]
fn query_lists_at_most_limit_results_in_descending_order() {
    let mut db = Database::new();
    let name = "test".to_string();
    let _ = db.create_collection(&name, 3);
    let (keys, values) = colors();
    let _ = insert(&mut db, &name, keys, values, "a".to_string());
    let _ = insert(
        &mut db,
        &name,
        vec![vec![10.0, 12.0, 16.5], vec![10.0, 30.0, 40.5]],
        vec!["yellow".to_string(), "happy".to_string()],
        "a".to_string(),
    );
    let _ = db.build_index(&name);
    for limit in 0..8 {
        let results = run_query(&db, &name, vec![10.0, 30.5, 35.5], limit).unwrap();
        assert_eq!(results.len(), usize::min(limit as usize, 5));
        for pair in results.windows(2) {
            assert!(pair[0].0 >= pair[1].0);
        }
    }
    let all = run_query(&db, &name, vec![10.0, 30.5, 35.5], 5).unwrap();
    let order: Vec<&str> = all.iter().map(|(_, value)| value.as_str()).collect();
    assert_eq!(order, vec!["happy", "yellow", "blue", "green", "red"]);
    assert_eq!(run_query(&db, &name, vec![10.0, 30.5, 35.5], -1), Ok(Vec::new()));
}

#[test]
fn stored_vector_is_its_own_nearest_neighbor() {
    let mut db = Database::new();
    let name = "test".to_string();
    let _ = db.create_collection(&name, 3);
    let (keys, values) = colors();
    let _ = insert(&mut db, &name, keys, values, "a".to_string());
    let _ = db.build_index(&name);
    let (keys, values) = colors();
    for (key, value) in keys.into_iter().zip(values) {
        let results = run_query(&db, &name, key, 1).unwrap();
        assert_eq!(results.len(), 1);
        assert_eq!(results[0].1, value);
        assert!((results[0].0 - 1.0).abs() < 1e-6);
    }
}

#[test]
fn appended_vector_is_found_only_after_rebuild() {
    let mut db = Database::new();
    let name = "test".to_string();
    let _ = db.create_collection(&name, 3);
    let (keys, values) = colors();
    let _ = insert(&mut db, &name, keys, values, "a".to_string());
    let _ = db.build_index(&name);
    let _ = insert(
        &mut db,
        &name,
        vec![vec![10.0, 30.0, 40.5]],
        vec!["happy".to_string()],
        "a".to_string(),
    );
    let stale = run_query(&db, &name, vec![10.0, 30.0, 40.5], 5).unwrap();
    assert_eq!(stale.len(), 3);
    assert!(stale.iter().all(|(_, value)| value != "happy"));

    let _ = db.build_index(&name);
    let fresh = run_query(&db, &name, vec![10.0, 30.0, 40.5], 5).unwrap();
    assert_eq!(fresh.len(), 4);
    assert_eq!(fresh[0].1, "happy");
}

#[test]
fn collections_are_independent() {
    let mut db = Database::new();
    let a = "a".to_string();
    let b = "b".to_string();
    let _ = db.create_collection(&a, 3);
    let _ = db.create_collection(&b, 2);
    let (keys, values) = colors();
    let _ = insert(&mut db, &a, keys, values, "fa".to_string());
    let _ = insert(
        &mut db,
        &b,
        vec![vec![1.0, 0.0], vec![0.0, 1.0]],
        vec!["east".to_string(), "north".to_string()],
        "fb".to_string(),
    );
    let _ = db.build_index(&b);
    assert_eq!(db.indexed_points(&a), Err(Error::IndexNotBuilt));
    assert_eq!(db.get_docs(&a).map(|d| d.len()), Ok(3));
    assert_eq!(db.get_docs(&b).map(|d| d.len()), Ok(2));
    let results = run_query(&db, &b, vec![0.1, 1.0], 2).unwrap();
    assert_eq!(results[0].1, "north");
    assert_eq!(results[1].1, "east");
}

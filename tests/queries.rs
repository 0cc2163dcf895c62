use genomic_query::config::{all_columns, handle_null};
use genomic_query::filters::{ex0, ex2};
use genomic_query::json::{Json, JsonNumber};
use genomic_query::mutation_query::{nuc_mutation_counts, select_counts, selected_indices, Database2};
use genomic_query::query::{AggregatedQuery, DetailsQuery, NucSequencesQuery};
use genomic_query::{DataType, MutationCount, MutationStore, NucCode, NucMutation, SchemaConfig, SchemaConfigMetadata};

fn m(position: usize, to: NucCode) -> NucMutation {
    NucMutation { position, to }
}

fn store() -> MutationStore {
    let mut store = MutationStore::with_capacity(4);
    let none: Vec<&str> = Vec::new();
    store.push(&vec![m(1, NucCode::A), m(2, NucCode::GAP)], &none).unwrap();
    store.push(&vec![m(1, NucCode::A)], &none).unwrap();
    store.push(&vec![m(3, NucCode::T)], &none).unwrap();
    store.push(&vec![], &vec!["1-2"]).unwrap();
    store
}

#[test]
fn selects_indices_of_mask() {
    assert_eq!(selected_indices(&vec![true, false, true, true]), vec![0, 2, 3]);
    assert!(selected_indices(&vec![false, false]).is_empty());
}

#[test]
fn selects_counts_by_proportion_and_kind() {
    let counts = vec![
        MutationCount { mutation: m(1, NucCode::A), count: 1, denominator: 20 },
        MutationCount { mutation: m(2, NucCode::GAP), count: 5, denominator: 10 },
        MutationCount { mutation: m(3, NucCode::C), count: 1, denominator: 21 },
    ];
    let kept = select_counts(counts.clone(), 1, 20, true);
    assert_eq!(kept, vec![counts[0], counts[1]]);
    let no_deletions = select_counts(counts.clone(), 1, 20, false);
    assert_eq!(no_deletions, vec![counts[0]]);
}

#[test]
fn nuc_mutations_of_filtered_sequences() {
    let s = store();
    let counts = nuc_mutation_counts(&s, &vec![true, true, false, true], 0, 1, false);
    assert_eq!(counts.len(), 1);
    assert_eq!(counts[0].mutation, m(1, NucCode::A));
    assert_eq!((counts[0].count, counts[0].denominator), (2, 2));
    let with_deletions = nuc_mutation_counts(&s, &vec![true, true, false, true], 0, 1, true);
    assert_eq!(with_deletions.len(), 2);
    assert_eq!((with_deletions[1].count, with_deletions[1].denominator), (1, 2));
}

#[test]
fn database_keeps_frequent_mutations() {
    let db = Database2 { size: 4, nuc_mutation_store: store() };
    let counts = db.nuc_muts(&vec![0, 1, 2, 3]);
    assert_eq!(counts.len(), 3);
    assert_eq!(counts[2].mutation, m(3, NucCode::T));
    assert_eq!((counts[2].count, counts[2].denominator), (1, 4));
}

fn obj(members: Vec<(&str, Json)>) -> Json {
    Json::Object(members.into_iter().map(|(k, v)| (k.to_string(), v)).collect())
}

#[test]
fn parses_select_documents() {
    let q = AggregatedQuery::from_json_value(&obj(vec![(
        "fields",
        Json::Array(vec![Json::String("country".to_string()), Json::String("date".to_string())]),
    )]))
    .unwrap();
    assert_eq!(q.fields, vec!["country".to_string(), "date".to_string()]);
    let bad = obj(vec![("fields", Json::Array(vec![Json::Number(JsonNumber { as_u64: Some(1), as_i64: Some(1) })]))]);
    assert!(AggregatedQuery::from_json_value(&bad).is_none());
    assert!(DetailsQuery::from_json_value(&obj(vec![("fields", Json::Array(vec![]))])).unwrap().fields.is_empty());
    assert!(NucSequencesQuery::from_json_value(&obj(vec![("aligned", Json::Bool(true))])).unwrap().aligned);
    assert!(NucSequencesQuery::from_json_value(&obj(vec![("aligned", Json::Null)])).is_none());
}

#[test]
fn schema_gains_date_columns() {
    let schema = SchemaConfig {
        instance_name: "test".to_string(),
        additional_metadata: vec![SchemaConfigMetadata { name: "country".to_string(), data_type: DataType::String }],
        primary_key: "country".to_string(),
    };
    let columns = all_columns(&schema);
    let names: Vec<&str> = columns.iter().map(|c| c.name.as_str()).collect();
    assert_eq!(names, vec!["country", "date", "year", "month", "day"]);
    assert_eq!(columns[1].data_type, DataType::Date);
    assert_eq!(columns[4].data_type, DataType::Integer);
}

#[test]
fn example_filters() {
    let a = ex0();
    assert_eq!((a.column.as_str(), a.value.as_str()), ("country", "Switzerland"));
    let b = ex2();
    assert_eq!((b.position, b.value), (25407, NucCode::A));
}

#[test]
fn missing_metadata_cells() {
    assert_eq!(handle_null(""), None);
    assert_eq!(handle_null("?"), None);
    assert_eq!(handle_null("NA"), None);
    assert_eq!(handle_null("Switzerland"), Some("Switzerland".to_string()));
}

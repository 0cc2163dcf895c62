use genomic_query::filter_parse::from_json_value;
use genomic_query::filters::{And, DateBetw, EvalError, Filter, IntBetw, NOf, Neg, NucEq, Or, StrEq};
use genomic_query::json::{Json, JsonNumber};
use genomic_query::query::{AggregatedQuery, AggregatedQueryResult, AggregationKey};
use genomic_query::{Column, DataType, Database, NucCode, SchemaConfigMetadata};

fn s(x: &str) -> String {
    x.to_string()
}

fn database() -> Database {
    Database {
        number_entries: 4,
        metadata: vec![
            (s("country"), Column::Str(vec![Some(s("Switzerland")), Some(s("Switzerland")), None, Some(s("Germany"))])),
            (s("clade"), Column::Str(vec![Some(s("X")), None, Some(s("Y")), Some(s("X"))])),
            (s("age"), Column::Int(vec![Some(30), Some(70), None, Some(50)])),
            (s("date"), Column::Int(vec![Some(18628), Some(18700), Some(18800), None])),
        ],
        nuc_columns: vec![(25407, vec![NucCode::A, NucCode::T, NucCode::A, NucCode::N])],
        column_schema: vec![
            meta("country", DataType::String),
            meta("clade", DataType::String),
            meta("age", DataType::Integer),
            meta("date", DataType::Date),
        ],
    }
}

fn meta(name: &str, data_type: DataType) -> SchemaConfigMetadata {
    SchemaConfigMetadata { name: s(name), data_type }
}

fn str_eq(column: &str, value: &str) -> Filter {
    Filter::StrEq(StrEq { column: s(column), value: s(value) })
}

fn neg(f: Filter) -> Filter {
    Filter::Neg(Neg { child: Box::new(f) })
}

fn obj(members: Vec<(&str, Json)>) -> Json {
    Json::Object(members.into_iter().map(|(k, v)| (s(k), v)).collect())
}

fn text(x: &str) -> Json {
    Json::String(s(x))
}

fn uint(x: u64) -> Json {
    Json::Number(JsonNumber { as_u64: Some(x), as_i64: i64::try_from(x).ok() })
}

fn scenario_json() -> Json {
    obj(vec![
        ("type", text("And")),
        ("children", Json::Array(vec![
            obj(vec![("type", text("StrEq")), ("column", text("country")), ("value", text("Switzerland"))]),
            obj(vec![
                ("type", text("Or")),
                ("children", Json::Array(vec![
                    obj(vec![("type", text("NucEq")), ("position", uint(25407)), ("value", text("A"))]),
                    obj(vec![
                        ("type", text("Neg")),
                        ("child", obj(vec![("type", text("StrEq")), ("column", text("clade")), ("value", text("hMPXV-1"))])),
                    ]),
                ])),
            ]),
        ])),
    ])
}

#[test]
fn filters_parse_json() {
    let parsed = from_json_value(&scenario_json());
    assert!(parsed.is_some());
}

#[test]
fn scenario_filter_evaluates_with_nulls() {
    let parsed = from_json_value(&obj(vec![
        ("type", text("And")),
        ("children", Json::Array(vec![
            obj(vec![("type", text("StrEq")), ("column", text("country")), ("value", text("Switzerland"))]),
            obj(vec![
                ("type", text("Or")),
                ("children", Json::Array(vec![
                    obj(vec![("type", text("NucEq")), ("position", uint(25407)), ("value", text("A"))]),
                    obj(vec![
                        ("type", text("Neg")),
                        ("child", obj(vec![("type", text("StrEq")), ("column", text("clade")), ("value", text("X"))])),
                    ]),
                ])),
            ]),
        ])),
    ]))
    .unwrap();
    let mask = parsed.evaluate(&database()).unwrap();
    assert_eq!(mask, vec![true, true, false, false]);
}

#[test]
fn mask_has_one_entry_per_sequence() {
    let db = database();
    let f = Filter::NOf(NOf { n: 1, exactly: true, children: vec![str_eq("clade", "X"), str_eq("country", "Germany")] });
    assert_eq!(f.evaluate(&db).unwrap().len(), 4);
}

#[test]
fn degenerate_combinators() {
    let db = database();
    assert_eq!(Filter::And(And { children: vec![] }).evaluate(&db).unwrap(), vec![true; 4]);
    assert_eq!(Filter::Or(Or { children: vec![] }).evaluate(&db).unwrap(), vec![false; 4]);
    let none = Filter::NOf(NOf { n: 0, exactly: true, children: vec![str_eq("nope", "x")] });
    assert_eq!(none.evaluate(&db).unwrap(), vec![true; 4]);
    let too_many = Filter::NOf(NOf { n: 2, exactly: false, children: vec![str_eq("nope", "x")] });
    assert_eq!(too_many.evaluate(&db).unwrap(), vec![false; 4]);
}

#[test]
fn double_negation() {
    let db = database();
    let f = str_eq("clade", "X");
    let once = f.evaluate(&db).unwrap();
    assert_eq!(neg(neg(str_eq("clade", "X"))).evaluate(&db).unwrap(), once);
    assert_eq!(neg(str_eq("clade", "X")).evaluate(&db).unwrap(), vec![false, true, true, false]);
}

#[test]
fn n_of_counts_children() {
    let db = database();
    let children = || vec![str_eq("clade", "X"), str_eq("country", "Switzerland")];
    let exactly = Filter::NOf(NOf { n: 1, exactly: true, children: children() });
    assert_eq!(exactly.evaluate(&db).unwrap(), vec![false, true, false, true]);
    let at_least = Filter::NOf(NOf { n: 1, exactly: false, children: children() });
    assert_eq!(at_least.evaluate(&db).unwrap(), vec![true, true, false, true]);
}

#[test]
fn int_and_date_ranges() {
    let db = database();
    let f = Filter::IntBetw(IntBetw { column: s("age"), from: Some(40), to: None });
    assert_eq!(f.evaluate(&db).unwrap(), vec![false, true, false, true]);
    let g = Filter::IntBetw(IntBetw { column: s("age"), from: None, to: Some(50) });
    assert_eq!(g.evaluate(&db).unwrap(), vec![true, false, false, true]);
    let d = Filter::DateBetw(DateBetw { int_betw: IntBetw { column: s("date"), from: Some(18628), to: Some(18700) } });
    assert_eq!(d.evaluate(&db).unwrap(), vec![true, true, false, false]);
}

#[test]
fn nuc_eq_reads_column() {
    let db = database();
    let f = Filter::NucEq(NucEq { position: 25407, value: NucCode::A });
    assert_eq!(f.evaluate(&db).unwrap(), vec![true, false, true, false]);
    let missing = Filter::NucEq(NucEq { position: 1, value: NucCode::A });
    assert_eq!(missing.evaluate(&db), Err(EvalError::MissingNucColumn));
}

#[test]
fn evaluation_errors() {
    let db = database();
    assert_eq!(str_eq("nope", "x").evaluate(&db), Err(EvalError::MissingColumn));
    assert_eq!(str_eq("age", "x").evaluate(&db), Err(EvalError::WrongColumnType));
    let f = Filter::IntBetw(IntBetw { column: s("country"), from: None, to: None });
    assert_eq!(f.evaluate(&db), Err(EvalError::WrongColumnType));
}

#[test]
fn parse_rejects_malformed() {
    assert!(from_json_value(&obj(vec![("type", text("Nope"))])).is_none());
    assert!(from_json_value(&obj(vec![("type", text("StrEq")), ("column", text("c"))])).is_none());
    assert!(from_json_value(&obj(vec![("type", text("NucEq")), ("position", uint(5)), ("value", text("AA"))])).is_none());
    assert!(from_json_value(&obj(vec![("type", text("And")), ("children", Json::Array(vec![Json::Null]))])).is_none());
    assert!(from_json_value(&Json::Null).is_none());
}

#[test]
fn parse_date_bounds() {
    let f = from_json_value(&obj(vec![
        ("type", text("DateBetw")),
        ("column", text("date")),
        ("from", text("2021-01-01")),
        ("to", Json::Null),
    ]))
    .unwrap();
    match f {
        Filter::DateBetw(d) => {
            assert_eq!(d.int_betw.from, Some(18628));
            assert_eq!(d.int_betw.to, None);
        }
        _ => panic!("expected a date range"),
    }
    assert!(from_json_value(&obj(vec![("type", text("DateBetw")), ("column", text("date")), ("from", text("2021-13-01"))])).is_none());
}

#[test]
fn aggregates_by_fields() {
    let db = database();
    let q = AggregatedQuery { fields: vec![s("country")] };
    let res = q.evaluate(&vec![true, true, true, true], &db).unwrap();
    assert_eq!(res.counts.len(), 3);
    assert_eq!(res.counts[0].0.strs, vec![Some(s("Switzerland"))]);
    assert_eq!(res.counts[0].1, 2);
    assert_eq!(res.counts[1].0.strs, vec![None]);
    assert_eq!(res.counts[1].1, 1);
    assert_eq!(res.counts[2].1, 1);
    let total = AggregatedQuery { fields: vec![] }.evaluate(&vec![true, false, true, true], &db).unwrap();
    assert_eq!(total.counts.len(), 1);
    assert_eq!(total.counts[0].1, 3);
    assert!(AggregatedQuery { fields: vec![s("nope")] }.evaluate(&vec![true; 4], &db).is_err());
    let mut key = AggregationKey::new();
    key.put_int(Some(3));
    key.put_str(None);
    assert_eq!(key.ints, vec![Some(3)]);
}

fn member<'a>(j: &'a Json, key: &str) -> &'a Json {
    match j {
        Json::Object(o) => &o.iter().find(|(k, _)| k == key).unwrap().1,
        _ => panic!("expected an object"),
    }
}

fn text_of(j: &Json) -> Option<&str> {
    match j {
        Json::String(t) => Some(t.as_str()),
        _ => None,
    }
}

fn int_of(j: &Json) -> Option<i64> {
    match j {
        Json::Number(n) => n.as_i64,
        _ => None,
    }
}

#[test]
fn aggregated_output_types_fields() {
    let db = database();
    let q = AggregatedQuery { fields: vec![s("age"), s("country"), s("date")] };
    let res = q.evaluate(&vec![true, false, true, false], &db).unwrap();
    let types = db.column_types(&res.fields).unwrap();
    assert_eq!(types, vec![DataType::Integer, DataType::String, DataType::Date]);
    let json = res.to_json_value(&types).unwrap();
    let groups = match &json {
        Json::Array(items) => items,
        _ => panic!("expected an array"),
    };
    assert_eq!(groups.len(), 2);
    assert_eq!(int_of(member(&groups[0], "age")), Some(30));
    assert_eq!(text_of(member(&groups[0], "country")), Some("Switzerland"));
    assert_eq!(text_of(member(&groups[0], "date")), Some("2021-01-01"));
    assert_eq!(int_of(member(&groups[0], "count")), Some(1));
    assert!(matches!(member(&groups[1], "age"), Json::Null));
    assert!(matches!(member(&groups[1], "country"), Json::Null));
    assert_eq!(text_of(member(&groups[1], "date")), Some("2021-06-22"));
    assert!(db.column_types(&vec![s("nope")]).is_none());
}

#[test]
fn aggregated_output_needs_slots_and_dates() {
    let mut key = AggregationKey::new();
    key.put_int(Some(i32::MAX));
    let res = AggregatedQueryResult { fields: vec![s("d")], counts: vec![(key, 2)] };
    assert!(res.to_json_value(&vec![DataType::Date]).is_none());
    assert!(res.to_json_value(&vec![DataType::String]).is_none());
    let json = res.to_json_value(&vec![DataType::Integer]).unwrap();
    match &json {
        Json::Array(items) => assert_eq!(int_of(member(&items[0], "d")), Some(i32::MAX as i64)),
        _ => panic!("expected an array"),
    }
}

use config_loader::text::int_to_text;
use config_loader::{search_step, ConfigError, ConfigLoader, Field, Kind, SearchStep, Value};

fn text(v: &str) -> Value {
    Value::Str(v.to_string())
}

fn entry(k: &str, v: Value) -> (String, Value) {
    (k.to_string(), v)
}

fn loader(es: Vec<(String, Value)>) -> ConfigLoader {
    ConfigLoader::from_sources(es, &vec![])
}

#[test]
fn nested_table_lookup() {
    let c = loader(vec![entry("a", Value::Table(vec![entry("k", text("v"))]))]);
    assert_eq!("v", c.get_string("a.k").unwrap());
}

#[test]
fn literal_dotted_key_under_table_of_same_name() {
    // [a] holding the literal key "a.b.c"
    let c = loader(vec![entry("a", Value::Table(vec![entry("a.b.c", text("v"))]))]);
    assert!(matches!(c.get_string("a.b.c"), Err(ConfigError::NotFound(p)) if p == "a.b.c"));
    assert_eq!("v", c.get_string("a.a.b.c").unwrap());
}

#[test]
fn nested_dotted_key_under_table_of_same_name() {
    let inner = Value::Table(vec![entry("b", Value::Table(vec![entry("c", text("v"))]))]);
    let c = loader(vec![entry("a", Value::Table(vec![entry("a", inner)]))]);
    assert!(matches!(c.get_string("a.b.c"), Err(ConfigError::NotFound(_))));
    assert_eq!("v", c.get_string("a.a.b.c").unwrap());
}

#[test]
fn literal_dotted_key_at_top_level() {
    let c = loader(vec![entry("x", Value::Int(1)), entry("x.y", text("flat"))]);
    assert_eq!("flat", c.get_string("x.y").unwrap());
}

#[test]
fn longer_literal_key_after_a_non_table() {
    let c = loader(vec![entry("a.b", Value::Table(vec![entry("c", Value::Int(7))]))]);
    assert_eq!(7, c.get_int("a.b.c").unwrap());
}

#[test]
fn empty_segments_are_keys_too() {
    let c = loader(vec![entry("", Value::Table(vec![entry("", Value::Int(3))]))]);
    assert_eq!(3, c.get_int(".").unwrap());
    assert!(matches!(c.get_int(""), Err(ConfigError::TypeMismatch(_, Kind::Int, Kind::Table))));
}

#[test]
fn missing_key_is_not_found() {
    let c = loader(vec![entry("a", Value::Int(1))]);
    assert!(matches!(c.get_int("b"), Err(ConfigError::NotFound(p)) if p == "b"));
    assert!(matches!(c.get_string("a.b"), Err(ConfigError::NotFound(_))));
}

#[test]
fn wrong_kind_is_a_type_mismatch() {
    let c = loader(vec![entry("a", Value::Int(1)), entry("s", text("x")), entry("f", Value::Float(0))]);
    assert!(matches!(c.get_string("a"), Err(ConfigError::TypeMismatch(p, Kind::Str, Kind::Int)) if p == "a"));
    assert!(matches!(c.get_int("s"), Err(ConfigError::TypeMismatch(_, Kind::Int, Kind::Str))));
    assert!(matches!(c.get_int("f"), Err(ConfigError::TypeMismatch(_, Kind::Int, Kind::Float))));
    assert!(matches!(c.get_number("s"), Err(ConfigError::TypeMismatch(_, Kind::Float, Kind::Str))));
    assert!(matches!(c.get_vec("a"), Err(ConfigError::TypeMismatch(_, Kind::Array, Kind::Int))));
}

#[test]
fn array_scalars_read_as_text() {
    let c = loader(vec![entry(
        "a",
        Value::Array(vec![text("x"), Value::Bool(true), Value::Int(-42), Value::Bool(false), Value::Int(0)]),
    )]);
    assert_eq!(vec!["x", "true", "-42", "false", "0"], c.get_vec("a").unwrap());
}

#[test]
fn array_with_a_textless_item_fails_on_that_item() {
    let c = loader(vec![entry(
        "a",
        Value::Array(vec![text("x"), Value::Float(0), Value::Table(vec![])]),
    )]);
    assert!(matches!(c.get_vec("a"), Err(ConfigError::TypeMismatch(_, Kind::Str, Kind::Float))));
    let nested = loader(vec![entry("a", Value::Array(vec![Value::Array(vec![])]))]);
    assert!(matches!(nested.get_vec("a"), Err(ConfigError::TypeMismatch(_, Kind::Str, Kind::Array))));
}

#[test]
fn integers_in_decimal() {
    assert_eq!("0", int_to_text(0));
    assert_eq!("1423114327654", int_to_text(1423114327654));
    assert_eq!("-9223372036854775808", int_to_text(i64::MIN));
    assert_eq!("9223372036854775807", int_to_text(i64::MAX));
}

#[test]
fn one_string_round_trips() {
    let c = loader(vec![entry("a", Value::Array(vec![text("only")]))]);
    assert_eq!(vec!["only".to_string()], c.get_vec("a").unwrap());
}

#[test]
fn environment_overrides_file() {
    let env = vec![("port".to_string(), "8080".to_string())];
    let c = ConfigLoader::from_sources(vec![entry("port", Value::Int(80)), entry("host", text("h"))], &env);
    assert_eq!("8080", c.get_string("port").unwrap());
    assert_eq!("h", c.get_string("host").unwrap());
}

#[test]
fn later_environment_variable_wins() {
    let env = vec![("k".to_string(), "first".to_string()), ("k".to_string(), "second".to_string())];
    let c = ConfigLoader::from_sources(vec![], &env);
    assert_eq!("second", c.get_string("k").unwrap());
    assert_eq!(1, c.settings().len());
}

#[test]
fn environment_keys_are_case_sensitive() {
    let env = vec![("KEY".to_string(), "upper".to_string())];
    let c = ConfigLoader::from_sources(vec![entry("key", text("lower"))], &env);
    assert_eq!("lower", c.get_string("key").unwrap());
    assert_eq!("upper", c.get_string("KEY").unwrap());
}

#[test]
fn sub_config_matches_full_path() {
    let inner = Value::Table(vec![entry("c", text("deep"))]);
    let c = loader(vec![entry("a", Value::Table(vec![entry("b", inner)]))]);
    let sub = c.get_sub_config("a").unwrap();
    assert_eq!(c.get_string("a.b.c").unwrap(), sub.get_string("b.c").unwrap());
    let deeper = c.get_sub_config("a.b").unwrap();
    assert_eq!("deep", deeper.get_string("c").unwrap());
}

#[test]
fn sub_config_of_non_table_fails() {
    let c = loader(vec![entry("a", Value::Int(1))]);
    assert!(matches!(c.get_sub_config("a"), Err(ConfigError::TypeMismatch(_, Kind::Table, Kind::Int))));
    assert!(matches!(c.get_sub_config("z"), Err(ConfigError::NotFound(_))));
}

#[test]
fn record_missing_required_field() {
    let c = loader(vec![entry("name", text("n"))]);
    let shape = vec![
        Field { name: "name".to_string(), kind: Kind::Str, optional: false },
        Field { name: "port".to_string(), kind: Kind::Int, optional: false },
    ];
    assert!(matches!(c.read_record(&shape), Err(ConfigError::MissingField(f)) if f == "port"));
}

#[test]
fn record_field_of_wrong_kind() {
    let c = loader(vec![entry("port", text("eighty"))]);
    let shape = vec![Field { name: "port".to_string(), kind: Kind::Int, optional: true }];
    assert!(matches!(
        c.read_record(&shape),
        Err(ConfigError::FieldTypeMismatch(f, Kind::Int, Kind::Str)) if f == "port"
    ));
}

#[test]
fn record_float_field_takes_an_integer_and_ignores_extra_keys() {
    let c = loader(vec![entry("ratio", Value::Int(2)), entry("extra", Value::Bool(true))]);
    let shape = vec![Field { name: "ratio".to_string(), kind: Kind::Float, optional: false }];
    let values = c.read_record(&shape).unwrap();
    assert!(matches!(values[0], Some(Value::Int(2))));
}

#[test]
fn search_stops_at_the_first_directory_holding_the_file() {
    assert_eq!(SearchStep::Found, search_step(true, true));
    assert_eq!(SearchStep::Found, search_step(true, false));
    assert_eq!(SearchStep::Ascend, search_step(false, true));
    assert_eq!(SearchStep::Missing, search_step(false, false));
}

#[test]
fn search_over_a_chain_of_directories() {
    let present = [false, false, true, true];
    let mut level = 0;
    let found = loop {
        match search_step(present[level], level + 1 < present.len()) {
            SearchStep::Found => break Some(level),
            SearchStep::Ascend => level += 1,
            SearchStep::Missing => break None,
        }
    };
    assert_eq!(Some(2), found);
}

#[test]
fn duplicate_is_a_deep_copy() {
    let v = Value::Table(vec![entry("a", Value::Array(vec![text("x"), Value::Float(5)]))]);
    let d = v.duplicate();
    match d {
        Value::Table(es) => {
            assert_eq!("a", es[0].0);
            assert!(matches!(&es[0].1, Value::Array(items) if items.len() == 2));
        }
        _ => panic!("not a table"),
    }
    assert_eq!(Kind::Table, v.kind());
}

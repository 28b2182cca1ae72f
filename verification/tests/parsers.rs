use matterhorn::{parse_json, parse_toml, CanonicalValue, Member, Number};

fn table(entries: Vec<(&str, CanonicalValue)>) -> CanonicalValue {
    CanonicalValue::Object(
        entries
            .into_iter()
            .map(|(key, value)| Member { key: key.to_string(), value })
            .collect(),
    )
}

fn positive(value: u64) -> CanonicalValue {
    CanonicalValue::Number(Number::PosInt(value))
}

fn words(value: &str) -> CanonicalValue {
    CanonicalValue::String(value.to_string())
}

#[test]
fn json_values_of_every_kind() {
    assert_eq!(parse_json("null"), Ok(CanonicalValue::Null));
    assert_eq!(parse_json("true"), Ok(CanonicalValue::Bool(true)));
    assert_eq!(parse_json("\"a\\nb\""), Ok(words("a\nb")));
    assert_eq!(parse_json("[]"), Ok(CanonicalValue::Array(vec![])));
    assert_eq!(parse_json("{}"), Ok(table(vec![])));
    assert_eq!(
        parse_json("[1, [2], {\"a\": null}]"),
        Ok(CanonicalValue::Array(vec![
            positive(1),
            CanonicalValue::Array(vec![positive(2)]),
            table(vec![("a", CanonicalValue::Null)]),
        ]))
    );
}

#[test]
fn json_numbers() {
    assert_eq!(parse_json("0"), Ok(positive(0)));
    assert_eq!(parse_json("18446744073709551615"), Ok(positive(u64::MAX)));
    assert_eq!(parse_json("-1"), Ok(CanonicalValue::Number(Number::NegInt(-1))));
    assert_eq!(
        parse_json("-9223372036854775808"),
        Ok(CanonicalValue::Number(Number::NegInt(i64::MIN)))
    );
    assert_eq!(
        parse_json("1.5"),
        Ok(CanonicalValue::Number(Number::Float(1.5f64.to_bits())))
    );
    assert_eq!(
        parse_json("-2.5e3"),
        Ok(CanonicalValue::Number(Number::Float((-2500.0f64).to_bits())))
    );
    assert_eq!(
        parse_json("18446744073709551616"),
        Ok(CanonicalValue::Number(Number::Float(18446744073709551616.0f64.to_bits())))
    );
}

#[test]
fn json_objects_keep_the_order_of_the_text() {
    assert_eq!(
        parse_json("{\"title\": 1, \"aaaaa\": 2, \"zzzzz\": 3, \"b\": 4}"),
        Ok(table(vec![
            ("title", positive(1)),
            ("aaaaa", positive(2)),
            ("zzzzz", positive(3)),
            ("b", positive(4)),
        ]))
    );
}

#[test]
fn json_that_is_malformed_is_an_error() {
    for text in ["", "{", "{\"a\": }", "[1, 2", "nul", "{\"a\": 1} x"] {
        match parse_json(text) {
            Err(message) => assert!(!message.is_empty(), "{text}"),
            Ok(value) => panic!("{text} was read as {value:?}"),
        }
    }
}

#[test]
fn json_errors_say_where() {
    assert_eq!(
        parse_json("[1, 2"),
        Err("EOF while parsing a list at line 1 column 5".to_string())
    );
}

#[test]
fn toml_tables_and_values() {
    let input = "title = \"Hello\"\ncount = 3\nratio = 0.5\nflag = true\nitems = [1, \"two\"]\n\n[outer]\ninner.name = \"x\"\n";
    assert_eq!(
        parse_toml(input),
        Ok(table(vec![
            ("title", words("Hello")),
            ("count", positive(3)),
            ("ratio", CanonicalValue::Number(Number::Float(0.5f64.to_bits()))),
            ("flag", CanonicalValue::Bool(true)),
            ("items", CanonicalValue::Array(vec![positive(1), words("two")])),
            ("outer", table(vec![("inner", table(vec![("name", words("x"))]))])),
        ]))
    );
}

#[test]
fn toml_keeps_the_order_of_the_text() {
    assert_eq!(
        parse_toml("zzzzz = 1\naaaaa = 2\nmmmmm = 3\n"),
        Ok(table(vec![("zzzzz", positive(1)), ("aaaaa", positive(2)), ("mmmmm", positive(3))]))
    );
}

#[test]
fn toml_negative_integers() {
    assert_eq!(
        parse_toml("a = -5\n"),
        Ok(table(vec![("a", CanonicalValue::Number(Number::NegInt(-5)))]))
    );
}

#[test]
fn toml_floats_that_are_not_finite_become_null() {
    assert_eq!(
        parse_toml("a = inf\nb = nan\nc = -inf\n"),
        Ok(table(vec![
            ("a", CanonicalValue::Null),
            ("b", CanonicalValue::Null),
            ("c", CanonicalValue::Null),
        ]))
    );
}

#[test]
fn toml_of_an_empty_text_is_an_empty_table() {
    assert_eq!(parse_toml(""), Ok(table(vec![])));
}

#[test]
fn toml_that_is_malformed_is_an_error() {
    for text in ["a = ", "a: b", "[table", "a = 1\na = 2", "{\"a\": 1}"] {
        match parse_toml(text) {
            Err(message) => assert!(!message.is_empty(), "{text}"),
            Ok(value) => panic!("{text} was read as {value:?}"),
        }
    }
}

#[test]
fn parsed_values_are_well_formed() {
    fn unique(value: &CanonicalValue) -> bool {
        match value {
            CanonicalValue::Array(items) => items.iter().all(unique),
            CanonicalValue::Object(entries) => {
                entries.iter().all(|e| unique(&e.value))
                    && entries
                        .iter()
                        .enumerate()
                        .all(|(i, e)| entries[..i].iter().all(|f| f.key != e.key))
            }
            CanonicalValue::Number(Number::NegInt(i)) => *i < 0,
            CanonicalValue::Number(Number::Float(bits)) => f64::from_bits(*bits).is_finite(),
            _ => true,
        }
    }
    let value = parse_json("{\"a\": 1, \"b\": {\"a\": -2, \"a\": 3.5}, \"a\": [0, -0, 1e400]}");
    match value {
        Ok(value) => assert!(unique(&value)),
        Err(message) => assert!(message.contains("out of range"), "{message}"),
    }
    let value = parse_json("{\"a\": 1, \"b\": {\"a\": -2, \"a\": 3.5}, \"a\": [0, -0, -0.0]}").unwrap();
    assert!(unique(&value));
    assert_eq!(
        value,
        table(vec![
            (
                "a",
                CanonicalValue::Array(vec![
                    positive(0),
                    CanonicalValue::Number(Number::Float((-0.0f64).to_bits())),
                    CanonicalValue::Number(Number::Float((-0.0f64).to_bits())),
                ])
            ),
            ("b", table(vec![("a", CanonicalValue::Number(Number::Float(3.5f64.to_bits())))])),
        ])
    );
}

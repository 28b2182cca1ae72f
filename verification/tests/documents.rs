use matterhorn::{parse_document, CanonicalValue, MatterhornDocument, Member, Number};

fn text(value: &str) -> CanonicalValue {
    CanonicalValue::String(value.to_string())
}

fn integer(value: u64) -> CanonicalValue {
    CanonicalValue::Number(Number::PosInt(value))
}

fn object(entries: Vec<(&str, CanonicalValue)>) -> CanonicalValue {
    CanonicalValue::Object(
        entries
            .into_iter()
            .map(|(key, value)| Member { key: key.to_string(), value })
            .collect(),
    )
}

#[test]
fn plain_file() {
    let input = r#"
# Hello World!

Donec ullamcorper nulla non metus auctor fringilla. Maecenas faucibus mollis interdum.
"#;
    let parsed = parse_document(input);

    assert_eq!(
        parsed,
        Ok(MatterhornDocument {
            front_matter: CanonicalValue::Null,
            content: input
        })
    );
}

#[test]
fn yaml_fm() {
    let input = r#"
---
title: Hello World
list:
  - 1
  - "two"
  - key: value
    value: " Text --- with --- lots --- of --- these "
---

Cras mattis consectetur purus sit amet fermentum. Donec sed odio dui.

> Morbi leo risus, porta ac consectetur ac, vestibulum at eros.
"#;
    let parsed = parse_document(input);

    assert_eq!(
        parsed,
        Ok(MatterhornDocument {
            front_matter: object(vec![
                ("title", text("Hello World")),
                (
                    "list",
                    CanonicalValue::Array(vec![
                        integer(1),
                        text("two"),
                        object(vec![
                            ("key", text("value")),
                            ("value", text(" Text --- with --- lots --- of --- these ")),
                        ]),
                    ])
                ),
            ]),
            content: r#"
Cras mattis consectetur purus sit amet fermentum. Donec sed odio dui.

> Morbi leo risus, porta ac consectetur ac, vestibulum at eros.
"#
        })
    );
}

#[test]
fn toml_fm() {
    let input = r#"
+++
title = "Hello World"

items = [1, "two"]

[outer]
inner.name = "Justo +++ Parturient"
+++

Cras mattis consectetur purus sit amet fermentum. Donec sed odio dui.

> Morbi leo risus, porta ac consectetur ac, vestibulum at eros.
"#;
    let parsed = parse_document(input);

    assert_eq!(
        parsed,
        Ok(MatterhornDocument {
            front_matter: object(vec![
                ("title", text("Hello World")),
                ("items", CanonicalValue::Array(vec![integer(1), text("two")])),
                (
                    "outer",
                    object(vec![(
                        "inner",
                        object(vec![("name", text("Justo +++ Parturient"))])
                    )])
                ),
            ]),
            content: r#"
Cras mattis consectetur purus sit amet fermentum. Donec sed odio dui.

> Morbi leo risus, porta ac consectetur ac, vestibulum at eros.
"#
        })
    );
}

#[test]
fn json_fm() {
    let input = r#"
{
    "title": "Hello World",
    "items": [1, "two"],
    "outer": {
        "inner": {
            "name": "Justo +++ Parturient"
        }
    }
}
Cras mattis?"#;
    let parsed = parse_document(input);

    assert_eq!(
        parsed,
        Ok(MatterhornDocument {
            front_matter: object(vec![
                ("title", text("Hello World")),
                ("items", CanonicalValue::Array(vec![integer(1), text("two")])),
                (
                    "outer",
                    object(vec![(
                        "inner",
                        object(vec![("name", text("Justo +++ Parturient"))])
                    )])
                ),
            ]),
            content: "Cras mattis?"
        })
    );
}

#[test]
fn ordered_fm() {
    let input = r#"
---
title: Number one
aaaaa: Number two
zzzzz: Number three
bbbbb: Number four
b: Number five
---"#;
    let parsed = parse_document(input);

    assert_eq!(
        parsed,
        Ok(MatterhornDocument {
            front_matter: object(vec![
                ("title", text("Number one")),
                ("aaaaa", text("Number two")),
                ("zzzzz", text("Number three")),
                ("bbbbb", text("Number four")),
                ("b", text("Number five")),
            ]),
            content: ""
        })
    );

    let doc = parsed.unwrap();
    let keys = match &doc.front_matter {
        CanonicalValue::Object(entries) => entries.iter().map(|e| &e.key[..]).collect::<Vec<_>>(),
        other => panic!("front matter is no object: {other:?}"),
    };

    assert_eq!(keys, vec!["title", "aaaaa", "zzzzz", "bbbbb", "b"]);
}

#[test]
fn duplicate_keys_fm() {
    let input = r#"
---
title: Number one
title: Number two
title: Number three
title: Number four
title: Number five
---"#;
    let parsed = parse_document(input);

    assert_eq!(
        parsed,
        Ok(MatterhornDocument {
            front_matter: object(vec![("title", text("Number five"))]),
            content: ""
        })
    );
}

#[test]
fn unquoted_ellipsis_fm() {
    let input = r#"
---
comment: hello ... world
---"#;
    let parsed = parse_document(input);

    assert_eq!(
        parsed,
        Ok(MatterhornDocument {
            front_matter: object(vec![("comment", text("hello ... world"))]),
            content: ""
        })
    );
}

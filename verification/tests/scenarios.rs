use matterhorn::{
    parse_document, CanonicalValue, MatterhornDocument, MatterhornError, Member, Number,
};

fn string(value: &str) -> CanonicalValue {
    CanonicalValue::String(value.to_string())
}

fn members(entries: Vec<(&str, CanonicalValue)>) -> CanonicalValue {
    CanonicalValue::Object(
        entries
            .into_iter()
            .map(|(key, value)| Member { key: key.to_string(), value })
            .collect(),
    )
}

fn failure() -> MatterhornError {
    MatterhornError::Custom { msg: "Failed to parse document".to_string() }
}

#[test]
fn text_without_front_matter_is_content() {
    let input = "\n# Hello\n\nSome text.\n";
    assert_eq!(
        parse_document(input),
        Ok(MatterhornDocument { front_matter: CanonicalValue::Null, content: input })
    );
}

#[test]
fn yaml_between_dashes() {
    let input = "---\ntitle: Hello World\n---\n\nBody text\n";
    assert_eq!(
        parse_document(input),
        Ok(MatterhornDocument {
            front_matter: members(vec![("title", string("Hello World"))]),
            content: "\nBody text\n"
        })
    );
}

#[test]
fn toml_between_pluses() {
    let input = "+++\ntitle = \"T\"\n+++\nBody";
    assert_eq!(
        parse_document(input),
        Ok(MatterhornDocument {
            front_matter: members(vec![("title", string("T"))]),
            content: "Body"
        })
    );
}

#[test]
fn json_in_braces() {
    let input = "{\"a\": 1}\nRest";
    assert_eq!(
        parse_document(input),
        Ok(MatterhornDocument {
            front_matter: members(vec![("a", CanonicalValue::Number(Number::PosInt(1)))]),
            content: "Rest"
        })
    );
}

#[test]
fn repeated_key_keeps_last_value() {
    let input = "---\ntitle: Number one\ntitle: Number two\ntitle: Number three\ntitle: Number four\ntitle: Number five\n---\n";
    assert_eq!(
        parse_document(input),
        Ok(MatterhornDocument {
            front_matter: members(vec![("title", string("Number five"))]),
            content: ""
        })
    );
}

#[test]
fn repeated_key_moves_to_its_last_place() {
    let input = "---\na: 1\nb: 2\na: 3\n---\n";
    assert_eq!(
        parse_document(input),
        Ok(MatterhornDocument {
            front_matter: members(vec![
                ("b", CanonicalValue::Number(Number::PosInt(2))),
                ("a", CanonicalValue::Number(Number::PosInt(3))),
            ]),
            content: ""
        })
    );
}

#[test]
fn dashes_inside_a_value_do_not_end_the_front_matter() {
    let input = "---\ntitle: \"a --- b\"\nnext: x\n---\nBody";
    assert_eq!(
        parse_document(input),
        Ok(MatterhornDocument {
            front_matter: members(vec![("title", string("a --- b")), ("next", string("x"))]),
            content: "Body"
        })
    );
}

#[test]
fn pluses_inside_a_value_do_not_end_the_front_matter() {
    let input = "+++\ntitle = \"a +++ b\"\n+++\nBody";
    assert_eq!(
        parse_document(input),
        Ok(MatterhornDocument {
            front_matter: members(vec![("title", string("a +++ b"))]),
            content: "Body"
        })
    );
}

#[test]
fn whitespace_alone_is_content() {
    let input = " \n\t \u{a0}\u{3000}\n";
    assert_eq!(
        parse_document(input),
        Ok(MatterhornDocument { front_matter: CanonicalValue::Null, content: input })
    );
}

#[test]
fn empty_text_is_content() {
    assert_eq!(
        parse_document(""),
        Ok(MatterhornDocument { front_matter: CanonicalValue::Null, content: "" })
    );
}

#[test]
fn whitespace_of_any_kind_may_lead() {
    let input = "\u{a0}\u{2003}\u{3000} \n---\na: b\n---\nrest";
    assert_eq!(
        parse_document(input),
        Ok(MatterhornDocument {
            front_matter: members(vec![("a", string("b"))]),
            content: "rest"
        })
    );
}

#[test]
fn closing_dashes_at_the_end_leave_no_content() {
    let input = "---\na: b\n---";
    assert_eq!(
        parse_document(input),
        Ok(MatterhornDocument { front_matter: members(vec![("a", string("b"))]), content: "" })
    );
}

#[test]
fn content_starts_on_the_next_line() {
    let input = "---\na: b\n--- trailing\nfirst\nsecond\n";
    assert_eq!(
        parse_document(input),
        Ok(MatterhornDocument {
            front_matter: members(vec![("a", string("b"))]),
            content: "first\nsecond\n"
        })
    );
}

#[test]
fn text_after_the_closing_brace_belongs_to_its_line() {
    let input = "{\"a\": \"b\"} trailing\nRest";
    assert_eq!(
        parse_document(input),
        Ok(MatterhornDocument {
            front_matter: members(vec![("a", string("b"))]),
            content: "Rest"
        })
    );
}

#[test]
fn without_a_line_break_after_the_front_matter_the_content_is_empty() {
    let input = "{\"a\": \"b\"}Rest";
    assert_eq!(
        parse_document(input),
        Ok(MatterhornDocument { front_matter: members(vec![("a", string("b"))]), content: "" })
    );
}

#[test]
fn content_keeps_characters_of_several_bytes() {
    let input = "---\ntitre: \"é — ü\"\n---\nçà et là 漢字\n";
    assert_eq!(
        parse_document(input),
        Ok(MatterhornDocument {
            front_matter: members(vec![("titre", string("é — ü"))]),
            content: "çà et là 漢字\n"
        })
    );
}

#[test]
fn front_matter_that_does_not_end_is_an_error() {
    assert_eq!(parse_document("---\ntitle: x\n"), Err(failure()));
    assert_eq!(parse_document("+++\ntitle = 1\n"), Err(failure()));
    assert_eq!(parse_document("{\"a\": 1"), Err(failure()));
}

#[test]
fn empty_front_matter_is_an_error() {
    assert_eq!(parse_document("---\n---\nBody"), Err(failure()));
    assert_eq!(parse_document("{}\nBody"), Err(failure()));
}

#[test]
fn front_matter_that_is_no_object_is_an_error() {
    assert_eq!(parse_document("---\n- a\n- b\n---\nBody"), Err(failure()));
    assert_eq!(parse_document("---\njust text\n---\nBody"), Err(failure()));
}

#[test]
fn an_empty_object_is_passed_over_for_a_later_occurrence() {
    let input = "---\n---\na: b\n---\nBody";
    assert_eq!(
        parse_document(input),
        Ok(MatterhornDocument {
            front_matter: members(vec![("a", string("b"))]),
            content: "Body"
        })
    );
}

#[test]
fn toml_is_tried_before_yaml() {
    // As TOML the key is `a` and the value 1; as YAML the text is one string.
    let input = "---\na = 1\n---\nBody";
    assert_eq!(
        parse_document(input),
        Ok(MatterhornDocument {
            front_matter: members(vec![("a", CanonicalValue::Number(Number::PosInt(1)))]),
            content: "Body"
        })
    );
}

#[test]
fn yaml_is_read_between_pluses_too() {
    let input = "+++\na: b\n+++\nBody";
    assert_eq!(
        parse_document(input),
        Ok(MatterhornDocument {
            front_matter: members(vec![("a", string("b"))]),
            content: "Body"
        })
    );
}

#[test]
fn nested_braces_end_at_the_brace_that_closes_the_object() {
    let input = "{\"a\": {\"b\": {}}, \"c\": [1]}\nRest";
    assert_eq!(
        parse_document(input),
        Ok(MatterhornDocument {
            front_matter: members(vec![
                ("a", members(vec![("b", members(vec![]))])),
                ("c", CanonicalValue::Array(vec![CanonicalValue::Number(Number::PosInt(1))])),
            ]),
            content: "Rest"
        })
    );
}

#[test]
fn the_message_of_the_error_is_its_text() {
    let error = parse_document("---\n").unwrap_err();
    assert_eq!(error.message(), "Failed to parse document");
}

#[test]
fn parsing_the_content_of_a_plain_text_again_changes_nothing() {
    let input = "  plain text\n--- not at the start\n";
    let first = parse_document(input).unwrap();
    let second = parse_document(first.content).unwrap();
    assert_eq!(first, second);
    assert_eq!(second.content, input);
}

//! Splitting a document into its front matter and its content.

use vstd::prelude::*;
use vstd::string::*;
use vstd::utf8::*;
use crate::foreign::toml_parsed;
use crate::parse::{parse_toml, parse_yaml, yaml_parsed};
use crate::text::{
    find_after, find_visible, first_visible, lemma_boundary_at_ascii, lemma_occurrence_bytes,
    lemma_tail_is_suffix, next_line, occurs, occurs_at, skip_line, slice, slice_text,
};
use crate::value::{CanonicalValue, ValueModel};

verus! {

/// Why a document could not be parsed.
#[derive(Debug, PartialEq, Eq)]
pub enum MatterhornError {
    /// A failure described by its message.
    Custom { msg: String },
}

impl MatterhornError {
    /// The message of the error.
    pub fn message(&self) -> (r: String)
        ensures
            r@ == self->msg@,
    {
        match self {
            MatterhornError::Custom { msg } => msg.clone(),
        }
    }
}

/// A document split into its front matter and the text that follows it.
#[derive(Debug, PartialEq, Eq)]
pub struct MatterhornDocument<'d> {
    /// The front matter; null where the document has none.
    pub front_matter: CanonicalValue,
    /// The text after the front matter, a part of the text that was parsed.
    pub content: &'d str,
}

/// The mathematical model of a [`MatterhornDocument`].
pub struct DocumentModel {
    pub front_matter: ValueModel,
    pub content: Seq<char>,
}

impl<'d> View for MatterhornDocument<'d> {
    type V = DocumentModel;

    open spec fn view(&self) -> DocumentModel {
        DocumentModel { front_matter: self.front_matter@, content: self.content@ }
    }
}

/// The way in which the front matter of a document is set off from its
/// content.
#[derive(Debug, Clone, Copy, PartialEq, Eq)]
pub enum Style {
    /// Opened by `---` and closed by a later `---`; neither is part of the
    /// front matter.
    Dashes,
    /// Opened by `+++` and closed by a later `+++`; neither is part of the
    /// front matter.
    Pluses,
    /// Opened by `{` and closed by a later `}`; both are part of the front
    /// matter.
    Braces,
}

impl Style {
    /// The bytes that open the front matter.
    pub open spec fn opening(self) -> Seq<u8> {
        match self {
            Style::Dashes => seq![0x2du8, 0x2du8, 0x2du8],
            Style::Pluses => seq![0x2bu8, 0x2bu8, 0x2bu8],
            Style::Braces => seq![0x7bu8],
        }
    }

    /// The bytes that close the front matter.
    pub open spec fn closing(self) -> Seq<u8> {
        match self {
            Style::Dashes => seq![0x2du8, 0x2du8, 0x2du8],
            Style::Pluses => seq![0x2bu8, 0x2bu8, 0x2bu8],
            Style::Braces => seq![0x7du8],
        }
    }

    /// The offset at which the text of the front matter starts, where the
    /// opening bytes stand at `start`: after them, or at them where they are
    /// part of the front matter.
    pub open spec fn text_start(self, start: int) -> int {
        match self {
            Style::Braces => start,
            _ => start + 3,
        }
    }

    /// The offset at which the text of the front matter ends, where the
    /// closing bytes stand at `occurrence`: before them, or after them where
    /// they are part of the front matter.
    pub open spec fn text_end(self, occurrence: int) -> int {
        match self {
            Style::Braces => occurrence + 1,
            _ => occurrence,
        }
    }
}

/// The style whose opening bytes stand in `bytes` at `start`, if there is
/// one.
pub open spec fn style_at(bytes: Seq<u8>, start: int) -> Option<Style> {
    if occurs_at(bytes, Style::Dashes.opening(), start) {
        Some(Style::Dashes)
    } else if occurs_at(bytes, Style::Pluses.opening(), start) {
        Some(Style::Pluses)
    } else if occurs_at(bytes, Style::Braces.opening(), start) {
        Some(Style::Braces)
    } else {
        None
    }
}

/// How a text opens its front matter, if it has any: the style and the
/// offset of the opening bytes, which are the first of the text that are not
/// whitespace.
pub open spec fn opening_of(text: Seq<char>) -> Option<(Style, int)> {
    match first_visible(text) {
        None => None,
        Some(start) => match style_at(encode_utf8(text), start) {
            Some(style) => Some((style, start)),
            None => None,
        },
    }
}

/// The front matter that the outcome of a parser stands for: the value it
/// gave, if that is an object with at least one entry.
pub open spec fn accepted_value<E>(parsed: Result<ValueModel, E>) -> Option<ValueModel> {
    match parsed {
        Ok(value) => if value.is_nonempty_object() {
            Some(value)
        } else {
            None
        },
        Err(_) => None,
    }
}

/// The front matter that a text spells, if it spells one: what it gives read
/// as TOML or else, where that is no front matter, read as YAML.
pub open spec fn front_matter_of(candidate: Seq<char>) -> Option<ValueModel> {
    match accepted_value(toml_parsed(candidate)) {
        Some(value) => Some(value),
        None => accepted_value(yaml_parsed(candidate)),
    }
}

/// The text that is tried as front matter where the closing bytes are taken
/// to stand at `occurrence`.
pub open spec fn candidate_text(text: Seq<char>, style: Style, start: int, occurrence: int) -> Seq<
    char,
> {
    slice_text(text, style.text_start(start), style.text_end(occurrence))
}

/// Whether the front matter may end at `occurrence`: the closing bytes stand
/// there, after the start of the front matter's text, and the text up to
/// them spells a front matter.
pub open spec fn accepted(text: Seq<char>, style: Style, start: int, occurrence: int) -> bool {
    &&& style.text_start(start) < occurrence
    &&& occurs_at(encode_utf8(text), style.closing(), occurrence)
    &&& front_matter_of(candidate_text(text, style, start, occurrence)) is Some
}

/// Whether `occurrence` is the first offset at which the front matter may
/// end.
pub open spec fn first_accepted(text: Seq<char>, style: Style, start: int, occurrence: int) -> bool {
    &&& accepted(text, style, start, occurrence)
    &&& forall|earlier: int| earlier < occurrence ==> !accepted(text, style, start, earlier)
}

/// The document whose front matter ends at `occurrence`: the front matter
/// that the text up to there spells, and as content the text from the next
/// line on.
pub open spec fn document_at(text: Seq<char>, style: Style, start: int, occurrence: int)
    -> DocumentModel {
    let bytes = encode_utf8(text);
    DocumentModel {
        front_matter: front_matter_of(candidate_text(text, style, start, occurrence))->0,
        content: slice_text(
            text,
            next_line(bytes, occurrence + style.closing().len()),
            bytes.len() as int,
        ),
    }
}

/// The text of the error of a document whose front matter does not end.
pub open spec fn failure_text() -> Seq<char> {
    "Failed to parse document"@
}

/// The model of what [`parse_document`] returns: the document, or the
/// message of the error.
pub open spec fn outcome_model(outcome: Result<MatterhornDocument, MatterhornError>) -> Result<
    DocumentModel,
    Seq<char>,
> {
    match outcome {
        Ok(document) => Ok(document@),
        Err(error) => Err(error->msg@),
    }
}

/// Whether `outcome` is what splitting `text` gives.
///
/// A text that opens no front matter is its own content, under a null front
/// matter. Otherwise the front matter ends at the first offset at which it
/// may end, and the document is the one that ends there; where it may end
/// nowhere, the outcome is the error.
pub open spec fn splits(text: Seq<char>, outcome: Result<DocumentModel, Seq<char>>) -> bool {
    match opening_of(text) {
        None => outcome == Ok::<DocumentModel, Seq<char>>(
            DocumentModel { front_matter: ValueModel::Null, content: text },
        ),
        Some((style, start)) => match outcome {
            Ok(document) => exists|occurrence: int|
                first_accepted(text, style, start, occurrence) && document == document_at(
                    text,
                    style,
                    start,
                    occurrence,
                ),
            Err(message) => message == failure_text() && forall|occurrence: int|
                !accepted(text, style, start, occurrence),
        },
    }
}

/// A text has one outcome.
pub proof fn law_one_outcome(
    text: Seq<char>,
    first: Result<DocumentModel, Seq<char>>,
    second: Result<DocumentModel, Seq<char>>,
)
    requires
        splits(text, first),
        splits(text, second),
    ensures
        first == second,
{
    match opening_of(text) {
        None => {},
        Some((style, start)) => {
            if first is Ok && second is Ok {
                let a = choose|occurrence: int|
                    first_accepted(text, style, start, occurrence) && first->Ok_0 == document_at(
                        text,
                        style,
                        start,
                        occurrence,
                    );
                let b = choose|occurrence: int|
                    first_accepted(text, style, start, occurrence) && second->Ok_0 == document_at(
                        text,
                        style,
                        start,
                        occurrence,
                    );
                if a < b {
                    assert(!accepted(text, style, start, a));
                } else if b < a {
                    assert(!accepted(text, style, start, b));
                }
            } else if first is Ok {
                let a = choose|occurrence: int|
                    first_accepted(text, style, start, occurrence) && first->Ok_0 == document_at(
                        text,
                        style,
                        start,
                        occurrence,
                    );
                assert(!accepted(text, style, start, a));
            } else if second is Ok {
                let b = choose|occurrence: int|
                    first_accepted(text, style, start, occurrence) && second->Ok_0 == document_at(
                        text,
                        style,
                        start,
                        occurrence,
                    );
                assert(!accepted(text, style, start, b));
            }
        },
    }
}

/// A text that opens no front matter is split into a null front matter and
/// the text itself.
pub proof fn law_plain_text_is_content(text: Seq<char>, outcome: Result<DocumentModel, Seq<char>>)
    requires
        opening_of(text) is None,
        splits(text, outcome),
    ensures
        outcome == Ok::<DocumentModel, Seq<char>>(
            DocumentModel { front_matter: ValueModel::Null, content: text },
        ),
{
}

/// Closing bytes inside the front matter do not end it.
///
/// Where the text up to an occurrence of the closing bytes spells a front
/// matter, and the text up to each earlier occurrence spells none, the front
/// matter ends at that occurrence, however many occurrences come before it.
pub proof fn law_rejected_occurrences_are_skipped(
    text: Seq<char>,
    style: Style,
    start: int,
    occurrence: int,
    outcome: Result<DocumentModel, Seq<char>>,
)
    requires
        opening_of(text) == Some((style, start)),
        accepted(text, style, start, occurrence),
        forall|earlier: int| earlier < occurrence ==> !accepted(text, style, start, earlier),
        splits(text, outcome),
    ensures
        outcome == Ok::<DocumentModel, Seq<char>>(document_at(text, style, start, occurrence)),
{
    assert(first_accepted(text, style, start, occurrence));
    law_one_outcome(
        text,
        outcome,
        Ok::<DocumentModel, Seq<char>>(document_at(text, style, start, occurrence)),
    );
}

impl Style {
    /// The text that opens the front matter.
    pub fn opening_text(self) -> (r: &'static str)
        ensures
            r.spec_bytes() == self.opening(),
    {
        broadcast use is_ascii_spec_bytes;

        proof {
            reveal_strlit("---");
            reveal_strlit("+++");
            reveal_strlit("{");
        }
        let r = match self {
            Style::Dashes => "---",
            Style::Pluses => "+++",
            Style::Braces => "{",
        };
        assert(is_ascii(r));
        assert(r.spec_bytes() =~= self.opening());
        r
    }

    /// The text that closes the front matter.
    pub fn closing_text(self) -> (r: &'static str)
        ensures
            r.spec_bytes() == self.closing(),
    {
        broadcast use is_ascii_spec_bytes;

        proof {
            reveal_strlit("---");
            reveal_strlit("+++");
            reveal_strlit("}");
        }
        let r = match self {
            Style::Dashes => "---",
            Style::Pluses => "+++",
            Style::Braces => "}",
        };
        assert(is_ascii(r));
        assert(r.spec_bytes() =~= self.closing());
        r
    }
}

/// Tells the style whose opening bytes stand in `bytes` at `start`.
pub fn detect_style(bytes: &[u8], start: usize) -> (r: Option<Style>)
    ensures
        r == style_at(bytes@, start as int),
{
    if occurs(bytes, Style::Dashes.opening_text().as_bytes(), start) {
        Some(Style::Dashes)
    } else if occurs(bytes, Style::Pluses.opening_text().as_bytes(), start) {
        Some(Style::Pluses)
    } else if occurs(bytes, Style::Braces.opening_text().as_bytes(), start) {
        Some(Style::Braces)
    } else {
        None
    }
}

/// Takes the outcome of a parser as front matter, if it is one: a value that
/// is an object with at least one entry.
pub fn accept<E>(parsed: Result<CanonicalValue, E>) -> (r: Option<CanonicalValue>)
    ensures
        r == match parsed {
            Ok(value) => if value@.is_nonempty_object() {
                Some(value)
            } else {
                None
            },
            Err(_) => None,
        },
{
    match parsed {
        Ok(value) => if value.is_nonempty_object() {
            Some(value)
        } else {
            None
        },
        Err(_) => None,
    }
}

/// Parses a text as front matter: as TOML, and where that gives no front
/// matter, as YAML.
pub fn parse_front_matter(candidate: &str) -> (r: Option<CanonicalValue>)
    ensures
        match r {
            Some(value) => front_matter_of(candidate@) == Some(value@) && value@.wf(),
            None => front_matter_of(candidate@) is None,
        },
{
    match accept(parse_toml(candidate)) {
        Some(value) => Some(value),
        None => accept(parse_yaml(candidate)),
    }
}

/// Splits a document into its front matter and its content.
///
/// The front matter opens with the first bytes of the text that are not
/// whitespace, if they are `---`, `+++` or `{`. A text that opens otherwise,
/// or holds nothing but whitespace, has no front matter: the result is a null
/// front matter and the whole text as content.
///
/// The front matter ends at the first occurrence of the closing bytes up to
/// which the text spells a front matter. The content is the text from the
/// line after that occurrence on. Where no occurrence will do, the document
/// is in error.
pub fn parse_document<'d>(text: &'d str) -> (r: Result<
    MatterhornDocument<'d>,
    MatterhornError,
>)
    ensures
        splits(text@, outcome_model(r)),
        opening_of(text@) is None ==> (r matches Ok(document)
            && document.front_matter == CanonicalValue::Null && document.content@
            == text@),
        r matches Ok(document) ==> document.front_matter@.wf(),
        r matches Ok(document) ==> (document.front_matter@.is_nonempty_object() <==> opening_of(
            text@,
        ) is Some),
        r matches Ok(document) ==> exists|before: int|
            0 <= before <= text@.len() && document.content@
                == text@.skip(before),
{
    let ghost chars = text@;
    let bytes = text.as_bytes();
    proof {
        encode_utf8_valid_utf8(chars);
        assert(chars.skip(0) =~= chars);
    }
    let start = match find_visible(text) {
        Some(start) => start,
        None => {
            return Ok(
                MatterhornDocument { front_matter: CanonicalValue::Null, content: text },
            );
        },
    };
    let style = match detect_style(bytes, start) {
        Some(style) => style,
        None => {
            return Ok(
                MatterhornDocument { front_matter: CanonicalValue::Null, content: text },
            );
        },
    };
    let closing = style.closing_text().as_bytes();
    proof {
        lemma_occurrence_bytes(bytes@, style.opening(), start as int);
        assert(bytes@[start + 0] == style.opening()[0]);
        if !(style is Braces) {
            assert(style.opening().len() == 3);
            assert(start + 3 <= bytes.len());
            assert(bytes@[start + 1] == style.opening()[1]);
            assert(bytes@[start + 2] == style.opening()[2]);
        }
    }
    let text_start = match style {
        Style::Braces => start,
        _ => start + 3,
    };
    proof {
        lemma_boundary_at_ascii(bytes@, start as int);
        if !(style is Braces) {
            lemma_boundary_at_ascii(bytes@, start + 1);
            lemma_boundary_at_ascii(bytes@, start + 2);
        }
    }
    let mut after: usize = text_start;
    loop
        invariant
            chars == text@,
            bytes@ == encode_utf8(chars),
            valid_utf8(bytes@),
            opening_of(chars) == Some((style, start as int)),
            closing@ == style.closing(),
            text_start == style.text_start(start as int),
            text_start <= after <= bytes.len(),
            text_start <= bytes.len(),
            is_char_boundary(bytes@, text_start as int),
            forall|earlier: int| earlier <= after ==> !accepted(chars, style, start as int, earlier),
        decreases bytes.len() - after,
    {
        let occurrence = match find_after(bytes, closing, after) {
            Some(occurrence) => occurrence,
            None => {
                return Err(MatterhornError::Custom { msg: "Failed to parse document".to_string() });
            },
        };
        let text_end = match style {
            Style::Braces => occurrence + 1,
            _ => occurrence,
        };
        proof {
            lemma_occurrence_bytes(bytes@, closing@, occurrence as int);
            assert(bytes@[occurrence + 0] == closing@[0]);
            lemma_boundary_at_ascii(bytes@, occurrence as int);
        }
        let candidate = slice(text, text_start, text_end);
        match parse_front_matter(candidate) {
            Some(front_matter) => {
                let content_start = skip_line(bytes, occurrence + closing.len());
                proof {
                    if content_start < bytes.len() {
                        lemma_boundary_at_ascii(bytes@, content_start - 1);
                    } else {
                        is_char_boundary_start_end_of_seq(bytes@);
                    }
                    is_char_boundary_start_end_of_seq(bytes@);
                    lemma_tail_is_suffix(chars, content_start as int);
                    assert(first_accepted(chars, style, start as int, occurrence as int));
                }
                let content = slice(text, content_start, bytes.len());
                let document = MatterhornDocument { front_matter, content };
                assert(document@ == document_at(chars, style, start as int, occurrence as int));
                return Ok(document);
            },
            None => {
                after = occurrence;
            },
        }
    }
}

} // verus!

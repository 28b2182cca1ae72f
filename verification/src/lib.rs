//! Front matter extraction for text documents.
//!
//! A document may open with a block of metadata, its front matter: YAML or
//! TOML between two `---` or two `+++`, or an object in braces.
//! [`parse_document`] finds the block, parses it into a [`CanonicalValue`]
//! and returns it together with the text that follows it.
//!
//! The modules, from the leaves up:
//!
//! - [`value`] and [`object`]: the canonical value, and objects that keep
//!   the order in which their keys were bound last;
//! - [`yaml`] and [`conversion`]: the tree of a YAML document, and its
//!   normalization into a canonical value;
//! - [`decimal`] and [`text`]: integers written out, and the scanning of a
//!   text by byte offsets;
//! - [`foreign`] and [`parse`]: the parsers of other crates, and the three
//!   parsers of this library that are built on them;
//! - [`document`]: the splitting of a document.
//!
//! Each function states what it returns over the mathematical model of its
//! arguments: a text is the sequence of its characters, a value its
//! [`ValueModel`], a YAML tree its [`yaml::YamlModel`].

pub mod conversion;
pub mod decimal;
pub mod document;
pub mod foreign;
pub mod object;
pub mod parse;
pub mod text;
pub mod value;
pub mod yaml;

pub use conversion::{yaml_to_json, ConversionError};
pub use document::{parse_document, MatterhornDocument, MatterhornError, Style};
pub use parse::{parse_json, parse_toml, parse_yaml};
pub use value::{CanonicalValue, Member, Number, ValueModel};
pub use yaml::{YamlEntry, YamlNode};

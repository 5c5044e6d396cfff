//! A typed reader and writer for a container image's configuration document.
//!
//! The wire format is a structured text document; the crate decodes it into a
//! typed model and encodes the model back into canonical pretty-printed text.
//! The three field codecs that diverge from a plain field-by-field mapping —
//! the timestamp codec, the `NAME=VALUE` environment entry codec, and the
//! set-as-map codec used for exposed ports and volumes — are implemented and
//! verified here, together with the document model and the parser/serializer
//! entry points.

pub mod env_var;
pub mod errors;
pub mod exposed_ports;
pub mod image_config;
pub mod json;
pub mod setmap;
pub mod text;
pub mod timestamp;
pub mod volumes;

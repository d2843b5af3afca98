//! BadSV: delimiter-separated records whose field and record separators are
//! byte sequences that are deliberately invalid in the chosen text encoding.

pub mod codec;
pub mod dsv;
pub mod encodings;
pub mod engine;
pub mod laws;
pub mod text;
pub mod utf8;
pub mod utf16;
pub mod utf32;

pub use codec::Codec;
pub use dsv::{validate_delimiter, MalformedDsv};
pub use encodings::{
    compile, list_encodings, parse, resolve, Decoder, Encoder, Encoding, UnsupportedEncoding,
};
pub use engine::{compile_with, compile_with_pick, parse_with};
pub use utf16::{Utf16Decoder, Utf16Encoder};
pub use utf32::{Utf32Decoder, Utf32Encoder};
pub use utf8::{Utf8Decoder, Utf8Encoder};

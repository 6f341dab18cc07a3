use vstd::prelude::*;

verus! {

/// Why a text could not be encoded or a container not be decoded.
#[derive(Debug, Clone, Copy, PartialEq, Eq, Structural)]
pub enum HuffmanError {
    /// A symbol of the text has no code in the code table.
    MissingCode,
    /// The container does not begin with the magic bytes.
    BadMagic,
    /// The container ends inside its head or inside the number of its
    /// symbols, or its bits do not spell as many symbols as it says.
    Truncated,
    /// The length of the code table does not end on an entry, or an entry
    /// names no symbol.
    BadTable,
    /// The bytes of a symbol or of a code in the code table are not
    /// UTF-8.
    BadText,
}

impl HuffmanError {
    /// An encoding error: the code table does not serve the text.
    pub open spec fn encoding(self) -> bool {
        self == HuffmanError::MissingCode
    }

    /// A format error: the bytes are no well-formed container.
    pub open spec fn format(self) -> bool {
        self != HuffmanError::MissingCode
    }

    /// A character-decoding error: bytes that should be text are not
    /// UTF-8. In a container this is a format error too.
    pub open spec fn text(self) -> bool {
        self == HuffmanError::BadText
    }

    /// Whether this is an encoding error.
    pub fn is_encoding_error(&self) -> (encoding: bool)
        ensures
            encoding == self.encoding(),
    {
        match self {
            HuffmanError::MissingCode => true,
            _ => false,
        }
    }

    /// Whether this is a format error.
    pub fn is_format_error(&self) -> (format: bool)
        ensures
            format == self.format(),
    {
        match self {
            HuffmanError::MissingCode => false,
            _ => true,
        }
    }

    /// Whether this is a character-decoding error.
    pub fn is_text_error(&self) -> (text: bool)
        ensures
            text == self.text(),
    {
        match self {
            HuffmanError::BadText => true,
            _ => false,
        }
    }

    /// The error in words.
    pub fn message(&self) -> (text: String)
        ensures
            text@ == match *self {
                HuffmanError::MissingCode => "a symbol has no code in the code table"@,
                HuffmanError::BadMagic => "not huffman compression file!"@,
                HuffmanError::Truncated => "the container ends too early"@,
                HuffmanError::BadTable => "the code table is malformed"@,
                HuffmanError::BadText => "the code table holds bytes that are not UTF-8"@,
            },
    {
        match self {
            HuffmanError::MissingCode => "a symbol has no code in the code table".to_owned(),
            HuffmanError::BadMagic => "not huffman compression file!".to_owned(),
            HuffmanError::Truncated => "the container ends too early".to_owned(),
            HuffmanError::BadTable => "the code table is malformed".to_owned(),
            HuffmanError::BadText => "the code table holds bytes that are not UTF-8".to_owned(),
        }
    }
}

} // verus!

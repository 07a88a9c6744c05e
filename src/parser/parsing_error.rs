//! Position-aware parse diagnostics.
use crate::parser::byte_parser::ByteParser;
use vstd::prelude::*;
use vstd::string::*;

verus! {

/// How many upcoming bytes an error keeps as context.
pub const CONTEXT_LEN: usize = 50;

/// The text that `String::from_utf8_lossy` makes of `bytes`.
pub uninterp spec fn lossy_text(bytes: Seq<u8>) -> Seq<char>;

/// Relies on `String::from_utf8_lossy`: turns bytes into text, replacing
/// invalid sequences; the result depends on the bytes alone.
#[verifier::external_body]
pub(crate) fn text_of(bytes: &[u8]) -> (r: String)
    ensures
        r@ == lossy_text(bytes@),
{
    String::from_utf8_lossy(bytes).into_owned()
}

/// The text of the decimal digit `d`.
pub open spec fn digit_text(d: nat) -> Seq<char> {
    if d == 0 {
        "0"@
    } else if d == 1 {
        "1"@
    } else if d == 2 {
        "2"@
    } else if d == 3 {
        "3"@
    } else if d == 4 {
        "4"@
    } else if d == 5 {
        "5"@
    } else if d == 6 {
        "6"@
    } else if d == 7 {
        "7"@
    } else if d == 8 {
        "8"@
    } else {
        "9"@
    }
}

/// `n` written in decimal.
pub open spec fn decimal_text(n: nat) -> Seq<char>
    decreases n,
{
    if n < 10 {
        digit_text(n)
    } else {
        decimal_text(n / 10) + digit_text(n % 10)
    }
}

fn digit_str(d: usize) -> (r: &'static str)
    requires
        d < 10,
    ensures
        r@ == digit_text(d as nat),
{
    if d == 0 {
        "0"
    } else if d == 1 {
        "1"
    } else if d == 2 {
        "2"
    } else if d == 3 {
        "3"
    } else if d == 4 {
        "4"
    } else if d == 5 {
        "5"
    } else if d == 6 {
        "6"
    } else if d == 7 {
        "7"
    } else if d == 8 {
        "8"
    } else {
        "9"
    }
}

/// Appends `n`, written in decimal, to `s`.
fn append_decimal(s: &mut String, n: usize)
    ensures
        final(s)@ == old(s)@ + decimal_text(n as nat),
    decreases n,
{
    if n >= 10 {
        append_decimal(s, n / 10);
    }
    s.append(digit_str(n % 10));
    assert(n >= 10 ==> decimal_text(n as nat) == decimal_text((n / 10) as nat) + digit_text((n % 10) as nat));
    assert(final(s)@ =~= old(s)@ + decimal_text(n as nat));
}

/// The text that opens the message of an error of kind `kind`.
pub open spec fn kind_text(kind: ParsingErrorType) -> Seq<char> {
    match kind {
        ParsingErrorType::MissingNexusHeader => "File does not start with #NEXUS header"@,
        ParsingErrorType::InvalidTaxaBlock(msg) => "Invalid TAXA block format - "@ + msg@,
        ParsingErrorType::InvalidTreesBlock(msg) => "Invalid TREES block format - "@ + msg@,
        ParsingErrorType::UnclosedComment => "Unclosed comment"@,
        ParsingErrorType::InvalidBlockName => "Invalid block name"@,
        ParsingErrorType::InvalidNewickString(msg) => "Invalid newick string: "@ + msg@,
        ParsingErrorType::UnexpectedEOF => "Unexpected end of file"@,
        ParsingErrorType::InvalidFormatting => "Invalid formatting"@,
    }
}

/// The kinds of error that parsing a file or a tree description can raise.
#[derive(PartialEq, Debug)]
pub enum ParsingErrorType {
    UnexpectedEOF,
    MissingNexusHeader,
    InvalidBlockName,
    InvalidTaxaBlock(String),
    InvalidTreesBlock(String),
    UnclosedComment,
    InvalidNewickString(String),
    InvalidFormatting,
}

/// A parse error: its kind, the byte offset at which it was detected, and
/// the text of up to fifty bytes that follow.
#[derive(Debug)]
pub struct ParsingError {
    kind: ParsingErrorType,
    position: usize,
    context: String,
}

impl ParsingError {
    /// The error's kind.
    pub closed spec fn spec_kind(&self) -> ParsingErrorType {
        self.kind
    }

    /// The byte offset at which the error was detected.
    pub closed spec fn spec_position(&self) -> int {
        self.position as int
    }

    /// The text of the bytes that follow the error's offset.
    pub closed spec fn spec_context(&self) -> Seq<char> {
        self.context@
    }

    /// What an error built from `parser`'s state holds, its kind aside.
    pub open spec fn taken_from(&self, parser: &ByteParser) -> bool {
        &&& self.spec_position() == parser.pos()
        &&& self.spec_context() == lossy_text(
            parser.input().subrange(parser.pos(), parser.context_end(CONTEXT_LEN)),
        )
    }

    /// Builds an error of kind `kind` at `parser`'s cursor.
    pub fn from_parser(kind: ParsingErrorType, parser: &ByteParser) -> (r: Self)
        requires
            parser.wf(),
        ensures
            r.spec_kind() == kind,
            r.taken_from(parser),
    {
        ParsingError {
            kind,
            position: parser.position(),
            context: parser.get_context_as_string(CONTEXT_LEN),
        }
    }

    /// An unexpected-end-of-input error at `parser`'s cursor.
    pub fn unexpected_eof(parser: &ByteParser) -> (r: Self)
        requires
            parser.wf(),
        ensures
            r.spec_kind() == ParsingErrorType::UnexpectedEOF,
            r.taken_from(parser),
    {
        Self::from_parser(ParsingErrorType::UnexpectedEOF, parser)
    }

    /// A missing-file-header error at `parser`'s cursor.
    pub fn missing_nexus_header(parser: &ByteParser) -> (r: Self)
        requires
            parser.wf(),
        ensures
            r.spec_kind() == ParsingErrorType::MissingNexusHeader,
            r.taken_from(parser),
    {
        Self::from_parser(ParsingErrorType::MissingNexusHeader, parser)
    }

    /// An invalid-block-name error at `parser`'s cursor.
    pub fn invalid_block_name(parser: &ByteParser) -> (r: Self)
        requires
            parser.wf(),
        ensures
            r.spec_kind() == ParsingErrorType::InvalidBlockName,
            r.taken_from(parser),
    {
        Self::from_parser(ParsingErrorType::InvalidBlockName, parser)
    }

    /// An invalid-taxa-block error with detail `msg` at `parser`'s cursor.
    pub fn invalid_taxa_block(parser: &ByteParser, msg: String) -> (r: Self)
        requires
            parser.wf(),
        ensures
            r.spec_kind() == ParsingErrorType::InvalidTaxaBlock(msg),
            r.taken_from(parser),
    {
        Self::from_parser(ParsingErrorType::InvalidTaxaBlock(msg), parser)
    }

    /// An invalid-tree-block error with detail `msg` at `parser`'s cursor.
    pub fn invalid_trees_block(parser: &ByteParser, msg: String) -> (r: Self)
        requires
            parser.wf(),
        ensures
            r.spec_kind() == ParsingErrorType::InvalidTreesBlock(msg),
            r.taken_from(parser),
    {
        Self::from_parser(ParsingErrorType::InvalidTreesBlock(msg), parser)
    }

    /// An unclosed-comment error at `parser`'s cursor.
    pub fn unclosed_comment(parser: &ByteParser) -> (r: Self)
        requires
            parser.wf(),
        ensures
            r.spec_kind() == ParsingErrorType::UnclosedComment,
            r.taken_from(parser),
    {
        Self::from_parser(ParsingErrorType::UnclosedComment, parser)
    }

    /// An invalid-tree-description error with detail `msg` at `parser`'s cursor.
    pub fn invalid_newick_string(parser: &ByteParser, msg: String) -> (r: Self)
        requires
            parser.wf(),
        ensures
            r.spec_kind() == ParsingErrorType::InvalidNewickString(msg),
            r.taken_from(parser),
    {
        Self::from_parser(ParsingErrorType::InvalidNewickString(msg), parser)
    }

    /// An invalid-formatting error at `parser`'s cursor.
    pub fn invalid_formatting(parser: &ByteParser) -> (r: Self)
        requires
            parser.wf(),
        ensures
            r.spec_kind() == ParsingErrorType::InvalidFormatting,
            r.taken_from(parser),
    {
        Self::from_parser(ParsingErrorType::InvalidFormatting, parser)
    }

    /// The error's kind.
    pub fn kind(&self) -> (r: &ParsingErrorType)
        ensures
            *r == self.spec_kind(),
    {
        &self.kind
    }

    /// The byte offset at which the error was detected.
    pub fn position(&self) -> (r: usize)
        ensures
            r == self.spec_position(),
    {
        self.position
    }

    /// The error as a human-readable message: the kind's text, the byte
    /// offset, and the context that followed, if any, with its length in
    /// bytes.
    pub fn message(&self) -> (r: String)
        ensures
            r@ == kind_text(self.spec_kind()) + " at position "@ + decimal_text(self.spec_position() as nat)
                + if self.spec_context().len() == 0 {
                Seq::<char>::empty()
            } else {
                "\n  Context (next "@ + decimal_text(vstd::utf8::encode_utf8(self.spec_context()).len())
                    + " bytes): "@ + self.spec_context()
            },
    {
        let mut r = match &self.kind {
            ParsingErrorType::MissingNexusHeader => String::from_str("File does not start with #NEXUS header"),
            ParsingErrorType::InvalidTaxaBlock(msg) => {
                let mut t = String::from_str("Invalid TAXA block format - ");
                t.append(msg.as_str());
                t
            },
            ParsingErrorType::InvalidTreesBlock(msg) => {
                let mut t = String::from_str("Invalid TREES block format - ");
                t.append(msg.as_str());
                t
            },
            ParsingErrorType::UnclosedComment => String::from_str("Unclosed comment"),
            ParsingErrorType::InvalidBlockName => String::from_str("Invalid block name"),
            ParsingErrorType::InvalidNewickString(msg) => {
                let mut t = String::from_str("Invalid newick string: ");
                t.append(msg.as_str());
                t
            },
            ParsingErrorType::UnexpectedEOF => String::from_str("Unexpected end of file"),
            ParsingErrorType::InvalidFormatting => String::from_str("Invalid formatting"),
        };
        r.append(" at position ");
        append_decimal(&mut r, self.position);
        let n = self.context.as_str().as_bytes().len();
        if self.context.as_str().unicode_len() > 0 {
            r.append("\n  Context (next ");
            append_decimal(&mut r, n);
            r.append(" bytes): ");
            r.append(self.context.as_str());
        }
        let ghost head = kind_text(self.spec_kind()) + " at position "@ + decimal_text(self.spec_position() as nat);
        assert(r@ =~= head + if self.spec_context().len() == 0 {
            Seq::<char>::empty()
        } else {
            "\n  Context (next "@ + decimal_text(vstd::utf8::encode_utf8(self.spec_context()).len())
                + " bytes): "@ + self.spec_context()
        });
        r
    }

    /// The text of up to fifty bytes that followed the error's offset.
    pub fn context(&self) -> (r: &String)
        ensures
            r@ == self.spec_context(),
    {
        &self.context
    }
}

} // verus!

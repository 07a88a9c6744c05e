//! A cursor over the input bytes, with the scanning primitives that the tree
//! and file parsers share.
use crate::parser::parsing_error::{lossy_text, text_of, ParsingError, ParsingErrorType};
use vstd::prelude::*;

verus! {

/// `[`, which opens a comment.
pub const COMMENT_OPEN: u8 = 91;

/// `]`, which closes a comment.
pub const COMMENT_CLOSE: u8 = 93;

/// Space, tab, line feed and carriage return.
pub open spec fn is_blank(b: u8) -> bool {
    b == 32 || b == 9 || b == 10 || b == 13
}

/// Where a run of blanks and comments that reaches `i` ends, `in_comment`
/// telling whether `i` lies inside a comment; `None` when the input ends
/// inside a comment. Comments do not nest.
pub open spec fn skip_from(s: Seq<u8>, i: int, in_comment: bool) -> Option<int>
    decreases s.len() - i,
{
    if i >= s.len() {
        if in_comment {
            None
        } else {
            Some(i)
        }
    } else if in_comment {
        skip_from(s, i + 1, s[i] != COMMENT_CLOSE)
    } else if is_blank(s[i]) {
        skip_from(s, i + 1, false)
    } else if s[i] == COMMENT_OPEN {
        skip_from(s, i + 1, true)
    } else {
        Some(i)
    }
}

/// Where a label that starts at `i` ends: at the first delimiter, or at the
/// end of the input.
pub open spec fn label_end(s: Seq<u8>, i: int, delimiters: Seq<u8>) -> int
    decreases s.len() - i,
{
    if i >= s.len() || delimiters.contains(s[i]) {
        i
    } else {
        label_end(s, i + 1, delimiters)
    }
}

/// A label ends within the input, no earlier than it starts.
pub proof fn lemma_label_end_bounds(s: Seq<u8>, i: int, delimiters: Seq<u8>)
    requires
        0 <= i <= s.len(),
    ensures
        i <= label_end(s, i, delimiters) <= s.len(),
    decreases s.len() - i,
{
    if i < s.len() && !delimiters.contains(s[i]) {
        lemma_label_end_bounds(s, i + 1, delimiters);
    }
}

/// A run of blanks and comments ends within the input, no earlier than it
/// starts, at a byte that is neither blank nor opens a comment.
pub proof fn lemma_skip_from_bounds(s: Seq<u8>, i: int, in_comment: bool)
    requires
        0 <= i <= s.len(),
    ensures
        skip_from(s, i, in_comment) is Some ==> {
            let p = skip_from(s, i, in_comment).unwrap();
            &&& i <= p <= s.len()
            &&& p < s.len() ==> !is_blank(s[p]) && s[p] != COMMENT_OPEN
        },
    decreases s.len() - i,
{
    if i < s.len() {
        if in_comment {
            lemma_skip_from_bounds(s, i + 1, s[i] != COMMENT_CLOSE);
        } else if is_blank(s[i]) || s[i] == COMMENT_OPEN {
            lemma_skip_from_bounds(s, i + 1, s[i] == COMMENT_OPEN);
        }
    }
}

/// Whether two byte strings are equal.
pub fn same_bytes(a: &[u8], b: &[u8]) -> (r: bool)
    ensures
        r == (a@ == b@),
{
    if a.len() != b.len() {
        return false;
    }
    let mut i: usize = 0;
    while i < a.len()
        invariant
            a@.len() == b@.len(),
            0 <= i <= a@.len(),
            forall|j: int| 0 <= j < i ==> a@[j] == b@[j],
        decreases a@.len() - i,
    {
        if a[i] != b[i] {
            return false;
        }
        i = i + 1;
    }
    assert(a@ =~= b@);
    true
}

/// Whether `b` occurs in `set`.
pub fn contains_byte(set: &[u8], b: u8) -> (r: bool)
    ensures
        r == set@.contains(b),
{
    let mut i: usize = 0;
    while i < set.len()
        invariant
            0 <= i <= set@.len(),
            forall|j: int| 0 <= j < i ==> set@[j] != b,
        decreases set@.len() - i,
    {
        if set[i] == b {
            assert(set@[i as int] == b);
            return true;
        }
        i = i + 1;
    }
    false
}

/// A read-only view of the input and a cursor into it.
#[derive(Debug)]
pub struct ByteParser<'a> {
    bytes: &'a [u8],
    pos: usize,
}

impl<'a> ByteParser<'a> {
    /// The whole input.
    pub closed spec fn input(&self) -> Seq<u8> {
        self.bytes@
    }

    /// The cursor: the offset of the next byte to read.
    pub closed spec fn pos(&self) -> int {
        self.pos as int
    }

    /// The cursor stays within the input.
    pub open spec fn wf(&self) -> bool {
        &&& 0 <= self.pos() <= self.input().len()
        &&& self.input().len() <= usize::MAX
    }

    /// The byte under the cursor, or `None` at the end of the input.
    pub open spec fn spec_peek(&self) -> Option<u8> {
        if self.pos() < self.input().len() {
            Some(self.input()[self.pos()])
        } else {
            None
        }
    }

    /// The same input, with the cursor at `p`.
    pub open spec fn moved(&self, other: &Self, p: int) -> bool {
        &&& other.input() == self.input()
        &&& other.pos() == p
    }

    /// Creates a cursor at the start of `bytes`.
    pub fn from_bytes(bytes: &'a [u8]) -> (r: Self)
        ensures
            r.wf(),
            r.input() == bytes@,
            r.pos() == 0,
    {
        let _ = bytes.len();
        ByteParser { bytes, pos: 0 }
    }

    /// The current byte offset.
    pub fn position(&self) -> (r: usize)
        ensures
            r == self.pos(),
    {
        self.pos
    }

    /// Whether the cursor is at the end of the input.
    pub fn is_eof(&self) -> (r: bool)
        requires
            self.wf(),
        ensures
            r == (self.pos() == self.input().len()),
    {
        self.pos >= self.bytes.len()
    }

    /// The byte under the cursor, without consuming it.
    pub fn peek(&self) -> (r: Option<u8>)
        requires
            self.wf(),
        ensures
            r == self.spec_peek(),
    {
        if self.pos < self.bytes.len() {
            Some(self.bytes[self.pos])
        } else {
            None
        }
    }

    /// Whether the byte under the cursor is `b`.
    pub fn peek_is(&self, b: u8) -> (r: bool)
        requires
            self.wf(),
        ensures
            r == (self.spec_peek() == Some(b)),
    {
        self.pos < self.bytes.len() && self.bytes[self.pos] == b
    }

    /// Consumes and returns the byte under the cursor; `None` at the end.
    pub fn next(&mut self) -> (r: Option<u8>)
        requires
            old(self).wf(),
        ensures
            final(self).wf(),
            r == old(self).spec_peek(),
            old(self).moved(final(self), if r is Some { old(self).pos() + 1 } else { old(self).pos() }),
    {
        if self.pos < self.bytes.len() {
            let b = self.bytes[self.pos];
            self.pos = self.pos + 1;
            Some(b)
        } else {
            None
        }
    }

    /// Consumes the byte under the cursor if it is `b`, and says whether it did.
    pub fn consume_if(&mut self, b: u8) -> (r: bool)
        requires
            old(self).wf(),
        ensures
            final(self).wf(),
            r == (old(self).spec_peek() == Some(b)),
            old(self).moved(final(self), if r { old(self).pos() + 1 } else { old(self).pos() }),
    {
        if self.pos < self.bytes.len() && self.bytes[self.pos] == b {
            self.pos = self.pos + 1;
            true
        } else {
            false
        }
    }

    /// Skips a run of blanks and bracketed comments. Fails with an
    /// unclosed-comment error, the cursor at the end, when the input ends
    /// inside a comment.
    pub fn skip_whitespace(&mut self) -> (r: Result<(), ParsingError>)
        requires
            old(self).wf(),
        ensures
            final(self).wf(),
            old(self).pos() <= final(self).pos(),
            match skip_from(old(self).input(), old(self).pos(), false) {
                Some(p) => r is Ok && old(self).moved(final(self), p),
                None => r is Err && r->Err_0.spec_kind() == ParsingErrorType::UnclosedComment
                    && old(self).moved(final(self), old(self).input().len() as int),
            },
    {
        let ghost start = self.pos as int;
        let mut in_comment = false;
        proof {
            lemma_skip_from_bounds(self.input(), start, false);
        }
        while self.pos < self.bytes.len()
            invariant
                self.wf(),
                self.input() == old(self).input(),
                skip_from(self.input(), self.pos(), in_comment) == skip_from(self.input(), start, false),
                start == old(self).pos(),
                start <= self.pos(),
            decreases self.input().len() - self.pos(),
        {
            let b = self.bytes[self.pos];
            if in_comment {
                in_comment = b != COMMENT_CLOSE;
            } else if b == 32 || b == 9 || b == 10 || b == 13 {
            } else if b == COMMENT_OPEN {
                in_comment = true;
            } else {
                return Ok(());
            }
            self.pos = self.pos + 1;
        }
        if in_comment {
            Err(ParsingError::unclosed_comment(self))
        } else {
            Ok(())
        }
    }

    /// Consumes bytes up to the first one in `delimiters`, or to the end of
    /// the input, and returns them.
    pub fn parse_label(&mut self, delimiters: &[u8]) -> (r: Vec<u8>)
        requires
            old(self).wf(),
        ensures
            final(self).wf(),
            old(self).moved(final(self), label_end(old(self).input(), old(self).pos(), delimiters@)),
            r@ == old(self).input().subrange(old(self).pos(), final(self).pos()),
    {
        let start = self.pos;
        let mut label: Vec<u8> = Vec::new();
        while self.pos < self.bytes.len() && !contains_byte(delimiters, self.bytes[self.pos])
            invariant
                self.wf(),
                self.input() == old(self).input(),
                start == old(self).pos(),
                start <= self.pos(),
                label_end(self.input(), self.pos(), delimiters@) == label_end(self.input(), start as int, delimiters@),
                label@ == self.input().subrange(start as int, self.pos()),
            decreases self.input().len() - self.pos(),
        {
            label.push(self.bytes[self.pos]);
            self.pos = self.pos + 1;
            assert(label@ =~= self.input().subrange(start as int, self.pos()));
        }
        label
    }

    /// The bytes consumed since offset `start`.
    pub fn consumed_since(&self, start: usize) -> (r: &'a [u8])
        requires
            self.wf(),
            start <= self.pos(),
        ensures
            r@ == self.input().subrange(start as int, self.pos()),
    {
        vstd::slice::slice_subrange(self.bytes, start, self.pos)
    }

    /// Up to `max_len` upcoming bytes, as text, for error messages.
    pub fn get_context_as_string(&self, max_len: usize) -> (r: String)
        requires
            self.wf(),
        ensures
            r@ == lossy_text(self.input().subrange(self.pos(), self.context_end(max_len))),
    {
        let end = if self.bytes.len() - self.pos <= max_len {
            self.bytes.len()
        } else {
            self.pos + max_len
        };
        text_of(vstd::slice::slice_subrange(self.bytes, self.pos, end))
    }

    /// Where the context of at most `max_len` bytes ends.
    pub open spec fn context_end(&self, max_len: usize) -> int {
        if self.input().len() - self.pos() <= max_len {
            self.input().len() as int
        } else {
            self.pos() + max_len
        }
    }
}

} // verus!

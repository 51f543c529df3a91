use vstd::prelude::*;
use vstd::string::*;

verus! {

/// What went wrong while reading or writing an index.
///
/// The variants carry the values that made an operation fail, so that the
/// contracts of the library can say exactly which inputs lead to which error.
#[derive(Clone, Copy, Debug, PartialEq, Eq, Structural)]
pub enum ErrorKind {
    /// An absolute position past the end of a cursor's bytes, of which
    /// `len` were unconsumed.
    PositionOutOfBounds { pos: usize, len: usize },
    /// A position counted backwards from the end that exceeds the length.
    ReversePositionOutOfBounds { rpos: usize, len: usize },
    /// Advancing a cursor by `amount` overflows a `usize`.
    IncrementOverflow { amount: usize },
    /// A range that does not lie within the unconsumed bytes of a cursor.
    InvalidCursorRange { start: usize, end: usize },
    /// A range that does not lie within the unconsumed bytes of a cursor,
    /// requested as raw bytes.
    InvalidSliceRange { start: usize, end: usize },
    /// A varint was requested from an empty slice.
    VarintEmpty,
    /// The final byte of a varint lies beyond the 64 bits of a `u64`.
    VarintTooManyContinuationBytes,
    /// A continuation byte of a varint lies beyond the 64 bits of a `u64`.
    VarintTooManyBytes,
    /// The bytes ended before the final byte of a varint.
    VarintUnexpectedEof,
    /// A 64-bit integer does not fit in a `usize`.
    UsizeOverflow { n: u64 },
    /// Bytes that should hold a string are not valid UTF-8.
    InvalidUtf8,
    /// Bytes that should hold a finite state transducer were refused.
    InvalidFst,
    /// A skip list sibling offset that does not point backwards.
    InvalidSiblingOffset { offset: usize, pos: usize },
    /// Walking one level of a skip list revisited an entry.
    SkipListCycle,
    /// Writing `amount` bytes at position `pos` overflows a `usize`.
    PositionOverflow { pos: usize, amount: usize },
}

/// The decimal digit for `d`, which is below ten.
pub open spec fn digit(d: nat) -> char {
    if d == 0 { '0' } else if d == 1 { '1' } else if d == 2 { '2' } else if d == 3 { '3' } else if d == 4 {
        '4'
    } else if d == 5 { '5' } else if d == 6 { '6' } else if d == 7 { '7' } else if d == 8 { '8' } else { '9' }
}

/// The decimal digits of `n`, most significant first, without leading
/// zeros.
pub open spec fn decimal(n: nat) -> Seq<char>
    decreases n,
{
    if n < 10 {
        seq![digit(n)]
    } else {
        decimal(n / 10).push(digit(n % 10))
    }
}

/// Formats `n` with `to_string`. Trusted: `Display` for a `u64` writes its
/// decimal digits, most significant first, without sign or leading zeros.
#[verifier::external_body]
fn decimal_text(n: u64) -> (s: String)
    ensures
        s@ == decimal(n as nat),
{
    n.to_string()
}

impl ErrorKind {
    /// The message that describes an error of this kind.
    pub open spec fn text(self) -> Seq<char> {
        match self {
            ErrorKind::PositionOutOfBounds { pos, len } => "expected pos <= "@ + decimal(len as nat)
                + ", but got "@ + decimal(pos as nat),
            ErrorKind::ReversePositionOutOfBounds { rpos, len } => "expected rpos <= "@ + decimal(len as nat)
                + ", but got "@ + decimal(rpos as nat),
            ErrorKind::IncrementOverflow { amount } => "invalid amount increase ("@ + decimal(amount as nat) + ")"@,
            ErrorKind::InvalidCursorRange { start, end } => "invalid cursor range "@ + decimal(start as nat) + ".."@
                + decimal(end as nat),
            ErrorKind::InvalidSliceRange { start, end } => "invalid slice range "@ + decimal(start as nat) + ".."@
                + decimal(end as nat),
            ErrorKind::VarintEmpty => "no bytes to read varu64"@,
            ErrorKind::VarintTooManyContinuationBytes => "varu64 has too many continuation bytes"@,
            ErrorKind::VarintTooManyBytes => "varu64 has too many bytes"@,
            ErrorKind::VarintUnexpectedEof => "unexpected EOF when reading varu64"@,
            ErrorKind::UsizeOverflow { n } => "integer "@ + decimal(n as nat) + " exceeds maximum usize "@ + decimal(
                usize::MAX as nat,
            ),
            ErrorKind::InvalidUtf8 => "invalid UTF-8"@,
            ErrorKind::InvalidFst => "FST error"@,
            ErrorKind::InvalidSiblingOffset { offset, pos } => "invalid sibling offset "@ + decimal(offset as nat)
                + " at position "@ + decimal(pos as nat),
            ErrorKind::SkipListCycle => "skip list level revisits an entry"@,
            ErrorKind::PositionOverflow { pos, amount } => "adding "@ + decimal(amount as nat) + " bytes to position "@
                + decimal(pos as nat) + " causes overflow"@,
        }
    }

    /// The message that describes an error of this kind.
    pub fn message(&self) -> (s: String)
        ensures
            s@ == self.text(),
    {
        match *self {
            ErrorKind::PositionOutOfBounds { pos, len } => {
                let mut m = describe("expected pos <= ", len as u64, ", but got ");
                m.append(decimal_text(pos as u64).as_str());
                m
            },
            ErrorKind::ReversePositionOutOfBounds { rpos, len } => {
                let mut m = describe("expected rpos <= ", len as u64, ", but got ");
                m.append(decimal_text(rpos as u64).as_str());
                m
            },
            ErrorKind::IncrementOverflow { amount } => describe("invalid amount increase (", amount as u64, ")"),
            ErrorKind::InvalidCursorRange { start, end } => {
                let mut m = describe("invalid cursor range ", start as u64, "..");
                m.append(decimal_text(end as u64).as_str());
                m
            },
            ErrorKind::InvalidSliceRange { start, end } => {
                let mut m = describe("invalid slice range ", start as u64, "..");
                m.append(decimal_text(end as u64).as_str());
                m
            },
            ErrorKind::VarintEmpty => "no bytes to read varu64".to_owned(),
            ErrorKind::VarintTooManyContinuationBytes => "varu64 has too many continuation bytes".to_owned(),
            ErrorKind::VarintTooManyBytes => "varu64 has too many bytes".to_owned(),
            ErrorKind::VarintUnexpectedEof => "unexpected EOF when reading varu64".to_owned(),
            ErrorKind::UsizeOverflow { n } => {
                let mut m = describe("integer ", n, " exceeds maximum usize ");
                m.append(decimal_text(usize::MAX as u64).as_str());
                m
            },
            ErrorKind::InvalidUtf8 => "invalid UTF-8".to_owned(),
            ErrorKind::InvalidFst => "FST error".to_owned(),
            ErrorKind::InvalidSiblingOffset { offset, pos } => {
                let mut m = describe("invalid sibling offset ", offset as u64, " at position ");
                m.append(decimal_text(pos as u64).as_str());
                m
            },
            ErrorKind::SkipListCycle => "skip list level revisits an entry".to_owned(),
            ErrorKind::PositionOverflow { pos, amount } => {
                let mut m = describe("adding ", amount as u64, " bytes to position ");
                m.append(decimal_text(pos as u64).as_str());
                m.append(" causes overflow");
                m
            },
        }
    }
}

/// `r` failed with an error of kind `kind` whose messages are the text of
/// that kind followed by the messages of context in `contexts`.
pub open spec fn fails_with<T>(r: Result<T, FormatError>, kind: ErrorKind, contexts: Seq<Seq<char>>) -> bool {
    r matches Err(e) && e.error_kind() == kind && e.message_chain() == seq![kind.text()] + contexts
}

/// An error that occurs when reading or writing a Nakala index.
///
/// Besides its kind, an error carries a chain of human readable messages:
/// the first one describes the failure itself, and each later one is the
/// context that a caller added while the error travelled outwards.
#[derive(Debug)]
pub struct FormatError {
    kind: ErrorKind,
    messages: Vec<String>,
}

impl FormatError {
    /// The kind of this error.
    pub closed spec fn error_kind(&self) -> ErrorKind {
        self.kind
    }

    /// The chain of messages of this error, innermost first.
    pub closed spec fn message_chain(&self) -> Seq<Seq<char>> {
        self.messages@.map_values(|m: String| m@)
    }

    /// Create a new format error of the given kind with the given message.
    pub fn msg(kind: ErrorKind, msg: String) -> (e: FormatError)
        ensures
            e.error_kind() == kind,
            e.message_chain() == seq![msg@],
    {
        FormatError::none(kind).context(msg)
    }

    /// Create a new format error of the given kind, described by the text of
    /// that kind.
    pub fn from_kind(kind: ErrorKind) -> (e: FormatError)
        ensures
            e.error_kind() == kind,
            e.message_chain() == seq![kind.text()],
    {
        FormatError::msg(kind, kind.message())
    }

    /// Create a format error that has a kind but no message yet.
    fn none(kind: ErrorKind) -> (e: FormatError)
        ensures
            e.error_kind() == kind,
            e.message_chain() == Seq::<Seq<char>>::empty(),
    {
        let e = FormatError { kind, messages: Vec::new() };
        proof {
            assert(e.message_chain() =~= Seq::<Seq<char>>::empty());
        }
        e
    }

    /// Create a format error from an underlying error: the new error keeps
    /// the kind and the messages of the one given.
    pub fn err(err: FormatError) -> (e: FormatError)
        ensures
            e.error_kind() == err.error_kind(),
            e.message_chain() == err.message_chain(),
    {
        FormatError::none(err.kind).wrap(err)
    }

    /// Wrap this error in the one given: the messages of `err` come after
    /// the messages of this error, and the kind becomes that of `err`.
    pub fn wrap(self, err: FormatError) -> (e: FormatError)
        ensures
            e.error_kind() == err.error_kind(),
            e.message_chain() == self.message_chain() + err.message_chain(),
    {
        let mut messages = self.messages;
        let mut other = err.messages;
        let ghost m1 = messages@;
        let ghost m2 = other@;
        messages.append(&mut other);
        let e = FormatError { kind: err.kind, messages };
        proof {
            assert(e.messages@ == m1 + m2);
            assert(e.message_chain() =~= m1.map_values(|m: String| m@) + m2.map_values(|m: String| m@));
        }
        e
    }

    /// Contextualize this error with a message.
    pub fn context(self, msg: String) -> (e: FormatError)
        ensures
            e.error_kind() == self.error_kind(),
            e.message_chain() == self.message_chain().push(msg@),
    {
        let mut messages = self.messages;
        let ghost m1 = messages@;
        messages.push(msg);
        let e = FormatError { kind: self.kind, messages };
        proof {
            assert(e.message_chain() =~= m1.map_values(|m: String| m@).push(msg@));
        }
        e
    }

    /// The kind of this error.
    pub fn kind(&self) -> (k: &ErrorKind)
        ensures
            *k == self.error_kind(),
    {
        &self.kind
    }

    /// The outermost message of this error, which is what the error displays.
    pub fn message(&self) -> (m: String)
        ensures
            self.message_chain().len() > 0 ==> m@ == self.message_chain().last(),
            self.message_chain().len() == 0 ==> m@ == Seq::<char>::empty(),
    {
        let n = self.messages.len();
        if n == 0 {
            String::new()
        } else {
            self.messages[n - 1].clone()
        }
    }
}

/// The text `before`, then `n` in decimal, then `after`.
fn describe(before: &str, n: u64, after: &str) -> (s: String)
    ensures
        s@ == before@ + decimal(n as nat) + after@,
{
    let mut s = before.to_owned();
    let digits = decimal_text(n);
    s.append(digits.as_str());
    s.append(after);
    s
}

/// Adds a message of context to the error of a failed result.
pub trait FormatContext<T, E> {
    fn context(self, msg: String) -> Result<T, FormatError>;
}

impl<T> FormatContext<T, FormatError> for Result<T, FormatError> {
    fn context(self, msg: String) -> (r: Result<T, FormatError>)
        ensures
            match self {
                Ok(v) => r == Ok::<T, FormatError>(v),
                Err(e) => r matches Err(e2) && e2.error_kind() == e.error_kind()
                    && e2.message_chain() == e.message_chain().push(msg@),
            },
    {
        match self {
            Ok(v) => Ok(v),
            Err(e) => Err(FormatError::err(e).context(msg)),
        }
    }
}

} // verus!

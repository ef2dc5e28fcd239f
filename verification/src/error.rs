//! The error type shared by the encoders and the decoders, and the exact text
//! of the messages that carry numbers.

use std::borrow::Cow;
use vstd::prelude::*;
use vstd::string::StrSliceExecFns;
use vstd::string::StringExecFns;

verus! {

/// Errors returned by the encoder and decoder.
#[derive(Debug, PartialEq, Eq)]
pub enum Error {
    /// The input is malformed or violates the expected format.
    InvalidData(Cow<'static, str>),
    /// The input uses a feature that this library does not support.
    Unsupported(Cow<'static, str>),
}

/// Convenience alias for `Result<T, Error>`.
pub type Result<T> = core::result::Result<T, Error>;

fn clone_message(message: &Cow<'static, str>) -> (copy: Cow<'static, str>)
    ensures
        message_text(copy) == message_text(*message),
{
    match message {
        Cow::Borrowed(text) => Cow::Borrowed(*text),
        Cow::Owned(text) => Cow::Owned(text.clone()),
    }
}

impl Clone for Error {
    fn clone(&self) -> (copy: Self)
        ensures
            copy@ == self@,
    {
        match self {
            Error::InvalidData(message) => Error::InvalidData(clone_message(message)),
            Error::Unsupported(message) => Error::Unsupported(clone_message(message)),
        }
    }
}

/// What an [`Error`] says, with its message as a sequence of characters.
#[verifier::ext_equal]
pub enum Fault {
    /// See [`Error::InvalidData`].
    InvalidData(Seq<char>),
    /// See [`Error::Unsupported`].
    Unsupported(Seq<char>),
}

/// The characters of a message, whether it is borrowed or owned.
pub open spec fn message_text(message: Cow<'static, str>) -> Seq<char> {
    match message {
        Cow::Borrowed(text) => text@,
        Cow::Owned(text) => text@,
    }
}

impl View for Error {
    type V = Fault;

    open spec fn view(&self) -> Fault {
        match *self {
            Error::InvalidData(message) => Fault::InvalidData(message_text(message)),
            Error::Unsupported(message) => Fault::Unsupported(message_text(message)),
        }
    }
}

/// The character of the decimal digit `d`.
pub open spec fn digit_char(d: nat) -> char {
    if d == 0 {
        '0'
    } else if d == 1 {
        '1'
    } else if d == 2 {
        '2'
    } else if d == 3 {
        '3'
    } else if d == 4 {
        '4'
    } else if d == 5 {
        '5'
    } else if d == 6 {
        '6'
    } else if d == 7 {
        '7'
    } else if d == 8 {
        '8'
    } else {
        '9'
    }
}

/// `n` in decimal, without leading zeros.
pub open spec fn decimal(n: nat) -> Seq<char>
    decreases n,
{
    if n < 10 {
        seq![digit_char(n)]
    } else {
        decimal(n / 10).push(digit_char(n % 10))
    }
}

/// A fault of kind [`Error::InvalidData`] with the given message.
pub open spec fn invalid(message: &str) -> Fault {
    Fault::InvalidData(message@)
}

/// An [`Error::InvalidData`] with a constant message.
pub fn invalid_data(message: &'static str) -> (e: Error)
    ensures
        e@ == invalid(message),
{
    Error::InvalidData(Cow::Borrowed(message))
}

/// An [`Error::Unsupported`] with a constant message.
pub fn unsupported(message: &'static str) -> (e: Error)
    ensures
        e@ == Fault::Unsupported(message@),
{
    Error::Unsupported(Cow::Borrowed(message))
}

fn digit_str(d: usize) -> (s: &'static str)
    requires
        d < 10,
    ensures
        s@ == seq![digit_char(d as nat)],
{
    proof {
        reveal_strlit("0");
        reveal_strlit("1");
        reveal_strlit("2");
        reveal_strlit("3");
        reveal_strlit("4");
        reveal_strlit("5");
        reveal_strlit("6");
        reveal_strlit("7");
        reveal_strlit("8");
        reveal_strlit("9");
    }
    if d == 0 {
        "0"
    } else if d == 1 {
        "1"
    } else if d == 2 {
        "2"
    } else if d == 3 {
        "3"
    } else if d == 4 {
        "4"
    } else if d == 5 {
        "5"
    } else if d == 6 {
        "6"
    } else if d == 7 {
        "7"
    } else if d == 8 {
        "8"
    } else {
        "9"
    }
}

/// Append `n` in decimal to `text`.
pub fn push_decimal(text: &mut String, n: usize)
    ensures
        final(text)@ == old(text)@ + decimal(n as nat),
    decreases n,
{
    if n >= 10 {
        push_decimal(text, n / 10);
    }
    text.append(digit_str(n % 10));
    proof {
        let d = digit_char((n % 10) as nat);
        if n >= 10 {
            assert(decimal(n as nat) == decimal(n as nat / 10).push(d));
            assert(text@ == old(text)@ + decimal(n as nat / 10) + seq![d]);
            assert(text@ =~= old(text)@ + decimal(n as nat));
        } else {
            assert(n % 10 == n);
        }
    }
}

/// `before` followed by `n` in decimal followed by `after`.
pub fn numbered(before: &str, n: usize, after: &str) -> (text: String)
    ensures
        text@ == before@ + decimal(n as nat) + after@,
{
    let mut text: String = before.to_owned();
    push_decimal(&mut text, n);
    text.append(after);
    text
}

impl Error {
    /// The message without the kind in front of it.
    pub open spec fn text(&self) -> Seq<char> {
        match *self {
            Error::InvalidData(message) => message_text(message),
            Error::Unsupported(message) => message_text(message),
        }
    }

    /// The error as shown to a user: its kind, a colon and the message.
    pub fn to_string(&self) -> (text: String)
        ensures
            text@ == match *self {
                Error::InvalidData(_) => "invalid data: "@,
                Error::Unsupported(_) => "unsupported: "@,
            } + self.text(),
    {
        let (mut shown, message): (String, &Cow<'static, str>) = match self {
            Error::InvalidData(message) => ("invalid data: ".to_owned(), message),
            Error::Unsupported(message) => ("unsupported: ".to_owned(), message),
        };
        match message {
            Cow::Borrowed(text) => shown.append(text),
            Cow::Owned(text) => shown.append(text.as_str()),
        }
        shown
    }
}

/// Whether two strings hold the same characters.
pub fn same_text(a: &str, b: &str) -> (same: bool)
    ensures
        same == (a@ == b@),
{
    let n: usize = a.unicode_len();
    if n != b.unicode_len() {
        return false;
    }
    let mut i: usize = 0;
    while i < n
        invariant
            n == a@.len(),
            n == b@.len(),
            i <= n,
            forall|j: int| 0 <= j < i ==> a@[j] == b@[j],
        decreases n - i,
    {
        if a.get_char(i) != b.get_char(i) {
            return false;
        }
        i += 1;
    }
    assert(a@ =~= b@);
    true
}

/// A number is written with the digits that it has, without leading zeros: its
/// last digit is the remainder of the division by ten, and the quotient comes
/// before it if it is not zero.
pub proof fn lemma_decimal(n: nat)
    ensures
        decimal(n).len() > 0,
        decimal(n).last() as int == 48 + n % 10,
        n < 10 ==> decimal(n).len() == 1,
        n >= 10 ==> decimal(n).drop_last() == decimal(n / 10),
        n > 0 ==> decimal(n)[0] as int != 48,
    decreases n,
{
    if n >= 10 {
        lemma_decimal(n / 10);
        assert(decimal(n).drop_last() =~= decimal(n / 10));
        assert(decimal(n)[0] == decimal(n / 10)[0]);
    }
}

/// An error has the kind and the message that its view says.
pub proof fn lemma_shown(e: Error)
    ensures
        match e {
            Error::InvalidData(message) => e@ == Fault::InvalidData(message_text(message)),
            Error::Unsupported(message) => e@ == Fault::Unsupported(message_text(message)),
        },
        match e@ {
            Fault::InvalidData(text) => e is InvalidData && e.text() == text,
            Fault::Unsupported(text) => e is Unsupported && e.text() == text,
        },
{
}

} // verus!

//! Errors of a connection.
use vstd::prelude::*;

verus! {

/// `std::io::Error`, carried through opaque.
#[verifier::external_type_specification]
#[verifier::external_body]
pub struct ExIoError(std::io::Error);

/// What can go wrong on a connection.
#[derive(Debug)]
pub enum Error {
    IoError(std::io::Error),
    InvalidProtoId(u32),
    InvalidChannel(u8),
    InvalidType(u8),
    InvalidCtlType(u8),
    PeerIDAlreadySet,
    InvalidChunkIndex(usize, usize),
    InvalidChunkCount(usize, usize),
    RemoteDisco(bool),
    LocalDisco,
}

impl From<std::io::Error> for Error {
    /// An I/O error of the socket.
    fn from(err: std::io::Error) -> (r: Self) {
        Error::IoError(err)
    }
}

impl vstd::std_specs::convert::FromSpecImpl<std::io::Error> for Error {
    open spec fn obeys_from_spec() -> bool {
        true
    }

    open spec fn from_spec(err: std::io::Error) -> Self {
        Error::IoError(err)
    }
}

/// An error with the I/O error inside it forgotten.
pub enum Fault {
    Io,
    InvalidProtoId(u32),
    InvalidChannel(u8),
    InvalidType(u8),
    InvalidCtlType(u8),
    PeerIDAlreadySet,
    InvalidChunkIndex(usize, usize),
    InvalidChunkCount(usize, usize),
    RemoteDisco(bool),
    LocalDisco,
}

impl View for Error {
    type V = Fault;

    open spec fn view(&self) -> Fault {
        match self {
            Error::IoError(_) => Fault::Io,
            Error::InvalidProtoId(n) => Fault::InvalidProtoId(*n),
            Error::InvalidChannel(n) => Fault::InvalidChannel(*n),
            Error::InvalidType(n) => Fault::InvalidType(*n),
            Error::InvalidCtlType(n) => Fault::InvalidCtlType(*n),
            Error::PeerIDAlreadySet => Fault::PeerIDAlreadySet,
            Error::InvalidChunkIndex(i, n) => Fault::InvalidChunkIndex(*i, *n),
            Error::InvalidChunkCount(o, n) => Fault::InvalidChunkCount(*o, *n),
            Error::RemoteDisco(t) => Fault::RemoteDisco(*t),
            Error::LocalDisco => Fault::LocalDisco,
        }
    }
}

impl Error {
    /// Whether the error ends the connection.
    pub open spec fn spec_is_disco(self) -> bool {
        self@ is RemoteDisco || self@ is LocalDisco
    }

    /// Whether the error ends the connection.
    pub fn is_disco(&self) -> (r: bool)
        ensures
            r == self.spec_is_disco(),
    {
        match self {
            Error::RemoteDisco(_) => true,
            Error::LocalDisco => true,
            _ => false,
        }
    }
}

/// `std::io::Error::from(ErrorKind::UnexpectedEof)`: the error that a read past
/// the end of a datagram gives. Nothing is stated of the value, which is opaque.
#[verifier::external_body]
pub(crate) fn unexpected_eof() -> std::io::Error {
    std::io::Error::from(std::io::ErrorKind::UnexpectedEof)
}

/// The character of a decimal digit.
pub open spec fn digit_char(d: int) -> char {
    if d == 0 {
        '0'
    } else if d == 1 {
        '1'
    } else if d == 2 {
        '2'
    } else if d == 3 {
        '3'
    } else if d == 4 {
        '4'
    } else if d == 5 {
        '5'
    } else if d == 6 {
        '6'
    } else if d == 7 {
        '7'
    } else if d == 8 {
        '8'
    } else {
        '9'
    }
}

/// The decimal digits of `n`.
pub open spec fn decimal(n: nat) -> Seq<char>
    decreases n,
{
    if n < 10 {
        seq![digit_char(n as int)]
    } else {
        decimal(n / 10).push(digit_char((n % 10) as int))
    }
}

/// The one-character string of a decimal digit.
fn digit_str(d: u64) -> (r: &'static str)
    requires
        d < 10,
    ensures
        r@ == seq![digit_char(d as int)],
{
    if d == 0 {
        proof { reveal_strlit("0"); }
        "0"
    } else if d == 1 {
        proof { reveal_strlit("1"); }
        "1"
    } else if d == 2 {
        proof { reveal_strlit("2"); }
        "2"
    } else if d == 3 {
        proof { reveal_strlit("3"); }
        "3"
    } else if d == 4 {
        proof { reveal_strlit("4"); }
        "4"
    } else if d == 5 {
        proof { reveal_strlit("5"); }
        "5"
    } else if d == 6 {
        proof { reveal_strlit("6"); }
        "6"
    } else if d == 7 {
        proof { reveal_strlit("7"); }
        "7"
    } else if d == 8 {
        proof { reveal_strlit("8"); }
        "8"
    } else {
        proof { reveal_strlit("9"); }
        "9"
    }
}

/// Appends the decimal digits of `n`.
pub fn push_decimal(s: &mut String, n: u64)
    ensures
        final(s)@ == old(s)@ + decimal(n as nat),
    decreases n,
{
    if n >= 10 {
        push_decimal(s, n / 10);
    }
    s.append(digit_str(n % 10));
    assert(final(s)@ =~= old(s)@ + decimal(n as nat));
}

/// What the message says after its prefix, for an error other than an I/O error.
pub open spec fn spec_message(e: Fault) -> Seq<char> {
    match e {
        Fault::Io => "IO error: "@,
        Fault::InvalidProtoId(id) => "invalid protocol ID: "@ + decimal(id as nat),
        Fault::InvalidChannel(ch) => "invalid channel: "@ + decimal(ch as nat),
        Fault::InvalidType(tp) => "invalid type: "@ + decimal(tp as nat),
        Fault::InvalidCtlType(tp) => "invalid control type: "@ + decimal(tp as nat),
        Fault::PeerIDAlreadySet => "peer ID already set"@,
        Fault::InvalidChunkIndex(i, n) => "chunk index "@ + decimal(i as nat) + " bigger than chunk count "@
            + decimal(n as nat),
        Fault::InvalidChunkCount(o, n) => "chunk count changed from "@ + decimal(o as nat) + " to "@
            + decimal(n as nat),
        Fault::RemoteDisco(to) => if to {
            "remote disconnected"@ + " (timeout)"@
        } else {
            "remote disconnected"@
        },
        Fault::LocalDisco => "local disconnected"@,
    }
}

impl Error {
    /// The message that describes the error: `rudp: ` and what went wrong,
    /// with the I/O error's own message after `IO error: `.
    pub fn message(&self) -> (r: String)
        ensures
            !(self@ is Io) ==> r@ == "rudp: "@ + spec_message(self@),
            self@ is Io ==> ("rudp: "@ + "IO error: "@).is_prefix_of(r@),
    {
        let mut s = String::from_str("rudp: ");
        match self {
            Error::IoError(err) => {
                s.append("IO error: ");
                let ghost pre = s@;
                let m = err.to_string();
                s.append(m.as_str());
                assert(s@.subrange(0, pre.len() as int) =~= pre);
                assert(pre.is_prefix_of(s@));
            },
            Error::InvalidProtoId(id) => {
                s.append("invalid protocol ID: ");
                push_decimal(&mut s, *id as u64);
            },
            Error::InvalidChannel(ch) => {
                s.append("invalid channel: ");
                push_decimal(&mut s, *ch as u64);
            },
            Error::InvalidType(tp) => {
                s.append("invalid type: ");
                push_decimal(&mut s, *tp as u64);
            },
            Error::InvalidCtlType(tp) => {
                s.append("invalid control type: ");
                push_decimal(&mut s, *tp as u64);
            },
            Error::PeerIDAlreadySet => {
                s.append("peer ID already set");
            },
            Error::InvalidChunkIndex(i, n) => {
                s.append("chunk index ");
                push_decimal(&mut s, *i as u64);
                s.append(" bigger than chunk count ");
                push_decimal(&mut s, *n as u64);
            },
            Error::InvalidChunkCount(o, n) => {
                s.append("chunk count changed from ");
                push_decimal(&mut s, *o as u64);
                s.append(" to ");
                push_decimal(&mut s, *n as u64);
            },
            Error::RemoteDisco(to) => {
                s.append("remote disconnected");
                if *to {
                    s.append(" (timeout)");
                }
            },
            Error::LocalDisco => {
                s.append("local disconnected");
            },
        }
        s
    }
}

} // verus!

//! Error type of the crate.

use vstd::prelude::*;

verus! {

/// `std::io::Error`: what a stream reports when a read fails.  Carried along
/// and never looked into.
#[verifier::external_type_specification]
#[verifier::external_body]
pub struct ExIoError(std::io::Error);

/// Errors that can occur while reading a Ptex file.
#[derive(Debug)]
pub enum Error {
    /// An I/O error occurred while reading the file.
    Io(std::io::Error),
    /// The file does not start with the Ptex magic number.
    NotAPtexFile,
    /// The file version is not supported (only version 1 is defined).
    UnsupportedVersion(u32),
    /// The header contains an invalid mesh type value.
    InvalidMeshType(u32),
    /// The header contains an invalid data type value.
    InvalidDataType(u32),
    /// The file contents are inconsistent or corrupt.
    Corrupt(String),
    /// A face id is out of range.
    FaceOutOfRange {
        /// The requested face id.
        faceid: i32,
        /// The number of faces in the file.
        nfaces: u32,
    },
    /// A tile index is out of range.
    TileOutOfRange {
        /// The requested tile index.
        tile: usize,
        /// The number of tiles of the face at the requested resolution.
        ntiles: usize,
    },
    /// The requested operation is not supported.
    Unsupported(String),
}

/// An [`Error`] with its messages as character sequences.  What the system
/// reported about an I/O error is left out; that it is what a read returned,
/// [`crate::stream::is_handed_on`] says.
pub enum ErrorView {
    Io,
    NotAPtexFile,
    UnsupportedVersion(u32),
    InvalidMeshType(u32),
    InvalidDataType(u32),
    Corrupt(Seq<char>),
    FaceOutOfRange { faceid: i32, nfaces: u32 },
    TileOutOfRange { tile: usize, ntiles: usize },
    Unsupported(Seq<char>),
}

impl View for Error {
    type V = ErrorView;

    open spec fn view(&self) -> ErrorView {
        match self {
            Error::Io(_) => ErrorView::Io,
            Error::NotAPtexFile => ErrorView::NotAPtexFile,
            Error::UnsupportedVersion(v) => ErrorView::UnsupportedVersion(*v),
            Error::InvalidMeshType(v) => ErrorView::InvalidMeshType(*v),
            Error::InvalidDataType(v) => ErrorView::InvalidDataType(*v),
            Error::Corrupt(msg) => ErrorView::Corrupt(msg@),
            Error::FaceOutOfRange { faceid, nfaces } => ErrorView::FaceOutOfRange {
                faceid: *faceid,
                nfaces: *nfaces,
            },
            Error::TileOutOfRange { tile, ntiles } => ErrorView::TileOutOfRange {
                tile: *tile,
                ntiles: *ntiles,
            },
            Error::Unsupported(msg) => ErrorView::Unsupported(msg@),
        }
    }
}

/// A result with the error taken by its view.
pub open spec fn view_result<T>(r: Result<T, Error>) -> Result<T, ErrorView> {
    match r {
        Ok(v) => Ok(v),
        Err(e) => Err(e@),
    }
}

/// `ToString::to_string` of `std::io::Error`: what the system says about the
/// error.  Nothing is claimed of the words, which differ between systems.
#[verifier::external_body]
fn io_error_words(e: &std::io::Error) -> (s: String) {
    e.to_string()
}

/// Decimal digits of `n`, most significant first.
pub open spec fn decimal(n: nat) -> Seq<char>
    decreases n,
{
    let digit = (('0' as int + n % 10) as u8) as char;
    if n < 10 {
        seq![digit]
    } else {
        decimal(n / 10).push(digit)
    }
}

/// Decimal form of `n`, with a leading minus sign if it is negative.
pub open spec fn signed_decimal(n: int) -> Seq<char> {
    if n < 0 {
        "-"@ + decimal((-n) as nat)
    } else {
        decimal(n as nat)
    }
}

fn digit_str(d: u64) -> (s: &'static str)
    requires
        d < 10,
    ensures
        s@ == seq![(('0' as int + d) as u8) as char],
{
    proof {
        reveal_strlit("0");
        reveal_strlit("1");
        reveal_strlit("2");
        reveal_strlit("3");
        reveal_strlit("4");
        reveal_strlit("5");
        reveal_strlit("6");
        reveal_strlit("7");
        reveal_strlit("8");
        reveal_strlit("9");
    }
    match d {
        0 => "0",
        1 => "1",
        2 => "2",
        3 => "3",
        4 => "4",
        5 => "5",
        6 => "6",
        7 => "7",
        8 => "8",
        _ => "9",
    }
}

/// Append the decimal digits of `n` to `out`.
pub(crate) fn push_decimal(out: &mut String, n: u64)
    ensures
        final(out)@ == old(out)@ + decimal(n as nat),
    decreases n,
{
    if n >= 10 {
        push_decimal(out, n / 10);
    }
    out.append(digit_str(n % 10));
    assert(out@ =~= old(out)@ + decimal(n as nat));
}

impl Error {
    /// The message to show to a user; on an I/O error, what comes before the
    /// system's own words.
    pub open spec fn spec_message(e: ErrorView) -> Seq<char> {
        match e {
            ErrorView::Io => "I/O error: "@,
            ErrorView::NotAPtexFile => "not a ptex file"@,
            ErrorView::UnsupportedVersion(v) => "unsupported ptex file version ("@ + decimal(
                v as nat,
            ) + ")"@,
            ErrorView::InvalidMeshType(v) => "invalid mesh type ("@ + decimal(v as nat) + ")"@,
            ErrorView::InvalidDataType(v) => "invalid data type ("@ + decimal(v as nat) + ")"@,
            ErrorView::Corrupt(msg) => "corrupt ptex file: "@ + msg,
            ErrorView::FaceOutOfRange { faceid, nfaces } => "face id "@ + signed_decimal(
                faceid as int,
            ) + " out of range (file has "@ + decimal(nfaces as nat) + " faces)"@,
            ErrorView::TileOutOfRange { tile, ntiles } => "tile "@ + decimal(tile as nat)
                + " out of range (face has "@ + decimal(ntiles as nat) + " tiles)"@,
            ErrorView::Unsupported(msg) => "unsupported operation: "@ + msg,
        }
    }

    /// The message to show to a user.
    pub fn message(&self) -> (out: String)
        ensures
            !(self is Io) ==> out@ == Error::spec_message(self@),
            self is Io ==> exists|words: Seq<char>|
                out@ == #[trigger] (Error::spec_message(self@) + words),
    {
        match self {
            Error::Io(e) => {
                let mut s = String::from_str("I/O error: ");
                let words = io_error_words(e);
                s.append(words.as_str());
                assert(s@ == Error::spec_message(self@) + words@);
                s
            },
            Error::NotAPtexFile => String::from_str("not a ptex file"),
            Error::UnsupportedVersion(v) => {
                let mut s = String::from_str("unsupported ptex file version (");
                push_decimal(&mut s, *v as u64);
                s.append(")");
                s
            },
            Error::InvalidMeshType(v) => {
                let mut s = String::from_str("invalid mesh type (");
                push_decimal(&mut s, *v as u64);
                s.append(")");
                s
            },
            Error::InvalidDataType(v) => {
                let mut s = String::from_str("invalid data type (");
                push_decimal(&mut s, *v as u64);
                s.append(")");
                s
            },
            Error::Corrupt(msg) => {
                let mut s = String::from_str("corrupt ptex file: ");
                s.append(msg.as_str());
                s
            },
            Error::FaceOutOfRange { faceid, nfaces } => {
                let mut s = String::from_str("face id ");
                if *faceid < 0 {
                    s.append("-");
                    push_decimal(&mut s, (-(*faceid as i64)) as u64);
                } else {
                    push_decimal(&mut s, *faceid as u64);
                }
                assert(s@ =~= "face id "@ + signed_decimal(*faceid as int));
                s.append(" out of range (file has ");
                push_decimal(&mut s, *nfaces as u64);
                s.append(" faces)");
                s
            },
            Error::TileOutOfRange { tile, ntiles } => {
                let mut s = String::from_str("tile ");
                push_decimal(&mut s, *tile as u64);
                s.append(" out of range (face has ");
                push_decimal(&mut s, *ntiles as u64);
                s.append(" tiles)");
                s
            },
            Error::Unsupported(msg) => {
                let mut s = String::from_str("unsupported operation: ");
                s.append(msg.as_str());
                s
            },
        }
    }
}

/// Error for inconsistent file contents.
pub(crate) fn corrupt(msg: &str) -> (e: Error)
    ensures
        e@ == ErrorView::Corrupt(msg@),
{
    Error::Corrupt(String::from_str(msg))
}

/// Error for an operation that is not supported.
pub(crate) fn unsupported(msg: &str) -> (e: Error)
    ensures
        e@ == ErrorView::Unsupported(msg@),
{
    Error::Unsupported(String::from_str(msg))
}

/// The number that decimal digits stand for.
pub open spec fn digits_value(s: Seq<char>) -> int
    decreases s.len(),
{
    if s.len() == 0 {
        0
    } else {
        10 * digits_value(s.drop_last()) + (s.last() as int - '0' as int)
    }
}

/// A number is written with the digits that stand for it, none of them a
/// leading zero.
pub proof fn decimal_stands_for_its_number(n: nat)
    ensures
        digits_value(decimal(n)) == n,
        decimal(n).len() > 0,
        forall|i: int| 0 <= i < decimal(n).len() ==> '0' <= #[trigger] decimal(n)[i] <= '9',
        n >= 1 ==> decimal(n)[0] != '0',
    decreases n,
{
    let digit = (('0' as int + n % 10) as u8) as char;
    assert(digit as int == '0' as int + n % 10);
    if n < 10 {
        let s = decimal(n);
        assert(s =~= seq![digit]);
        assert(s.drop_last() =~= Seq::empty());
        assert(digits_value(s.drop_last()) == 0);
    } else {
        decimal_stands_for_its_number(n / 10);
        assert(decimal(n) =~= decimal(n / 10).push(digit));
        assert(decimal(n).drop_last() =~= decimal(n / 10));
    }
}

/// What the message of an error says: the numbers that were found, and the
/// words that were given.
pub proof fn messages_say_what_was_found(
    a: u32,
    faceid: i32,
    tile: usize,
    ntiles: usize,
    words: Seq<char>,
)
    ensures
        Error::spec_message(ErrorView::NotAPtexFile) == "not a ptex file"@,
        Error::spec_message(ErrorView::UnsupportedVersion(a))
            == "unsupported ptex file version ("@ + decimal(a as nat) + ")"@,
        Error::spec_message(ErrorView::InvalidMeshType(a)) == "invalid mesh type ("@ + decimal(
            a as nat,
        ) + ")"@,
        Error::spec_message(ErrorView::InvalidDataType(a)) == "invalid data type ("@ + decimal(
            a as nat,
        ) + ")"@,
        Error::spec_message(ErrorView::Corrupt(words)) == "corrupt ptex file: "@ + words,
        Error::spec_message(ErrorView::Unsupported(words)) == "unsupported operation: "@ + words,
        faceid >= 0 ==> Error::spec_message(ErrorView::FaceOutOfRange { faceid, nfaces: a })
            == "face id "@ + decimal(faceid as nat) + " out of range (file has "@ + decimal(
            a as nat,
        ) + " faces)"@,
        faceid < 0 ==> Error::spec_message(ErrorView::FaceOutOfRange { faceid, nfaces: a })
            == "face id "@ + ("-"@ + decimal((-faceid) as nat)) + " out of range (file has "@
            + decimal(a as nat) + " faces)"@,
        Error::spec_message(ErrorView::TileOutOfRange { tile, ntiles }) == "tile "@ + decimal(
            tile as nat,
        ) + " out of range (face has "@ + decimal(ntiles as nat) + " tiles)"@,
{
}

} // verus!

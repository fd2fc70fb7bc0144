//! Names of directory entries: file names (without `.` and `..`) and lookup
//! names (with them).

use vstd::prelude::*;
use vstd::utf8::{valid_utf8, decode_utf8};
use vstd::string::StringSliceAdditionalSpecFns;
use vstd::std_specs::iter::IteratorSpec;
use crate::errors::{FsError, FsErrorKind, opt_str_view};

verus! {

broadcast use vstd::string::group_string_axioms;

/// The longest name, in bytes.
pub const FILE_NAME_LEN: usize = 256;

/// A character that no name may hold: `/`, NUL, or an ASCII control
/// character.
pub open spec fn is_invalid_name_char(c: char) -> bool {
    c == '/' || c == '\0' || (c as u32) < 0x20 || (c as u32) == 0x7f
}

/// Whether a name holds a character that no name may hold.
pub open spec fn has_invalid_char(s: Seq<char>) -> bool {
    exists|i: int| 0 <= i < s.len() && is_invalid_name_char(#[trigger] s[i])
}

/// The message of the error for a name with an invalid character.
pub open spec fn invalid_char_msg() -> Seq<char> {
    "the file name contains invalid character"@
}

/// The message of the error for `.` and `..` given as a file name.
pub open spec fn not_valid_msg() -> Seq<char> {
    "the file name is not valid"@
}

/// Whether `c` is an ASCII control character (std's
/// `char::is_ascii_control`: U+0000 to U+001F and U+007F).
fn is_ascii_control(c: char) -> (r: bool)
    ensures
        r == ((c as u32) < 0x20 || (c as u32) == 0x7f),
{
    let v = c as u32;
    v < 0x20 || v == 0x7f
}

/// Checks that `name` holds no `/`, NUL or control character.
pub fn check_contains_invalid_char(name: &str) -> (r: Result<(), FsError>)
    ensures
        r is Ok <==> !has_invalid_char(name@),
        r is Err ==> r->Err_0.kind == FsErrorKind::InvalidArgument && opt_str_view(r->Err_0.msg)
            == Some(invalid_char_msg()),
{
    let mut invalid = false;
    let ghost s = name@;
    let ghost mut idx: int = 0;
    let mut it = name.chars();
    loop
        invariant
            it.remaining() == s.skip(idx),
            0 <= idx <= s.len(),
            it.obeys_prophetic_iter_laws(),
            invalid == exists|i: int| 0 <= i < idx && is_invalid_name_char(#[trigger] s[i]),
        ensures
            invalid == has_invalid_char(s),
        decreases s.len() - idx,
    {
        let ghost before = it.remaining();
        match it.next() {
            Some(ch) => {
                proof {
                    assert(before.len() > 0);
                    assert(ch == s[idx]);
                }
                if ch == '/' || ch == '\0' || is_ascii_control(ch) {
                    invalid = true;
                }
                proof {
                    assert(it.remaining() =~= s.skip(idx + 1));
                    idx = idx + 1;
                }
            },
            None => {
                proof {
                    assert(idx == s.len());
                }
                break;
            },
        }
    }
    if invalid {
        let e = FsError::with_fmt_args(
            FsErrorKind::InvalidArgument,
            "the file name contains invalid character",
        );
        return Err(e);
    }
    Ok(())
}

/// Whether the bytes of a name are those of `.` or `..`.
pub open spec fn is_dot_or_dotdot(b: Seq<u8>) -> bool {
    b =~= seq![0x2Eu8] || b =~= seq![0x2Eu8, 0x2Eu8]
}

/// Whether `name` is accepted as a lookup name.
pub open spec fn lookup_name_ok(name: &str) -> bool {
    name.len() <= FILE_NAME_LEN && !has_invalid_char(name@)
}

/// Whether `name` is accepted as a file name.
pub open spec fn file_name_ok(name: &str) -> bool {
    lookup_name_ok(name) && !is_dot_or_dotdot(name.spec_bytes())
}

/// Whether UTF-8 bytes are accepted as a lookup name.
pub open spec fn lookup_bytes_ok(b: Seq<u8>) -> bool {
    b.len() <= FILE_NAME_LEN && !has_invalid_char(decode_utf8(b))
}

/// Whether UTF-8 bytes are accepted as a file name.
pub open spec fn file_bytes_ok(b: Seq<u8>) -> bool {
    lookup_bytes_ok(b) && !is_dot_or_dotdot(b)
}

/// The error kind a rejected file name gets: too long, then `.`/`..`, then
/// an invalid character.
pub open spec fn file_name_error(name: &str) -> FsErrorKind {
    if name.len() > FILE_NAME_LEN {
        FsErrorKind::FileNameTooLong
    } else {
        FsErrorKind::InvalidArgument
    }
}

/// The bytes as a string slice, when they are UTF-8 (std's
/// `core::str::from_utf8`); otherwise the text of std's error.
#[verifier::external_body]
fn utf8_str<'a>(bytes: &'a [u8]) -> (r: Result<&'a str, String>)
    ensures
        r is Ok <==> valid_utf8(bytes@),
        r is Ok ==> r->Ok_0.spec_bytes() == bytes@,
{
    match core::str::from_utf8(bytes) {
        Ok(s) => Ok(s),
        Err(e) => Err(e.to_string()),
    }
}

fn str_from_utf8<'a>(bytes: &'a [u8]) -> (r: Result<&'a str, FsError>)
    ensures
        r is Ok <==> valid_utf8(bytes@),
        r is Ok ==> r->Ok_0.spec_bytes() == bytes@,
        r is Err ==> r->Err_0.kind == FsErrorKind::InvalidUt8Str,
{
    match utf8_str(bytes) {
        Ok(s) => Ok(s),
        Err(m) => Err(FsError::with_fmt_args(FsErrorKind::InvalidUt8Str, m.as_str())),
    }
}

fn is_dot_name(name: &str) -> (r: bool)
    ensures
        r == is_dot_or_dotdot(name.spec_bytes()),
{
    let b = name.as_bytes();
    let r = (b.len() == 1 && b[0] == 0x2E) || (b.len() == 2 && b[0] == 0x2E && b[1] == 0x2E);
    proof {
        if b@.len() == 1 && b@[0] == 0x2E {
            assert(b@ =~= seq![0x2Eu8]);
        }
        if b@.len() == 2 && b@[0] == 0x2E && b@[1] == 0x2E {
            assert(b@ =~= seq![0x2Eu8, 0x2Eu8]);
        }
    }
    r
}

/// A valid file name: at most 256 bytes, not `.` or `..`, with no `/`, NUL
/// or control character.
#[derive(Debug, Clone, Copy)]
pub struct ValidFileName<'a>(&'a str);

impl<'a> ValidFileName<'a> {
    /// The name held.
    pub closed spec fn spec_str(&self) -> &'a str {
        self.0
    }

    /// The name, when it is a valid file name.
    pub fn try_from(name: &'a str) -> (r: Result<Self, FsError>)
        ensures
            r is Ok <==> file_name_ok(name),
            r is Ok ==> r->Ok_0.spec_str() == name,
            r is Err ==> r->Err_0.kind == file_name_error(name),
            name.len() <= FILE_NAME_LEN && is_dot_or_dotdot(name.spec_bytes()) ==> opt_str_view(r->Err_0.msg) == Some(
                not_valid_msg(),
            ),
    {
        if name.len() > FILE_NAME_LEN {
            return Err(FsError { msg: None, kind: FsErrorKind::FileNameTooLong });
        }
        if is_dot_name(name) {
            return Err(FsError::with_fmt_args(FsErrorKind::InvalidArgument, "the file name is not valid"));
        }
        match check_contains_invalid_char(name) {
            Ok(()) => Ok(ValidFileName(name)),
            Err(e) => Err(e),
        }
    }

    /// The name from bytes, when they are UTF-8 and a valid file name.
    pub fn try_from_bytes(name: &'a [u8]) -> (r: Result<Self, FsError>)
        ensures
            r is Ok <==> valid_utf8(name@) && file_bytes_ok(name@),
            r is Ok ==> r->Ok_0.spec_str().spec_bytes() == name@,
            !valid_utf8(name@) ==> r->Err_0.kind == FsErrorKind::InvalidUt8Str,
            valid_utf8(name@) && name@.len() > FILE_NAME_LEN ==> r->Err_0.kind
                == FsErrorKind::FileNameTooLong,
            valid_utf8(name@) && name@.len() <= FILE_NAME_LEN && !file_bytes_ok(name@) ==> r->Err_0.kind
                == FsErrorKind::InvalidArgument,
    {
        let _n = name.len();
        match str_from_utf8(name) {
            Ok(s) => {
                proof {
                    vstd::utf8::encode_utf8_decode_utf8(s@);
                    assert(s@ == decode_utf8(name@));
                }
                ValidFileName::try_from(s)
            },
            Err(e) => Err(e),
        }
    }

    /// The name as a string slice.
    pub fn as_str(&self) -> (r: &'a str)
        ensures
            r == self.spec_str(),
    {
        self.0
    }
}

/// A valid lookup name: at most 256 bytes, with no `/`, NUL or control
/// character (`.` and `..` are allowed).
#[derive(Debug, Clone, Copy)]
pub struct ValidLookupName<'a>(&'a str);

impl<'a> ValidLookupName<'a> {
    /// The name held.
    pub closed spec fn spec_str(&self) -> &'a str {
        self.0
    }

    /// The name, when it is a valid lookup name.
    pub fn try_from(name: &'a str) -> (r: Result<Self, FsError>)
        ensures
            r is Ok <==> lookup_name_ok(name),
            r is Ok ==> r->Ok_0.spec_str() == name,
            r is Err ==> r->Err_0.kind == file_name_error(name),
    {
        if name.len() > FILE_NAME_LEN {
            return Err(FsError { msg: None, kind: FsErrorKind::FileNameTooLong });
        }
        match check_contains_invalid_char(name) {
            Ok(()) => Ok(ValidLookupName(name)),
            Err(e) => Err(e),
        }
    }

    /// The name from bytes, when they are UTF-8 and a valid lookup name.
    pub fn try_from_bytes(name: &'a [u8]) -> (r: Result<Self, FsError>)
        ensures
            r is Ok <==> valid_utf8(name@) && lookup_bytes_ok(name@),
            r is Ok ==> r->Ok_0.spec_str().spec_bytes() == name@,
            !valid_utf8(name@) ==> r->Err_0.kind == FsErrorKind::InvalidUt8Str,
            valid_utf8(name@) && name@.len() > FILE_NAME_LEN ==> r->Err_0.kind
                == FsErrorKind::FileNameTooLong,
            valid_utf8(name@) && name@.len() <= FILE_NAME_LEN && !lookup_bytes_ok(name@) ==> r->Err_0.kind
                == FsErrorKind::InvalidArgument,
    {
        let _n = name.len();
        match str_from_utf8(name) {
            Ok(s) => {
                proof {
                    vstd::utf8::encode_utf8_decode_utf8(s@);
                    assert(s@ == decode_utf8(name@));
                }
                ValidLookupName::try_from(s)
            },
            Err(e) => Err(e),
        }
    }

    /// Every valid file name is a valid lookup name.
    pub fn from_file_name(value: ValidFileName<'a>) -> (r: Self)
        ensures
            r.spec_str() == value.spec_str(),
    {
        ValidLookupName(value.0)
    }

    /// The name as a string slice.
    pub fn as_str(&self) -> (r: &'a str)
        ensures
            r == self.spec_str(),
    {
        self.0
    }
}

} // verus!

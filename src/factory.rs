//! Choosing a storage engine by its configuration string.
use vstd::prelude::*;
use vstd::utf8::encode_utf8;

use crate::error::AdapterError;

verus! {

/// The supported storage engines.
#[derive(Clone, Copy, Debug, PartialEq, Eq, Structural)]
pub enum DbType {
    Redb,
}

/// A character with the Unicode `White_Space` property, which is what
/// `char::is_whitespace` tests.
pub open spec fn is_white_space(c: char) -> bool {
    let v = c as u32;
    (0x09 <= v <= 0x0d) || v == 0x20 || v == 0x85 || v == 0xa0 || v == 0x1680 || (0x2000 <= v
        <= 0x200a) || v == 0x2028 || v == 0x2029 || v == 0x202f || v == 0x205f || v == 0x3000
}

/// `s` without its leading white space.
pub open spec fn trim_start(s: Seq<char>) -> Seq<char>
    decreases s.len(),
{
    if s.len() > 0 && is_white_space(s[0]) {
        trim_start(s.drop_first())
    } else {
        s
    }
}

/// `s` without its trailing white space.
pub open spec fn trim_end(s: Seq<char>) -> Seq<char>
    decreases s.len(),
{
    if s.len() > 0 && is_white_space(s.last()) {
        trim_end(s.drop_last())
    } else {
        s
    }
}

/// `s` without leading or trailing white space.
pub open spec fn trimmed(s: Seq<char>) -> Seq<char> {
    trim_end(trim_start(s))
}

/// Relies on `str::trim`: the string without the leading and trailing
/// characters for which `char::is_whitespace` holds.
#[verifier::external_body]
fn trim(s: &str) -> (r: &str)
    ensures
        r@ == trimmed(s@),
{
    s.trim()
}

/// The bytes spell `redb` in any mix of ASCII case.
pub open spec fn names_redb(b: Seq<u8>) -> bool {
    &&& b.len() == 4
    &&& b[0] == 0x72 || b[0] == 0x52
    &&& b[1] == 0x65 || b[1] == 0x45
    &&& b[2] == 0x64 || b[2] == 0x44
    &&& b[3] == 0x62 || b[3] == 0x42
}

/// The engine that an already trimmed selector names.
pub fn db_type_of_trimmed(t: &str) -> (r: Option<DbType>)
    ensures
        r is Some <==> names_redb(encode_utf8(t@)),
{
    let b = t.as_bytes();
    if b.len() == 4 && (b[0] == 0x72 || b[0] == 0x52) && (b[1] == 0x65 || b[1] == 0x45) && (b[2]
        == 0x64 || b[2] == 0x44) && (b[3] == 0x62 || b[3] == 0x42) {
        Some(DbType::Redb)
    } else {
        None
    }
}

/// The engine that a selector names, ignoring surrounding whitespace and
/// ASCII case; any other selector is `UnsupportedDbType`, naming it.
pub fn parse_db_type(s: &str) -> (r: Result<DbType, AdapterError>)
    ensures
        match r {
            Ok(_) => names_redb(encode_utf8(trimmed(s@))),
            Err(AdapterError::UnsupportedDbType(name)) => !names_redb(encode_utf8(trimmed(s@)))
                && name@ == s@,
            Err(_) => false,
        },
{
    match db_type_of_trimmed(trim(s)) {
        Some(t) => Ok(t),
        None => Err(AdapterError::UnsupportedDbType(s.to_owned())),
    }
}

} // verus!

//! The properties of a filesystem, as the text and numbers that are shown to
//! a caller of the management interface.

use vstd::prelude::*;
use vstd::string::StringExecFns;

use crate::filesystem::{Filesystem, Name, MAX_CREATED_SECS};
use crate::units::Bytes;

verus! {

/// The character of the decimal digit `d`.
pub open spec fn digit_char(d: int) -> char {
    if d == 0 {
        '0'
    } else if d == 1 {
        '1'
    } else if d == 2 {
        '2'
    } else if d == 3 {
        '3'
    } else if d == 4 {
        '4'
    } else if d == 5 {
        '5'
    } else if d == 6 {
        '6'
    } else if d == 7 {
        '7'
    } else if d == 8 {
        '8'
    } else {
        '9'
    }
}

/// The decimal digits of `n`, most significant first, without leading zeros.
pub open spec fn decimal(n: nat) -> Seq<char>
    decreases n,
{
    if n < 10 {
        seq![digit_char(n as int)]
    } else {
        decimal(n / 10).push(digit_char((n % 10) as int))
    }
}

/// The text of one decimal digit.
fn digit_text(d: u64) -> (text: &'static str)
    requires
        d < 10,
    ensures
        text@ == seq![digit_char(d as int)],
{
    proof {
        reveal_strlit("0");
        reveal_strlit("1");
        reveal_strlit("2");
        reveal_strlit("3");
        reveal_strlit("4");
        reveal_strlit("5");
        reveal_strlit("6");
        reveal_strlit("7");
        reveal_strlit("8");
        reveal_strlit("9");
    }
    let text = if d == 0 {
        "0"
    } else if d == 1 {
        "1"
    } else if d == 2 {
        "2"
    } else if d == 3 {
        "3"
    } else if d == 4 {
        "4"
    } else if d == 5 {
        "5"
    } else if d == 6 {
        "6"
    } else if d == 7 {
        "7"
    } else if d == 8 {
        "8"
    } else {
        "9"
    };
    assert(text@ =~= seq![digit_char(d as int)]);
    text
}

/// The number `n` in decimal digits.
pub fn decimal_text(n: u64) -> (text: String)
    ensures
        text@ == decimal(n as nat),
    decreases n,
{
    if n < 10 {
        String::from_str(digit_text(n))
    } else {
        let mut text = decimal_text(n / 10);
        text.append(digit_text(n % 10));
        proof {
            assert(text@ =~= decimal((n / 10) as nat).push(digit_char((n % 10) as int)));
        }
        text
    }
}

/// The date and time at `secs` seconds since the epoch, in the form of RFC
/// 3339 with whole seconds and `Z` for the time zone, as `chrono` writes it.
pub uninterp spec fn rfc3339_seconds(secs: i64) -> Seq<char>;

/// The text of a point in time: `chrono::DateTime::from_timestamp` with no
/// nanoseconds, written by `DateTime::to_rfc3339_opts` with whole seconds and
/// `Z`. The text depends on the seconds alone. `from_timestamp` returns a
/// time for every day that `chrono` can represent, which takes in the years 0
/// to 9999 and so every second from the epoch to `MAX_CREATED_SECS`.
#[verifier::external_body]
fn rfc3339_text(secs: i64) -> (text: Option<String>)
    ensures
        0 <= secs <= MAX_CREATED_SECS ==> text is Some,
        text matches Some(t) ==> t@ == rfc3339_seconds(secs),
{
    match chrono::DateTime::from_timestamp(secs, 0) {
        Some(time) => Some(time.to_rfc3339_opts(chrono::SecondsFormat::Secs, true)),
        None => None,
    }
}

/// The size of a filesystem as a property: its bytes in decimal digits.
pub fn fs_size_to_prop(size: Bytes) -> (prop: String)
    ensures
        prop@ == decimal(size as nat),
{
    decimal_text(size)
}

/// The use of a filesystem as a property: whether it is known, and its bytes
/// in decimal digits, or no text where it is not.
pub fn fs_used_to_prop(used: Option<Bytes>) -> (prop: (bool, String))
    ensures
        prop.0 == used is Some,
        used matches Some(bytes) ==> prop.1@ == decimal(bytes as nat),
        used is None ==> prop.1@ == Seq::<char>::empty(),
{
    match used {
        Some(bytes) => (true, decimal_text(bytes)),
        None => (false, String::new()),
    }
}

/// The name of a filesystem as a property.
pub fn fs_name_prop(name: &Name) -> (prop: String)
    ensures
        prop@ == name@,
{
    name.to_owned()
}

/// The path under which a filesystem is mounted, as a property.
pub fn fs_devnode_prop(fs: &dyn Filesystem, pool_name: &Name, fs_name: &Name) -> (prop: String)
    ensures
        prop@ == fs.mount_path(pool_name@, fs_name@),
{
    fs.path_to_mount_filesystem(pool_name, fs_name)
}

/// When a filesystem was created, as a property: in the form of RFC 3339
/// with whole seconds, in UTC.
pub fn fs_created_prop(fs: &dyn Filesystem) -> (prop: String)
    ensures
        prop@ == rfc3339_seconds(fs.created_secs()),
{
    match rfc3339_text(fs.created()) {
        Some(text) => text,
        None => String::new(),
    }
}

/// The size of a filesystem as a property: its bytes in decimal digits.
pub fn fs_size_prop(fs: &dyn Filesystem) -> (prop: String)
    ensures
        prop@ == decimal(fs.size_bytes() as nat),
{
    fs_size_to_prop(fs.size())
}

/// The use of a filesystem as a property: whether it is known, and its bytes
/// in decimal digits, or no text where it is not.
pub fn fs_used_prop(fs: &dyn Filesystem) -> (prop: (bool, String))
    ensures
        prop.0 == fs.used_bytes() is Some,
        fs.used_bytes() matches Some(bytes) ==> prop.1@ == decimal(bytes as nat),
        fs.used_bytes() is None ==> prop.1@ == Seq::<char>::empty(),
{
    let used = match fs.used() {
        Ok(bytes) => Some(bytes),
        Err(_) => None,
    };
    fs_used_to_prop(used)
}

} // verus!

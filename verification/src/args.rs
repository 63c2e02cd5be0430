use vstd::prelude::*;
use vstd::string::StringExecFns;

verus! {

/// Options that apply to every command.
pub struct GlobalArgs {
    /// Path to a configuration file.
    pub config_file: Option<String>,
}

/// Options that shape the site's addresses.
pub struct SiteArgs {
    pub domain: Option<String>,
    pub root_directory: Option<String>,
    pub trailing_slash: Option<bool>,
}

/// Where Typst packages are found and cached.
pub struct PackageArgs {
    pub package_path: Option<String>,
    pub package_cache_path: Option<String>,
}

/// Where fonts are found.
pub struct FontArgs {
    pub font_paths: Vec<String>,
    pub ignore_system_fonts: bool,
}

/// A PDF standard to conform to.
#[allow(non_camel_case_types)]
#[derive(Clone, Copy, Debug, PartialEq, Eq, Structural)]
pub enum PdfStandard {
    V_1_7,
    A_2b,
    A_3b,
}

impl PdfStandard {
    /// The name of the standard on the command line.
    pub fn name(&self) -> (n: &'static str)
        ensures
            n@ == match *self {
                PdfStandard::V_1_7 => "1.7"@,
                PdfStandard::A_2b => "a-2b"@,
                PdfStandard::A_3b => "a-3b"@,
            },
    {
        match self {
            PdfStandard::V_1_7 => "1.7",
            PdfStandard::A_2b => "a-2b",
            PdfStandard::A_3b => "a-3b",
        }
    }
}

/// The value of a decimal integer as `str::parse::<i64>` reads it: an
/// optional sign and at least one digit, within the range of `i64`.
pub open spec fn decimal_i64(s: Seq<char>) -> Option<i64> {
    let negative = s.len() > 0 && s[0] == '-';
    let digits = if s.len() > 0 && (s[0] == '-' || s[0] == '+') {
        s.drop_first()
    } else {
        s
    };
    if digits.len() > 0 && forall|i: int| 0 <= i < digits.len() ==> '0' <= #[trigger] digits[i] <= '9' {
        let value = if negative {
            -digits_value(digits)
        } else {
            digits_value(digits)
        };
        if i64::MIN <= value <= i64::MAX {
            Some(value as i64)
        } else {
            None
        }
    } else {
        None
    }
}

/// The value of a string of decimal digits.
pub open spec fn digits_value(d: Seq<char>) -> int
    decreases d.len(),
{
    if d.len() == 0 {
        0
    } else {
        digits_value(d.drop_last()) * 10 + (d.last() as int - '0' as int)
    }
}

/// How std's `ParseIntError` describes why `s` is not an `i64`.
pub uninterp spec fn parse_int_error_text(s: Seq<char>) -> Seq<char>;

/// std's `str::parse::<i64>`: the value of the decimal integer, or the
/// error's description (its `Display`).
#[verifier::external_body]
fn parse_i64(raw: &str) -> (r: Result<i64, String>)
    ensures
        match r {
            Ok(v) => decimal_i64(raw@) == Some(v),
            Err(e) => decimal_i64(raw@) is None && e@ == parse_int_error_text(raw@),
        },
{
    raw.parse::<i64>().map_err(|err| err.to_string())
}

/// Whether chrono can represent the instant `secs` seconds after the Unix
/// epoch: from -262143-01-01 00:00:00 to 262142-12-31 23:59:59 UTC, its
/// first and last representable instants (its dates run from year
/// `(i32::MIN >> 13) + 1` to year `(i32::MAX >> 13) - 1`).
pub open spec fn timestamp_in_range(secs: i64) -> bool {
    -8334601228800 <= secs <= 8210266876799
}

/// chrono's `DateTime::from_timestamp(secs, 0)`: whether it gives an
/// instant rather than `None`, which it does exactly for the seconds of
/// its representable dates (see [`timestamp_in_range`]).
#[verifier::external_body]
fn representable_timestamp(secs: i64) -> (r: bool)
    ensures
        r == timestamp_in_range(secs),
{
    chrono::DateTime::from_timestamp(secs, 0).is_some()
}

/// Reads a `SOURCE_DATE_EPOCH` value: the number of seconds since the Unix
/// epoch, as a decimal integer that chrono can represent.
pub fn parse_source_date_epoch(raw: &str) -> (r: Result<i64, String>)
    ensures
        decimal_i64(raw@) is None ==> r is Err && r->Err_0@ == "timestamp must be decimal integer ("@
            + parse_int_error_text(raw@) + ")"@,
        decimal_i64(raw@) matches Some(v) ==> (if timestamp_in_range(v) {
            r == Ok::<i64, String>(v)
        } else {
            r is Err && r->Err_0@ == "timestamp out of range"@
        }),
{
    match parse_i64(raw) {
        Err(e) => Err(String::from_str("timestamp must be decimal integer (").concat(e.as_str()).concat(")")),
        Ok(secs) => {
            if representable_timestamp(secs) {
                Ok(secs)
            } else {
                Err(String::from_str("timestamp out of range"))
            }
        },
    }
}

} // verus!

//! The printf-style format-string validator of the sequence printer, and the
//! precision detection applied to its literal numeric operands.
//!
//! A format string is scanned left to right over its UTF-8 bytes. Runs of
//! `%` of even length are escaped literals; exactly one unescaped `%` must
//! introduce a floating-point conversion — optional distinct flags, optional
//! width digits, an optional `.precision`, and one specifier character from
//! `a e f g A E F G`.

use vstd::prelude::*;

use crate::scan::{find_byte, find_byte_from, DASH, DOT, HASH, PERCENT, PLUS, SPACE, ZERO};
use vstd::string::StringSliceAdditionalSpecFns;

verus! {

/// The ways a format string can be rejected.
#[derive(Clone, Copy, Debug, PartialEq, Eq, Structural)]
pub enum FormatError {
    /// A flag character occurs twice in one conversion.
    DuplicatedFlags,
    /// A `.` with no digit after it.
    InsufficientDigits,
    /// The string ends where the specifier character should stand.
    EmptySpecifier,
    /// The character in specifier position is none of `a e f g A E F G`.
    InvalidSpecifier,
    /// A `%`-run that is neither a fully escaped pair sequence nor the one
    /// permitted conversion.
    UnescapedPercent,
    /// The whole string holds no conversion at all.
    NoFormatFound,
}

impl FormatError {
    /// One-line wording of each rejection, for diagnostics.
    pub fn message(&self) -> (m: &'static str)
        ensures
            m@ == match self {
                FormatError::DuplicatedFlags => "duplicated format flags"@,
                FormatError::InsufficientDigits => "expected at least 1 digits to be found"@,
                FormatError::EmptySpecifier => "empty format specifier"@,
                FormatError::InvalidSpecifier => "invalid specifier"@,
                FormatError::UnescapedPercent => "unescaped sequence of '%' is invalid"@,
                FormatError::NoFormatFound => "no format found"@,
            },
    {
        match self {
            FormatError::DuplicatedFlags => "duplicated format flags",
            FormatError::InsufficientDigits => "expected at least 1 digits to be found",
            FormatError::EmptySpecifier => "empty format specifier",
            FormatError::InvalidSpecifier => "invalid specifier",
            FormatError::UnescapedPercent => "unescaped sequence of '%' is invalid",
            FormatError::NoFormatFound => "no format found",
        }
    }
}

/// The printf flag characters `+ - space # 0`.
pub open spec fn is_flag_byte(c: u8) -> bool {
    c == PLUS || c == DASH || c == SPACE || c == HASH || c == ZERO
}

/// The decimal digit bytes.
pub open spec fn is_digit_byte(c: u8) -> bool {
    48 <= c && c <= 57
}

/// The accepted floating-point conversion specifiers `a e f g A E F G`.
pub open spec fn is_specifier_byte(c: u8) -> bool {
    c == 97 || c == 101 || c == 102 || c == 103 || c == 65 || c == 69 || c == 70 || c == 71
}

/// End of the run of flag bytes that starts at `i`.
pub open spec fn flags_end(s: Seq<u8>, i: int) -> int
    decreases s.len() - i,
{
    if i < 0 || i >= s.len() {
        i
    } else if is_flag_byte(s[i]) {
        flags_end(s, i + 1)
    } else {
        i
    }
}

/// End of the run of digit bytes that starts at `i`.
pub open spec fn digits_end(s: Seq<u8>, i: int) -> int
    decreases s.len() - i,
{
    if i < 0 || i >= s.len() {
        i
    } else if is_digit_byte(s[i]) {
        digits_end(s, i + 1)
    } else {
        i
    }
}

/// No byte occurs twice in the flag run that starts at `i`.
pub open spec fn flags_distinct(s: Seq<u8>, i: int) -> bool {
    forall|a: int, b: int| i <= a < b < flags_end(s, i) ==> s[a] != s[b]
}

/// Length of the run of `%` bytes that starts at `i`.
pub open spec fn percent_run(s: Seq<u8>, i: int) -> nat
    decreases s.len() - i,
{
    if 0 <= i < s.len() && s[i] == PERCENT {
        1 + percent_run(s, i + 1)
    } else {
        0
    }
}

pub proof fn lemma_flags_end(s: Seq<u8>, i: int)
    requires
        0 <= i <= s.len(),
    ensures
        i <= flags_end(s, i) <= s.len(),
        forall|k: int| i <= k < flags_end(s, i) ==> is_flag_byte(s[k]),
        flags_end(s, i) < s.len() ==> !is_flag_byte(s[flags_end(s, i)]),
    decreases s.len() - i,
{
    if i < s.len() && is_flag_byte(s[i]) {
        lemma_flags_end(s, i + 1);
    }
}

/// An index `j` preceded (from `i` on) by flag bytes only and not holding a
/// flag byte itself is exactly `flags_end(s, i)`.
pub proof fn lemma_flags_end_is(s: Seq<u8>, i: int, j: int)
    requires
        0 <= i <= j <= s.len(),
        forall|k: int| i <= k < j ==> is_flag_byte(s[k]),
        j == s.len() || !is_flag_byte(s[j]),
    ensures
        flags_end(s, i) == j,
    decreases j - i,
{
    if i < j {
        lemma_flags_end_is(s, i + 1, j);
    }
}

pub proof fn lemma_digits_end(s: Seq<u8>, i: int)
    requires
        0 <= i <= s.len(),
    ensures
        i <= digits_end(s, i) <= s.len(),
        forall|k: int| i <= k < digits_end(s, i) ==> is_digit_byte(s[k]),
        digits_end(s, i) < s.len() ==> !is_digit_byte(s[digits_end(s, i)]),
    decreases s.len() - i,
{
    if i < s.len() && is_digit_byte(s[i]) {
        lemma_digits_end(s, i + 1);
    }
}

/// An index `j` preceded (from `i` on) by digit bytes only and not holding a
/// digit byte itself is exactly `digits_end(s, i)`.
pub proof fn lemma_digits_end_is(s: Seq<u8>, i: int, j: int)
    requires
        0 <= i <= j <= s.len(),
        forall|k: int| i <= k < j ==> is_digit_byte(s[k]),
        j == s.len() || !is_digit_byte(s[j]),
    ensures
        digits_end(s, i) == j,
    decreases j - i,
{
    if i < j {
        lemma_digits_end_is(s, i + 1, j);
    }
}

pub proof fn lemma_percent_run(s: Seq<u8>, i: int)
    requires
        0 <= i <= s.len(),
    ensures
        i + percent_run(s, i) <= s.len(),
        forall|k: int| i <= k < i + percent_run(s, i) ==> s[k] == PERCENT,
        i < s.len() && s[i] == PERCENT ==> percent_run(s, i) >= 1,
    decreases s.len() - i,
{
    if i < s.len() && s[i] == PERCENT {
        lemma_percent_run(s, i + 1);
    }
}

/// An index `j` preceded (from `i` on) by `%` bytes only and not holding a
/// `%` itself ends a run of exactly `j - i` percents.
pub proof fn lemma_percent_run_is(s: Seq<u8>, i: int, j: int)
    requires
        0 <= i <= j <= s.len(),
        forall|k: int| i <= k < j ==> s[k] == PERCENT,
        j == s.len() || s[j] != PERCENT,
    ensures
        percent_run(s, i) == j - i,
    decreases j - i,
{
    if i < j {
        lemma_percent_run_is(s, i + 1, j);
    }
}

/// Result of reading the optional `.precision` part at `i`: the index after
/// it, or the error when the dot has no digit after it.
pub open spec fn prec_result(s: Seq<u8>, i: int) -> Result<int, FormatError> {
    if 0 <= i < s.len() && s[i] == DOT {
        if digits_end(s, i + 1) == i + 1 {
            Err(FormatError::InsufficientDigits)
        } else {
            Ok(digits_end(s, i + 1))
        }
    } else {
        Ok(i)
    }
}

/// Result of reading the one specifier character at `i`: the index after it,
/// or the error when the string ends or the character is not accepted.
pub open spec fn spec_char_result(s: Seq<u8>, i: int) -> Result<int, FormatError> {
    if i >= s.len() {
        Err(FormatError::EmptySpecifier)
    } else if !is_specifier_byte(s[i]) {
        Err(FormatError::InvalidSpecifier)
    } else {
        Ok(i + 1)
    }
}

/// Result of reading one whole conversion whose `%` stands just before `i`:
/// distinct flags, then width digits, then an optional precision, then
/// exactly one specifier character.
pub open spec fn conv_result(s: Seq<u8>, i: int) -> Result<int, FormatError> {
    if !flags_distinct(s, i) {
        Err(FormatError::DuplicatedFlags)
    } else {
        match prec_result(s, digits_end(s, flags_end(s, i))) {
            Ok(q) => spec_char_result(s, q),
            Err(e) => Err(e),
        }
    }
}

/// A conversion read successfully ends past where it began and within `s`.
pub proof fn lemma_conv_bounds(s: Seq<u8>, i: int)
    requires
        0 <= i <= s.len(),
    ensures
        conv_result(s, i) is Ok ==> i < conv_result(s, i)->Ok_0 <= s.len(),
{
    lemma_flags_end(s, i);
    let f = flags_end(s, i);
    lemma_digits_end(s, f);
    let w = digits_end(s, f);
    if 0 <= w < s.len() && s[w] == DOT {
        lemma_digits_end(s, w + 1);
    }
}

/// The verdict of the scan of `s` from `i` on, where `found` says whether
/// the one permitted conversion was already read: `Ok` exactly when the
/// remainder is well formed and the whole string holds one conversion.
pub open spec fn scan_result(s: Seq<u8>, i: int, found: bool) -> Result<(), FormatError>
    decreases s.len() - i,
    via scan_result_dec
{
    if i < 0 || i >= s.len() {
        if found {
            Ok(())
        } else {
            Err(FormatError::NoFormatFound)
        }
    } else if s[i] != PERCENT {
        scan_result(s, i + 1, found)
    } else {
        let n = percent_run(s, i);
        if !found && n == 1 {
            match conv_result(s, i + 1) {
                Ok(end) => scan_result(s, end, true),
                Err(e) => Err(e),
            }
        } else if n % 2 != 0 {
            Err(FormatError::UnescapedPercent)
        } else {
            scan_result(s, i + n, found)
        }
    }
}

#[via_fn]
proof fn scan_result_dec(s: Seq<u8>, i: int, found: bool) {
    if 0 <= i < s.len() {
        if s[i] == PERCENT {
            lemma_percent_run(s, i);
            lemma_conv_bounds(s, i + 1);
        }
    }
}

/// Whether the whole format string is accepted: its byte sequence scans to
/// `Ok` with no conversion found yet.
pub open spec fn valid_format(s: Seq<u8>) -> bool {
    scan_result(s, 0, false) is Ok
}

/// Number of bytes after the first `.`, or 0 when there is no dot: the
/// precision carried by a literal numeric operand as written.
pub open spec fn precision_of(b: Seq<u8>) -> int {
    if find_byte(b, 0, DOT) < b.len() {
        b.len() - find_byte(b, 0, DOT) - 1
    } else {
        0
    }
}

fn is_flag_byte_exec(c: u8) -> (b: bool)
    ensures
        b == is_flag_byte(c),
{
    c == PLUS || c == DASH || c == SPACE || c == HASH || c == ZERO
}

fn is_digit_byte_exec(c: u8) -> (b: bool)
    ensures
        b == is_digit_byte(c),
{
    48 <= c && c <= 57
}

fn is_specifier_byte_exec(c: u8) -> (b: bool)
    ensures
        b == is_specifier_byte(c),
{
    c == 97 || c == 101 || c == 102 || c == 103 || c == 65 || c == 69 || c == 70 || c == 71
}

/// Runs of flag bytes in `[i, j)` extend the flag run: `flags_end` is the
/// same seen from `i` and from `j`.
proof fn lemma_flags_end_extend(s: Seq<u8>, i: int, j: int)
    requires
        0 <= i <= j <= s.len(),
        forall|k: int| i <= k < j ==> is_flag_byte(s[k]),
    ensures
        flags_end(s, i) == flags_end(s, j),
    decreases j - i,
{
    if i < j {
        lemma_flags_end_extend(s, i + 1, j);
    }
}

/// Consumes the run of printf flag characters `+ - space # 0` that starts at
/// `*index`, advancing `*index` past what it reads; a flag character that
/// occurs twice is an error.
#[verifier::loop_isolation(false)]
pub fn consume_flags_if_any(format: &[u8], index: &mut usize) -> (r: Result<(), FormatError>)
    requires
        *old(index) <= format@.len(),
    ensures
        match r {
            Ok(()) => *final(index) == flags_end(format@, *old(index) as int) && flags_distinct(
                format@,
                *old(index) as int,
            ),
            Err(e) => e == FormatError::DuplicatedFlags && !flags_distinct(
                format@,
                *old(index) as int,
            ) && *old(index) <= *final(index) <= format@.len(),
        },
{
    let ghost s = format@;
    let start = *index;
    let mut i = start;
    let mut seen_plus = false;
    let mut seen_dash = false;
    let mut seen_space = false;
    let mut seen_hash = false;
    let mut seen_zero = false;
    while i < format.len() && is_flag_byte_exec(format[i])
        invariant
            start <= i <= s.len(),
            s == format@,
            forall|k: int| start <= k < i ==> is_flag_byte(s[k]),
            forall|a: int, b: int| start <= a < b < i ==> s[a] != s[b],
            seen_plus == exists|k: int| start <= k < i && s[k] == PLUS,
            seen_dash == exists|k: int| start <= k < i && s[k] == DASH,
            seen_space == exists|k: int| start <= k < i && s[k] == SPACE,
            seen_hash == exists|k: int| start <= k < i && s[k] == HASH,
            seen_zero == exists|k: int| start <= k < i && s[k] == ZERO,
        decreases s.len() - i,
    {
        let c = format[i];
        let repeated = (c == PLUS && seen_plus) || (c == DASH && seen_dash) || (c == SPACE
            && seen_space) || (c == HASH && seen_hash) || (c == ZERO && seen_zero);
        if repeated {
            proof {
                let ii = i as int;
                lemma_flags_end_extend(s, start as int, ii);
                lemma_flags_end(s, ii + 1);
                assert(is_flag_byte(s[ii]));
                assert(flags_end(s, ii) == flags_end(s, ii + 1));
                assert(flags_end(s, start as int) >= ii + 1);
                let a = if c == PLUS {
                    choose|k: int| start <= k < ii && s[k] == PLUS
                } else if c == DASH {
                    choose|k: int| start <= k < ii && s[k] == DASH
                } else if c == SPACE {
                    choose|k: int| start <= k < ii && s[k] == SPACE
                } else if c == HASH {
                    choose|k: int| start <= k < ii && s[k] == HASH
                } else {
                    choose|k: int| start <= k < ii && s[k] == ZERO
                };
                assert(start <= a < ii && s[a] == c);
                assert(s[a] == s[ii]);
                assert(!flags_distinct(s, start as int));
            }
            *index = i;
            return Err(FormatError::DuplicatedFlags);
        }
        if c == PLUS {
            seen_plus = true;
        } else if c == DASH {
            seen_dash = true;
        } else if c == SPACE {
            seen_space = true;
        } else if c == HASH {
            seen_hash = true;
        } else {
            seen_zero = true;
        }
        i = i + 1;
    }
    proof {
        lemma_flags_end_is(s, start as int, i as int);
    }
    *index = i;
    Ok(())
}

/// Consumes the run of digits that starts at `*index`, advancing `*index`
/// past it; fewer digits than `minimum_digits_expected` is an error.
#[verifier::loop_isolation(false)]
pub fn consume_digits(format: &[u8], index: &mut usize, minimum_digits_expected: u32) -> (r:
    Result<(), FormatError>)
    requires
        *old(index) <= format@.len(),
    ensures
        *final(index) == digits_end(format@, *old(index) as int),
        r == (if digits_end(format@, *old(index) as int) - *old(index)
            >= minimum_digits_expected as int {
            Result::<(), FormatError>::Ok(())
        } else {
            Result::<(), FormatError>::Err(FormatError::InsufficientDigits)
        }),
{
    let ghost s = format@;
    let start = *index;
    let mut i = start;
    while i < format.len() && is_digit_byte_exec(format[i])
        invariant
            start <= i <= s.len(),
            s == format@,
            forall|k: int| start <= k < i ==> is_digit_byte(s[k]),
        decreases s.len() - i,
    {
        i = i + 1;
    }
    proof {
        lemma_digits_end_is(s, start as int, i as int);
    }
    *index = i;
    if i - start >= minimum_digits_expected as usize {
        Ok(())
    } else {
        Err(FormatError::InsufficientDigits)
    }
}

/// Consumes the printf precision part `.digits` when one starts at `*index`;
/// a `.` with no digit after it is an error.
pub fn consume_precision_if_any(format: &[u8], index: &mut usize) -> (r: Result<(), FormatError>)
    requires
        *old(index) <= format@.len(),
    ensures
        match prec_result(format@, *old(index) as int) {
            Ok(q) => r == Result::<(), FormatError>::Ok(()) && *final(index) == q,
            Err(e) => r == Result::<(), FormatError>::Err(e) && *old(index) <= *final(index)
                <= format@.len(),
        },
{
    if *index < format.len() && format[*index] == DOT {
        proof {
            lemma_digits_end(format@, *index as int + 1);
        }
        *index = *index + 1;
        consume_digits(format, index, 1)
    } else {
        Ok(())
    }
}

/// Consumes the one specifier character expected at `*index`: the string
/// must not end there and the character must be one of `a e f g A E F G`.
pub fn consume_specifier(format: &[u8], index: &mut usize) -> (r: Result<(), FormatError>)
    requires
        *old(index) <= format@.len(),
    ensures
        match spec_char_result(format@, *old(index) as int) {
            Ok(q) => r == Result::<(), FormatError>::Ok(()) && *final(index) == q,
            Err(e) => r == Result::<(), FormatError>::Err(e) && *final(index) == *old(index),
        },
{
    if *index >= format.len() {
        return Err(FormatError::EmptySpecifier);
    }
    let c = format[*index];
    if is_specifier_byte_exec(c) {
        *index = *index + 1;
        Ok(())
    } else {
        Err(FormatError::InvalidSpecifier)
    }
}

/// Length of the run of `%` bytes that starts at `from`.
#[verifier::loop_isolation(false)]
fn percent_run_from(s: &[u8], from: usize) -> (n: usize)
    requires
        from <= s@.len(),
    ensures
        n == percent_run(s@, from as int),
        from + n <= s@.len(),
{
    let mut i = from;
    while i < s.len() && s[i] == PERCENT
        invariant
            from <= i <= s@.len(),
            forall|k: int| from <= k < i ==> s@[k] == PERCENT,
        decreases s@.len() - i,
    {
        i = i + 1;
    }
    proof {
        lemma_percent_run_is(s@, from as int, i as int);
    }
    i - from
}

/// Checks a printf-style format string: every `%`-run of even length is an
/// escaped literal, and exactly one unescaped `%` introduces a well-formed
/// floating-point conversion. Returns the first offence otherwise, judged
/// left to right over the UTF-8 bytes of the string.
#[verifier::loop_isolation(false)]
pub fn validate_format(format: &str) -> (r: Result<(), FormatError>)
    ensures
        r == scan_result(format.spec_bytes(), 0, false),
        r is Ok <==> valid_format(format.spec_bytes()),
{
    let bytes: &[u8] = format.as_bytes();
    let ghost s = format.spec_bytes();
    let mut p: usize = 0;
    let mut found_format = false;
    while p < bytes.len()
        invariant
            p <= s.len(),
            bytes@ == s,
            scan_result(s, 0, false) == scan_result(s, p as int, found_format),
        decreases s.len() - p,
    {
        let ghost p0 = p as int;
        let ghost f0 = found_format;
        if bytes[p] == PERCENT {
            let n = percent_run_from(bytes, p);
            if !found_format && n == 1 {
                p = p + 1;
                proof {
                    lemma_conv_bounds(s, p0 + 1);
                }
                match consume_flags_if_any(bytes, &mut p) {
                    Err(e) => {
                        proof {
                            assert(scan_result(s, p0, f0) == Result::<(), FormatError>::Err(e));
                        }
                        return Err(e);
                    },
                    Ok(()) => {},
                }
                proof {
                    lemma_flags_end(s, p0 + 1);
                    lemma_digits_end(s, flags_end(s, p0 + 1));
                }
                match consume_digits(bytes, &mut p, 0) {
                    Err(e) => {
                        return Err(e);
                    },
                    Ok(()) => {},
                }
                proof {
                    let w = digits_end(s, flags_end(s, p0 + 1));
                    if 0 <= w < s.len() && s[w] == DOT {
                        lemma_digits_end(s, w + 1);
                    }
                }
                match consume_precision_if_any(bytes, &mut p) {
                    Err(e) => {
                        proof {
                            assert(conv_result(s, p0 + 1) == Result::<int, FormatError>::Err(e));
                            assert(scan_result(s, p0, f0) == Result::<(), FormatError>::Err(e));
                        }
                        return Err(e);
                    },
                    Ok(()) => {},
                }
                match consume_specifier(bytes, &mut p) {
                    Err(e) => {
                        proof {
                            assert(conv_result(s, p0 + 1) == Result::<int, FormatError>::Err(e));
                            assert(scan_result(s, p0, f0) == Result::<(), FormatError>::Err(e));
                        }
                        return Err(e);
                    },
                    Ok(()) => {},
                }
                found_format = true;
                proof {
                    assert(conv_result(s, p0 + 1) == Result::<int, FormatError>::Ok(p as int));
                    assert(scan_result(s, p0, f0) == scan_result(s, p as int, true));
                }
            } else if n % 2 != 0 {
                proof {
                    assert(s[p0] == PERCENT && percent_run(s, p0) == n as nat);
                    assert(scan_result(s, p0, f0) == Result::<(), FormatError>::Err(
                        FormatError::UnescapedPercent,
                    ));
                }
                return Err(FormatError::UnescapedPercent);
            } else {
                proof {
                    lemma_percent_run(s, p0);
                    assert(s[p0] == PERCENT && percent_run(s, p0) == n as nat);
                    assert(scan_result(s, p0, f0) == scan_result(s, p0 + n as int, f0));
                }
                p = p + n;
            }
        } else {
            proof {
                assert(s[p0] != PERCENT);
                assert(scan_result(s, p0, f0) == scan_result(s, p0 + 1, f0));
            }
            p = p + 1;
        }
    }
    if found_format {
        Ok(())
    } else {
        Err(FormatError::NoFormatFound)
    }
}

/// The precision a literal numeric operand asks for: the number of bytes
/// after the first `.`, 0 when it has none.
pub fn detect_precision(float: &str) -> (p: usize)
    ensures
        p as int == precision_of(float.spec_bytes()),
{
    let bytes: &[u8] = float.as_bytes();
    let n = find_byte_from(bytes, 0, DOT);
    if n < bytes.len() {
        bytes.len() - n - 1
    } else {
        0
    }
}

} // verus!

//! Shared byte-level scanning helpers: named byte constants, first-occurrence
//! search, and byte-slice equality, each with an exact specification.

use vstd::prelude::*;

verus! {

/// The newline byte `\n`.
pub const NL: u8 = 10;

/// The space byte.
pub const SPACE: u8 = 32;

/// The dollar byte `$`, written before each newline by the end-marking
/// decoration.
pub const DOLLAR: u8 = 36;

/// The percent byte `%`, which introduces a conversion in a format string.
pub const PERCENT: u8 = 37;

/// The colon byte `:`, part of the line-number prefix.
pub const COLON: u8 = 58;

/// The dot byte `.`, which introduces a precision in a format string.
pub const DOT: u8 = 46;

/// The dash byte `-`.
pub const DASH: u8 = 45;

/// The plus byte `+`.
pub const PLUS: u8 = 43;

/// The hash byte `#`.
pub const HASH: u8 = 35;

/// The zero digit byte `0`.
pub const ZERO: u8 = 48;

/// Index of the first occurrence of `c` in `s` at or after `i`, or `s.len()`
/// if there is none.
pub open spec fn find_byte(s: Seq<u8>, i: int, c: u8) -> int
    decreases s.len() - i,
{
    if i < 0 || i >= s.len() {
        s.len() as int
    } else if s[i] == c {
        i
    } else {
        find_byte(s, i + 1, c)
    }
}

/// `find_byte` yields an index between `i` and `s.len()`; it points at `c`
/// unless it is `s.len()`, and nothing before it (from `i` on) is `c`.
pub proof fn lemma_find_byte(s: Seq<u8>, i: int, c: u8)
    requires
        0 <= i <= s.len(),
    ensures
        i <= find_byte(s, i, c) <= s.len(),
        find_byte(s, i, c) < s.len() ==> s[find_byte(s, i, c)] == c,
        forall|k: int| i <= k < find_byte(s, i, c) ==> s[k] != c,
    decreases s.len() - i,
{
    if i < s.len() && s[i] != c {
        lemma_find_byte(s, i + 1, c);
    }
}

/// An index `j` with no `c` before it (from `i` on) and `c` at it (or the
/// end of `s`) is exactly `find_byte(s, i, c)`.
pub proof fn lemma_find_byte_is(s: Seq<u8>, i: int, c: u8, j: int)
    requires
        0 <= i <= j <= s.len(),
        forall|k: int| i <= k < j ==> s[k] != c,
        j == s.len() || s[j] == c,
    ensures
        find_byte(s, i, c) == j,
    decreases j - i,
{
    if i < j {
        lemma_find_byte_is(s, i + 1, c, j);
    }
}

/// First occurrence of `c` in `s` at or after `from`, or `s.len()` if none.
pub fn find_byte_from(s: &[u8], from: usize, c: u8) -> (j: usize)
    requires
        from <= s@.len(),
    ensures
        j == find_byte(s@, from as int, c),
        from <= j <= s@.len(),
{
    let mut i = from;
    while i < s.len()
        invariant
            from <= i <= s@.len(),
            forall|k: int| from <= k < i ==> s@[k] != c,
        decreases s@.len() - i,
    {
        if s[i] == c {
            proof {
                lemma_find_byte_is(s@, from as int, c, i as int);
            }
            return i;
        }
        i = i + 1;
    }
    proof {
        lemma_find_byte_is(s@, from as int, c, s@.len() as int);
    }
    s.len()
}

/// Whether two byte slices hold the same bytes.
pub fn eq_bytes(a: &[u8], b: &[u8]) -> (r: bool)
    ensures
        r == (a@ == b@),
{
    if a.len() != b.len() {
        return false;
    }
    let mut i: usize = 0;
    while i < a.len()
        invariant
            i <= a@.len(),
            a@.len() == b@.len(),
            forall|k: int| 0 <= k < i ==> a@[k] == b@[k],
        decreases a@.len() - i,
    {
        if a[i] != b[i] {
            return false;
        }
        i = i + 1;
    }
    proof {
        assert(a@ =~= b@);
    }
    true
}

} // verus!

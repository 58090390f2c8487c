//! The stream decorator pipeline: copies a byte stream line by line and
//! applies up to three decorations — right-aligned line numbers, a `$`
//! before each newline, and squeezing of runs of blank lines.
//!
//! The pipeline works on one chunk of bytes at a time; `State` carries the
//! line counter and the blank-line streak across chunk boundaries.

use vstd::prelude::*;

use crate::scan::{find_byte, lemma_find_byte, find_byte_from, NL, SPACE, DOLLAR, COLON};
use vstd::slice::{slice_subrange, slice_to_vec};

verus! {

/// The three optional per-line output decorations of the stream copier.
pub struct Decorators {
    pub ends: bool,
    pub number: bool,
    pub squeeze: bool,
}

impl Decorators {
    /// True when at least one decoration is enabled.
    pub open spec fn any_spec(&self) -> bool {
        self.ends || self.number || self.squeeze
    }

    /// Whether any decoration is enabled; when none is, the stream is
    /// copied byte for byte.
    pub fn any(&self) -> (b: bool)
        ensures
            b == self.any_spec(),
    {
        self.ends || self.number || self.squeeze
    }
}

/// Counters carried across chunk boundaries within one logical stream.
///
/// `empty_streak` counts one more than the blank lines seen in the current
/// run (a non-blank line resets it to 1; a chunk ending inside a line resets
/// it to 0). `current_line` is the number the next emitted line gets when
/// numbering is on.
pub struct State {
    pub empty_streak: u64,
    pub current_line: u64,
}

/// Decimal digits of `n`, most significant first.
pub open spec fn dec_rep(n: nat) -> Seq<u8>
    decreases n,
{
    if n < 10 {
        seq![(48 + n) as u8]
    } else {
        dec_rep(n / 10) + seq![(48 + n % 10) as u8]
    }
}

/// The prefix put before a numbered line: the decimal digits of `line`,
/// right-aligned in a field of width 6 padded with spaces, then `": "`.
pub open spec fn line_prefix(line: nat) -> Seq<u8> {
    let d = dec_rep(line);
    let pad: nat = if d.len() >= 6 {
        0
    } else {
        (6 - d.len()) as nat
    };
    Seq::new(pad, |k: int| SPACE) + d + seq![COLON, SPACE]
}

/// What one decorated line starts with: the line-number prefix when
/// numbering is on, nothing otherwise.
pub open spec fn line_head(d: Decorators, line: nat) -> Seq<u8> {
    if d.number {
        line_prefix(line)
    } else {
        Seq::empty()
    }
}

/// What one decorated line ends with: `$` then the newline when end-marking
/// is on, the newline alone otherwise.
pub open spec fn line_tail(d: Decorators) -> Seq<u8> {
    if d.ends {
        seq![DOLLAR, NL]
    } else {
        seq![NL]
    }
}

/// The decorated output for the bytes of `s` from `i` on, together with the
/// final values of the blank streak and the line counter.
///
/// Each newline-terminated line is either suppressed (when squeezing is on
/// and it is the second or later blank line of a run) or emitted as
/// `line_head + body + line_tail`. A trailing fragment with no newline is
/// copied as it is and sets the streak to 0, so that the newline that ends
/// it in a later chunk is not taken for a blank line.
pub open spec fn decorate_spec(s: Seq<u8>, i: int, streak: nat, line: nat, d: Decorators) -> (
    Seq<u8>,
    nat,
    nat,
)
    decreases s.len() - i,
    via decorate_spec_dec
{
    if i < 0 || i >= s.len() {
        (Seq::empty(), streak, line)
    } else {
        let j = find_byte(s, i, NL);
        if j >= s.len() {
            (s.subrange(i, s.len() as int), 0 as nat, line)
        } else {
            let streak2: nat = if j == i {
                streak + 1
            } else {
                1
            };
            if d.squeeze && streak2 >= 3 {
                decorate_spec(s, j + 1, streak2, line, d)
            } else {
                let line2: nat = if d.number {
                    line + 1
                } else {
                    line
                };
                let rest = decorate_spec(s, j + 1, streak2, line2, d);
                (line_head(d, line) + s.subrange(i, j) + line_tail(d) + rest.0, rest.1, rest.2)
            }
        }
    }
}

#[via_fn]
proof fn decorate_spec_dec(s: Seq<u8>, i: int, streak: nat, line: nat, d: Decorators) {
    if 0 <= i < s.len() {
        lemma_find_byte(s, i, NL);
    }
}

/// Appends the decimal digits of `n` to `out`.
fn push_dec(out: &mut Vec<u8>, n: u64)
    ensures
        final(out)@ == old(out)@ + dec_rep(n as nat),
    decreases n,
{
    if n < 10 {
        out.push(48 + n as u8);
    } else {
        push_dec(out, n / 10);
        out.push(48 + (n % 10) as u8);
        proof {
            assert(out@ =~= old(out)@ + dec_rep(n as nat));
        }
    }
}

/// Appends `line_prefix(line)` to `out`.
fn push_line_prefix(out: &mut Vec<u8>, line: u64)
    ensures
        final(out)@ == old(out)@ + line_prefix(line as nat),
{
    let mut digits: Vec<u8> = Vec::new();
    push_dec(&mut digits, line);
    let mut k: usize = digits.len();
    while k < 6
        invariant
            digits@ == dec_rep(line as nat),
            digits@.len() <= k,
            k <= 6 || k == digits@.len(),
            out@ == old(out)@ + Seq::new((k - digits@.len()) as nat, |q: int| SPACE),
        decreases 6 - k,
    {
        out.push(SPACE);
        k = k + 1;
        proof {
            assert(out@ =~= old(out)@ + Seq::new((k - digits@.len()) as nat, |q: int| SPACE));
        }
    }
    out.extend_from_slice(digits.as_slice());
    out.push(COLON);
    out.push(SPACE);
    proof {
        assert(out@ =~= old(out)@ + line_prefix(line as nat));
    }
}

/// Copies `input` to the returned buffer with the enabled decorations
/// applied line by line, updating the counters in `state` so that a later
/// chunk continues exactly where this one stopped.
///
/// The bounds on the counters only keep them within machine range: each
/// increment consumes at least one input byte.
#[verifier::loop_isolation(false)]
pub fn copy_decorated(state: &mut State, input: &[u8], decorators: &Decorators) -> (out: Vec<u8>)
    requires
        old(state).empty_streak + input@.len() <= u64::MAX,
        old(state).current_line + input@.len() <= u64::MAX,
    ensures
        ({
            let r = decorate_spec(
                input@,
                0,
                old(state).empty_streak as nat,
                old(state).current_line as nat,
                *decorators,
            );
            out@ == r.0 && final(state).empty_streak as nat == r.1
                && final(state).current_line as nat == r.2
        }),
{
    let ghost s = input@;
    let ghost streak0 = old(state).empty_streak as nat;
    let ghost line0 = old(state).current_line as nat;
    let ghost dd = *decorators;
    let ghost full = decorate_spec(s, 0, streak0, line0, dd);
    let mut out: Vec<u8> = Vec::new();
    let mut p: usize = 0;
    while p < input.len()
        invariant
            p <= s.len(),
            state.empty_streak as nat <= streak0 + p,
            state.current_line as nat <= line0 + p,
            full.0 == out@ + decorate_spec(
                s,
                p as int,
                state.empty_streak as nat,
                state.current_line as nat,
                dd,
            ).0,
            full.1 == decorate_spec(
                s,
                p as int,
                state.empty_streak as nat,
                state.current_line as nat,
                dd,
            ).1,
            full.2 == decorate_spec(
                s,
                p as int,
                state.empty_streak as nat,
                state.current_line as nat,
                dd,
            ).2,
        decreases s.len() - p,
    {
        let ghost p0 = p as int;
        let ghost st0 = state.empty_streak as nat;
        let ghost ln0 = state.current_line as nat;
        let ghost out0 = out@;
        let ghost pre = decorate_spec(s, p0, st0, ln0, dd);
        proof {
            lemma_find_byte(s, p0, NL);
        }
        let j = find_byte_from(input, p, NL);
        if j == input.len() {
            let tail = slice_subrange(input, p, input.len());
            out.extend_from_slice(tail);
            state.empty_streak = 0;
            p = input.len();
            proof {
                assert(pre == (s.subrange(p0, s.len() as int), 0 as nat, ln0));
                assert(full.0 =~= out@ + decorate_spec(s, p as int, 0 as nat, ln0, dd).0);
            }
        } else {
            let blank = j == p;
            let newstreak: u64 = if blank {
                state.empty_streak + 1
            } else {
                1
            };
            state.empty_streak = newstreak;
            let ghost streak2 = newstreak as nat;
            if decorators.squeeze && newstreak >= 3 {
                p = j + 1;
                proof {
                    assert(pre == decorate_spec(s, j + 1, streak2, ln0, dd));
                }
            } else {
                if decorators.number {
                    push_line_prefix(&mut out, state.current_line);
                    state.current_line = state.current_line + 1;
                }
                let body = slice_subrange(input, p, j);
                out.extend_from_slice(body);
                if decorators.ends {
                    out.push(DOLLAR);
                }
                out.push(NL);
                proof {
                    let rest = decorate_spec(s, j + 1, streak2, state.current_line as nat, dd);
                    assert(pre == (
                        line_head(dd, ln0) + s.subrange(p as int, j as int) + line_tail(dd)
                            + rest.0,
                        rest.1,
                        rest.2,
                    ));
                    assert(out@ =~= out0 + line_head(dd, ln0) + s.subrange(p as int, j as int)
                        + line_tail(dd));
                    assert(full.0 =~= out@ + rest.0);
                }
                p = j + 1;
            }
        }
    }
    proof {
        assert(full.0 =~= out@);
    }
    out
}

/// Copies `input` with the decorations applied when any is enabled, and
/// byte for byte — the identity transform — otherwise.
pub fn copy_or_die(state: &mut State, input: &[u8], decorators: &Decorators) -> (out: Vec<u8>)
    requires
        old(state).empty_streak + input@.len() <= u64::MAX,
        old(state).current_line + input@.len() <= u64::MAX,
    ensures
        decorators.any_spec() ==> ({
            let r = decorate_spec(
                input@,
                0,
                old(state).empty_streak as nat,
                old(state).current_line as nat,
                *decorators,
            );
            out@ == r.0 && final(state).empty_streak as nat == r.1
                && final(state).current_line as nat == r.2
        }),
        !decorators.any_spec() ==> out@ == input@ && *final(state) == *old(state),
{
    if decorators.any() {
        copy_decorated(state, input, decorators)
    } else {
        slice_to_vec(input)
    }
}

/// With no decoration enabled the pipeline is the identity transform: the
/// output bytes are the input bytes, whatever the counters hold.
pub proof fn lemma_no_decorations(s: Seq<u8>, i: int, streak: nat, line: nat)
    requires
        0 <= i <= s.len(),
    ensures
        decorate_spec(
            s,
            i,
            streak,
            line,
            (Decorators { ends: false, number: false, squeeze: false }),
        ).0 == s.subrange(i, s.len() as int),
    decreases s.len() - i,
{
    let d = Decorators { ends: false, number: false, squeeze: false };
    if i < s.len() {
        lemma_find_byte(s, i, NL);
        let j = find_byte(s, i, NL);
        if j < s.len() {
            let streak2: nat = if j == i {
                streak + 1
            } else {
                1
            };
            lemma_no_decorations(s, j + 1, streak2, line);
            assert(decorate_spec(s, i, streak, line, d).0 =~= s.subrange(i, s.len() as int));
        }
    } else {
        assert(decorate_spec(s, i, streak, line, d).0 =~= s.subrange(i, s.len() as int));
    }
}

/// The output of the pipeline when only line numbering is on: each
/// newline-terminated line prefixed with `line_prefix` of its number,
/// counting up by one per line from `line`; a trailing fragment without a
/// newline is copied bare.
pub open spec fn numbered_only(s: Seq<u8>, i: int, line: nat) -> Seq<u8>
    decreases s.len() - i,
    via numbered_only_dec
{
    if i < 0 || i >= s.len() {
        Seq::empty()
    } else {
        let j = find_byte(s, i, NL);
        if j >= s.len() {
            s.subrange(i, s.len() as int)
        } else {
            line_prefix(line) + s.subrange(i, j) + seq![NL] + numbered_only(s, j + 1, line + 1)
        }
    }
}

#[via_fn]
proof fn numbered_only_dec(s: Seq<u8>, i: int, line: nat) {
    if 0 <= i < s.len() {
        lemma_find_byte(s, i, NL);
    }
}

/// With only line numbering enabled, the pipeline prepends to every
/// newline-terminated line its number — right-aligned to width 6 and
/// followed by `": "` — counting up by one per emitted line from `line`,
/// whatever the blank streak holds.
pub proof fn lemma_number_only(s: Seq<u8>, i: int, streak: nat, line: nat)
    ensures
        decorate_spec(
            s,
            i,
            streak,
            line,
            (Decorators { ends: false, number: true, squeeze: false }),
        ).0 == numbered_only(s, i, line),
    decreases s.len() - i,
{
    let d = Decorators { ends: false, number: true, squeeze: false };
    if 0 <= i < s.len() {
        lemma_find_byte(s, i, NL);
        let j = find_byte(s, i, NL);
        if j < s.len() {
            let streak2: nat = if j == i {
                streak + 1
            } else {
                1
            };
            lemma_number_only(s, j + 1, streak2, line + 1);
        }
    }
}

/// The bytes of `s` from `i` on with a `$` put immediately before every
/// newline and nowhere else.
pub open spec fn ends_marked(s: Seq<u8>, i: int) -> Seq<u8>
    decreases s.len() - i,
{
    if i < 0 || i >= s.len() {
        Seq::empty()
    } else if s[i] == NL {
        seq![DOLLAR, NL] + ends_marked(s, i + 1)
    } else {
        seq![s[i]] + ends_marked(s, i + 1)
    }
}

/// A stretch without a newline passes through `ends_marked` unchanged.
proof fn lemma_ends_marked_plain(s: Seq<u8>, i: int, j: int)
    requires
        0 <= i <= j <= s.len(),
        forall|k: int| i <= k < j ==> s[k] != NL,
    ensures
        ends_marked(s, i) == s.subrange(i, j) + ends_marked(s, j),
    decreases j - i,
{
    if i == j {
        assert(ends_marked(s, i) =~= s.subrange(i, j) + ends_marked(s, j));
    } else {
        lemma_ends_marked_plain(s, i + 1, j);
        assert(ends_marked(s, i) =~= s.subrange(i, j) + ends_marked(s, j));
    }
}

/// With only end-marking enabled, the pipeline's output is the input with
/// exactly one `$` inserted immediately before every newline and nowhere
/// else, whatever the counters hold.
pub proof fn lemma_show_ends_only(s: Seq<u8>, i: int, streak: nat, line: nat)
    requires
        0 <= i <= s.len(),
    ensures
        decorate_spec(
            s,
            i,
            streak,
            line,
            (Decorators { ends: true, number: false, squeeze: false }),
        ).0 == ends_marked(s, i),
    decreases s.len() - i,
{
    let d = Decorators { ends: true, number: false, squeeze: false };
    if i < s.len() {
        lemma_find_byte(s, i, NL);
        let j = find_byte(s, i, NL);
        if j >= s.len() {
            lemma_ends_marked_plain(s, i, s.len() as int);
            assert(ends_marked(s, i) =~= s.subrange(i, s.len() as int));
        } else {
            let streak2: nat = if j == i {
                streak + 1
            } else {
                1
            };
            lemma_show_ends_only(s, j + 1, streak2, line);
            lemma_ends_marked_plain(s, i, j);
            assert(decorate_spec(s, i, streak, line, d).0 =~= ends_marked(s, i));
        }
    }
}

/// No three newline bytes in a row anywhere in `t`: no line end is ever
/// followed by two blank lines.
pub open spec fn no_triple_newline(t: Seq<u8>) -> bool {
    forall|k: int|
        0 <= k && k + 2 < t.len() ==> !(#[trigger] t[k] == NL && t[k + 1] == NL && t[k + 2] == NL)
}

/// `t` does not begin with two blank lines.
pub open spec fn no_leading_blank_pair(t: Seq<u8>) -> bool {
    !(t.len() >= 2 && t[0] == NL && t[1] == NL)
}

proof fn lemma_squeeze_aux(s: Seq<u8>, i: int, streak: nat, line: nat)
    requires
        0 <= i <= s.len(),
        streak >= 1,
    ensures
        ({
            let t = decorate_spec(
                s,
                i,
                streak,
                line,
                (Decorators { ends: false, number: false, squeeze: true }),
            ).0;
            no_triple_newline(t) && no_leading_blank_pair(t) && (streak >= 2 && t.len() >= 1
                ==> t[0] != NL)
        }),
    decreases s.len() - i,
{
    let d = Decorators { ends: false, number: false, squeeze: true };
    let t = decorate_spec(s, i, streak, line, d).0;
    if i < s.len() {
        lemma_find_byte(s, i, NL);
        let j = find_byte(s, i, NL);
        if j >= s.len() {
            // the trailing fragment holds no newline at all
            assert(t == s.subrange(i, s.len() as int));
            assert forall|k: int| 0 <= k < t.len() implies t[k] != NL by {
                assert(t[k] == s[i + k]);
            }
        } else {
            let streak2: nat = if j == i {
                streak + 1
            } else {
                1
            };
            if d.squeeze && streak2 >= 3 {
                lemma_squeeze_aux(s, j + 1, streak2, line);
            } else {
                let rest = decorate_spec(s, j + 1, streak2, line, d).0;
                lemma_squeeze_aux(s, j + 1, streak2, line);
                assert(t =~= s.subrange(i, j) + seq![NL] + rest);
                let b = j - i;
                assert(t.len() == b + 1 + rest.len());
                assert forall|k: int| 0 <= k < t.len() implies t[k] == (if k < b {
                    s[i + k]
                } else if k == b {
                    NL
                } else {
                    rest[k - b - 1]
                }) by {}
                assert forall|k: int|
                    0 <= k && k + 2 < t.len() implies !(#[trigger] t[k] == NL && t[k + 1] == NL
                    && t[k + 2] == NL) by {
                    if k + 2 < b {
                        assert(t[k] == s[i + k] && i + k < j);
                    } else if k < b {
                        // one of the first two positions lies in the body
                        assert(t[k] == s[i + k] || t[k + 1] == s[i + k + 1]);
                    } else if k == b {
                        // a triple at the line end would need rest to begin
                        // with two newlines
                        assert(t[k + 1] == rest[0] && t[k + 2] == rest[1]);
                    } else {
                        assert(t[k] == rest[k - b - 1] && t[k + 1] == rest[k - b] && t[k + 2]
                            == rest[k - b + 1]);
                    }
                }
            }
        }
    }
}

/// With only blank squeezing enabled — and a streak counter of at least 1,
/// its value at the start of a stream and after every completed line — a run
/// of blank lines never yields more than one blank line in the output: the
/// output neither holds three newline bytes in a row nor begins with two.
pub proof fn lemma_squeeze_blank(s: Seq<u8>, streak: nat, line: nat)
    requires
        streak >= 1,
    ensures
        ({
            let t = decorate_spec(
                s,
                0,
                streak,
                line,
                (Decorators { ends: false, number: false, squeeze: true }),
            ).0;
            no_triple_newline(t) && no_leading_blank_pair(t)
        }),
{
    lemma_squeeze_aux(s, 0, streak, line);
}

} // verus!

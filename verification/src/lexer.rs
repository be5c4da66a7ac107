use vstd::prelude::*;

use crate::error::Error;
use crate::primitives::{Cmd, Name, PrimV, Primitives, RealVal};
use crate::stream::Stream;
use crate::utils::spec_is_whitespace;

verus! {

// ---------------------------------------------------------------------------
// Character classification.
//
// PDF splits bytes in three classes: whitespace (NUL, TAB, LF, FF, CR,
// SPACE), delimiters that end a name or command without being whitespace
// (`( ) < > [ ] { } / %`), and regular bytes.
// ---------------------------------------------------------------------------
/// Lexer whitespace: NUL, TAB, LF, FF, CR or SPACE.
pub open spec fn sp_ws(c: u8) -> bool {
    c == 0x00 || c == 0x09 || c == 0x0a || c == 0x0c || c == 0x0d || c == 0x20
}

/// A delimiter byte: one of `( ) < > [ ] { } / %`.
pub open spec fn sp_delim(c: u8) -> bool {
    c == 0x25 || c == 0x28 || c == 0x29 || c == 0x2f || c == 0x3c || c == 0x3e || c == 0x5b || c
        == 0x5d || c == 0x7b || c == 0x7d
}

/// A byte that terminates a name or command: whitespace or a delimiter.
pub open spec fn sp_special(c: u8) -> bool {
    sp_ws(c) || sp_delim(c)
}

pub fn is_ws_char(c: u8) -> (r: bool)
    ensures
        r == sp_ws(c),
{
    c == 0x00 || c == 0x09 || c == 0x0a || c == 0x0c || c == 0x0d || c == 0x20
}

pub fn is_special_char(c: u8) -> (r: bool)
    ensures
        r == sp_special(c),
{
    is_ws_char(c) || c == 0x25 || c == 0x28 || c == 0x29 || c == 0x2f || c == 0x3c || c == 0x3e
        || c == 0x5b || c == 0x5d || c == 0x7b || c == 0x7d
}

/// The value of a hexadecimal digit byte, or nothing.
pub open spec fn sp_hex_digit(c: u8) -> Option<u8> {
    if 0x30 <= c && c <= 0x39 {
        Some((c - 0x30) as u8)
    } else if 0x41 <= c && c <= 0x46 {
        Some((c - 0x41 + 10) as u8)
    } else if 0x61 <= c && c <= 0x66 {
        Some((c - 0x61 + 10) as u8)
    } else {
        None
    }
}

/// The value of a hexadecimal digit byte (`0-9`, `A-F`, `a-f`), or nothing.
pub fn to_hex_digit(ch: u8) -> (r: Option<u8>)
    ensures
        r == sp_hex_digit(ch),
{
    if ch >= 0x30 && ch <= 0x39 {
        Some(ch - 0x30)
    } else if ch >= 0x41 && ch <= 0x46 {
        Some(ch - 0x41 + 10)
    } else if ch >= 0x61 && ch <= 0x66 {
        Some(ch - 0x61 + 10)
    } else {
        None
    }
}

// ---------------------------------------------------------------------------
// The lexing relation, as recursive functions over the byte sequence.
//
// Every function takes the backing bytes `data`, the logical end of the
// stream `end`, and a cursor `i`; the cursor of the current byte is `i`, and
// `i == end` means the input is exhausted. The functions mirror the
// byte-by-byte grammar of §7.2–7.3 of the PDF specification with the usual
// real-world tolerances.
// ---------------------------------------------------------------------------
/// The outcome of lexing one token: the token (nothing means a lexical
/// error), the cursor after it, the number of diagnostics emitted, and the
/// recorded inline-image position if the token was the command `BI`.
pub ghost struct LexStep {
    pub tok: Option<PrimV>,
    pub next: int,
    pub dg: nat,
    pub bi: Option<int>,
}

impl LexStep {
    /// A successful step that emits no diagnostic and no inline-image mark.
    pub open spec fn ok(t: PrimV, next: int) -> LexStep {
        LexStep { tok: Some(t), next, dg: 0, bi: None }
    }

    /// A failed step: the token is aborted with a lexical error.
    pub open spec fn err(next: int, dg: nat) -> LexStep {
        LexStep { tok: None, next, dg, bi: None }
    }

    /// The same step with `n` diagnostics drawn before it.
    pub open spec fn add_dg(self, n: nat) -> LexStep {
        LexStep { dg: self.dg + n, ..self }
    }
}

/// The first cursor at or after `i` that holds a byte outside whitespace
/// runs and `%`-to-end-of-line comments, or `end`.
pub open spec fn sp_skip_ws(data: Seq<u8>, end: int, i: int, comment: bool) -> int
    decreases end - i,
{
    if i < 0 || i >= end {
        end
    } else {
        let c = data[i];
        if comment {
            sp_skip_ws(data, end, i + 1, !(c == 0x0a || c == 0x0d))
        } else if c == 0x25 {
            sp_skip_ws(data, end, i + 1, true)
        } else if sp_ws(c) {
            sp_skip_ws(data, end, i + 1, false)
        } else {
            i
        }
    }
}

// ---------------------------------------------------------------------------
// Literal strings.  `(` opens a string; parentheses nest and inner ones are
// retained; `\` introduces escapes (`\n \r \t \b \f \\ \( \)`, one to three
// octal digits, a consumed line break); the `)` that closes the outermost
// level is consumed. Unexpected end of input is a lexical error.
// ---------------------------------------------------------------------------
/// The byte denoted by a three-digit octal escape; high-order overflow past
/// one byte is discarded.
pub open spec fn sp_oct3(c2: u8, c3: u8, c4: u8) -> u8 {
    (((c2 - 0x30) * 8 + (c3 - 0x30)) * 8 % 256 + (c4 - 0x30)) as u8
}

/// The resolution of one backslash escape, the `\\` standing at cursor `i`:
/// the byte it contributes (a consumed line break contributes none) and the
/// cursor after the escape; nothing means the input ended inside it.
pub open spec fn sp_str_escape(data: Seq<u8>, end: int, i: int) -> Option<(Option<u8>, int)> {
    if i + 1 >= end {
        None
    } else {
        let c2 = data[i + 1];
        if c2 == 0x6e {
            Some((Some(0x0au8), i + 2))
        } else if c2 == 0x72 {
            Some((Some(0x0du8), i + 2))
        } else if c2 == 0x74 {
            Some((Some(0x09u8), i + 2))
        } else if c2 == 0x62 {
            Some((Some(0x08u8), i + 2))
        } else if c2 == 0x66 {
            Some((Some(0x0cu8), i + 2))
        } else if c2 == 0x5c || c2 == 0x28 || c2 == 0x29 {
            Some((Some(c2), i + 2))
        } else if 0x30 <= c2 && c2 <= 0x37 {
            if i + 2 >= end {
                None
            } else {
                let c3 = data[i + 2];
                if 0x30 <= c3 && c3 <= 0x37 {
                    if i + 3 >= end {
                        None
                    } else {
                        let c4 = data[i + 3];
                        if 0x30 <= c4 && c4 <= 0x37 {
                            Some((Some(sp_oct3(c2, c3, c4)), i + 4))
                        } else {
                            Some((Some((((c2 - 0x30) * 8) + (c3 - 0x30)) as u8), i + 3))
                        }
                    }
                } else {
                    Some((Some((c2 - 0x30) as u8), i + 2))
                }
            }
        } else if c2 == 0x0d {
            if i + 2 >= end {
                None
            } else if data[i + 2] == 0x0a {
                Some((None, i + 3))
            } else {
                Some((None, i + 2))
            }
        } else if c2 == 0x0a {
            Some((None, i + 2))
        } else {
            Some((Some(c2), i + 2))
        }
    }
}

/// Where the cursor stands after a failed escape: on the byte after the
/// backslash when a lone CR ended the input early, otherwise at the end.
pub open spec fn sp_str_escape_errcur(data: Seq<u8>, end: int, i: int) -> int {
    if i + 1 < end && data[i + 1] == 0x0d {
        i + 1
    } else {
        end
    }
}

/// One step of the literal-string scanner; `i` is the cursor of the byte
/// under examination and `depth` the number of unmatched `(`.
pub open spec fn sp_str_scan(data: Seq<u8>, end: int, i: int, depth: int, acc: Seq<u8>) -> LexStep
    decreases end - i,
{
    if i < 0 || i >= end {
        LexStep::err(end, 0)
    } else {
        let c = data[i];
        if c == 0x28 {
            sp_str_scan(data, end, i + 1, depth + 1, acc.push(0x28))
        } else if c == 0x29 {
            if depth == 1 {
                LexStep::ok(PrimV::Str(acc), i + 1)
            } else {
                sp_str_scan(data, end, i + 1, depth - 1, acc.push(0x29))
            }
        } else if c == 0x5c {
            match sp_str_escape(data, end, i) {
                None => LexStep::err(sp_str_escape_errcur(data, end, i), 0),
                Some((b, j)) => sp_str_scan(
                    data,
                    end,
                    j,
                    depth,
                    match b {
                        Some(x) => acc.push(x),
                        None => acc,
                    },
                ),
            }
        } else {
            sp_str_scan(data, end, i + 1, depth, acc.push(c))
        }
    }
}

/// The literal-string token beginning with the `(` at cursor `i`.
pub open spec fn sp_lex_string(data: Seq<u8>, end: int, i: int) -> LexStep {
    sp_str_scan(data, end, i + 1, 1, Seq::empty())
}

// ---------------------------------------------------------------------------
// Names.  `/` starts a name; `#hh` expands to one byte; `#` followed by
// anything else is preserved literally with a diagnostic. The terminating
// delimiter is not consumed. Names longer than 127 bytes draw a diagnostic.
// ---------------------------------------------------------------------------
/// One step of the name scanner; `j` is the cursor of the byte to examine.
pub open spec fn sp_name_scan(data: Seq<u8>, end: int, j: int, acc: Seq<u8>) -> LexStep
    decreases end - j,
{
    if j < 0 {
        LexStep::err(j, 0)
    } else if j >= end {
        sp_name_finish(acc, end)
    } else {
        let c = data[j];
        if sp_special(c) {
            sp_name_finish(acc, j)
        } else if c == 0x23 {
            // `#`
            if j + 1 >= end {
                LexStep::err(end, 0)
            } else {
                let c2 = data[j + 1];
                if sp_special(c2) {
                    sp_name_finish(acc.push(0x23), j + 1).add_dg(1)
                } else if sp_hex_digit(c2) is Some {
                    if j + 2 >= end {
                        LexStep::err(end, 0)
                    } else {
                        let c3 = data[j + 2];
                        if sp_hex_digit(c3) is Some {
                            let b = (sp_hex_digit(c2).unwrap() * 16 + sp_hex_digit(
                                c3,
                            ).unwrap()) as u8;
                            sp_name_scan(data, end, j + 3, acc.push(b))
                        } else if sp_special(c3) {
                            sp_name_finish(acc.push(0x23).push(c2), j + 2).add_dg(1)
                        } else {
                            sp_name_scan(data, end, j + 3, acc.push(0x23).push(c2).push(c3)).add_dg(
                                1,
                            )
                        }
                    }
                } else {
                    sp_name_scan(data, end, j + 2, acc.push(0x23).push(c2)).add_dg(1)
                }
            }
        } else {
            sp_name_scan(data, end, j + 1, acc.push(c))
        }
    }
}

/// A finished name: over 127 bytes it draws one more diagnostic.
pub open spec fn sp_name_finish(acc: Seq<u8>, next: int) -> LexStep {
    LexStep {
        tok: Some(PrimV::Name(acc)),
        next,
        dg: if acc.len() > 127 {
            1nat
        } else {
            0nat
        },
        bi: None,
    }
}

/// The name token beginning with the `/` at cursor `i`.
pub open spec fn sp_lex_name(data: Seq<u8>, end: int, i: int) -> LexStep {
    sp_name_scan(data, end, i + 1, Seq::empty())
}

// ---------------------------------------------------------------------------
// Numbers.  Dispatched on `0-9 + - .`: an optional sign (a second `-` right
// after `-` is dropped), line breaks after the sign are skipped, an optional
// leading `.`, then digits with at most one embedded `.`, `-` in the middle
// dropped with a diagnostic, and `e`/`E` scientific notation when followed
// by a sign or digit (otherwise the `e` begins the next command). The exact
// decimal value decides the result: an integer value yields `Int`, anything
// else `Real`. A lone `.` (signed or not) before whitespace is `Real` zero
// with a diagnostic. The mantissa, the fractional-digit count and the exponent all
// accumulate with saturation at the top of `u64`.
// ---------------------------------------------------------------------------
/// The accumulator of the number scanner.
pub ghost struct NumSt {
    /// The value is negated.
    pub neg: bool,
    /// Mantissa digits, saturating.
    pub base: nat,
    /// A decimal point was seen.
    pub dot: bool,
    /// Digits after the point, saturating.
    pub fd: nat,
    /// Inside scientific notation.
    pub enot: bool,
    /// Exponent digits, saturating.
    pub pw: nat,
    /// The exponent is negated.
    pub pneg: bool,
}

/// The outcome of the number scanner: the final accumulator (nothing on a
/// lexical error), the cursor after the scan, and the diagnostics drawn.
pub ghost struct NumScan {
    pub st: Option<NumSt>,
    pub next: int,
    pub dg: nat,
}

/// One more digit on a saturating accumulator.
pub open spec fn sp_sat_step(b: nat, d: nat) -> nat {
    if b * 10 + d <= u64::MAX {
        b * 10 + d
    } else {
        u64::MAX as nat
    }
}

/// One more count on a saturating counter.
pub open spec fn sp_sat_inc(v: nat) -> nat {
    if v + 1 <= u64::MAX {
        v + 1
    } else {
        v
    }
}

/// One step of the number scanner; `j` is the cursor of the byte under
/// examination.
pub open spec fn sp_num_scan(data: Seq<u8>, end: int, j: int, st: NumSt) -> NumScan
    decreases end - j,
{
    if j < 0 {
        NumScan { st: None, next: j, dg: 0 }
    } else if j >= end {
        NumScan { st: Some(st), next: end, dg: 0 }
    } else {
        let c = data[j];
        if 0x30 <= c && c <= 0x39 {
            let d = (c - 0x30) as nat;
            if st.enot {
                sp_num_scan(data, end, j + 1, NumSt { pw: sp_sat_step(st.pw, d), ..st })
            } else {
                let fd2 = if st.dot {
                    sp_sat_inc(st.fd)
                } else {
                    st.fd
                };
                sp_num_scan(data, end, j + 1, NumSt { base: sp_sat_step(st.base, d), fd: fd2, ..st })
            }
        } else if c == 0x2e {
            if !st.dot {
                sp_num_scan(data, end, j + 1, NumSt { dot: true, ..st })
            } else {
                // a number has at most one point: this one ends it
                NumScan { st: Some(st), next: j, dg: 0 }
            }
        } else if c == 0x2d {
            // minus in the middle: dropped with a diagnostic
            let sc = sp_num_scan(data, end, j + 1, st);
            NumScan { dg: sc.dg + 1, ..sc }
        } else if c == 0x45 || c == 0x65 {
            if j + 1 >= end {
                NumScan { st: None, next: j, dg: 0 }
            } else {
                let pk = data[j + 1];
                if pk == 0x2b || pk == 0x2d {
                    sp_num_scan(data, end, j + 2, NumSt { enot: true, pneg: pk == 0x2d, ..st })
                } else if 0x30 <= pk && pk <= 0x39 {
                    sp_num_scan(data, end, j + 1, NumSt { enot: true, ..st })
                } else {
                    // the e begins the next command
                    NumScan { st: Some(st), next: j, dg: 0 }
                }
            }
        } else {
            NumScan { st: Some(st), next: j, dg: 0 }
        }
    }
}

/// Ten to the `e`.
pub open spec fn sp_pow10(e: nat) -> int
    decreases e,
{
    if e == 0 {
        1
    } else {
        10 * sp_pow10((e - 1) as nat)
    }
}

/// Strips factors of ten from the mantissa into the exponent while the
/// exponent is negative: the canonical form of the scanned value.
pub open spec fn sp_reduce(m: nat, e: int) -> (nat, int)
    decreases
            (if e < 0 {
                -e
            } else {
                0
            }),
{
    if e < 0 && m > 0 && m % 10 == 0 {
        sp_reduce(m / 10, e + 1)
    } else {
        (m, e)
    }
}

pub open spec fn sp_signed(neg: bool, v: int) -> int {
    if neg {
        -v
    } else {
        v
    }
}

/// The nearest representable 64-bit integer.
pub open spec fn sp_clamp_i64(v: int) -> i64 {
    if v > i64::MAX {
        i64::MAX
    } else if v < i64::MIN {
        i64::MIN
    } else {
        v as i64
    }
}

pub open spec fn sp_clamp_exp(e: int) -> i64 {
    if e < i64::MIN {
        i64::MIN
    } else if e > i64::MAX {
        i64::MAX
    } else {
        e as i64
    }
}

/// The token a finished number scan denotes: with the canonical mantissa `m`
/// and decimal exponent `e`, an integer when `e` ended at or above zero (the
/// value has no fractional part), otherwise the real `m * 10^e`.
pub open spec fn sp_num_finish(st: NumSt) -> PrimV {
    let e0 = (if st.enot {
        if st.pneg {
            -(st.pw as int)
        } else {
            st.pw as int
        }
    } else {
        0int
    }) - st.fd;
    let m = sp_reduce(st.base, e0).0;
    let e = sp_reduce(st.base, e0).1;
    if m == 0 {
        PrimV::Int(0)
    } else if e >= 0 {
        PrimV::Int(sp_clamp_i64(sp_signed(st.neg, m * sp_pow10(e as nat))))
    } else {
        PrimV::Real(RealVal { num: sp_clamp_i64(sp_signed(st.neg, m as int)), exp10: sp_clamp_exp(e) })
    }
}

/// The run of line breaks beginning at cursor `j`: the cursor of the first
/// byte after them, or nothing when the input ends inside the run.
pub open spec fn sp_skip_nl(data: Seq<u8>, end: int, j: int) -> Option<int>
    decreases end - j,
{
    if j < 0 || j >= end {
        None
    } else if data[j] == 0x0a || data[j] == 0x0d {
        if j + 1 >= end {
            None
        } else {
            sp_skip_nl(data, end, j + 1)
        }
    } else {
        Some(j)
    }
}

/// The number body after the sign: skipped line breaks, an optional leading
/// point, then the digit run.
pub open spec fn sp_num_body(data: Seq<u8>, end: int, j: int, neg: bool) -> LexStep {
    match sp_skip_nl(data, end, j) {
        None => LexStep::err(end, 0),
        Some(j1) => {
            if data[j1] == 0x2e {
                if j1 + 1 >= end {
                    LexStep::err(end, 0)
                } else {
                    sp_num_digits(data, end, j1 + 1, neg, true)
                }
            } else {
                sp_num_digits(data, end, j1, neg, false)
            }
        },
    }
}

/// The digit run of a number, the cursor standing on its first byte. A
/// non-digit here is the lone-point tolerance (`Real` zero with a
/// diagnostic, when it stands before whitespace) or an invalid number
/// (a diagnostic and a lexical error).
pub open spec fn sp_num_digits(
    data: Seq<u8>,
    end: int,
    j2: int,
    neg: bool,
    dot: bool,
) -> LexStep {
    let c = data[j2];
    if !(0x30 <= c && c <= 0x39) {
        if dot && spec_is_whitespace(c) {
            LexStep { tok: Some(PrimV::Real(RealVal { num: 0, exp10: 0 })), next: j2, dg: 1, bi: None }
        } else {
            LexStep::err(j2, 1)
        }
    } else {
        let st0 = NumSt {
            neg,
            base: (c - 0x30) as nat,
            dot,
            fd: if dot {
                1nat
            } else {
                0nat
            },
            enot: false,
            pw: 0,
            pneg: false,
        };
        let sc = sp_num_scan(data, end, j2 + 1, st0);
        match sc.st {
            None => LexStep::err(sc.next, sc.dg),
            Some(st) => LexStep { tok: Some(sp_num_finish(st)), next: sc.next, dg: sc.dg, bi: None },
        }
    }
}

/// The number token beginning at cursor `i` (a digit, sign or point).
pub open spec fn sp_lex_number(data: Seq<u8>, end: int, i: int) -> LexStep {
    if i < 0 || i >= end {
        LexStep::err(end, 0)
    } else {
        let c0 = data[i];
        if c0 == 0x2d {
            if i + 1 >= end {
                LexStep::err(end, 0)
            } else if data[i + 1] == 0x2d {
                // a double negative is dropped
                if i + 2 >= end {
                    LexStep::err(end, 0)
                } else {
                    sp_num_body(data, end, i + 2, true)
                }
            } else {
                sp_num_body(data, end, i + 1, true)
            }
        } else if c0 == 0x2b {
            if i + 1 >= end {
                LexStep::err(end, 0)
            } else {
                sp_num_body(data, end, i + 1, false)
            }
        } else {
            sp_num_body(data, end, i, false)
        }
    }
}

// ---------------------------------------------------------------------------
// Commands.  A maximal run of non-special bytes, at most 128 of them; the
// 129th draws a diagnostic and a lexical error. The terminating special byte
// is not consumed. Lexing the command `BI` records the byte-source position
// right after it for later inline-image assembly.
// ---------------------------------------------------------------------------
/// One step of the command scanner; `j` is the cursor of the byte under
/// examination and `acc` the bytes read so far.
pub open spec fn sp_cmd_scan(data: Seq<u8>, end: int, j: int, acc: Seq<u8>) -> LexStep
    decreases end - j,
{
    if j < 0 {
        LexStep::err(j, 0)
    } else if j >= end {
        LexStep::ok(PrimV::Cmd(acc), end)
    } else {
        let c = data[j];
        if sp_special(c) {
            LexStep::ok(PrimV::Cmd(acc), j)
        } else if acc.len() == 128 {
            LexStep::err(j, 1)
        } else {
            sp_cmd_scan(data, end, j + 1, acc.push(c))
        }
    }
}

/// The command token beginning at cursor `i`; after `BI` the step carries
/// the position of the byte source (one past the scanner's cursor).
pub open spec fn sp_lex_cmd(data: Seq<u8>, end: int, i: int) -> LexStep {
    let s = sp_cmd_scan(data, end, i + 1, seq![data[i]]);
    if s.tok == Some(PrimV::Cmd(seq![0x42u8, 0x49u8])) {
        LexStep {
            bi: Some(
                if s.next < end {
                    s.next + 1
                } else {
                    end
                },
            ),
            ..s
        }
    } else {
        s
    }
}

// ---------------------------------------------------------------------------
// Hex strings.  `<` (not followed by a second `<`) opens one; hex digits are
// consumed in pairs, whitespace between digits is ignored, any other byte is
// skipped with a diagnostic (at most five per invocation); a trailing lone
// digit is the high nibble of a zero-padded byte; `>` closes and is consumed.
// ---------------------------------------------------------------------------
/// A trailing lone digit pads the output with its high nibble.
pub open spec fn sp_hex_pad(acc: Seq<u8>, first: Option<u8>) -> Seq<u8> {
    match first {
        Some(f) => acc.push((f * 16) as u8),
        None => acc,
    }
}

/// One step of the hex-string scanner; `first` holds a pending high nibble
/// and `warns` counts the invalid bytes seen so far (capped at five, the
/// diagnostic budget of one invocation).
pub open spec fn sp_hex_scan(
    data: Seq<u8>,
    end: int,
    j: int,
    first: Option<u8>,
    acc: Seq<u8>,
    warns: nat,
) -> LexStep
    decreases end - j,
{
    if j < 0 || j >= end {
        LexStep::err(end, 0)
    } else {
        let c = data[j];
        if c == 0x3e {
            LexStep::ok(PrimV::HexStr(sp_hex_pad(acc, first)), j + 1)
        } else if sp_ws(c) {
            sp_hex_scan(data, end, j + 1, first, acc, warns)
        } else {
            match sp_hex_digit(c) {
                Some(d) => match first {
                    None => sp_hex_scan(data, end, j + 1, Some(d), acc, warns),
                    Some(f) => sp_hex_scan(data, end, j + 1, None, acc.push((f * 16 + d) as u8), warns),
                },
                None => sp_hex_scan(
                    data,
                    end,
                    j + 1,
                    first,
                    acc,
                    if warns < 5 {
                        warns + 1
                    } else {
                        warns
                    },
                ).add_dg(
                    if warns < 5 {
                        1nat
                    } else {
                        0nat
                    },
                ),
            }
        }
    }
}

/// The hex-string token whose first content byte stands at cursor `i` (the
/// opening `<` is already consumed).
pub open spec fn sp_lex_hex(data: Seq<u8>, end: int, i: int) -> LexStep {
    sp_hex_scan(data, end, i, None, Seq::empty(), 0)
}

/// The string scanner draws no diagnostic and leaves the inline-image mark
/// alone.
pub proof fn lemma_str_scan_no_bi(data: Seq<u8>, end: int, i: int, depth: int, acc: Seq<u8>)
    ensures
        sp_str_scan(data, end, i, depth, acc).bi is None,
        sp_str_scan(data, end, i, depth, acc).dg == 0,
    decreases end - i,
{
    if 0 <= i && i < end {
        let c = data[i];
        if c == 0x28 {
            lemma_str_scan_no_bi(data, end, i + 1, depth + 1, acc.push(0x28));
        } else if c == 0x29 {
            if depth != 1 {
                lemma_str_scan_no_bi(data, end, i + 1, depth - 1, acc.push(0x29));
            }
        } else if c == 0x5c {
            match sp_str_escape(data, end, i) {
                None => {},
                Some((b, j)) => {
                    lemma_str_scan_no_bi(
                        data,
                        end,
                        j,
                        depth,
                        match b {
                            Some(x) => acc.push(x),
                            None => acc,
                        },
                    );
                },
            }
        } else {
            lemma_str_scan_no_bi(data, end, i + 1, depth, acc.push(c));
        }
    }
}

/// The name scanner leaves the inline-image mark alone.
pub proof fn lemma_name_scan_no_bi(data: Seq<u8>, end: int, j: int, acc: Seq<u8>)
    ensures
        sp_name_scan(data, end, j, acc).bi is None,
    decreases end - j,
{
    if 0 <= j && j < end {
        let c = data[j];
        if sp_special(c) {
        } else if c == 0x23 {
            if j + 1 < end {
                let c2 = data[j + 1];
                if sp_special(c2) {
                } else if sp_hex_digit(c2) is Some {
                    if j + 2 < end {
                        let c3 = data[j + 2];
                        if sp_hex_digit(c3) is Some {
                            let b = (sp_hex_digit(c2).unwrap() * 16 + sp_hex_digit(
                                c3,
                            ).unwrap()) as u8;
                            lemma_name_scan_no_bi(data, end, j + 3, acc.push(b));
                        } else if !sp_special(c3) {
                            lemma_name_scan_no_bi(data, end, j + 3, acc.push(0x23).push(c2).push(c3));
                        }
                    }
                } else {
                    lemma_name_scan_no_bi(data, end, j + 2, acc.push(0x23).push(c2));
                }
            }
        } else {
            lemma_name_scan_no_bi(data, end, j + 1, acc.push(c));
        }
    }
}

/// The hex-string scanner leaves the inline-image mark alone.
pub proof fn lemma_hex_scan_no_bi(
    data: Seq<u8>,
    end: int,
    j: int,
    first: Option<u8>,
    acc: Seq<u8>,
    warns: nat,
)
    ensures
        sp_hex_scan(data, end, j, first, acc, warns).bi is None,
    decreases end - j,
{
    if 0 <= j && j < end {
        let c = data[j];
        if c == 0x3e {
        } else if sp_ws(c) {
            lemma_hex_scan_no_bi(data, end, j + 1, first, acc, warns);
        } else {
            match sp_hex_digit(c) {
                Some(d) => match first {
                    None => {
                        lemma_hex_scan_no_bi(data, end, j + 1, Some(d), acc, warns);
                    },
                    Some(f) => {
                        lemma_hex_scan_no_bi(data, end, j + 1, None, acc.push((f * 16 + d) as u8), warns);
                    },
                },
                None => {
                    lemma_hex_scan_no_bi(
                        data,
                        end,
                        j + 1,
                        first,
                        acc,
                        if warns < 5 {
                            warns + 1
                        } else {
                            warns
                        },
                    );
                },
            }
        }
    }
}

/// The command scanner leaves the inline-image mark alone; only the step
/// that recognizes a whole `BI` token sets it.
pub proof fn lemma_cmd_scan_no_bi(data: Seq<u8>, end: int, j: int, acc: Seq<u8>)
    ensures
        sp_cmd_scan(data, end, j, acc).bi is None,
    decreases end - j,
{
    if 0 <= j && j < end {
        let c = data[j];
        if !sp_special(c) && acc.len() != 128 {
            lemma_cmd_scan_no_bi(data, end, j + 1, acc.push(c));
        }
    }
}

/// The next token at cursor `i`: whitespace runs and comments skipped, then
/// one token chosen by its first byte, or the end-of-file token. The
/// definition is opaque so that the parser layers can treat a lexing step as
/// one value; `reveal(sp_lex_obj)` opens it where a proof reads concrete
/// bytes.
#[verifier::opaque]
pub open spec fn sp_lex_obj(data: Seq<u8>, end: int, i: int) -> LexStep {
    let j = sp_skip_ws(data, end, i, false);
    if j >= end {
        LexStep::ok(PrimV::EOF, end)
    } else {
        let c = data[j];
        if (0x30 <= c && c <= 0x39) || c == 0x2b || c == 0x2d || c == 0x2e {
            sp_lex_number(data, end, j)
        } else if c == 0x28 {
            sp_lex_string(data, end, j)
        } else if c == 0x2f {
            sp_lex_name(data, end, j)
        } else if c == 0x5b {
            LexStep::ok(PrimV::Cmd(seq![0x5bu8]), j + 1)
        } else if c == 0x5d {
            LexStep::ok(PrimV::Cmd(seq![0x5du8]), j + 1)
        } else if c == 0x3c {
            if j + 1 >= end {
                LexStep::err(end, 0)
            } else if data[j + 1] == 0x3c {
                LexStep::ok(PrimV::Cmd(seq![0x3cu8, 0x3cu8]), j + 2)
            } else {
                sp_lex_hex(data, end, j + 1)
            }
        } else if c == 0x3e {
            if j + 1 < end && data[j + 1] == 0x3e {
                LexStep::ok(PrimV::Cmd(seq![0x3eu8, 0x3eu8]), j + 2)
            } else {
                // a lone `>` is malformed: kept as a command, with a diagnostic
                LexStep { tok: Some(PrimV::Cmd(seq![0x3eu8])), next: j + 1, dg: 1, bi: None }
            }
        } else if c == 0x7b {
            LexStep::ok(PrimV::Cmd(seq![0x7bu8]), j + 1)
        } else if c == 0x7d {
            LexStep::ok(PrimV::Cmd(seq![0x7du8]), j + 1)
        } else if c == 0x29 {
            // a stray `)` is consumed (so that recovering callers make
            // progress) and is a lexical error
            LexStep::err(j + 1, 0)
        } else {
            sp_lex_cmd(data, end, j)
        }
    }
}

// ---------------------------------------------------------------------------
// Progress of the lexer: every scanner leaves the cursor inside the range,
// and every token but end-of-file consumes at least one byte. The object
// parser's two-token lookahead terminates because of these facts.
// ---------------------------------------------------------------------------
/// The whitespace skipper stays inside `[i, end]`.
pub proof fn lemma_skip_ws_range(data: Seq<u8>, end: int, i: int, comment: bool)
    requires
        0 <= i <= end,
    ensures
        i <= sp_skip_ws(data, end, i, comment) <= end,
    decreases end - i,
{
    if i < end {
        let c = data[i];
        if comment {
            lemma_skip_ws_range(data, end, i + 1, !(c == 0x0a || c == 0x0d));
        } else if c == 0x25 {
            lemma_skip_ws_range(data, end, i + 1, true);
        } else if sp_ws(c) {
            lemma_skip_ws_range(data, end, i + 1, false);
        }
    }
}

/// The string scanner stays inside `[i, end]`.
proof fn lemma_str_scan_range(data: Seq<u8>, end: int, i: int, depth: int, acc: Seq<u8>)
    requires
        0 <= i <= end,
    ensures
        i <= sp_str_scan(data, end, i, depth, acc).next <= end,
        sp_str_scan(data, end, i, depth, acc).tok matches Some(t) ==> t is Str,
    decreases end - i,
{
    if 0 <= i && i < end {
        let c = data[i];
        if c == 0x28 {
            lemma_str_scan_range(data, end, i + 1, depth + 1, acc.push(0x28));
        } else if c == 0x29 {
            if depth != 1 {
                lemma_str_scan_range(data, end, i + 1, depth - 1, acc.push(0x29));
            }
        } else if c == 0x5c {
            match sp_str_escape(data, end, i) {
                None => {},
                Some((b, j)) => {
                    lemma_str_scan_range(
                        data,
                        end,
                        j,
                        depth,
                        match b {
                            Some(x) => acc.push(x),
                            None => acc,
                        },
                    );
                },
            }
        } else {
            lemma_str_scan_range(data, end, i + 1, depth, acc.push(c));
        }
    }
}

/// The name scanner stays inside `[j, end]`.
proof fn lemma_name_scan_range(data: Seq<u8>, end: int, j: int, acc: Seq<u8>)
    requires
        0 <= j <= end,
    ensures
        j <= sp_name_scan(data, end, j, acc).next <= end,
        sp_name_scan(data, end, j, acc).tok matches Some(t) ==> t is Name,
    decreases end - j,
{
    if 0 <= j && j < end {
        let c = data[j];
        if sp_special(c) {
        } else if c == 0x23 {
            if j + 1 < end {
                let c2 = data[j + 1];
                if sp_special(c2) {
                } else if sp_hex_digit(c2) is Some {
                    if j + 2 < end {
                        let c3 = data[j + 2];
                        if sp_hex_digit(c3) is Some {
                            let b = (sp_hex_digit(c2).unwrap() * 16 + sp_hex_digit(
                                c3,
                            ).unwrap()) as u8;
                            lemma_name_scan_range(data, end, j + 3, acc.push(b));
                        } else if !sp_special(c3) {
                            lemma_name_scan_range(data, end, j + 3, acc.push(0x23).push(c2).push(c3));
                        }
                    }
                } else {
                    lemma_name_scan_range(data, end, j + 2, acc.push(0x23).push(c2));
                }
            }
        } else {
            lemma_name_scan_range(data, end, j + 1, acc.push(c));
        }
    }
}

/// The hex-string scanner stays inside `[j, end]`.
proof fn lemma_hex_scan_range(
    data: Seq<u8>,
    end: int,
    j: int,
    first: Option<u8>,
    acc: Seq<u8>,
    warns: nat,
)
    requires
        0 <= j <= end,
    ensures
        j <= sp_hex_scan(data, end, j, first, acc, warns).next <= end,
        sp_hex_scan(data, end, j, first, acc, warns).tok matches Some(t) ==> t is HexStr,
    decreases end - j,
{
    if 0 <= j && j < end {
        let c = data[j];
        if c == 0x3e {
        } else if sp_ws(c) {
            lemma_hex_scan_range(data, end, j + 1, first, acc, warns);
        } else {
            match sp_hex_digit(c) {
                Some(d) => match first {
                    None => {
                        lemma_hex_scan_range(data, end, j + 1, Some(d), acc, warns);
                    },
                    Some(f) => {
                        lemma_hex_scan_range(
                            data,
                            end,
                            j + 1,
                            None,
                            acc.push((f * 16 + d) as u8),
                            warns,
                        );
                    },
                },
                None => {
                    lemma_hex_scan_range(
                        data,
                        end,
                        j + 1,
                        first,
                        acc,
                        if warns < 5 {
                            warns + 1
                        } else {
                            warns
                        },
                    );
                },
            }
        }
    }
}

/// The command scanner stays inside `[j, end]`.
proof fn lemma_cmd_scan_range(data: Seq<u8>, end: int, j: int, acc: Seq<u8>)
    requires
        0 <= j <= end,
    ensures
        j <= sp_cmd_scan(data, end, j, acc).next <= end,
        sp_cmd_scan(data, end, j, acc).tok matches Some(t) ==> t is Cmd,
    decreases end - j,
{
    if 0 <= j && j < end {
        let c = data[j];
        if !sp_special(c) && acc.len() != 128 {
            lemma_cmd_scan_range(data, end, j + 1, acc.push(c));
        }
    }
}

/// The line-break skipper after a sign stays inside `[j, end)`.
proof fn lemma_skip_nl_range(data: Seq<u8>, end: int, j: int)
    requires
        0 <= j,
    ensures
        match sp_skip_nl(data, end, j) {
            Some(j1) => j <= j1 < end,
            None => true,
        },
    decreases end - j,
{
    if 0 <= j && j < end {
        if data[j] == 0x0a || data[j] == 0x0d {
            if j + 1 < end {
                lemma_skip_nl_range(data, end, j + 1);
            }
        }
    }
}

/// The number scanner stays inside `[j, end]`.
proof fn lemma_num_scan_range(data: Seq<u8>, end: int, j: int, st: NumSt)
    requires
        0 <= j <= end,
    ensures
        j <= sp_num_scan(data, end, j, st).next <= end,
    decreases end - j,
{
    if 0 <= j && j < end {
        let c = data[j];
        if 0x30 <= c && c <= 0x39 {
            let d = (c - 0x30) as nat;
            if st.enot {
                lemma_num_scan_range(data, end, j + 1, NumSt { pw: sp_sat_step(st.pw, d), ..st });
            } else {
                let fd2 = if st.dot {
                    sp_sat_inc(st.fd)
                } else {
                    st.fd
                };
                lemma_num_scan_range(
                    data,
                    end,
                    j + 1,
                    NumSt { base: sp_sat_step(st.base, d), fd: fd2, ..st },
                );
            }
        } else if c == 0x2e {
            if !st.dot {
                lemma_num_scan_range(data, end, j + 1, NumSt { dot: true, ..st });
            }
        } else if c == 0x2d {
            lemma_num_scan_range(data, end, j + 1, st);
        } else if c == 0x45 || c == 0x65 {
            if j + 1 < end {
                let pk = data[j + 1];
                if pk == 0x2b || pk == 0x2d {
                    lemma_num_scan_range(
                        data,
                        end,
                        j + 2,
                        NumSt { enot: true, pneg: pk == 0x2d, ..st },
                    );
                } else if 0x30 <= pk && pk <= 0x39 {
                    lemma_num_scan_range(data, end, j + 1, NumSt { enot: true, ..st });
                }
            }
        }
    }
}

/// The number lexer stays inside the range, and consumes at least one byte
/// whenever it produces a token.
proof fn lemma_lex_number_range(data: Seq<u8>, end: int, i: int)
    requires
        0 <= i < end,
    ensures
        ({
            let step = sp_lex_number(data, end, i);
            &&& i <= step.next <= end
            &&& step.tok is Some ==> step.next > i
        }),
{
    let c0 = data[i];
    lemma_num_body_range(data, end, i, i);
    if c0 == 0x2d {
        if i + 1 < end {
            if data[i + 1] == 0x2d {
                if i + 2 < end {
                    lemma_num_body_range(data, end, i + 2, i);
                }
            } else {
                lemma_num_body_range(data, end, i + 1, i);
            }
        }
    } else if c0 == 0x2b {
        if i + 1 < end {
            lemma_num_body_range(data, end, i + 1, i);
        }
    }
}

/// The number body after the sign stays inside the range and, when it
/// produces a token, ends past the dispatch byte `i0`.
proof fn lemma_num_body_range(data: Seq<u8>, end: int, j: int, i0: int)
    requires
        0 <= i0 <= j <= end,
        i0 < end,
    ensures
        ({
            let step = sp_num_body(data, end, j, true);
            &&& i0 <= step.next <= end
            &&& step.tok is Some ==> step.next > i0
        }),
        ({
            let step = sp_num_body(data, end, j, false);
            &&& i0 <= step.next <= end
            &&& step.tok is Some ==> step.next > i0
        }),
{
    lemma_skip_nl_range(data, end, j);
    match sp_skip_nl(data, end, j) {
        None => {},
        Some(j1) => {
            lemma_num_digits_range(data, end, j1, i0);
            if data[j1] == 0x2e && j1 + 1 < end {
                lemma_num_digits_range(data, end, j1 + 1, i0);
            }
        },
    }
}

/// The digit run of a number stays inside the range and, when it produces a
/// token, ends past the dispatch byte `i0`.
proof fn lemma_num_digits_range(data: Seq<u8>, end: int, j2: int, i0: int)
    requires
        0 <= i0 <= end,
        0 <= j2 < end,
        j2 >= i0,
    ensures
        forall|neg: bool, dot: bool|
            {
                let step = #[trigger] sp_num_digits(data, end, j2, neg, dot);
                &&& i0 <= step.next <= end
                &&& ((dot ==> j2 > i0) && step.tok is Some) ==> step.next > i0
            },
{
    assert forall|neg: bool, dot: bool|
        {
            let step = #[trigger] sp_num_digits(data, end, j2, neg, dot);
            &&& i0 <= step.next <= end
            &&& ((dot ==> j2 > i0) && step.tok is Some) ==> step.next > i0
        } by {
        let c = data[j2];
        if 0x30 <= c && c <= 0x39 {
            let st0 = NumSt {
                neg,
                base: (c - 0x30) as nat,
                dot,
                fd: if dot {
                    1nat
                } else {
                    0nat
                },
                enot: false,
                pw: 0,
                pneg: false,
            };
            lemma_num_scan_range(data, end, j2 + 1, st0);
        }
    }
}

/// One lexing step stays inside the range, produces the end-of-file token
/// exactly at the end, and consumes at least one byte for any other token.
pub proof fn lemma_lex_obj_range(data: Seq<u8>, end: int, i: int)
    requires
        0 <= i <= end,
    ensures
        ({
            let step = sp_lex_obj(data, end, i);
            &&& i <= step.next <= end
            &&& (step.tok is Some && step.tok != Some(PrimV::EOF)) ==> step.next > i
            &&& step.tok == Some(PrimV::EOF) ==> step.next == end
        }),
{
    reveal(sp_lex_obj);
    lemma_skip_ws_range(data, end, i, false);
    let j = sp_skip_ws(data, end, i, false);
    if j < end {
        let c = data[j];
        if (0x30 <= c && c <= 0x39) || c == 0x2b || c == 0x2d || c == 0x2e {
            lemma_lex_number_range(data, end, j);
        } else if c == 0x28 {
            lemma_str_scan_range(data, end, j + 1, 1, Seq::empty());
        } else if c == 0x2f {
            lemma_name_scan_range(data, end, j + 1, Seq::empty());
        } else if c == 0x3c {
            if j + 1 < end && data[j + 1] != 0x3c {
                lemma_hex_scan_range(data, end, j + 1, None, Seq::empty(), 0);
            }
        } else if c == 0x3e || c == 0x5b || c == 0x5d || c == 0x7b || c == 0x7d || c == 0x29 {
        } else {
            lemma_cmd_scan_range(data, end, j + 1, seq![data[j]]);
        }
    }
}

/// The cursor just past the next line break (CR, LF, or CRLF), or `end`.
pub open spec fn sp_next_line(data: Seq<u8>, end: int, i: int) -> int
    decreases end - i,
{
    if i < 0 || i >= end {
        end
    } else if data[i] == 0x0d {
        if i + 1 < end && data[i + 1] == 0x0a {
            i + 2
        } else {
            i + 1
        }
    } else if data[i] == 0x0a {
        i + 1
    } else {
        sp_next_line(data, end, i + 1)
    }
}

// ---------------------------------------------------------------------------
// The lexer.
// ---------------------------------------------------------------------------
/// The mathematical state of a lexer: the backing range, the cursor of the
/// next unread byte (`cur == end` when exhausted), the recorded inline-image
/// position, and the running diagnostic count.
pub ghost struct LexerV {
    pub data: Seq<u8>,
    pub start: int,
    pub end: int,
    pub cur: int,
    pub bi: Option<int>,
    pub diags: u64,
}

/// Produces one PDF token at a time from an underlying byte source,
/// maintaining a single byte of lookahead.
pub struct Lexer {
    stream: Stream,
    current_char: Option<u8>,
    begin_inline_image_pos: Option<usize>,
    diag_count: u64,
}

impl View for Lexer {
    type V = LexerV;

    closed spec fn view(&self) -> LexerV {
        LexerV {
            data: self.stream@.data,
            start: self.stream@.start,
            end: self.stream@.end,
            cur: if self.current_char is Some {
                self.stream@.pos - 1
            } else {
                self.stream@.end
            },
            bi: match self.begin_inline_image_pos {
                Some(p) => Some(p as int),
                None => None,
            },
            diags: self.diag_count,
        }
    }
}

impl Lexer {
    pub closed spec fn wf(&self) -> bool {
        &&& self.stream.wf()
        &&& match self.current_char {
            Some(c) => self.stream@.start < self.stream@.pos && c == self.stream@.data[self.stream@.pos
                - 1],
            None => self.stream@.pos == self.stream@.end,
        }
    }

    /// The view invariant every lexer operation preserves.
    pub proof fn lemma_wf_bounds(&self)
        requires
            self.wf(),
        ensures
            0 <= self@.start <= self@.cur <= self@.end <= self@.data.len(),
    {
    }

    /// What stays untouched by every lexing operation.
    pub open spec fn frame(pre: LexerV, post: LexerV) -> bool {
        post.data == pre.data && post.start == pre.start && post.end == pre.end
    }

    /// Builds a lexer over `stream`, priming the one-byte lookahead from the
    /// stream's cursor.
    pub fn new(stream: Stream) -> (l: Lexer)
        requires
            stream.wf(),
        ensures
            l.wf(),
            l@.data == stream@.data,
            l@.start == stream@.start,
            l@.end == stream@.end,
            l@.cur == stream@.pos,
            l@.bi is None,
            l@.diags == 0,
    {
        let mut l = Lexer {
            stream,
            current_char: None,
            begin_inline_image_pos: None,
            diag_count: 0,
        };
        l.prime();
        l
    }

    /// Reads the byte at the stream cursor into the lookahead slot.
    fn prime(&mut self)
        requires
            old(self).stream.wf(),
        ensures
            final(self).wf(),
            final(self)@.data == old(self).stream@.data,
            final(self)@.start == old(self).stream@.start,
            final(self)@.end == old(self).stream@.end,
            final(self)@.cur == old(self).stream@.pos,
            final(self)@.bi == old(self)@.bi,
            final(self)@.diags == old(self).diag_count,
    {
        self.current_char = self.stream.get_byte();
    }

    /// Advances the cursor by one byte and returns the byte that is now
    /// current, or nothing when the input is exhausted.
    fn next_char(&mut self) -> (r: Option<u8>)
        requires
            old(self).wf(),
        ensures
            final(self).wf(),
            Self::frame(old(self)@, final(self)@),
            final(self)@.bi == old(self)@.bi,
            final(self)@.diags == old(self)@.diags,
            final(self)@.cur == if old(self)@.cur + 1 <= old(self)@.end {
                old(self)@.cur + 1
            } else {
                old(self)@.end
            },
            r == (if final(self)@.cur < final(self)@.end {
                Some(final(self)@.data[final(self)@.cur])
            } else {
                None::<u8>
            }),
    {
        self.current_char = self.stream.get_byte();
        self.current_char
    }

    /// The byte one past the current one, without advancing.
    fn peek_char(&self) -> (r: Option<u8>)
        requires
            self.wf(),
        ensures
            r == (if self@.cur + 1 < self@.end {
                Some(self@.data[self@.cur + 1])
            } else {
                None::<u8>
            }),
    {
        self.stream.peek_byte()
    }

    /// The position of the underlying byte source: one past the cursor while
    /// a lookahead byte is held, the end of the range once exhausted.
    pub fn stream_pos(&self) -> (r: usize)
        requires
            self.wf(),
        ensures
            r as int == if self@.cur < self@.end {
                self@.cur + 1
            } else {
                self@.end
            },
    {
        self.stream.pos()
    }

    /// The current byte, or nothing when the input is exhausted.
    fn cur_char(&self) -> (r: Option<u8>)
        requires
            self.wf(),
        ensures
            r == (if self@.cur < self@.end {
                Some(self@.data[self@.cur])
            } else {
                None::<u8>
            }),
    {
        self.current_char
    }

    /// How many diagnostics have been drawn on this lexer's side channel.
    pub fn diagnostics(&self) -> (n: u64)
        ensures
            n == self@.diags,
    {
        self.diag_count
    }

    /// Records one diagnostic; the count saturates rather than wraps.
    pub(crate) fn diag(&mut self)
        requires
            old(self).wf(),
        ensures
            final(self).wf(),
            Self::frame(old(self)@, final(self)@),
            final(self)@.cur == old(self)@.cur,
            final(self)@.bi == old(self)@.bi,
            final(self)@.diags == sat_add64(old(self)@.diags, 1),
    {
        self.diag_count = self.diag_count.saturating_add(1);
    }
}

/// The executable accumulator of the number scanner; `NumSt` is its
/// mathematical shadow.
#[derive(Clone, Copy)]
struct NumAcc {
    neg: bool,
    base: u64,
    dot: bool,
    fd: u64,
    enot: bool,
    pw: u64,
    pneg: bool,
}

impl NumAcc {
    spec fn nv(self) -> NumSt {
        NumSt {
            neg: self.neg,
            base: self.base as nat,
            dot: self.dot,
            fd: self.fd as nat,
            enot: self.enot,
            pw: self.pw as nat,
            pneg: self.pneg,
        }
    }
}

/// One saturating digit step on a `u64` accumulator.
fn sat_step_u64(b: u64, d: u64) -> (r: u64)
    requires
        d <= 9,
    ensures
        r as nat == sp_sat_step(b as nat, d as nat),
{
    match b.checked_mul(10) {
        Some(x) => match x.checked_add(d) {
            Some(y) => y,
            None => u64::MAX,
        },
        None => u64::MAX,
    }
}

/// One saturating count step on a `u64` counter.
fn sat_inc_u64(v: u64) -> (r: u64)
    ensures
        r as nat == sp_sat_inc(v as nat),
{
    if v < u64::MAX {
        v + 1
    } else {
        v
    }
}

/// Ten to any positive power is at least ten.
proof fn lemma_pow10_ge(e: nat)
    ensures
        sp_pow10(e) >= 1,
        e >= 1 ==> sp_pow10(e) >= 10,
    decreases e,
{
    if e >= 1 {
        lemma_pow10_ge((e - 1) as nat);
    }
}

/// The nearest 64-bit integer to `±(m * 10^e)`.
fn scale_clamp(neg: bool, m: u64, e: u64) -> (r: i64)
    requires
        m >= 1,
    ensures
        r == sp_clamp_i64(sp_signed(neg, m * sp_pow10(e as nat))),
{
    let mut acc: u64 = m;
    let mut k: u64 = e;
    while k > 0
        invariant
            m >= 1,
            acc >= 1,
            k <= e,
            m * sp_pow10(e as nat) == acc * sp_pow10(k as nat),
        decreases k,
    {
        if acc > u64::MAX / 10 {
            proof {
                lemma_pow10_ge(k as nat);
                assert(acc * sp_pow10(k as nat) >= acc * 10) by (nonlinear_arith)
                    requires
                        acc >= 1,
                        sp_pow10(k as nat) >= 10,
                ;
                assert(acc * 10 > u64::MAX) by (nonlinear_arith)
                    requires
                        acc > u64::MAX / 10,
                ;
            }
            if neg {
                return i64::MIN;
            } else {
                return i64::MAX;
            }
        }
        proof {
            assert(acc * 10 <= u64::MAX) by (nonlinear_arith)
                requires
                    acc <= u64::MAX / 10,
            ;
            assert(acc * sp_pow10(k as nat) == (acc * 10) * sp_pow10((k - 1) as nat))
                by (nonlinear_arith)
                requires
                    k >= 1,
                    sp_pow10(k as nat) == 10 * sp_pow10((k - 1) as nat),
            ;
        }
        acc = acc * 10;
        k = k - 1;
    }
    if neg {
        if acc >= 0x8000000000000000 {
            i64::MIN
        } else {
            -(acc as i64)
        }
    } else {
        if acc > 0x7fffffffffffffff {
            i64::MAX
        } else {
            acc as i64
        }
    }
}

/// Builds the token a finished number scan denotes: the canonical value
/// `±(base / 10^fd) * 10^(±pw)` as an `Int` when it has no fractional part,
/// else as a `Real`.
fn num_finish(st: NumAcc) -> (p: Primitives)
    ensures
        p.pv() == sp_num_finish(st.nv()),
{
    let e0: i128 = (if st.enot {
        if st.pneg {
            -(st.pw as i128)
        } else {
            st.pw as i128
        }
    } else {
        0i128
    }) - (st.fd as i128);
    let mut m: u64 = st.base;
    let mut e: i128 = e0;
    while e < 0 && m > 0 && m % 10 == 0
        invariant
            sp_reduce(st.base as nat, e0 as int) == sp_reduce(m as nat, e as int),
            e0 <= e <= (if e0 < 0 {
                0i128
            } else {
                e0
            }),
        decreases -e,
    {
        m = m / 10;
        e = e + 1;
    }
    if m == 0 {
        return Primitives::Int(0);
    }
    if e >= 0 {
        Primitives::Int(scale_clamp(st.neg, m, e as u64))
    } else {
        let num: i64 = if st.neg {
            if m >= 0x8000000000000000 {
                i64::MIN
            } else {
                -(m as i64)
            }
        } else {
            if m > 0x7fffffffffffffff {
                i64::MAX
            } else {
                m as i64
            }
        };
        let exp: i64 = if e < i64::MIN as i128 {
            i64::MIN
        } else {
            e as i64
        };
        Primitives::Real(RealVal { num, exp10: exp })
    }
}

/// A one-byte command token.
fn cmd1(b: u8) -> (c: Primitives)
    ensures
        c.pv() == PrimV::Cmd(seq![b]),
{
    let mut v: Vec<u8> = Vec::new();
    v.push(b);
    proof {
        assert(v@ =~= seq![b]);
    }
    Primitives::Cmd(Cmd(v))
}

/// A two-byte command token.
fn cmd2(b0: u8, b1: u8) -> (c: Primitives)
    ensures
        c.pv() == PrimV::Cmd(seq![b0, b1]),
{
    let mut v: Vec<u8> = Vec::new();
    v.push(b0);
    v.push(b1);
    proof {
        assert(v@ =~= seq![b0, b1]);
    }
    Primitives::Cmd(Cmd(v))
}

/// A borrowed byte of a buffer.
fn buf_index(v: &Vec<u8>, i: usize) -> (b: &u8)
    requires
        i < v@.len(),
    ensures
        *b == v@[i as int],
{
    &v[i]
}

/// Peeking an object and then getting it yields the same primitive twice,
/// and the get leaves the stream exactly where a direct get from the
/// original state would: peeking is transparent. The hypotheses are what
/// `peek_obj` and `get_obj` each ensure about the states `pre` (before the
/// peek), `mid` (after the peek) and `fin` (after the get).
pub proof fn lemma_peek_get_transparent(
    pre: LexerV,
    mid: LexerV,
    fin: LexerV,
    t1: Option<PrimV>,
    t2: Option<PrimV>,
)
    requires
        mid.data == pre.data && mid.end == pre.end && mid.cur == pre.cur && mid.bi == pre.bi,
        t1 == sp_lex_obj(pre.data, pre.end, pre.cur).tok,
        t2 == sp_lex_obj(mid.data, mid.end, mid.cur).tok,
        fin.cur == sp_lex_obj(mid.data, mid.end, mid.cur).next,
    ensures
        t1 == t2,
        fin.cur == sp_lex_obj(pre.data, pre.end, pre.cur).next,
{
}

/// Addition on the diagnostic counter, saturating at the top of `u64`.
pub open spec fn sat_add64(a: u64, d: nat) -> u64 {
    if a + d <= u64::MAX {
        (a + d) as u64
    } else {
        u64::MAX
    }
}

/// Saturating addition composes: adding two counts one after the other is
/// adding their sum.
pub proof fn lemma_sat_add64_assoc(a: u64, d1: nat, d2: nat)
    ensures
        sat_add64(sat_add64(a, d1), d2) == sat_add64(a, d1 + d2),
{
}

impl Lexer {
    /// Skips whitespace runs and `%`-comments and returns the first byte
    /// outside them, or nothing when only whitespace and comments remain.
    fn skip_ws(&mut self, comment: bool) -> (r: Option<u8>)
        requires
            old(self).wf(),
        ensures
            final(self).wf(),
            Self::frame(old(self)@, final(self)@),
            final(self)@.bi == old(self)@.bi,
            final(self)@.diags == old(self)@.diags,
            final(self)@.cur == sp_skip_ws(old(self)@.data, old(self)@.end, old(self)@.cur, comment),
            old(self)@.cur <= final(self)@.cur,
            r == (if final(self)@.cur < final(self)@.end {
                Some(final(self)@.data[final(self)@.cur])
            } else {
                None::<u8>
            }),
        decreases old(self)@.end - old(self)@.cur,
    {
        let c = match self.cur_char() {
            None => {
                return None;
            },
            Some(c) => c,
        };
        if comment {
            self.next_char();
            self.skip_ws(!(c == 0x0a || c == 0x0d))
        } else if c == 0x25 {
            self.next_char();
            self.skip_ws(true)
        } else if is_ws_char(c) {
            self.next_char();
            self.skip_ws(false)
        } else {
            Some(c)
        }
    }

    /// Scans the remainder of a command, the cursor standing on the byte
    /// under examination.
    fn cmd_scan(&mut self, buf: &mut Vec<u8>) -> (r: Result<(), Error>)
        requires
            old(self).wf(),
        ensures
            final(self).wf(),
            Self::frame(old(self)@, final(self)@),
            final(self)@.bi == old(self)@.bi,
            ({
                let step = sp_cmd_scan(old(self)@.data, old(self)@.end, old(self)@.cur, old(buf)@);
                &&& final(self)@.diags == sat_add64(old(self)@.diags, step.dg)
                &&& match r {
                    Ok(()) => step.tok == Some(PrimV::Cmd(final(buf)@)) && final(self)@.cur
                        == step.next,
                    Err(e) => step.tok is None && e is LexicalError && final(self)@.cur
                        == step.next,
                }
            }),
        decreases old(self)@.end - old(self)@.cur,
    {
        let c = match self.cur_char() {
            None => {
                return Ok(());
            },
            Some(c) => c,
        };
        if is_special_char(c) {
            return Ok(());
        }
        if buf.len() == 128 {
            self.diag();
            return Err(Error::LexicalError);
        }
        buf.push(c);
        self.next_char();
        self.cmd_scan(buf)
    }

    /// Skips the run of line breaks at the cursor and returns the first byte
    /// after it; running out of input inside the run is a lexical error.
    fn nl_skip(&mut self) -> (r: Result<u8, Error>)
        requires
            old(self).wf(),
            old(self)@.cur < old(self)@.end,
        ensures
            final(self).wf(),
            Self::frame(old(self)@, final(self)@),
            final(self)@.bi == old(self)@.bi,
            final(self)@.diags == old(self)@.diags,
            ({
                let sk = sp_skip_nl(old(self)@.data, old(self)@.end, old(self)@.cur);
                match r {
                    Ok(c) => sk == Some(final(self)@.cur) && c == final(self)@.data[final(self)@.cur]
                        && final(self)@.cur < final(self)@.end && old(self)@.cur <= final(self)@.cur,
                    Err(e) => sk is None && e is LexicalError && final(self)@.cur == old(self)@.end,
                }
            }),
        decreases old(self)@.end - old(self)@.cur,
    {
        let c = match self.cur_char() {
            None => {
                return Err(Error::LexicalError);
            },
            Some(c) => c,
        };
        if c == 0x0a || c == 0x0d {
            match self.next_char() {
                None => Err(Error::LexicalError),
                Some(_) => self.nl_skip(),
            }
        } else {
            Ok(c)
        }
    }

    /// Scans the digits, point and exponent of a number, the cursor standing
    /// on the byte under examination and the first digit already in `st`.
    fn num_scan(&mut self, st: NumAcc) -> (r: Result<NumAcc, Error>)
        requires
            old(self).wf(),
        ensures
            final(self).wf(),
            Self::frame(old(self)@, final(self)@),
            final(self)@.bi == old(self)@.bi,
            ({
                let sc = sp_num_scan(old(self)@.data, old(self)@.end, old(self)@.cur, st.nv());
                &&& final(self)@.diags == sat_add64(old(self)@.diags, sc.dg)
                &&& match r {
                    Ok(st2) => sc.st == Some(st2.nv()) && final(self)@.cur == sc.next,
                    Err(e) => sc.st is None && e is LexicalError && final(self)@.cur == sc.next,
                }
            }),
        decreases old(self)@.end - old(self)@.cur,
    {
        let c = match self.cur_char() {
            None => {
                return Ok(st);
            },
            Some(c) => c,
        };
        if c >= 0x30 && c <= 0x39 {
            let d = (c - 0x30) as u64;
            if st.enot {
                let st2 = NumAcc { pw: sat_step_u64(st.pw, d), ..st };
                self.next_char();
                self.num_scan(st2)
            } else {
                let fd2 = if st.dot {
                    sat_inc_u64(st.fd)
                } else {
                    st.fd
                };
                let st2 = NumAcc { base: sat_step_u64(st.base, d), fd: fd2, ..st };
                self.next_char();
                self.num_scan(st2)
            }
        } else if c == 0x2e {
            if !st.dot {
                self.next_char();
                self.num_scan(NumAcc { dot: true, ..st })
            } else {
                Ok(st)
            }
        } else if c == 0x2d {
            self.diag();
            self.next_char();
            let r = self.num_scan(st);
            proof {
                lemma_sat_add64_assoc(
                    old(self)@.diags,
                    1,
                    sp_num_scan(old(self)@.data, old(self)@.end, old(self)@.cur + 1, st.nv()).dg,
                );
            }
            r
        } else if c == 0x45 || c == 0x65 {
            match self.peek_char() {
                None => Err(Error::LexicalError),
                Some(pk) => {
                    if pk == 0x2b || pk == 0x2d {
                        let st2 = NumAcc { enot: true, pneg: pk == 0x2d, ..st };
                        self.next_char();
                        self.next_char();
                        self.num_scan(st2)
                    } else if pk >= 0x30 && pk <= 0x39 {
                        self.next_char();
                        self.num_scan(NumAcc { enot: true, ..st })
                    } else {
                        Ok(st)
                    }
                },
            }
        } else {
            Ok(st)
        }
    }

    /// Lexes a number token, the cursor standing on its first byte (a digit,
    /// a sign, or a decimal point). Tolerates a doubled leading `-`, line
    /// breaks after the sign, an embedded `-` (dropped with a diagnostic)
    /// and scientific notation; a lone `.` (signed or not) before whitespace is the
    /// real number zero, with a diagnostic. Returns `Int` exactly when the
    /// accumulated decimal value has no fractional part.
    #[verifier::rlimit(100)]
    #[verifier::spinoff_prover]
    pub fn get_number(&mut self) -> (r: Result<Primitives, Error>)
        requires
            old(self).wf(),
        ensures
            final(self).wf(),
            Self::frame(old(self)@, final(self)@),
            final(self)@.bi == old(self)@.bi,
            ({
                let step = sp_lex_number(old(self)@.data, old(self)@.end, old(self)@.cur);
                &&& final(self)@.diags == sat_add64(old(self)@.diags, step.dg)
                &&& match r {
                    Ok(p) => step.tok == Some(p.pv()) && (p is Int || p is Real) && final(self)@.cur
                        == step.next,
                    Err(e) => step.tok is None && e is LexicalError && final(self)@.cur
                        == step.next,
                }
            }),
    {
        let c0 = match self.cur_char() {
            None => {
                return Err(Error::LexicalError);
            },
            Some(c) => c,
        };
        let mut neg = false;
        if c0 == 0x2d {
            neg = true;
            let c1 = match self.next_char() {
                None => {
                    return Err(Error::LexicalError);
                },
                Some(c) => c,
            };
            if c1 == 0x2d {
                match self.next_char() {
                    None => {
                        return Err(Error::LexicalError);
                    },
                    Some(_) => (),
                };
            }
        } else if c0 == 0x2b {
            match self.next_char() {
                None => {
                    return Err(Error::LexicalError);
                },
                Some(_) => (),
            };
        }
        let mut ch = match self.nl_skip() {
            Ok(c) => c,
            Err(e) => {
                return Err(e);
            },
        };
        let mut dot = false;
        if ch == 0x2e {
            dot = true;
            ch = match self.next_char() {
                None => {
                    return Err(Error::LexicalError);
                },
                Some(c) => c,
            };
        }
        if !(ch >= 0x30 && ch <= 0x39) {
            if dot && crate::utils::is_whitespace(ch) {
                self.diag();
                return Ok(Primitives::Real(RealVal { num: 0, exp10: 0 }));
            }
            self.diag();
            return Err(Error::LexicalError);
        }
        let st0 = NumAcc {
            neg,
            base: (ch - 0x30) as u64,
            dot,
            fd: if dot {
                1
            } else {
                0
            },
            enot: false,
            pw: 0,
            pneg: false,
        };
        self.next_char();
        match self.num_scan(st0) {
            Ok(st) => Ok(num_finish(st)),
            Err(e) => Err(e),
        }
    }

    /// Scans the remainder of a name, the cursor standing on the byte under
    /// examination, appending the resolved bytes to `buf`.
    fn name_scan(&mut self, buf: &mut Vec<u8>) -> (r: Result<(), Error>)
        requires
            old(self).wf(),
        ensures
            final(self).wf(),
            Self::frame(old(self)@, final(self)@),
            final(self)@.bi == old(self)@.bi,
            ({
                let step = sp_name_scan(old(self)@.data, old(self)@.end, old(self)@.cur, old(buf)@);
                &&& final(self)@.diags == sat_add64(old(self)@.diags, step.dg)
                &&& match r {
                    Ok(()) => step.tok == Some(PrimV::Name(final(buf)@)) && final(self)@.cur
                        == step.next,
                    Err(e) => step.tok is None && e is LexicalError && final(self)@.cur
                        == step.next,
                }
            }),
        decreases old(self)@.end - old(self)@.cur,
    {
        let c = match self.cur_char() {
            None => {
                if buf.len() > 127 {
                    self.diag();
                }
                return Ok(());
            },
            Some(c) => c,
        };
        if is_special_char(c) {
            if buf.len() > 127 {
                self.diag();
            }
            return Ok(());
        }
        if c == 0x23 {
            let c2 = match self.next_char() {
                None => {
                    return Err(Error::LexicalError);
                },
                Some(x) => x,
            };
            if is_special_char(c2) {
                self.diag();
                buf.push(0x23);
                if buf.len() > 127 {
                    self.diag();
                }
                proof {
                    lemma_sat_add64_assoc(old(self)@.diags, 1, 1);
                }
                return Ok(());
            }
            match to_hex_digit(c2) {
                Some(x) => {
                    let c3 = match self.next_char() {
                        None => {
                            return Err(Error::LexicalError);
                        },
                        Some(x) => x,
                    };
                    match to_hex_digit(c3) {
                        Some(x2) => {
                            buf.push(x * 16 + x2);
                            self.next_char();
                            self.name_scan(buf)
                        },
                        None => {
                            self.diag();
                            buf.push(0x23);
                            buf.push(c2);
                            if is_special_char(c3) {
                                if buf.len() > 127 {
                                    self.diag();
                                }
                                proof {
                                    lemma_sat_add64_assoc(old(self)@.diags, 1, 1);
                                }
                                Ok(())
                            } else {
                                buf.push(c3);
                                self.next_char();
                                let r = self.name_scan(buf);
                                proof {
                                    lemma_sat_add64_assoc(
                                        old(self)@.diags,
                                        1,
                                        sp_name_scan(
                                            old(self)@.data,
                                            old(self)@.end,
                                            old(self)@.cur + 3,
                                            old(buf)@.push(0x23).push(c2).push(c3),
                                        ).dg,
                                    );
                                }
                                r
                            }
                        },
                    }
                },
                None => {
                    self.diag();
                    buf.push(0x23);
                    buf.push(c2);
                    self.next_char();
                    let r = self.name_scan(buf);
                    proof {
                        lemma_sat_add64_assoc(
                            old(self)@.diags,
                            1,
                            sp_name_scan(
                                old(self)@.data,
                                old(self)@.end,
                                old(self)@.cur + 2,
                                old(buf)@.push(0x23).push(c2),
                            ).dg,
                        );
                    }
                    r
                },
            }
        } else {
            buf.push(c);
            self.next_char();
            self.name_scan(buf)
        }
    }

    /// Scans the remainder of a literal string, the cursor standing on the
    /// byte under examination and `depth` unmatched `(` open.
    #[verifier::rlimit(100)]
    #[verifier::spinoff_prover]
    fn str_scan(&mut self, buf: &mut Vec<u8>, depth: u128) -> (r: Result<(), Error>)
        requires
            old(self).wf(),
            1 <= depth,
            depth <= old(self)@.cur + 1,
        ensures
            final(self).wf(),
            Self::frame(old(self)@, final(self)@),
            final(self)@.bi == old(self)@.bi,
            final(self)@.diags == old(self)@.diags,
            ({
                let step = sp_str_scan(
                    old(self)@.data,
                    old(self)@.end,
                    old(self)@.cur,
                    depth as int,
                    old(buf)@,
                );
                &&& match r {
                    Ok(()) => step.tok == Some(PrimV::Str(final(buf)@)) && final(self)@.cur
                        == step.next,
                    Err(e) => step.tok is None && e is LexicalError && final(self)@.cur
                        == step.next,
                }
            }),
        decreases old(self)@.end - old(self)@.cur,
    {
        let c = match self.cur_char() {
            None => {
                return Err(Error::LexicalError);
            },
            Some(c) => c,
        };
        if c == 0x28 {
            buf.push(0x28);
            self.next_char();
            self.str_scan(buf, depth + 1)
        } else if c == 0x29 {
            if depth == 1 {
                self.next_char();
                Ok(())
            } else {
                buf.push(0x29);
                self.next_char();
                self.str_scan(buf, depth - 1)
            }
        } else if c == 0x5c {
            match self.str_escape() {
                Err(e) => Err(e),
                Ok(b) => {
                    if let Some(x) = b {
                        buf.push(x);
                    }
                    self.str_scan(buf, depth)
                },
            }
        } else {
            buf.push(c);
            self.next_char();
            self.str_scan(buf, depth)
        }
    }

    /// Resolves one backslash escape, the cursor standing on the `\\`, and
    /// leaves the cursor on the first byte after the escape.
    fn str_escape(&mut self) -> (r: Result<Option<u8>, Error>)
        requires
            old(self).wf(),
            old(self)@.cur < old(self)@.end,
        ensures
            final(self).wf(),
            Self::frame(old(self)@, final(self)@),
            final(self)@.bi == old(self)@.bi,
            final(self)@.diags == old(self)@.diags,
            ({
                let esc = sp_str_escape(old(self)@.data, old(self)@.end, old(self)@.cur);
                match r {
                    Ok(b) => esc == Some((b, final(self)@.cur)) && old(self)@.cur
                        < final(self)@.cur,
                    Err(e) => esc is None && e is LexicalError && final(self)@.cur
                        == sp_str_escape_errcur(old(self)@.data, old(self)@.end, old(self)@.cur),
                }
            }),
    {
        let c2 = match self.next_char() {
            None => {
                return Err(Error::LexicalError);
            },
            Some(x) => x,
        };
        if c2 == 0x6e {
            self.next_char();
            Ok(Some(0x0a))
        } else if c2 == 0x72 {
            self.next_char();
            Ok(Some(0x0d))
        } else if c2 == 0x74 {
            self.next_char();
            Ok(Some(0x09))
        } else if c2 == 0x62 {
            self.next_char();
            Ok(Some(0x08))
        } else if c2 == 0x66 {
            self.next_char();
            Ok(Some(0x0c))
        } else if c2 == 0x5c || c2 == 0x28 || c2 == 0x29 {
            self.next_char();
            Ok(Some(c2))
        } else if c2 >= 0x30 && c2 <= 0x37 {
            let c3 = match self.next_char() {
                None => {
                    return Err(Error::LexicalError);
                },
                Some(x) => x,
            };
            if c3 >= 0x30 && c3 <= 0x37 {
                let c4 = match self.next_char() {
                    None => {
                        return Err(Error::LexicalError);
                    },
                    Some(x) => x,
                };
                let x2: u8 = (c2 - 0x30) * 8 + (c3 - 0x30);
                if c4 >= 0x30 && c4 <= 0x37 {
                    let x3: u8 = (((x2 as u16) * 8) % 256) as u8 + (c4 - 0x30);
                    self.next_char();
                    Ok(Some(x3))
                } else {
                    Ok(Some(x2))
                }
            } else {
                Ok(Some(c2 - 0x30))
            }
        } else if c2 == 0x0d {
            match self.peek_char() {
                None => Err(Error::LexicalError),
                Some(p) => {
                    if p == 0x0a {
                        self.next_char();
                    }
                    self.next_char();
                    Ok(None)
                },
            }
        } else if c2 == 0x0a {
            self.next_char();
            Ok(None)
        } else {
            self.next_char();
            Ok(Some(c2))
        }
    }

    /// Lexes a literal string, the cursor standing on the opening `(`.
    /// Balances nested parentheses (inner ones are kept in the output),
    /// resolves backslash escapes, and consumes the closing `)`. Running out
    /// of input inside the string is a lexical error.
    pub fn get_string(&mut self) -> (r: Result<Primitives, Error>)
        requires
            old(self).wf(),
        ensures
            final(self).wf(),
            Self::frame(old(self)@, final(self)@),
            final(self)@.bi == old(self)@.bi,
            final(self)@.diags == old(self)@.diags,
            ({
                let step = sp_lex_string(old(self)@.data, old(self)@.end, old(self)@.cur);
                &&& match r {
                    Ok(p) => step.tok == Some(p.pv()) && p is Str && final(self)@.cur
                        == step.next,
                    Err(e) => step.tok is None && e is LexicalError && final(self)@.cur
                        == step.next,
                }
            }),
    {
        let mut buf: Vec<u8> = Vec::new();
        proof {
            assert(buf@ =~= Seq::<u8>::empty());
        }
        self.next_char();
        match self.str_scan(&mut buf, 1) {
            Ok(()) => Ok(Primitives::Str(buf)),
            Err(e) => Err(e),
        }
    }

    /// Scans the remainder of a hex string, the cursor standing on the byte
    /// under examination; `first` holds a pending high nibble and `warns` the
    /// number of invalid bytes already seen in this invocation.
    fn hex_scan(&mut self, buf: &mut Vec<u8>, first: Option<u8>, warns: u8) -> (r: Result<
        Option<u8>,
        Error,
    >)
        requires
            old(self).wf(),
            warns <= 5,
            (first matches Some(f) ==> f < 16),
        ensures
            final(self).wf(),
            Self::frame(old(self)@, final(self)@),
            final(self)@.bi == old(self)@.bi,
            ({
                let step = sp_hex_scan(
                    old(self)@.data,
                    old(self)@.end,
                    old(self)@.cur,
                    first,
                    old(buf)@,
                    warns as nat,
                );
                &&& final(self)@.diags == sat_add64(old(self)@.diags, step.dg)
                &&& match r {
                    Ok(pending) => step.tok == Some(
                        PrimV::HexStr(sp_hex_pad(final(buf)@, pending)),
                    ) && final(self)@.cur == step.next && (pending matches Some(f) ==> f < 16),
                    Err(e) => step.tok is None && e is LexicalError && final(self)@.cur
                        == step.next,
                }
            }),
        decreases old(self)@.end - old(self)@.cur,
    {
        let c = match self.cur_char() {
            None => {
                return Err(Error::LexicalError);
            },
            Some(c) => c,
        };
        if c == 0x3e {
            self.next_char();
            return Ok(first);
        }
        if is_ws_char(c) {
            self.next_char();
            return self.hex_scan(buf, first, warns);
        }
        match to_hex_digit(c) {
            Some(d) => match first {
                None => {
                    self.next_char();
                    self.hex_scan(buf, Some(d), warns)
                },
                Some(f) => {
                    buf.push(f * 16 + d);
                    self.next_char();
                    self.hex_scan(buf, None, warns)
                },
            },
            None => {
                let w = if warns < 5 {
                    self.diag();
                    warns + 1
                } else {
                    warns
                };
                self.next_char();
                let r = self.hex_scan(buf, first, w);
                proof {
                    if warns < 5 {
                        lemma_sat_add64_assoc(
                            old(self)@.diags,
                            1,
                            sp_hex_scan(
                                old(self)@.data,
                                old(self)@.end,
                                old(self)@.cur + 1,
                                first,
                                old(buf)@,
                                (warns + 1) as nat,
                            ).dg,
                        );
                    }
                }
                r
            },
        }
    }

    /// Lexes a hex string, the cursor standing on the first byte after the
    /// opening `<`. Digits pair up into bytes, whitespace between digits is
    /// skipped, other bytes are skipped with at most five diagnostics, an odd
    /// trailing digit pads a zero low nibble, and the closing `>` is
    /// consumed. Running out of input first is a lexical error.
    pub fn get_hex_string(&mut self) -> (r: Result<Primitives, Error>)
        requires
            old(self).wf(),
        ensures
            final(self).wf(),
            Self::frame(old(self)@, final(self)@),
            final(self)@.bi == old(self)@.bi,
            ({
                let step = sp_lex_hex(old(self)@.data, old(self)@.end, old(self)@.cur);
                &&& final(self)@.diags == sat_add64(old(self)@.diags, step.dg)
                &&& match r {
                    Ok(p) => step.tok == Some(p.pv()) && p is HexStr && final(self)@.cur
                        == step.next,
                    Err(e) => step.tok is None && e is LexicalError && final(self)@.cur
                        == step.next,
                }
            }),
    {
        let mut buf: Vec<u8> = Vec::new();
        proof {
            assert(buf@ =~= Seq::<u8>::empty());
        }
        match self.hex_scan(&mut buf, None, 0) {
            Ok(pending) => {
                if let Some(f) = pending {
                    buf.push(f * 16);
                }
                Ok(Primitives::HexStr(buf))
            },
            Err(e) => Err(e),
        }
    }

    /// Produces the next token: skips whitespace and comments, then
    /// dispatches on the first byte. At the end of the input it returns the
    /// end-of-file token; on the command `BI` it records the byte-source
    /// position for later inline-image assembly.
    #[verifier::rlimit(100)]
    #[verifier::spinoff_prover]
    pub fn get_obj(&mut self) -> (r: Result<Primitives, Error>)
        requires
            old(self).wf(),
        ensures
            final(self).wf(),
            Self::frame(old(self)@, final(self)@),
            ({
                let step = sp_lex_obj(old(self)@.data, old(self)@.end, old(self)@.cur);
                &&& final(self)@.diags == sat_add64(old(self)@.diags, step.dg)
                &&& final(self)@.bi == (if step.bi is Some {
                    step.bi
                } else {
                    old(self)@.bi
                })
                &&& match r {
                    Ok(p) => step.tok == Some(p.pv()) && final(self)@.cur == step.next,
                    Err(e) => step.tok is None && e is LexicalError && final(self)@.cur
                        == step.next,
                }
            }),
    {
        proof {
            reveal(sp_lex_obj);
        }
        let ghost step = sp_lex_obj(old(self)@.data, old(self)@.end, old(self)@.cur);
        let ghost j = sp_skip_ws(old(self)@.data, old(self)@.end, old(self)@.cur, false);
        let c = match self.skip_ws(false) {
            None => {
                return Ok(Primitives::EOF);
            },
            Some(c) => c,
        };
        proof {
            assert(self@.cur == j && j < old(self)@.end && c == old(self)@.data[j]);
        }
        if (c >= 0x30 && c <= 0x39) || c == 0x2b || c == 0x2d || c == 0x2e {
            proof {
                assert(step == sp_lex_number(old(self)@.data, old(self)@.end, j));
            }
            self.get_number()
        } else if c == 0x28 {
            let r = self.get_string();
            proof {
                lemma_str_scan_no_bi(
                    old(self)@.data,
                    old(self)@.end,
                    self@.data.len() as int - self@.data.len() as int + sp_skip_ws(
                        old(self)@.data,
                        old(self)@.end,
                        old(self)@.cur,
                        false,
                    ) + 1,
                    1,
                    Seq::empty(),
                );
            }
            r
        } else if c == 0x2f {
            let r = self.get_name();
            proof {
                lemma_name_scan_no_bi(
                    old(self)@.data,
                    old(self)@.end,
                    sp_skip_ws(old(self)@.data, old(self)@.end, old(self)@.cur, false) + 1,
                    Seq::empty(),
                );
            }
            r
        } else if c == 0x5b {
            self.next_char();
            Ok(cmd1(0x5b))
        } else if c == 0x5d {
            self.next_char();
            Ok(cmd1(0x5d))
        } else if c == 0x3c {
            let c2 = match self.next_char() {
                None => {
                    return Err(Error::LexicalError);
                },
                Some(x) => x,
            };
            if c2 == 0x3c {
                self.next_char();
                Ok(cmd2(0x3c, 0x3c))
            } else {
                let r = self.get_hex_string();
                proof {
                    lemma_hex_scan_no_bi(
                        old(self)@.data,
                        old(self)@.end,
                        sp_skip_ws(old(self)@.data, old(self)@.end, old(self)@.cur, false) + 1,
                        None,
                        Seq::empty(),
                        0,
                    );
                }
                r
            }
        } else if c == 0x3e {
            match self.next_char() {
                None => {
                    self.diag();
                    Ok(cmd1(0x3e))
                },
                Some(c2) => {
                    if c2 == 0x3e {
                        self.next_char();
                        Ok(cmd2(0x3e, 0x3e))
                    } else {
                        self.diag();
                        Ok(cmd1(0x3e))
                    }
                },
            }
        } else if c == 0x7b {
            self.next_char();
            Ok(cmd1(0x7b))
        } else if c == 0x7d {
            self.next_char();
            Ok(cmd1(0x7d))
        } else if c == 0x29 {
            self.next_char();
            Err(Error::LexicalError)
        } else {
            let mut buf: Vec<u8> = Vec::new();
            buf.push(c);
            proof {
                assert(buf@ =~= seq![c]);
            }
            self.next_char();
            proof {
                lemma_cmd_scan_no_bi(
                    old(self)@.data,
                    old(self)@.end,
                    sp_skip_ws(old(self)@.data, old(self)@.end, old(self)@.cur, false) + 1,
                    seq![c],
                );
            }
            match self.cmd_scan(&mut buf) {
                Err(e) => Err(e),
                Ok(()) => {
                    let is_bi = buf.len() == 2 && *buf_index(&buf, 0) == 0x42 && *buf_index(
                        &buf,
                        1,
                    ) == 0x49;
                    proof {
                        if is_bi {
                            assert(buf@ =~= seq![0x42u8, 0x49u8]);
                        }
                        if buf@ =~= seq![0x42u8, 0x49u8] {
                            assert(buf@ == seq![0x42u8, 0x49u8]);
                        }
                    }
                    if is_bi {
                        let p = self.stream.pos();
                        self.begin_inline_image_pos = Some(p);
                    }
                    Ok(Primitives::Cmd(Cmd(buf)))
                },
            }
        }
    }

    /// Produces the next token as `get_obj` does, then restores the cursor,
    /// the lookahead byte and the inline-image mark: only the diagnostic
    /// count keeps the change.
    pub fn peek_obj(&mut self) -> (r: Result<Primitives, Error>)
        requires
            old(self).wf(),
        ensures
            final(self).wf(),
            Self::frame(old(self)@, final(self)@),
            final(self)@.cur == old(self)@.cur,
            final(self)@.bi == old(self)@.bi,
            ({
                let step = sp_lex_obj(old(self)@.data, old(self)@.end, old(self)@.cur);
                &&& final(self)@.diags == sat_add64(old(self)@.diags, step.dg)
                &&& match r {
                    Ok(p) => step.tok == Some(p.pv()),
                    Err(e) => step.tok is None && e is LexicalError,
                }
            }),
    {
        let stream_pos = self.stream.pos();
        let current_char = self.current_char;
        let begin_inline_image_pos = self.begin_inline_image_pos;
        let next_obj = self.get_obj();
        self.stream.set_pos(stream_pos);
        self.current_char = current_char;
        self.begin_inline_image_pos = begin_inline_image_pos;
        next_obj
    }

    /// Advances past the next CR, LF, or CRLF; at the end of the input it
    /// stops there.
    pub fn skip_to_next_line(&mut self)
        requires
            old(self).wf(),
        ensures
            final(self).wf(),
            Self::frame(old(self)@, final(self)@),
            final(self)@.bi == old(self)@.bi,
            final(self)@.diags == old(self)@.diags,
            final(self)@.cur == sp_next_line(old(self)@.data, old(self)@.end, old(self)@.cur),
        decreases old(self)@.end - old(self)@.cur,
    {
        let c = match self.cur_char() {
            None => {
                return ;
            },
            Some(c) => c,
        };
        if c == 0x0d {
            match self.next_char() {
                Some(c2) => {
                    if c2 == 0x0a {
                        self.next_char();
                    }
                },
                None => {},
            }
        } else if c == 0x0a {
            self.next_char();
        } else {
            self.next_char();
            self.skip_to_next_line();
        }
    }

    /// Lexes a name token, the cursor standing on the introducing `/`.
    /// Resolves `#hh` escapes; preserves a `#` not followed by two
    /// hexadecimal digits literally, with a diagnostic; draws a diagnostic
    /// for names over 127 bytes. The terminating delimiter is not consumed.
    pub fn get_name(&mut self) -> (r: Result<Primitives, Error>)
        requires
            old(self).wf(),
        ensures
            final(self).wf(),
            Self::frame(old(self)@, final(self)@),
            final(self)@.bi == old(self)@.bi,
            ({
                let step = sp_lex_name(old(self)@.data, old(self)@.end, old(self)@.cur);
                &&& final(self)@.diags == sat_add64(old(self)@.diags, step.dg)
                &&& match r {
                    Ok(p) => step.tok == Some(p.pv()) && p is Name && final(self)@.cur
                        == step.next,
                    Err(e) => step.tok is None && e is LexicalError && final(self)@.cur
                        == step.next,
                }
            }),
    {
        let mut buf: Vec<u8> = Vec::new();
        proof {
            assert(buf@ =~= Seq::<u8>::empty());
        }
        self.next_char();
        match self.name_scan(&mut buf) {
            Ok(()) => Ok(Primitives::Name(Name(buf))),
            Err(e) => Err(e),
        }
    }
}

} // verus!

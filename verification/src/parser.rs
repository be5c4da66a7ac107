use vstd::prelude::*;

use crate::error::Error;
use crate::lexer::{
    lemma_lex_obj_range, sat_add64, sp_lex_obj, Lexer,
};
use crate::primitives::{
    arr_pv, clone_primitive, opt_pv, Dictionary, PrimV, Primitives,
};

verus! {

// ---------------------------------------------------------------------------
// The object parser: a lexer wrapped with a two-token lookahead (`buf1`,
// `buf2`). `shift` hands out `buf1`, moves `buf2` down and refills it from
// the lexer — except after the command `ID`, which is promoted without
// refilling so that inline-image binary bytes are never lexed as tokens.
// `get_obj` assembles composite primitives: arrays, dictionaries, and
// indirect references from the pattern `⟨int⟩ ⟨int⟩ R`.
// ---------------------------------------------------------------------------
/// The abstract state of the lookahead: the two buffered tokens (nothing
/// means a lexical error was buffered) and the lexer cursor.
pub ghost struct PSt {
    pub t1: Option<PrimV>,
    pub t2: Option<PrimV>,
    pub cur: int,
}

/// The outcome of one `shift`: the new lookahead state, the diagnostics
/// drawn, and the inline-image mark if one was set.
pub ghost struct ShiftOut {
    pub st: PSt,
    pub dg: nat,
    pub bi: Option<int>,
}

/// The outcome of parsing one object: the primitive (nothing means a parser
/// error), the lookahead state after it, the diagnostics drawn, and the
/// inline-image mark if one was set.
pub ghost struct ParseOut {
    pub obj: Option<PrimV>,
    pub st: PSt,
    pub dg: nat,
    pub bi: Option<int>,
}

/// The later of two optional inline-image marks.
pub open spec fn sp_bi_join(a: Option<int>, b: Option<int>) -> Option<int> {
    if b is Some {
        b
    } else {
        a
    }
}

/// One shift of the lookahead. When the second buffer holds the command
/// `ID` it is promoted without lexing and the freed slot takes the
/// end-of-file token; otherwise one token is lexed.
pub open spec fn sp_shift(data: Seq<u8>, end: int, st: PSt) -> ShiftOut {
    if st.t2 == Some(PrimV::Cmd(seq![0x49u8, 0x44u8])) {
        ShiftOut {
            st: PSt { t1: st.t2, t2: Some(PrimV::EOF), cur: st.cur },
            dg: 0,
            bi: None,
        }
    } else {
        let step = sp_lex_obj(data, end, st.cur);
        ShiftOut {
            st: PSt { t1: st.t2, t2: step.tok, cur: step.next },
            dg: step.dg,
            bi: step.bi,
        }
    }
}

/// How many unconsumed tokens a buffer slot holds: end-of-file and a
/// buffered error count for nothing.
pub open spec fn sp_tok_count(t: Option<PrimV>) -> nat {
    match t {
        Some(p) => if p == PrimV::EOF {
            0nat
        } else {
            1nat
        },
        None => 0,
    }
}

/// How much input the parser can still consume: the unread bytes plus the
/// buffered tokens. Every shift of a real token makes it smaller.
pub open spec fn sp_measure(end: int, st: PSt) -> nat {
    (if st.cur <= end {
        (end - st.cur) as nat
    } else {
        0nat
    }) + sp_tok_count(st.t1) + sp_tok_count(st.t2)
}

/// Fuel that always suffices to parse one object from state `st`.
pub open spec fn sp_fuel(end: int, st: PSt) -> nat {
    sp_measure(end, st) + 1
}

/// The lookahead shows `⟨int⟩ R`: together with an integer just shifted out,
/// an indirect reference.
pub open spec fn sp_is_ref_lookahead(st: PSt) -> bool {
    &&& st.t1 matches Some(p) && p is Int
    &&& st.t2 == Some(PrimV::Cmd(seq![0x52u8]))
}

/// The generation number waiting in the first buffer slot.
pub open spec fn sp_ref_gen(st: PSt) -> i64 {
    st.t1->Some_0->Int_0
}

/// Parsing one object from state `st`: shift the first token and assemble a
/// primitive from it. `fuel` bounds the recursion and never runs out when it
/// exceeds the measure of `st`.
pub open spec fn sp_parse_obj(data: Seq<u8>, end: int, st: PSt, allow: bool, fuel: nat) -> ParseOut
    decreases fuel, 0int,
{
    let sh = sp_shift(data, end, st);
    match st.t1 {
        None => ParseOut { obj: None, st: sh.st, dg: sh.dg, bi: sh.bi },
        Some(t) => {
            if t == PrimV::Cmd(seq![0x5bu8]) {
                if fuel == 0 {
                    ParseOut { obj: None, st: sh.st, dg: sh.dg, bi: sh.bi }
                } else {
                    let po = sp_parse_array(data, end, sh.st, Seq::empty(), allow, (fuel - 1) as nat);
                    ParseOut {
                        obj: po.obj,
                        st: po.st,
                        dg: sh.dg + po.dg,
                        bi: sp_bi_join(sh.bi, po.bi),
                    }
                }
            } else if t == PrimV::Cmd(seq![0x3cu8, 0x3cu8]) {
                if fuel == 0 {
                    ParseOut { obj: None, st: sh.st, dg: sh.dg, bi: sh.bi }
                } else {
                    let po = sp_parse_dict(
                        data,
                        end,
                        sh.st,
                        Map::empty(),
                        allow,
                        (fuel - 1) as nat,
                    );
                    ParseOut {
                        obj: po.obj,
                        st: po.st,
                        dg: sh.dg + po.dg,
                        bi: sp_bi_join(sh.bi, po.bi),
                    }
                }
            } else if t is Int {
                if sp_is_ref_lookahead(sh.st) {
                    let n = t->Int_0;
                    let g = sp_ref_gen(sh.st);
                    let sh2 = sp_shift(data, end, sh.st);
                    let sh3 = sp_shift(data, end, sh2.st);
                    ParseOut {
                        obj: Some(PrimV::Ref(n as u32, g as u16)),
                        st: sh3.st,
                        dg: sh.dg + sh2.dg + sh3.dg,
                        bi: sp_bi_join(sp_bi_join(sh.bi, sh2.bi), sh3.bi),
                    }
                } else {
                    ParseOut { obj: Some(t), st: sh.st, dg: sh.dg, bi: sh.bi }
                }
            } else {
                ParseOut { obj: Some(t), st: sh.st, dg: sh.dg, bi: sh.bi }
            }
        },
    }
}

/// Parsing the members of an array until `]` (consumed) or end-of-file
/// (kept, with a diagnostic and the partial array).
pub open spec fn sp_parse_array(
    data: Seq<u8>,
    end: int,
    st: PSt,
    acc: Seq<PrimV>,
    allow: bool,
    fuel: nat,
) -> ParseOut
    decreases fuel, 1int,
{
    if st.t1 == Some(PrimV::Cmd(seq![0x5du8])) {
        let sh = sp_shift(data, end, st);
        ParseOut { obj: Some(PrimV::Array(acc)), st: sh.st, dg: sh.dg, bi: sh.bi }
    } else if st.t1 == Some(PrimV::EOF) {
        ParseOut { obj: Some(PrimV::Array(acc)), st, dg: 1, bi: None }
    } else {
        let po = sp_parse_obj(data, end, st, allow, fuel);
        match po.obj {
            None => ParseOut { obj: None, st: po.st, dg: po.dg, bi: po.bi },
            Some(v) => {
                if fuel == 0 {
                    ParseOut { obj: None, st: po.st, dg: po.dg, bi: po.bi }
                } else {
                    let rec = sp_parse_array(data, end, po.st, acc.push(v), allow, (fuel - 1) as nat);
                    ParseOut {
                        obj: rec.obj,
                        st: rec.st,
                        dg: po.dg + rec.dg,
                        bi: sp_bi_join(po.bi, rec.bi),
                    }
                }
            },
        }
    }
}

/// The bytes of the keyword `stream`.
pub open spec fn sp_stream_kw() -> Seq<u8> {
    seq![0x73u8, 0x74u8, 0x72u8, 0x65u8, 0x61u8, 0x6du8]
}

/// Parsing the entries of a dictionary until `>>` or end-of-file (kept, with
/// a diagnostic and the partial dictionary). A non-name key draws a
/// diagnostic and is skipped; a duplicate key overwrites, with a diagnostic.
/// After `>>`, a buffered `stream` keyword hands off to stream assembly
/// (outside this core: a parser error) when streams are allowed here, and
/// otherwise returns the dictionary with the `>>` left in the buffer.
pub open spec fn sp_parse_dict(
    data: Seq<u8>,
    end: int,
    st: PSt,
    acc: Map<Seq<u8>, PrimV>,
    allow: bool,
    fuel: nat,
) -> ParseOut
    decreases fuel, 1int,
{
    if st.t1 == Some(PrimV::Cmd(seq![0x3eu8, 0x3eu8])) {
        if st.t2 == Some(PrimV::Cmd(sp_stream_kw())) {
            if allow {
                ParseOut { obj: None, st, dg: 0, bi: None }
            } else {
                ParseOut { obj: Some(PrimV::Dict(acc)), st, dg: 0, bi: None }
            }
        } else {
            let sh = sp_shift(data, end, st);
            ParseOut { obj: Some(PrimV::Dict(acc)), st: sh.st, dg: sh.dg, bi: sh.bi }
        }
    } else if st.t1 == Some(PrimV::EOF) {
        ParseOut { obj: Some(PrimV::Dict(acc)), st, dg: 1, bi: None }
    } else {
        match st.t1 {
            None => ParseOut { obj: None, st, dg: 0, bi: None },
            Some(t) => {
                if t is Name {
                    let nm = t->Name_0;
                    let sh = sp_shift(data, end, st);
                    if sh.st.t1 == Some(PrimV::EOF) {
                        ParseOut {
                            obj: Some(PrimV::Dict(acc)),
                            st: sh.st,
                            dg: sh.dg + 1,
                            bi: sh.bi,
                        }
                    } else {
                        let po = sp_parse_obj(data, end, sh.st, allow, fuel);
                        match po.obj {
                            None => ParseOut {
                                obj: None,
                                st: po.st,
                                dg: sh.dg + po.dg,
                                bi: sp_bi_join(sh.bi, po.bi),
                            },
                            Some(v) => {
                                if fuel == 0 {
                                    ParseOut {
                                        obj: None,
                                        st: po.st,
                                        dg: sh.dg + po.dg,
                                        bi: sp_bi_join(sh.bi, po.bi),
                                    }
                                } else {
                                    let dup: nat = if acc.contains_key(nm) {
                                        1
                                    } else {
                                        0
                                    };
                                    let rec = sp_parse_dict(
                                        data,
                                        end,
                                        po.st,
                                        acc.insert(nm, v),
                                        allow,
                                        (fuel - 1) as nat,
                                    );
                                    ParseOut {
                                        obj: rec.obj,
                                        st: rec.st,
                                        dg: sh.dg + po.dg + dup + rec.dg,
                                        bi: sp_bi_join(sp_bi_join(sh.bi, po.bi), rec.bi),
                                    }
                                }
                            },
                        }
                    }
                } else {
                    // malformed dictionary: the key must be a name
                    let sh = sp_shift(data, end, st);
                    if fuel == 0 {
                        ParseOut { obj: None, st: sh.st, dg: 1 + sh.dg, bi: sh.bi }
                    } else {
                        let rec = sp_parse_dict(data, end, sh.st, acc, allow, (fuel - 1) as nat);
                        ParseOut {
                            obj: rec.obj,
                            st: rec.st,
                            dg: 1 + sh.dg + rec.dg,
                            bi: sp_bi_join(sh.bi, rec.bi),
                        }
                    }
                }
            },
        }
    }
}

// ---------------------------------------------------------------------------
// Shifts shrink the measure, so enough fuel never runs out and the fuel
// argument does not show in the result.
// ---------------------------------------------------------------------------
/// A shift keeps the cursor in range and removes the first buffered token
/// from the measure.
pub proof fn lemma_shift_measure(data: Seq<u8>, end: int, st: PSt)
    requires
        0 <= st.cur <= end,
    ensures
        ({
            let sh = sp_shift(data, end, st);
            &&& 0 <= sh.st.cur <= end
            &&& sp_measure(end, sh.st) + sp_tok_count(st.t1) <= sp_measure(end, st)
        }),
{
    if st.t2 != Some(PrimV::Cmd(seq![0x49u8, 0x44u8])) {
        lemma_lex_obj_range(data, end, st.cur);
    }
}

/// With fuel above the measure, parsing one object does not depend on the
/// fuel, stays in range, and consumes at least the first buffered token.
pub proof fn lemma_parse_obj_fuel(
    data: Seq<u8>,
    end: int,
    st: PSt,
    allow: bool,
    f1: nat,
    f2: nat,
)
    requires
        0 <= st.cur <= end,
        f1 > sp_measure(end, st),
        f2 > sp_measure(end, st),
    ensures
        ({
            let p1 = sp_parse_obj(data, end, st, allow, f1);
            &&& p1 == sp_parse_obj(data, end, st, allow, f2)
            &&& 0 <= p1.st.cur <= end
            &&& sp_measure(end, p1.st) + sp_tok_count(st.t1) <= sp_measure(end, st)
        }),
    decreases sp_measure(end, st), 0int,
{
    lemma_shift_measure(data, end, st);
    let sh = sp_shift(data, end, st);
    match st.t1 {
        None => {},
        Some(t) => {
            if t == PrimV::Cmd(seq![0x5bu8]) {
                lemma_parse_array_fuel(
                    data,
                    end,
                    sh.st,
                    Seq::empty(),
                    allow,
                    (f1 - 1) as nat,
                    (f2 - 1) as nat,
                );
            } else if t == PrimV::Cmd(seq![0x3cu8, 0x3cu8]) {
                lemma_parse_dict_fuel(
                    data,
                    end,
                    sh.st,
                    Map::empty(),
                    allow,
                    (f1 - 1) as nat,
                    (f2 - 1) as nat,
                );
            } else if t matches PrimV::Int(_) {
                if sp_is_ref_lookahead(sh.st) {
                    lemma_shift_measure(data, end, sh.st);
                    let sh2 = sp_shift(data, end, sh.st);
                    lemma_shift_measure(data, end, sh2.st);
                }
            }
        },
    }
}

/// As `lemma_parse_obj_fuel`, for the array members.
pub proof fn lemma_parse_array_fuel(
    data: Seq<u8>,
    end: int,
    st: PSt,
    acc: Seq<PrimV>,
    allow: bool,
    f1: nat,
    f2: nat,
)
    requires
        0 <= st.cur <= end,
        f1 > sp_measure(end, st),
        f2 > sp_measure(end, st),
    ensures
        ({
            let p1 = sp_parse_array(data, end, st, acc, allow, f1);
            &&& p1 == sp_parse_array(data, end, st, acc, allow, f2)
            &&& 0 <= p1.st.cur <= end
            &&& sp_measure(end, p1.st) <= sp_measure(end, st)
        }),
    decreases sp_measure(end, st), 1int,
{
    if st.t1 == Some(PrimV::Cmd(seq![0x5du8])) {
        lemma_shift_measure(data, end, st);
    } else if st.t1 == Some(PrimV::EOF) {
    } else {
        lemma_parse_obj_fuel(data, end, st, allow, f1, f2);
        let po = sp_parse_obj(data, end, st, allow, f1);
        match po.obj {
            None => {},
            Some(v) => {
                lemma_parse_array_fuel(
                    data,
                    end,
                    po.st,
                    acc.push(v),
                    allow,
                    (f1 - 1) as nat,
                    (f2 - 1) as nat,
                );
            },
        }
    }
}

/// As `lemma_parse_obj_fuel`, for the dictionary entries.
pub proof fn lemma_parse_dict_fuel(
    data: Seq<u8>,
    end: int,
    st: PSt,
    acc: Map<Seq<u8>, PrimV>,
    allow: bool,
    f1: nat,
    f2: nat,
)
    requires
        0 <= st.cur <= end,
        f1 > sp_measure(end, st),
        f2 > sp_measure(end, st),
    ensures
        ({
            let p1 = sp_parse_dict(data, end, st, acc, allow, f1);
            &&& p1 == sp_parse_dict(data, end, st, acc, allow, f2)
            &&& 0 <= p1.st.cur <= end
            &&& sp_measure(end, p1.st) <= sp_measure(end, st)
        }),
    decreases sp_measure(end, st), 1int,
{
    if st.t1 == Some(PrimV::Cmd(seq![0x3eu8, 0x3eu8])) {
        if st.t2 != Some(PrimV::Cmd(sp_stream_kw())) {
            lemma_shift_measure(data, end, st);
        }
    } else if st.t1 == Some(PrimV::EOF) {
    } else {
        match st.t1 {
            None => {},
            Some(t) => {
                lemma_shift_measure(data, end, st);
                let sh = sp_shift(data, end, st);
                if t is Name {
                    let nm = t->Name_0;
                    if sh.st.t1 != Some(PrimV::EOF) {
                        lemma_parse_obj_fuel(data, end, sh.st, allow, f1, f2);
                        let po = sp_parse_obj(data, end, sh.st, allow, f1);
                        match po.obj {
                            None => {},
                            Some(v) => {
                                lemma_parse_dict_fuel(
                                    data,
                                    end,
                                    po.st,
                                    acc.insert(nm, v),
                                    allow,
                                    (f1 - 1) as nat,
                                    (f2 - 1) as nat,
                                );
                            },
                        }
                    }
                } else {
                    lemma_parse_dict_fuel(
                        data,
                        end,
                        sh.st,
                        acc,
                        allow,
                        (f1 - 1) as nat,
                        (f2 - 1) as nat,
                    );
                }
            },
        }
    }
}

// ---------------------------------------------------------------------------
// Checks on the lookahead buffers.
// ---------------------------------------------------------------------------
/// Whether a buffer slot holds the one-byte command `b`.
fn is_cmd1(t: &Option<Primitives>, b: u8) -> (r: bool)
    ensures
        r == (opt_pv(*t) == Some(PrimV::Cmd(seq![b]))),
{
    match t {
        Some(Primitives::Cmd(c)) => {
            let r = c.0.len() == 1 && c.0[0] == b;
            proof {
                if r {
                    assert(c.0@ =~= seq![b]);
                }
            }
            r
        },
        _ => false,
    }
}

/// Whether a buffer slot holds the two-byte command `b0 b1`.
fn is_cmd2(t: &Option<Primitives>, b0: u8, b1: u8) -> (r: bool)
    ensures
        r == (opt_pv(*t) == Some(PrimV::Cmd(seq![b0, b1]))),
{
    match t {
        Some(Primitives::Cmd(c)) => {
            let r = c.0.len() == 2 && c.0[0] == b0 && c.0[1] == b1;
            proof {
                if r {
                    assert(c.0@ =~= seq![b0, b1]);
                }
            }
            r
        },
        _ => false,
    }
}

/// Whether a buffer slot holds the keyword `stream`.
fn is_stream_tok(t: &Option<Primitives>) -> (r: bool)
    ensures
        r == (opt_pv(*t) == Some(PrimV::Cmd(sp_stream_kw()))),
{
    match t {
        Some(Primitives::Cmd(c)) => {
            let r = c.0.len() == 6 && c.0[0] == 0x73 && c.0[1] == 0x74 && c.0[2] == 0x72 && c.0[3]
                == 0x65 && c.0[4] == 0x61 && c.0[5] == 0x6d;
            proof {
                if r {
                    assert(c.0@ =~= sp_stream_kw());
                }
            }
            r
        },
        _ => false,
    }
}

/// Whether a buffer slot holds the end-of-file token.
fn is_eof_tok(t: &Option<Primitives>) -> (r: bool)
    ensures
        r == (opt_pv(*t) == Some(PrimV::EOF)),
{
    match t {
        Some(Primitives::EOF) => true,
        _ => false,
    }
}

/// Whether a buffer slot holds an integer token.
fn is_int_tok(t: &Option<Primitives>) -> (r: bool)
    ensures
        r == (opt_pv(*t) matches Some(p) && p is Int),
{
    match t {
        Some(Primitives::Int(_)) => true,
        _ => false,
    }
}

/// Whether a buffer slot holds a name token.
fn is_name_tok(t: &Option<Primitives>) -> (r: bool)
    ensures
        r == (opt_pv(*t) matches Some(p) && p is Name),
{
    match t {
        Some(Primitives::Name(_)) => true,
        _ => false,
    }
}

/// The integer in a buffer slot known to hold one.
fn int_val(t: &Option<Primitives>) -> (n: i64)
    requires
        opt_pv(*t) matches Some(p) && p is Int,
    ensures
        opt_pv(*t) == Some(PrimV::Int(n)),
{
    match t {
        Some(Primitives::Int(n)) => *n,
        _ => 0,
    }
}

// ---------------------------------------------------------------------------
// The parser.
// ---------------------------------------------------------------------------
/// Consumes lexer tokens into structured primitives with a two-token
/// lookahead.
pub struct Parser {
    lexer: Lexer,
    allow_streams: bool,
    buf1: Option<Primitives>,
    buf2: Option<Primitives>,
}

impl Parser {
    pub closed spec fn wf(&self) -> bool {
        self.lexer.wf()
    }

    /// The backing bytes of the underlying source.
    pub closed spec fn pdata(&self) -> Seq<u8> {
        self.lexer@.data
    }

    /// The logical end of the underlying source.
    pub closed spec fn pend(&self) -> int {
        self.lexer@.end
    }

    /// The lookahead state: the two buffered tokens and the lexer cursor.
    pub closed spec fn pst(&self) -> PSt {
        PSt { t1: opt_pv(self.buf1), t2: opt_pv(self.buf2), cur: self.lexer@.cur }
    }

    /// The running diagnostic count.
    pub closed spec fn pdiags(&self) -> u64 {
        self.lexer@.diags
    }

    /// The recorded inline-image position.
    pub closed spec fn pbi(&self) -> Option<int> {
        self.lexer@.bi
    }

    /// Whether stream objects are allowed at this parser site.
    pub closed spec fn pallow(&self) -> bool {
        self.allow_streams
    }

    /// What every parser operation leaves untouched.
    pub open spec fn pframe(pre: &Parser, post: &Parser) -> bool {
        &&& post.pdata() == pre.pdata()
        &&& post.pend() == pre.pend()
        &&& post.pallow() == pre.pallow()
    }

    /// The cursor stays inside the range.
    pub proof fn lemma_pst_bounds(&self)
        requires
            self.wf(),
        ensures
            0 <= self.pst().cur <= self.pend(),
            self.pend() <= self.pdata().len(),
    {
        self.lexer.lemma_wf_bounds();
    }

    /// Builds a parser over `lexer`, filling both lookahead slots.
    pub fn new(lexer: Lexer, allow_streams: bool) -> (p: Parser)
        requires
            lexer.wf(),
        ensures
            p.wf(),
            p.pdata() == lexer@.data,
            p.pend() == lexer@.end,
            p.pallow() == allow_streams,
            ({
                let s1 = sp_lex_obj(lexer@.data, lexer@.end, lexer@.cur);
                let s2 = sp_lex_obj(lexer@.data, lexer@.end, s1.next);
                &&& p.pst().t1 == s1.tok
                &&& p.pst().t2 == s2.tok
                &&& p.pst().cur == s2.next
                &&& p.pdiags() == sat_add64(sat_add64(lexer@.diags, s1.dg), s2.dg)
                &&& p.pbi() == sp_bi_join(sp_bi_join(lexer@.bi, s1.bi), s2.bi)
            }),
    {
        let mut p = Parser { lexer, allow_streams, buf1: None, buf2: None };
        p.buf1 = match p.lexer.get_obj() {
            Ok(o) => Some(o),
            Err(_) => None,
        };
        p.buf2 = match p.lexer.get_obj() {
            Ok(o) => Some(o),
            Err(_) => None,
        };
        p
    }

    /// The first buffered token: the next one `get_obj` will consume.
    pub fn buf1(&self) -> (r: Option<Primitives>)
        ensures
            opt_pv(r) == self.pst().t1,
    {
        match &self.buf1 {
            Some(p) => Some(clone_primitive(p)),
            None => None,
        }
    }

    /// The second buffered token: the one after the next.
    pub fn buf2(&self) -> (r: Option<Primitives>)
        ensures
            opt_pv(r) == self.pst().t2,
    {
        match &self.buf2 {
            Some(p) => Some(clone_primitive(p)),
            None => None,
        }
    }

    /// The position of the underlying byte source.
    pub fn stream_pos(&self) -> (r: usize)
        requires
            self.wf(),
        ensures
            r as int == if self.pst().cur < self.pend() {
                self.pst().cur + 1
            } else {
                self.pend()
            },
    {
        self.lexer.stream_pos()
    }

    /// How many diagnostics lexing and parsing have drawn so far.
    pub fn diagnostics(&self) -> (n: u64)
        ensures
            n == self.pdiags(),
    {
        self.lexer.diagnostics()
    }

    /// Records one parser diagnostic.
    fn note_diag(&mut self)
        requires
            old(self).wf(),
        ensures
            final(self).wf(),
            Self::pframe(old(self), final(self)),
            final(self).pst() == old(self).pst(),
            final(self).pbi() == old(self).pbi(),
            final(self).pdiags() == sat_add64(old(self).pdiags(), 1),
    {
        self.lexer.diag();
    }

    /// Hands out the first buffered token, moves the second one down, and
    /// refills the second slot from the lexer — except when the second slot
    /// holds the command `ID`, which is promoted without lexing so that
    /// inline-image binary bytes are never consumed as tokens.
    fn shift(&mut self) -> (gone: Option<Primitives>)
        requires
            old(self).wf(),
        ensures
            final(self).wf(),
            Self::pframe(old(self), final(self)),
            ({
                let sh = sp_shift(old(self).pdata(), old(self).pend(), old(self).pst());
                &&& opt_pv(gone) == old(self).pst().t1
                &&& final(self).pst() == sh.st
                &&& final(self).pdiags() == sat_add64(old(self).pdiags(), sh.dg)
                &&& final(self).pbi() == sp_bi_join(old(self).pbi(), sh.bi)
            }),
    {
        let gone = self.buf1.take();
        if is_cmd2(&self.buf2, 0x49, 0x44) {
            self.buf1 = self.buf2.take();
            self.buf2 = Some(Primitives::EOF);
        } else {
            self.buf1 = self.buf2.take();
            self.buf2 = match self.lexer.get_obj() {
                Ok(o) => Some(o),
                Err(_) => None,
            };
        }
        gone
    }

    /// Parses one object: arrays and dictionaries are assembled recursively,
    /// the pattern `⟨int⟩ ⟨int⟩ R` becomes an indirect reference, every other
    /// token is returned unchanged. A buffered lexical error is a parser
    /// error.
    #[verifier::rlimit(100)]
    #[verifier::spinoff_prover]
    pub fn get_obj(&mut self) -> (r: Result<Primitives, Error>)
        requires
            old(self).wf(),
        ensures
            final(self).wf(),
            Self::pframe(old(self), final(self)),
            ({
                let po = sp_parse_obj(
                    old(self).pdata(),
                    old(self).pend(),
                    old(self).pst(),
                    old(self).pallow(),
                    sp_fuel(old(self).pend(), old(self).pst()),
                );
                &&& final(self).pst() == po.st
                &&& final(self).pdiags() == sat_add64(old(self).pdiags(), po.dg)
                &&& final(self).pbi() == sp_bi_join(old(self).pbi(), po.bi)
                &&& sp_measure(old(self).pend(), final(self).pst()) + sp_tok_count(
                    old(self).pst().t1,
                ) <= sp_measure(old(self).pend(), old(self).pst())
                &&& match r {
                    Ok(p) => po.obj == Some(p.pv()),
                    Err(e) => po.obj is None && e is ParserError,
                }
            }),
        decreases sp_measure(old(self).pend(), old(self).pst()), 0int,
    {
        let ghost st0 = self.pst();
        let ghost f0 = sp_fuel(self.pend(), st0);
        proof {
            self.lexer.lemma_wf_bounds();
            lemma_parse_obj_fuel(self.pdata(), self.pend(), st0, self.pallow(), f0, f0);
            lemma_shift_measure(self.pdata(), self.pend(), st0);
        }
        let gone = self.shift();
        let g = match gone {
            None => {
                return Err(Error::ParserError);
            },
            Some(p) => p,
        };
        match g {
            Primitives::Cmd(c) => {
                let l = c.0.len();
                if l == 1 && c.0[0] == 0x5b {
                    proof {
                        assert(c.0@ =~= seq![0x5bu8]);
                        lemma_parse_array_fuel(
                            self.pdata(),
                            self.pend(),
                            self.pst(),
                            Seq::empty(),
                            self.pallow(),
                            (f0 - 1) as nat,
                            sp_fuel(self.pend(), self.pst()),
                        );
                    }
                    let mut arr: Vec<Primitives> = Vec::new();
                    proof {
                        assert(arr_pv(arr@) =~= Seq::<PrimV>::empty());
                    }
                    match self.parse_array(&mut arr) {
                        Ok(()) => {
                            proof {
                                lemma_sat_assoc_parse(old(self).pdiags());
                            }
                            Ok(Primitives::Array(arr))
                        },
                        Err(e) => Err(e),
                    }
                } else if l == 2 && c.0[0] == 0x3c && c.0[1] == 0x3c {
                    proof {
                        assert(c.0@ =~= seq![0x3cu8, 0x3cu8]);
                        lemma_parse_dict_fuel(
                            self.pdata(),
                            self.pend(),
                            self.pst(),
                            Map::empty(),
                            self.pallow(),
                            (f0 - 1) as nat,
                            sp_fuel(self.pend(), self.pst()),
                        );
                    }
                    let mut dict = Dictionary::new();
                    match self.parse_dict(&mut dict) {
                        Ok(()) => Ok(Primitives::Dict(dict)),
                        Err(e) => Err(e),
                    }
                } else {
                    Ok(Primitives::Cmd(c))
                }
            },
            Primitives::Int(n) => {
                if is_int_tok(&self.buf1) && is_cmd1(&self.buf2, 0x52) {
                    let gen = int_val(&self.buf1);
                    proof {
                        lemma_shift_measure(self.pdata(), self.pend(), self.pst());
                    }
                    self.shift();
                    proof {
                        lemma_shift_measure(self.pdata(), self.pend(), self.pst());
                    }
                    self.shift();
                    Ok(
                        Primitives::Ref(
                            crate::primitives::Ref(
                                #[verifier::truncate] (n as u32),
                                #[verifier::truncate] (gen as u16),
                            ),
                        ),
                    )
                } else {
                    Ok(Primitives::Int(n))
                }
            },
            other => Ok(other),
        }
    }

    /// Reads array members until `]` (consumed) or end-of-file (a diagnostic
    /// and the partial array, mirroring real-world tolerance).
    #[verifier::rlimit(100)]
    #[verifier::spinoff_prover]
    fn parse_array(&mut self, arr: &mut Vec<Primitives>) -> (r: Result<(), Error>)
        requires
            old(self).wf(),
        ensures
            final(self).wf(),
            Self::pframe(old(self), final(self)),
            ({
                let po = sp_parse_array(
                    old(self).pdata(),
                    old(self).pend(),
                    old(self).pst(),
                    arr_pv(old(arr)@),
                    old(self).pallow(),
                    sp_fuel(old(self).pend(), old(self).pst()),
                );
                &&& final(self).pst() == po.st
                &&& final(self).pdiags() == sat_add64(old(self).pdiags(), po.dg)
                &&& final(self).pbi() == sp_bi_join(old(self).pbi(), po.bi)
                &&& sp_measure(old(self).pend(), final(self).pst()) <= sp_measure(
                    old(self).pend(),
                    old(self).pst(),
                )
                &&& match r {
                    Ok(()) => po.obj == Some(PrimV::Array(arr_pv(final(arr)@))),
                    Err(e) => po.obj is None && e is ParserError,
                }
            }),
        decreases sp_measure(old(self).pend(), old(self).pst()), 1int,
    {
        let ghost st0 = self.pst();
        let ghost f0 = sp_fuel(self.pend(), st0);
        proof {
            self.lexer.lemma_wf_bounds();
            lemma_parse_array_fuel(
                self.pdata(),
                self.pend(),
                st0,
                arr_pv(arr@),
                self.pallow(),
                f0,
                f0,
            );
        }
        if is_cmd1(&self.buf1, 0x5d) {
            self.shift();
            return Ok(());
        }
        if is_eof_tok(&self.buf1) {
            self.note_diag();
            return Ok(());
        }
        let elem = match self.get_obj() {
            Err(e) => {
                return Err(e);
            },
            Ok(p) => p,
        };
        let ghost pre = arr@;
        arr.push(elem);
        proof {
            assert(arr_pv(arr@) =~= arr_pv(pre).push(arr@[pre.len() as int].pv()));
            self.lexer.lemma_wf_bounds();
            lemma_parse_array_fuel(
                self.pdata(),
                self.pend(),
                self.pst(),
                arr_pv(arr@),
                self.pallow(),
                (f0 - 1) as nat,
                sp_fuel(self.pend(), self.pst()),
            );
        }
        let r = self.parse_array(arr);
        proof {
            lemma_sat_assoc_parse(old(self).pdiags());
        }
        r
    }

    /// Reads dictionary entries until `>>` or end-of-file (a diagnostic and
    /// the partial dictionary). Non-name keys are skipped with a diagnostic;
    /// duplicate keys overwrite, with a diagnostic. After `>>`, a buffered
    /// `stream` keyword hands off to stream assembly — which lives outside
    /// this core, so here it is a parser error — when streams are allowed at
    /// this site, and otherwise the dictionary is returned with the `>>`
    /// still buffered.
    #[verifier::rlimit(100)]
    #[verifier::spinoff_prover]
    fn parse_dict(&mut self, dict: &mut Dictionary) -> (r: Result<(), Error>)
        requires
            old(self).wf(),
        ensures
            final(self).wf(),
            Self::pframe(old(self), final(self)),
            ({
                let po = sp_parse_dict(
                    old(self).pdata(),
                    old(self).pend(),
                    old(self).pst(),
                    old(dict).pv(),
                    old(self).pallow(),
                    sp_fuel(old(self).pend(), old(self).pst()),
                );
                &&& final(self).pst() == po.st
                &&& final(self).pdiags() == sat_add64(old(self).pdiags(), po.dg)
                &&& final(self).pbi() == sp_bi_join(old(self).pbi(), po.bi)
                &&& sp_measure(old(self).pend(), final(self).pst()) <= sp_measure(
                    old(self).pend(),
                    old(self).pst(),
                )
                &&& match r {
                    Ok(()) => po.obj == Some(PrimV::Dict(final(dict).pv())),
                    Err(e) => po.obj is None && e is ParserError,
                }
            }),
        decreases sp_measure(old(self).pend(), old(self).pst()), 3int,
    {
        let ghost st0 = self.pst();
        let ghost f0 = sp_fuel(self.pend(), st0);
        proof {
            self.lexer.lemma_wf_bounds();
            lemma_parse_dict_fuel(
                self.pdata(),
                self.pend(),
                st0,
                dict.pv(),
                self.pallow(),
                f0,
                f0,
            );
        }
        if is_cmd2(&self.buf1, 0x3e, 0x3e) {
            if is_stream_tok(&self.buf2) {
                if self.allow_streams {
                    // stream assembly is an external collaborator, not part
                    // of this core
                    return Err(Error::ParserError);
                } else {
                    return Ok(());
                }
            }
            self.shift();
            return Ok(());
        }
        if is_eof_tok(&self.buf1) {
            self.note_diag();
            return Ok(());
        }
        self.parse_dict_entry(dict)
    }

    /// Reads one dictionary entry (or skips one malformed key) and goes on
    /// with the remaining entries.
    fn parse_dict_entry(&mut self, dict: &mut Dictionary) -> (r: Result<(), Error>)
        requires
            old(self).wf(),
            old(self).pst().t1 != Some(PrimV::Cmd(seq![0x3eu8, 0x3eu8])),
            old(self).pst().t1 != Some(PrimV::EOF),
        ensures
            final(self).wf(),
            Self::pframe(old(self), final(self)),
            ({
                let po = sp_parse_dict(
                    old(self).pdata(),
                    old(self).pend(),
                    old(self).pst(),
                    old(dict).pv(),
                    old(self).pallow(),
                    sp_fuel(old(self).pend(), old(self).pst()),
                );
                &&& final(self).pst() == po.st
                &&& final(self).pdiags() == sat_add64(old(self).pdiags(), po.dg)
                &&& final(self).pbi() == sp_bi_join(old(self).pbi(), po.bi)
                &&& sp_measure(old(self).pend(), final(self).pst()) <= sp_measure(
                    old(self).pend(),
                    old(self).pst(),
                )
                &&& match r {
                    Ok(()) => po.obj == Some(PrimV::Dict(final(dict).pv())),
                    Err(e) => po.obj is None && e is ParserError,
                }
            }),
        decreases sp_measure(old(self).pend(), old(self).pst()), 2int,
    {
        if self.buf1.is_none() {
            return Err(Error::ParserError);
        }
        if is_name_tok(&self.buf1) {
            self.parse_dict_named(dict)
        } else {
            self.parse_dict_skip(dict)
        }
    }

    /// Reads one `⟨name⟩ ⟨value⟩` entry into the dictionary, then the
    /// remaining entries; a value right at end-of-file closes the dictionary
    /// with a diagnostic, and a duplicate key overwrites with a diagnostic.
    #[verifier::rlimit(100)]
    #[verifier::spinoff_prover]
    fn parse_dict_named(&mut self, dict: &mut Dictionary) -> (r: Result<(), Error>)
        requires
            old(self).wf(),
            old(self).pst().t1 matches Some(t) && t is Name,
        ensures
            final(self).wf(),
            Self::pframe(old(self), final(self)),
            ({
                let po = sp_parse_dict(
                    old(self).pdata(),
                    old(self).pend(),
                    old(self).pst(),
                    old(dict).pv(),
                    old(self).pallow(),
                    sp_fuel(old(self).pend(), old(self).pst()),
                );
                &&& final(self).pst() == po.st
                &&& final(self).pdiags() == sat_add64(old(self).pdiags(), po.dg)
                &&& final(self).pbi() == sp_bi_join(old(self).pbi(), po.bi)
                &&& sp_measure(old(self).pend(), final(self).pst()) <= sp_measure(
                    old(self).pend(),
                    old(self).pst(),
                )
                &&& match r {
                    Ok(()) => po.obj == Some(PrimV::Dict(final(dict).pv())),
                    Err(e) => po.obj is None && e is ParserError,
                }
            }),
        decreases sp_measure(old(self).pend(), old(self).pst()), 1int,
    {
        let ghost st0 = self.pst();
        let ghost f0 = sp_fuel(self.pend(), st0);
        proof {
            self.lexer.lemma_wf_bounds();
            lemma_parse_dict_fuel(self.pdata(), self.pend(), st0, dict.pv(), self.pallow(), f0, f0);
        }
        let ghost sh = sp_shift(self.pdata(), self.pend(), st0);
        let ghost dpo = sp_parse_dict(
            self.pdata(),
            self.pend(),
            st0,
            dict.pv(),
            self.pallow(),
            f0,
        );
        let nm = match self.buf1.take() {
            Some(Primitives::Name(nm)) => nm,
            _ => {
                proof {
                    assert(false);
                }
                return Err(Error::ParserError);
            },
        };
        proof {
            lemma_shift_measure(self.pdata(), self.pend(), self.pst());
            assert(sp_shift(self.pdata(), self.pend(), self.pst()).st == sh.st);
        }
        self.shift();
        proof {
            assert(self.pst() == sh.st);
        }
        if is_eof_tok(&self.buf1) {
            self.note_diag();
            proof {
                assert(dpo.obj == Some(PrimV::Dict(dict.pv())));
                assert(dpo.st == self.pst());
                assert(dpo.dg == sh.dg + 1);
            }
            return Ok(());
        }
        proof {
            self.lexer.lemma_wf_bounds();
            lemma_parse_obj_fuel(
                self.pdata(),
                self.pend(),
                self.pst(),
                self.pallow(),
                f0,
                sp_fuel(self.pend(), self.pst()),
            );
        }
        let ghost po = sp_parse_obj(self.pdata(), self.pend(), sh.st, self.pallow(), f0);
        let v = match self.get_obj() {
            Err(e) => {
                proof {
                    assert(dpo.obj is None);
                    assert(dpo.st == po.st);
                }
                return Err(e);
            },
            Ok(v) => v,
        };
        proof {
            assert(self.pst() == po.st);
            assert(po.obj == Some(v.pv()));
        }
        let dup = dict.insert(nm, v);
        if dup {
            self.note_diag();
        }
        let ghost acc2 = dict.pv();
        let ghost rec = sp_parse_dict(
            self.pdata(),
            self.pend(),
            po.st,
            acc2,
            self.pallow(),
            (f0 - 1) as nat,
        );
        proof {
            self.lexer.lemma_wf_bounds();
            lemma_parse_dict_fuel(
                self.pdata(),
                self.pend(),
                self.pst(),
                dict.pv(),
                self.pallow(),
                (f0 - 1) as nat,
                sp_fuel(self.pend(), self.pst()),
            );
            assert(dpo.obj == rec.obj);
            assert(dpo.st == rec.st);
        }
        let r = self.parse_dict(dict);
        proof {
            lemma_sat_assoc_parse(old(self).pdiags());
        }
        r
    }

    /// Skips one token standing where a name key should, with a diagnostic,
    /// then reads the remaining entries.
    #[verifier::rlimit(100)]
    #[verifier::spinoff_prover]
    fn parse_dict_skip(&mut self, dict: &mut Dictionary) -> (r: Result<(), Error>)
        requires
            old(self).wf(),
            old(self).pst().t1 matches Some(t) && !(t is Name) && t != PrimV::Cmd(
                seq![0x3eu8, 0x3eu8],
            ) && t != PrimV::EOF,
        ensures
            final(self).wf(),
            Self::pframe(old(self), final(self)),
            ({
                let po = sp_parse_dict(
                    old(self).pdata(),
                    old(self).pend(),
                    old(self).pst(),
                    old(dict).pv(),
                    old(self).pallow(),
                    sp_fuel(old(self).pend(), old(self).pst()),
                );
                &&& final(self).pst() == po.st
                &&& final(self).pdiags() == sat_add64(old(self).pdiags(), po.dg)
                &&& final(self).pbi() == sp_bi_join(old(self).pbi(), po.bi)
                &&& sp_measure(old(self).pend(), final(self).pst()) <= sp_measure(
                    old(self).pend(),
                    old(self).pst(),
                )
                &&& match r {
                    Ok(()) => po.obj == Some(PrimV::Dict(final(dict).pv())),
                    Err(e) => po.obj is None && e is ParserError,
                }
            }),
        decreases sp_measure(old(self).pend(), old(self).pst()), 1int,
    {
        let ghost st0 = self.pst();
        let ghost f0 = sp_fuel(self.pend(), st0);
        proof {
            self.lexer.lemma_wf_bounds();
            lemma_parse_dict_fuel(self.pdata(), self.pend(), st0, dict.pv(), self.pallow(), f0, f0);
        }
        let ghost sh = sp_shift(self.pdata(), self.pend(), st0);
        let ghost dpo = sp_parse_dict(
            self.pdata(),
            self.pend(),
            st0,
            dict.pv(),
            self.pallow(),
            f0,
        );
        self.note_diag();
        proof {
            lemma_shift_measure(self.pdata(), self.pend(), self.pst());
            assert(sp_shift(self.pdata(), self.pend(), self.pst()) == sh);
        }
        self.shift();
        proof {
            assert(self.pst() == sh.st);
        }
        let ghost rec = sp_parse_dict(
            self.pdata(),
            self.pend(),
            sh.st,
            old(dict).pv(),
            self.pallow(),
            (f0 - 1) as nat,
        );
        proof {
            self.lexer.lemma_wf_bounds();
            lemma_parse_dict_fuel(
                self.pdata(),
                self.pend(),
                self.pst(),
                dict.pv(),
                self.pallow(),
                (f0 - 1) as nat,
                sp_fuel(self.pend(), self.pst()),
            );
            assert(dpo.obj == rec.obj);
            assert(dpo.st == rec.st);
            assert(dpo.dg == 1 + sh.dg + rec.dg);
        }
        let r = self.parse_dict(dict);
        proof {
            lemma_sat_assoc_parse(old(self).pdiags());
        }
        r
    }
}

/// Saturating diagnostic sums compose however the parser groups them.
proof fn lemma_sat_assoc_parse(d: u64)
    ensures
        forall|a: nat, b: nat| #[trigger] sat_add64(sat_add64(d, a), b) == sat_add64(d, a + b),
{
}

} // verus!

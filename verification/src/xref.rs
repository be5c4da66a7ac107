use vstd::prelude::*;

use vstd::set_lib::{lemma_int_range, lemma_len_subset, set_int_range};

use crate::error::Error;
use crate::lexer::Lexer;
use crate::lexer::sp_lex_obj;
use crate::parser::{
    lemma_parse_obj_fuel, sp_fuel, sp_measure, sp_parse_obj, sp_tok_count, PSt, ParseOut, Parser,
};
use crate::primitives::PrimV;
use crate::primitives::{opt_pv, Dictionary, Primitives};
use crate::stream::Stream;

verus! {

// ---------------------------------------------------------------------------
// The cross-reference resolver: visits a worklist of table offsets (the
// bootstrap `startxref`, then each trailer's `/Prev`), parses classical xref
// subsections into a dense entry table, and keeps the trailer dictionary of
// the newest revision. Entries written by a newer revision stand; a visited
// offset is never visited again.
// ---------------------------------------------------------------------------
/// How an object lives in the file.
#[derive(Debug, Clone, Copy, PartialEq, Eq, Structural)]
pub enum EntryKind {
    Free,
    InUseUncompressed,
    Unknown,
}

/// One cross-reference entry: a byte offset, a generation, and its kind.
#[derive(Debug, Clone, Copy, PartialEq, Eq, Structural)]
pub struct Entry {
    pub offset: u64,
    pub gen: u16,
    pub kind: EntryKind,
}

/// The entry a table slot holds before any revision writes it.
pub open spec fn sp_default_entry() -> Entry {
    Entry { offset: 0, gen: 0, kind: EntryKind::Free }
}

/// A transient parser snapshot, taken before each entry so that a soft
/// failure could be re-attempted after repair; this core exposes the
/// snapshot and implements no automatic repair.
pub struct TableState {
    pub entry_num: i64,
    pub stream_pos: usize,
    pub parser_buf1: Option<Primitives>,
    pub parser_buf2: Option<Primitives>,
    pub first_entry_num: Option<i64>,
    pub entry_count: Option<i64>,
}

impl TableState {
    /// Snapshots the lookahead and position of `parser`.
    pub fn from_parser(parser: &Parser) -> (t: TableState)
        requires
            parser.wf(),
        ensures
            t.entry_num == 0,
            t.stream_pos as int == (if parser.pst().cur < parser.pend() {
                parser.pst().cur + 1
            } else {
                parser.pend()
            }),
            opt_pv(t.parser_buf1) == parser.pst().t1,
            opt_pv(t.parser_buf2) == parser.pst().t2,
            t.first_entry_num is None,
            t.entry_count is None,
    {
        TableState {
            entry_num: 0,
            stream_pos: parser.stream_pos(),
            parser_buf1: parser.buf1(),
            parser_buf2: parser.buf2(),
            first_entry_num: None,
            entry_count: None,
        }
    }

    pub fn set_first_entry_num(&mut self, num: i64)
        ensures
            final(self).first_entry_num == Some(num),
            final(self).entry_count == old(self).entry_count,
            final(self).entry_num == old(self).entry_num,
            final(self).stream_pos == old(self).stream_pos,
    {
        self.first_entry_num = Some(num);
    }

    pub fn set_entry_count(&mut self, count: i64)
        ensures
            final(self).entry_count == Some(count),
            final(self).first_entry_num == old(self).first_entry_num,
            final(self).entry_num == old(self).entry_num,
            final(self).stream_pos == old(self).stream_pos,
    {
        self.entry_count = Some(count);
    }
}

/// The table and occupancy after one entry is written at `idx`: both grow
/// with default free entries up to `idx` when needed, and the write lands
/// unless the slot was already written by a newer revision.
pub open spec fn sp_write(entries: Seq<Entry>, occupied: Seq<bool>, idx: int, e: Entry) -> (
    Seq<Entry>,
    Seq<bool>,
) {
    let n = if idx + 1 > entries.len() {
        idx + 1
    } else {
        entries.len() as int
    };
    let grown_e = Seq::new(
        n as nat,
        |j: int|
            if 0 <= j < entries.len() {
                entries[j]
            } else {
                sp_default_entry()
            },
    );
    let grown_o = Seq::new(
        n as nat,
        |j: int|
            if 0 <= j < occupied.len() {
                occupied[j]
            } else {
                false
            },
    );
    if 0 <= idx < grown_o.len() && grown_o[idx] {
        (grown_e, grown_o)
    } else {
        (grown_e.update(idx, e), grown_o.update(idx, true))
    }
}

/// Writes one entry at `idx`, extending the table with default free entries
/// as needed. A slot already written by a newer revision stands; every other
/// slot keeps its value.
#[verifier::loop_isolation(false)]
pub fn write_entry(entries: &mut Vec<Entry>, occupied: &mut Vec<bool>, idx: usize, e: Entry)
    requires
        old(entries)@.len() == old(occupied)@.len(),
        idx < usize::MAX,
    ensures
        final(entries)@.len() == final(occupied)@.len(),
        final(entries)@.len() == (if idx + 1 > old(entries)@.len() {
            idx + 1
        } else {
            old(entries)@.len() as int
        }),
        forall|j: int|
            0 <= j < old(entries)@.len() && j != idx ==> final(entries)@[j] == old(entries)@[j]
                && final(occupied)@[j] == old(occupied)@[j],
        forall|j: int|
            old(entries)@.len() <= j < final(entries)@.len() && j != idx ==> final(entries)@[j]
                == sp_default_entry() && !final(occupied)@[j],
        (idx < old(entries)@.len() && old(occupied)@[idx as int]) ==> final(entries)@[idx as int]
            == old(entries)@[idx as int] && final(occupied)@[idx as int],
        !(idx < old(entries)@.len() && old(occupied)@[idx as int]) ==> final(entries)@[idx as int]
            == e && final(occupied)@[idx as int],
        (final(entries)@, final(occupied)@) == sp_write(old(entries)@, old(occupied)@, idx as int, e),
{
    while entries.len() <= idx
        invariant
            entries@.len() == occupied@.len(),
            old(entries)@.len() <= entries@.len(),
            entries@.len() <= (if idx + 1 > old(entries)@.len() {
                idx + 1
            } else {
                old(entries)@.len() as int
            }),
            forall|j: int|
                0 <= j < old(entries)@.len() ==> #[trigger] entries@[j] == old(entries)@[j]
                    && occupied@[j] == old(occupied)@[j],
            forall|j: int|
                old(entries)@.len() <= j < entries@.len() ==> #[trigger] entries@[j]
                    == sp_default_entry() && !occupied@[j],
        decreases idx + 1 - entries@.len(),
    {
        entries.push(Entry { offset: 0, gen: 0, kind: EntryKind::Free });
        occupied.push(false);
    }
    let ghost grown_e = entries@;
    let ghost grown_o = occupied@;
    if !occupied[idx] {
        entries[idx] = e;
        occupied[idx] = true;
    }
    proof {
        assert forall|j: int|
            0 <= j < old(entries)@.len() && j != idx implies entries@[j] == old(entries)@[j]
            && occupied@[j] == old(occupied)@[j] by {
            assert(grown_e[j] == old(entries)@[j]);
            assert(grown_o[j] == old(occupied)@[j]);
        }
        let n = if idx + 1 > old(entries)@.len() {
            idx as int + 1
        } else {
            old(entries)@.len() as int
        };
        let spec_e = Seq::new(
            n as nat,
            |j: int|
                if 0 <= j < old(entries)@.len() {
                    old(entries)@[j]
                } else {
                    sp_default_entry()
                },
        );
        let spec_o = Seq::new(
            n as nat,
            |j: int|
                if 0 <= j < old(occupied)@.len() {
                    old(occupied)@[j]
                } else {
                    false
                },
        );
        assert(grown_e =~= spec_e);
        assert forall|j: int| 0 <= j < grown_o.len() implies grown_o[j] == spec_o[j] by {
            if old(occupied)@.len() <= j {
                assert(grown_e[j] == sp_default_entry());
            }
        }
        assert(grown_o =~= spec_o);
        if grown_o[idx as int] {
            assert(entries@ =~= spec_e);
            assert(occupied@ =~= spec_o);
        } else {
            assert(entries@ =~= spec_e.update(idx as int, e));
            assert(occupied@ =~= spec_o.update(idx as int, true));
        }
    }
}

/// One object parsed at the canonical fuel for its state.
pub open spec fn sp_pobj(data: Seq<u8>, end: int, st: PSt, allow: bool) -> ParseOut {
    sp_parse_obj(data, end, st, allow, sp_fuel(end, st))
}

/// The outcome of reading xref table material: whether it succeeded, the
/// lookahead state after it, and the table as grown so far.
pub ghost struct TableOut {
    pub ok: bool,
    pub st: PSt,
    pub entries: Seq<Entry>,
    pub occupied: Seq<bool>,
}

/// Reading the remaining `count - i` entries of one subsection whose header
/// promised objects from `first`: each entry is three tokens
/// `⟨offset⟩ ⟨generation⟩ ⟨kind⟩`, with `f` free, `n` in use, anything else
/// unknown. A free first entry under a header claiming `first == 1`
/// renormalizes the subsection to begin at object 0. Entry `i` lands at
/// index `first + i` unless a newer revision already wrote that slot; a
/// negative or machine-oversized index fails.
pub open spec fn sp_read_entries(
    data: Seq<u8>,
    end: int,
    st: PSt,
    entries: Seq<Entry>,
    occupied: Seq<bool>,
    first: int,
    count: int,
    i: int,
    allow: bool,
) -> TableOut
    decreases count - i,
{
    if i >= count {
        TableOut { ok: true, st, entries, occupied }
    } else {
        let po1 = sp_pobj(data, end, st, allow);
        if !(po1.obj matches Some(o1) && o1 is Int) {
            TableOut { ok: false, st: po1.st, entries, occupied }
        } else {
            let po2 = sp_pobj(data, end, po1.st, allow);
            if !(po2.obj matches Some(o2) && o2 is Int) {
                TableOut { ok: false, st: po2.st, entries, occupied }
            } else {
                let po3 = sp_pobj(data, end, po2.st, allow);
                if po3.obj is None {
                    TableOut { ok: false, st: po3.st, entries, occupied }
                } else {
                    let off = po1.obj->Some_0->Int_0;
                    let gen = po2.obj->Some_0->Int_0;
                    let tk = po3.obj->Some_0;
                    let kind = if tk == PrimV::Cmd(seq![0x66u8]) {
                        EntryKind::Free
                    } else if tk == PrimV::Cmd(seq![0x6eu8]) {
                        EntryKind::InUseUncompressed
                    } else {
                        EntryKind::Unknown
                    };
                    let e = Entry { offset: off as u64, gen: gen as u16, kind };
                    let first2 = if i == 0 && kind == EntryKind::Free && first == 1 {
                        0int
                    } else {
                        first
                    };
                    if !(0 <= first2 && first2 + i < usize::MAX) {
                        TableOut { ok: false, st: po3.st, entries, occupied }
                    } else {
                        let w = sp_write(entries, occupied, first2 + i, e);
                        sp_read_entries(data, end, po3.st, w.0, w.1, first2, count, i + 1, allow)
                    }
                }
            }
        }
    }
}

/// The bytes of the keyword `trailer`.
pub open spec fn sp_trailer_kw() -> Seq<u8> {
    seq![0x74u8, 0x72u8, 0x61u8, 0x69u8, 0x6cu8, 0x65u8, 0x72u8]
}

/// The bytes of the keyword `xref`.
pub open spec fn sp_xref_kw() -> Seq<u8> {
    seq![0x78u8, 0x72u8, 0x65u8, 0x66u8]
}

/// Reading subsections until the keyword `trailer` (consumed): each header
/// is two integers `⟨first⟩ ⟨count⟩`, followed by its entries. Anything else
/// where a header belongs fails. `fuel` bounds the number of subsections and
/// never runs out when it exceeds the parser measure.
pub open spec fn sp_read_table(
    data: Seq<u8>,
    end: int,
    st: PSt,
    entries: Seq<Entry>,
    occupied: Seq<bool>,
    fuel: nat,
    allow: bool,
) -> TableOut
    decreases fuel,
{
    let po = sp_pobj(data, end, st, allow);
    match po.obj {
        None => TableOut { ok: false, st: po.st, entries, occupied },
        Some(t) => {
            if t == PrimV::Cmd(sp_trailer_kw()) {
                TableOut { ok: true, st: po.st, entries, occupied }
            } else if !(t is Int) {
                TableOut { ok: false, st: po.st, entries, occupied }
            } else {
                let po2 = sp_pobj(data, end, po.st, allow);
                if !(po2.obj matches Some(t2) && t2 is Int) {
                    TableOut { ok: false, st: po2.st, entries, occupied }
                } else {
                    let es = sp_read_entries(
                        data,
                        end,
                        po2.st,
                        entries,
                        occupied,
                        t->Int_0 as int,
                        po2.obj->Some_0->Int_0 as int,
                        0,
                        allow,
                    );
                    if !es.ok {
                        es
                    } else if fuel == 0 {
                        TableOut { ok: false, st: es.st, entries: es.entries, occupied: es.occupied }
                    } else {
                        sp_read_table(
                            data,
                            end,
                            es.st,
                            es.entries,
                            es.occupied,
                            (fuel - 1) as nat,
                            allow,
                        )
                    }
                }
            }
        },
    }
}

/// One parsed object keeps the cursor in range and shrinks the measure by
/// the token it consumed.
pub proof fn lemma_pobj_measure(data: Seq<u8>, end: int, st: PSt, allow: bool)
    requires
        0 <= st.cur <= end,
    ensures
        ({
            let po = sp_pobj(data, end, st, allow);
            &&& 0 <= po.st.cur <= end
            &&& sp_measure(end, po.st) + sp_tok_count(st.t1) <= sp_measure(end, st)
        }),
{
    lemma_parse_obj_fuel(data, end, st, allow, sp_fuel(end, st), sp_fuel(end, st));
}

/// Reading a subsection's entries keeps the cursor in range, never grows
/// the measure, and keeps the table and its occupancy the same length.
pub proof fn lemma_read_entries_frame(
    data: Seq<u8>,
    end: int,
    st: PSt,
    entries: Seq<Entry>,
    occupied: Seq<bool>,
    first: int,
    count: int,
    i: int,
    allow: bool,
)
    requires
        0 <= st.cur <= end,
        entries.len() == occupied.len(),
        0 <= i,
    ensures
        ({
            let es = sp_read_entries(data, end, st, entries, occupied, first, count, i, allow);
            &&& 0 <= es.st.cur <= end
            &&& sp_measure(end, es.st) <= sp_measure(end, st)
            &&& es.entries.len() == es.occupied.len()
        }),
    decreases count - i,
{
    if i < count {
        lemma_pobj_measure(data, end, st, allow);
        let po1 = sp_pobj(data, end, st, allow);
        if po1.obj matches Some(o1) && o1 is Int {
            lemma_pobj_measure(data, end, po1.st, allow);
            let po2 = sp_pobj(data, end, po1.st, allow);
            if po2.obj matches Some(o2) && o2 is Int {
                lemma_pobj_measure(data, end, po2.st, allow);
                let po3 = sp_pobj(data, end, po2.st, allow);
                if po3.obj is Some {
                    let tk = po3.obj->Some_0;
                    let kind = if tk == PrimV::Cmd(seq![0x66u8]) {
                        EntryKind::Free
                    } else if tk == PrimV::Cmd(seq![0x6eu8]) {
                        EntryKind::InUseUncompressed
                    } else {
                        EntryKind::Unknown
                    };
                    let first2 = if i == 0 && kind == EntryKind::Free && first == 1 {
                        0int
                    } else {
                        first
                    };
                    if 0 <= first2 && first2 + i < usize::MAX {
                        let e = Entry {
                            offset: po1.obj->Some_0->Int_0 as u64,
                            gen: po2.obj->Some_0->Int_0 as u16,
                            kind,
                        };
                        let w = sp_write(entries, occupied, first2 + i, e);
                        let idx = first2 + i;
                        let n = if idx + 1 > entries.len() {
                            idx + 1
                        } else {
                            entries.len() as int
                        };
                        assert(w.0.len() == n);
                        assert(w.1.len() == n);
                        lemma_read_entries_frame(
                            data,
                            end,
                            po3.st,
                            w.0,
                            w.1,
                            first2,
                            count,
                            i + 1,
                            allow,
                        );
                    }
                }
            }
        }
    }
}

/// With fuel above the measure, reading a table does not depend on the fuel;
/// the cursor stays in range, the measure never grows, and the table and its
/// occupancy stay the same length.
pub proof fn lemma_read_table_fuel(
    data: Seq<u8>,
    end: int,
    st: PSt,
    entries: Seq<Entry>,
    occupied: Seq<bool>,
    f1: nat,
    f2: nat,
    allow: bool,
)
    requires
        0 <= st.cur <= end,
        entries.len() == occupied.len(),
        f1 > sp_measure(end, st),
        f2 > sp_measure(end, st),
    ensures
        ({
            let tb = sp_read_table(data, end, st, entries, occupied, f1, allow);
            &&& tb == sp_read_table(data, end, st, entries, occupied, f2, allow)
            &&& 0 <= tb.st.cur <= end
            &&& sp_measure(end, tb.st) <= sp_measure(end, st)
            &&& tb.entries.len() == tb.occupied.len()
        }),
    decreases sp_measure(end, st),
{
    lemma_pobj_measure(data, end, st, allow);
    let po = sp_pobj(data, end, st, allow);
    match po.obj {
        None => {},
        Some(t) => {
            if t == PrimV::Cmd(sp_trailer_kw()) {
            } else if t is Int {
                lemma_pobj_measure(data, end, po.st, allow);
                let po2 = sp_pobj(data, end, po.st, allow);
                if po2.obj matches Some(t2) && t2 is Int {
                    lemma_read_entries_frame(
                        data,
                        end,
                        po2.st,
                        entries,
                        occupied,
                        t->Int_0 as int,
                        po2.obj->Some_0->Int_0 as int,
                        0,
                        allow,
                    );
                    let es = sp_read_entries(
                        data,
                        end,
                        po2.st,
                        entries,
                        occupied,
                        t->Int_0 as int,
                        po2.obj->Some_0->Int_0 as int,
                        0,
                        allow,
                    );
                    if es.ok {
                        lemma_read_table_fuel(
                            data,
                            end,
                            es.st,
                            es.entries,
                            es.occupied,
                            (f1 - 1) as nat,
                            (f2 - 1) as nat,
                            allow,
                        );
                    }
                }
            }
        },
    }
}

/// The lookahead state of a parser freshly built over the bytes with its
/// cursor at `off`: the two tokens lexed to fill the buffers.
pub open spec fn sp_parser_at(data: Seq<u8>, end: int, off: int) -> PSt {
    let s1 = sp_lex_obj(data, end, off);
    let s2 = sp_lex_obj(data, end, s1.next);
    PSt { t1: s1.tok, t2: s2.tok, cur: s2.next }
}

/// The bytes of the trailer key `Prev`.
pub open spec fn sp_prev_key() -> Seq<u8> {
    seq![0x50u8, 0x72u8, 0x65u8, 0x76u8]
}

/// The resolution of a revision chain: the worklist of offsets still to
/// visit, the offsets already visited, the table built so far (newest
/// revision first, written slots standing), and the trailer of the newest
/// revision. The result is the final table and that trailer; nothing means a
/// fatal failure — an offset outside the file, a missing `xref` keyword, a
/// malformed table, a trailer that is no dictionary, no revision at all, or
/// a populated table whose entry 0 is not free.
pub open spec fn sp_resolve(
    data: Seq<u8>,
    end: int,
    queue: Seq<u64>,
    seen: Set<int>,
    entries: Seq<Entry>,
    occupied: Seq<bool>,
    trailer: Option<Map<Seq<u8>, PrimV>>,
) -> Option<(Seq<Entry>, Map<Seq<u8>, PrimV>)>
    decreases end + 1 - seen.len(), queue.len(),
        when seen.finite() && seen.subset_of(set_int_range(0, end + 1)) && 0 <= end
        via sp_resolve_decreases
{
    if queue.len() == 0 {
        match trailer {
            None => None,
            Some(tr) => {
                if entries.len() > 0 && entries[0].kind != EntryKind::Free {
                    None
                } else {
                    Some((entries, tr))
                }
            },
        }
    } else {
        let off = queue[0];
        let rest = queue.drop_first();
        if seen.contains(off as int) {
            sp_resolve(data, end, rest, seen, entries, occupied, trailer)
        } else if off as int > end {
            None
        } else {
            let seen2 = seen.insert(off as int);
            let st0 = sp_parser_at(data, end, off as int);
            let po = sp_pobj(data, end, st0, true);
            if po.obj != Some(PrimV::Cmd(sp_xref_kw())) {
                None
            } else {
                let tb = sp_read_table(
                    data,
                    end,
                    po.st,
                    entries,
                    occupied,
                    sp_fuel(end, po.st),
                    true,
                );
                if !tb.ok {
                    None
                } else {
                    let pt = sp_pobj(data, end, tb.st, true);
                    if !(pt.obj matches Some(d) && d is Dict) {
                        None
                    } else {
                        let m = pt.obj->Some_0->Dict_0;
                        let rest2 = if m.contains_key(sp_prev_key()) && (m[sp_prev_key()] matches
                            PrimV::Int(n)) && m[sp_prev_key()]->Int_0 >= 0 {
                            rest.push(m[sp_prev_key()]->Int_0 as u64)
                        } else {
                            rest
                        };
                        let trailer2 = if trailer is None {
                            Some(m)
                        } else {
                            trailer
                        };
                        sp_resolve(data, end, rest2, seen2, tb.entries, tb.occupied, trailer2)
                    }
                }
            }
        }
    }
}

/// Visiting a fresh offset enlarges the seen set, which a finite range
/// bounds: the resolution of a chain always ends.
#[via_fn]
proof fn sp_resolve_decreases(
    data: Seq<u8>,
    end: int,
    queue: Seq<u64>,
    seen: Set<int>,
    entries: Seq<Entry>,
    occupied: Seq<bool>,
    trailer: Option<Map<Seq<u8>, PrimV>>,
) {
    broadcast use vstd::set::group_set_axioms;

    if queue.len() > 0 {
        let off = queue[0];
        if !seen.contains(off as int) && off as int <= end {
            lemma_int_range(0, end + 1);
            assert(seen.insert(off as int).len() == seen.len() + 1);
            lemma_len_subset(seen.insert(off as int), set_int_range(0, end + 1));
        }
    }
}

/// The trailer the resolver has kept so far, as a map.
pub open spec fn sp_opt_trailer(t: Option<Dictionary>) -> Option<Map<Seq<u8>, PrimV>> {
    match t {
        Some(d) => Some(d.pv()),
        None => None,
    }
}

/// The table and trailer of a resolved document: the entries, which slots a
/// revision has written, and the trailer dictionary of the newest revision.
pub struct XRef {
    trailer_dict: Dictionary,
    entries: Vec<Entry>,
    occupied: Vec<bool>,
    password: Option<String>,
}

impl XRef {
    /// The table and its occupancy stay the same length.
    pub closed spec fn wf(&self) -> bool {
        self.entries@.len() == self.occupied@.len()
    }

    /// The entries, indexable by object number.
    pub closed spec fn entries_v(&self) -> Seq<Entry> {
        self.entries@
    }

    /// The trailer dictionary of the newest revision.
    pub closed spec fn trailer_v(&self) -> Map<Seq<u8>, crate::primitives::PrimV> {
        self.trailer_dict.pv()
    }

    pub fn trailer(&self) -> (d: &Dictionary)
        ensures
            d.pv() == self.trailer_v(),
    {
        &self.trailer_dict
    }

    pub fn num_entries(&self) -> (n: usize)
        ensures
            n == self.entries_v().len(),
    {
        self.entries.len()
    }

    pub fn entry(&self, i: usize) -> (r: Option<&Entry>)
        ensures
            match r {
                Some(e) => i < self.entries_v().len() && *e == self.entries_v()[i as int],
                None => i >= self.entries_v().len(),
            },
    {
        if i < self.entries.len() {
            Some(&self.entries[i])
        } else {
            None
        }
    }

    /// Resolves the chain of classical xref tables that begins at byte
    /// offset `startxref`: the newest revision is read first, its trailer
    /// kept, and each `/Prev` offset queued; an offset is visited once.
    /// Success carries exactly the table and trailer that `sp_resolve` reads
    /// from the bytes; in particular, when any entries exist, entry 0 is
    /// free, or the whole parse fails.
    #[verifier::loop_isolation(false)]
    #[verifier::rlimit(100)]
    #[verifier::spinoff_prover]
    pub fn parse(stream: Stream, startxref: u64, password: Option<String>) -> (r: Result<
        XRef,
        Error,
    >)
        requires
            stream.wf(),
        ensures
            ({
                let res = sp_resolve(
                    stream@.data,
                    stream@.end,
                    seq![startxref],
                    Set::empty(),
                    Seq::empty(),
                    Seq::empty(),
                    None,
                );
                match r {
                    Ok(x) => {
                        &&& x.wf()
                        &&& res == Some((x.entries_v(), x.trailer_v()))
                        &&& x.entries_v().len() > 0 ==> x.entries_v()[0].kind == EntryKind::Free
                    },
                    Err(e) => (e is ParserError || e is InvalidFile) && res is None,
                }
            }),
    {
        let ghost data = stream@.data;
        let ghost endi = stream@.end;
        let ghost rgoal = sp_resolve(
            data,
            endi,
            seq![startxref],
            Set::empty(),
            Seq::empty(),
            Seq::empty(),
            None,
        );
        let mut xref_kw: Vec<u8> = Vec::new();
        xref_kw.push(0x78);
        xref_kw.push(0x72);
        xref_kw.push(0x65);
        xref_kw.push(0x66);
        let mut prev_key: Vec<u8> = Vec::new();
        prev_key.push(0x50);
        prev_key.push(0x72);
        prev_key.push(0x65);
        prev_key.push(0x76);
        proof {
            assert(xref_kw@ =~= sp_xref_kw());
            assert(prev_key@ =~= sp_prev_key());
        }
        let mut entries: Vec<Entry> = Vec::new();
        let mut occupied: Vec<bool> = Vec::new();
        let mut queue: Vec<u64> = Vec::new();
        let mut seen: Vec<u64> = Vec::new();
        let ghost sset = Set::<int>::empty();
        let mut trailer_dict: Option<Dictionary> = None;
        queue.push(startxref);
        proof {
            lemma_int_range(0, endi + 1);
            assert(queue@ =~= seq![startxref]);
            assert(entries@ =~= Seq::<Entry>::empty());
            assert(occupied@ =~= Seq::<bool>::empty());
        }
        while queue.len() > 0
            invariant
                stream.wf(),
                stream@.data == data,
                stream@.end == endi,
                xref_kw@ == sp_xref_kw(),
                prev_key@ == sp_prev_key(),
                entries@.len() == occupied@.len(),
                sset.finite(),
                sset.len() == seen@.len(),
                sset.subset_of(set_int_range(0, endi + 1)),
                forall|j: int| 0 <= j < seen@.len() ==> (#[trigger] seen@[j]) <= endi,
                forall|x: int| sset.contains(x) <==> (exists|j: int|
                    0 <= j < seen@.len() && ((#[trigger] seen@[j]) as int) == x),
                sp_resolve(
                    data,
                    endi,
                    queue@,
                    sset,
                    entries@,
                    occupied@,
                    sp_opt_trailer(trailer_dict),
                ) == rgoal,
            decreases endi + 1 - sset.len(), queue@.len(),
        {
            proof {
                lemma_len_subset(sset, set_int_range(0, endi + 1));
            }
            let ghost q_pre = queue@;
            let offset = queue.remove(0);
            proof {
                assert(queue@ =~= q_pre.drop_first());
            }
            // skip an offset already visited: revision chains may loop
            let mut dup = false;
            let mut si: usize = 0;
            while si < seen.len()
                invariant
                    si <= seen@.len(),
                    !dup ==> forall|j: int| 0 <= j < si ==> seen@[j] != offset,
                    dup ==> (exists|j: int|
                        0 <= j < seen@.len() && #[trigger] seen@[j] == offset),
                decreases seen@.len() - si,
            {
                if seen[si] == offset {
                    dup = true;
                    break ;
                }
                si = si + 1;
            }
            if dup {
                proof {
                    let j = choose|j: int| 0 <= j < seen@.len() && #[trigger] seen@[j] == offset;
                    assert(((seen@[j]) as int) == offset as int);
                    assert(sset.contains(offset as int));
                }
                continue ;
            }
            proof {
                assert forall|j: int| 0 <= j < seen@.len() implies ((#[trigger] seen@[j]) as int)
                    != offset as int by {
                    assert(seen@[j] != offset);
                }
                assert(!sset.contains(offset as int));
            }
            if offset > stream.end() as u64 {
                return Err(Error::InvalidFile);
            }
            let off_us = offset as usize;
            let ghost pre_sset = sset;
            let ghost seen0 = seen@;
            seen.push(offset);
            proof {
                sset = sset.insert(offset as int);
                assert(sset.len() == pre_sset.len() + 1);
                assert(sset.subset_of(set_int_range(0, endi + 1)));
                assert forall|x: int| sset.contains(x) implies (exists|j: int|
                    0 <= j < seen@.len() && ((#[trigger] seen@[j]) as int) == x) by {
                    if x == offset as int {
                        assert(seen@[seen@.len() - 1] == offset);
                    } else {
                        assert(pre_sset.contains(x));
                        let j = choose|j: int|
                            0 <= j < seen0.len() && ((#[trigger] seen0[j]) as int) == x;
                        assert(seen@[j] == seen0[j]);
                    }
                }
                assert forall|x: int| (exists|j: int|
                    0 <= j < seen@.len() && ((#[trigger] seen@[j]) as int) == x) implies
                    sset.contains(x) by {
                    let j = choose|j: int| 0 <= j < seen@.len() && ((#[trigger] seen@[j]) as int)
                        == x;
                    if j == seen@.len() - 1 {
                        assert(x == offset as int);
                    } else {
                        assert(seen0[j] == seen@[j]);
                    }
                }
                lemma_len_subset(sset, set_int_range(0, endi + 1));
            }
            // a fresh lexer and parser over a substream at the offset
            let ghost st0 = sp_parser_at(data, endi, offset as int);
            let sub = stream.new_sub(off_us);
            let lexer = Lexer::new(sub);
            let mut parser = Parser::new(lexer, true);
            proof {
                assert(parser.pst() == st0);
                parser.lemma_pst_bounds();
            }
            let ghost po = sp_pobj(data, endi, st0, true);
            let first_obj = match parser.get_obj() {
                Ok(o) => o,
                Err(_) => {
                    return Err(Error::ParserError);
                },
            };
            // only the classical table is resolved here; a cross-reference
            // stream would begin with an indirect object instead
            if !prim_is_cmd_bytes(&first_obj, &xref_kw) {
                return Err(Error::ParserError);
            }
            let ghost tb = sp_read_table(
                data,
                endi,
                po.st,
                entries@,
                occupied@,
                sp_fuel(endi, po.st),
                true,
            );
            match read_xreftable(&mut parser, &mut entries, &mut occupied) {
                Ok(()) => (),
                Err(e) => {
                    return Err(e);
                },
            };
            let ghost pt = sp_pobj(data, endi, tb.st, true);
            let trailer_obj = match parser.get_obj() {
                Ok(o) => o,
                Err(_) => {
                    return Err(Error::ParserError);
                },
            };
            let dict = match trailer_obj.get_dict() {
                Some(d) => d,
                None => {
                    return Err(Error::ParserError);
                },
            };
            // queue the previous revision, if the trailer points at one
            match dict.get(&prev_key) {
                Some(p) => match p.get_integer() {
                    Some(n) => {
                        if n >= 0 {
                            queue.push(n as u64);
                        }
                    },
                    None => (),
                },
                None => (),
            };
            if trailer_dict.is_none() {
                trailer_dict = Some(dict);
            }
        }
        // as per the format, the first object of a populated table is free
        if entries.len() > 0 {
            let e0 = &entries[0];
            match e0.kind {
                EntryKind::Free => (),
                _ => {
                    return Err(Error::ParserError);
                },
            }
        }
        match trailer_dict {
            Some(trailer_dict) => Ok(XRef { trailer_dict, entries, occupied, password }),
            None => Err(Error::InvalidFile),
        }
    }
}

/// Whether `p` is the one-byte command `b`.
fn prim_is_cmd1(p: &Primitives, b: u8) -> (r: bool)
    ensures
        r == (p.pv() == PrimV::Cmd(seq![b])),
{
    match p {
        Primitives::Cmd(c) => {
            let r = c.0.len() == 1 && c.0[0] == b;
            proof {
                if r {
                    assert(c.0@ =~= seq![b]);
                }
            }
            r
        },
        _ => false,
    }
}

/// Whether `p` is the command spelt by the bytes of `w`.
fn prim_is_cmd_bytes(p: &Primitives, w: &Vec<u8>) -> (r: bool)
    ensures
        r == (p.pv() == PrimV::Cmd(w@)),
{
    match p {
        Primitives::Cmd(c) => crate::utils::bytes_eq(&c.0, w),
        _ => false,
    }
}

/// Reads the subsections of one classical xref table up to (and consuming)
/// the keyword `trailer`: headers of the form `⟨first⟩ ⟨count⟩`, then
/// `count` entries of the form `⟨offset⟩ ⟨generation⟩ ⟨f|n⟩`. A free first
/// entry under a header claiming `first == 1` renormalizes the subsection to
/// begin at object 0. Slots already written by a newer revision stand. The
/// result is exactly what `sp_read_table` reads from the lookahead state.
#[verifier::loop_isolation(false)]
#[verifier::rlimit(100)]
#[verifier::spinoff_prover]
pub fn read_xreftable(
    parser: &mut Parser,
    entries: &mut Vec<Entry>,
    occupied: &mut Vec<bool>,
) -> (r: Result<(), Error>)
    requires
        old(parser).wf(),
        old(entries)@.len() == old(occupied)@.len(),
    ensures
        final(parser).wf(),
        Parser::pframe(old(parser), final(parser)),
        final(entries)@.len() == final(occupied)@.len(),
        forall|j: int|
            0 <= j < old(entries)@.len() && old(occupied)@[j] ==> final(entries)@[j] == old(
                entries,
            )@[j] && final(occupied)@[j],
        ({
            let tb = sp_read_table(
                old(parser).pdata(),
                old(parser).pend(),
                old(parser).pst(),
                old(entries)@,
                old(occupied)@,
                sp_fuel(old(parser).pend(), old(parser).pst()),
                old(parser).pallow(),
            );
            &&& final(parser).pst() == tb.st
            &&& final(entries)@ == tb.entries
            &&& final(occupied)@ == tb.occupied
            &&& match r {
                Ok(()) => tb.ok,
                Err(e) => !tb.ok && e is ParserError,
            }
        }),
{
    let ghost data = old(parser).pdata();
    let ghost endi = old(parser).pend();
    let ghost alw = old(parser).pallow();
    let ghost goal = sp_read_table(
        data,
        endi,
        old(parser).pst(),
        old(entries)@,
        old(occupied)@,
        sp_fuel(endi, old(parser).pst()),
        alw,
    );
    let mut trailer_kw: Vec<u8> = Vec::new();
    trailer_kw.push(0x74);
    trailer_kw.push(0x72);
    trailer_kw.push(0x61);
    trailer_kw.push(0x69);
    trailer_kw.push(0x6c);
    trailer_kw.push(0x65);
    trailer_kw.push(0x72);
    proof {
        assert(trailer_kw@ =~= sp_trailer_kw());
    }
    let mut table_state = TableState::from_parser(parser);
    loop
        invariant
            parser.wf(),
            Parser::pframe(old(parser), parser),
            parser.pdata() == data,
            parser.pend() == endi,
            trailer_kw@ == sp_trailer_kw(),
            entries@.len() == occupied@.len(),
            old(entries)@.len() <= entries@.len(),
            forall|j: int|
                0 <= j < old(entries)@.len() && old(occupied)@[j] ==> entries@[j] == old(
                    entries,
                )@[j] && occupied@[j],
            sp_read_table(
                data,
                endi,
                parser.pst(),
                entries@,
                occupied@,
                sp_fuel(endi, parser.pst()),
                alw,
            ) == goal,
        decreases sp_measure(endi, parser.pst()),
    {
        let ghost st_a = parser.pst();
        let ghost m0 = sp_measure(endi, st_a);
        let ghost f_a = sp_fuel(endi, st_a);
        let ghost e_a = entries@;
        let ghost o_a = occupied@;
        let ghost tb_a = sp_read_table(data, endi, st_a, e_a, o_a, f_a, alw);
        proof {
            parser.lemma_pst_bounds();
            lemma_pobj_measure(data, endi, st_a, alw);
        }
        let ghost po_a = sp_pobj(data, endi, st_a, alw);
        let obj = match parser.get_obj() {
            Ok(o) => o,
            Err(_) => {
                return Err(Error::ParserError);
            },
        };
        if prim_is_cmd_bytes(&obj, &trailer_kw) {
            return Ok(());
        }
        let first0 = match obj.get_integer() {
            Some(n) => n,
            None => {
                return Err(Error::ParserError);
            },
        };
        let mut first: i64 = first0;
        proof {
            lemma_pobj_measure(data, endi, po_a.st, alw);
        }
        let ghost po_b = sp_pobj(data, endi, po_a.st, alw);
        let count_obj = match parser.get_obj() {
            Ok(o) => o,
            Err(_) => {
                return Err(Error::ParserError);
            },
        };
        let count = match count_obj.get_integer() {
            Some(n) => n,
            None => {
                return Err(Error::ParserError);
            },
        };
        let ghost es_goal = sp_read_entries(
            data,
            endi,
            po_b.st,
            e_a,
            o_a,
            first0 as int,
            count as int,
            0,
            alw,
        );
        proof {
            assert(po_a.obj == Some(PrimV::Int(first0)));
            assert(po_b.obj == Some(PrimV::Int(count)));
            assert(tb_a == (if !es_goal.ok {
                es_goal
            } else {
                sp_read_table(
                    data,
                    endi,
                    es_goal.st,
                    es_goal.entries,
                    es_goal.occupied,
                    (f_a - 1) as nat,
                    alw,
                )
            }));
        }
        let mut i: i64 = 0;
        while i < count
            invariant
                parser.wf(),
                Parser::pframe(old(parser), parser),
                parser.pdata() == data,
                parser.pend() == endi,
                entries@.len() == occupied@.len(),
                old(entries)@.len() <= entries@.len(),
                forall|j: int|
                    0 <= j < old(entries)@.len() && old(occupied)@[j] ==> entries@[j] == old(
                        entries,
                    )@[j] && occupied@[j],
                0 <= i,
                sp_measure(endi, parser.pst()) < m0,
                sp_read_entries(
                    data,
                    endi,
                    parser.pst(),
                    entries@,
                    occupied@,
                    first as int,
                    count as int,
                    i as int,
                    alw,
                ) == es_goal,
            decreases count - i,
        {
            table_state.entry_num = i;
            table_state.stream_pos = parser.stream_pos();
            table_state.parser_buf1 = parser.buf1();
            table_state.parser_buf2 = parser.buf2();
            let ghost st_e = parser.pst();
            proof {
                parser.lemma_pst_bounds();
                lemma_pobj_measure(data, endi, st_e, alw);
            }
            let ghost p1 = sp_pobj(data, endi, st_e, alw);
            let offset_obj = match parser.get_obj() {
                Ok(o) => o,
                Err(_) => {
                    return Err(Error::ParserError);
                },
            };
            let offset = match offset_obj.get_integer() {
                Some(n) => n,
                None => {
                    return Err(Error::ParserError);
                },
            };
            proof {
                lemma_pobj_measure(data, endi, p1.st, alw);
            }
            let ghost p2 = sp_pobj(data, endi, p1.st, alw);
            let gen_obj = match parser.get_obj() {
                Ok(o) => o,
                Err(_) => {
                    return Err(Error::ParserError);
                },
            };
            let gen = match gen_obj.get_integer() {
                Some(n) => n,
                None => {
                    return Err(Error::ParserError);
                },
            };
            proof {
                lemma_pobj_measure(data, endi, p2.st, alw);
            }
            let ghost p3 = sp_pobj(data, endi, p2.st, alw);
            let ty = match parser.get_obj() {
                Ok(o) => o,
                Err(_) => {
                    return Err(Error::ParserError);
                },
            };
            let kind = if prim_is_cmd1(&ty, 0x66) {
                EntryKind::Free
            } else if prim_is_cmd1(&ty, 0x6e) {
                EntryKind::InUseUncompressed
            } else {
                EntryKind::Unknown
            };
            let entry = Entry {
                offset: #[verifier::truncate] (offset as u64),
                gen: #[verifier::truncate] (gen as u16),
                kind,
            };
            // recover from a mis-stated first object number: the first
            // entry, when free under a header claiming `1`, is object 0
            if i == 0 && (matches!(kind, EntryKind::Free)) && first == 1 {
                first = 0;
            }
            let idx128: i128 = first as i128 + i as i128;
            if first < 0 || idx128 >= usize::MAX as i128 {
                return Err(Error::ParserError);
            }
            let idx: usize = idx128 as usize;
            write_entry(entries, occupied, idx, entry);
            i = i + 1;
        }
        table_state.entry_num = 0;
        table_state.stream_pos = parser.stream_pos();
        table_state.parser_buf1 = parser.buf1();
        table_state.parser_buf2 = parser.buf2();
        table_state.first_entry_num = None;
        table_state.entry_count = None;
        proof {
            assert(es_goal.ok && es_goal.st == parser.pst() && es_goal.entries == entries@
                && es_goal.occupied == occupied@);
            parser.lemma_pst_bounds();
            lemma_read_entries_frame(
                data,
                endi,
                po_b.st,
                e_a,
                o_a,
                first0 as int,
                count as int,
                0,
                alw,
            );
            lemma_read_table_fuel(
                data,
                endi,
                parser.pst(),
                entries@,
                occupied@,
                (f_a - 1) as nat,
                sp_fuel(endi, parser.pst()),
                alw,
            );
        }
    }
}

} // verus!

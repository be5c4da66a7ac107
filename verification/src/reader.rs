use vstd::prelude::*;

use crate::error::Error;
use crate::stream::{spec_peek_bytes, Stream};
use crate::utils::spec_is_whitespace;
use crate::xref::{sp_resolve, XRef};

verus! {

// ---------------------------------------------------------------------------
// Bootstrapping: find `startxref` near the end of the file and read the
// decimal offset after it. The scan walks backward in overlapping windows of
// 1024 bytes (the overlap is the length of the signature), takes the first
// occurrence inside the first window that has one, skips whitespace after
// the signature, collects the run of bytes in `[0x20, 0x39]`, and reads it
// as a decimal number; anything unparsable yields zero.
// ---------------------------------------------------------------------------
/// The position of the first occurrence of `sig` in `w` at or after `k`,
/// or nothing.
pub open spec fn sp_first_from(w: Seq<u8>, sig: Seq<u8>, k: int) -> Option<int>
    decreases w.len() + 1 - k,
{
    if !(0 <= k && k + sig.len() <= w.len()) {
        None
    } else if w.subrange(k, k + sig.len()) == sig {
        Some(k)
    } else {
        sp_first_from(w, sig, k + 1)
    }
}

/// A found occurrence lies at or after where the search began, fits inside
/// the window, and matches the signature.
pub proof fn lemma_first_from(w: Seq<u8>, sig: Seq<u8>, k: int)
    ensures
        sp_first_from(w, sig, k) matches Some(m) ==> k <= m && m + sig.len() <= w.len()
            && w.subrange(m, m + sig.len()) == sig,
    decreases w.len() + 1 - k,
{
    if 0 <= k && k + sig.len() <= w.len() {
        if w.subrange(k, k + sig.len()) != sig {
            lemma_first_from(w, sig, k + 1);
        }
    }
}

/// Where `find` succeeds: the offset, within the window of `limit` bytes at
/// `p`, of the first occurrence of `sig`; nothing when the window is too
/// short or holds no occurrence.
pub open spec fn sp_find(data: Seq<u8>, end: int, p: int, sig: Seq<u8>, limit: nat) -> Option<
    int,
> {
    if p < end {
        let w = data.subrange(
            p,
            if p + limit <= end {
                p + limit
            } else {
                end
            },
        );
        if w.len() > sig.len() {
            sp_first_from(w, sig, 0)
        } else {
            None
        }
    } else {
        None
    }
}

/// The absolute position of the `startxref` signature found by the backward
/// window scan with the cursor at `pos`, or nothing.
pub open spec fn sp_scan_back(data: Seq<u8>, end: int, pos: int, sig: Seq<u8>) -> Option<int>
    decreases
            (if pos > 0 {
                pos
            } else {
                0
            }),
{
    if pos <= 0 {
        None
    } else {
        let p2 = if pos - 1015 < 0 {
            0
        } else {
            pos - 1015
        };
        match sp_find(data, end, p2, sig, 1024) {
            Some(k) => Some(p2 + k),
            None => sp_scan_back(data, end, p2, sig),
        }
    }
}

/// The first position at or after `i` holding a byte outside SPACE, TAB, CR
/// and LF, or `end`.
pub open spec fn sp_skip_sx_ws(data: Seq<u8>, end: int, i: int) -> int
    decreases end - i,
{
    if i < 0 || i >= end {
        end
    } else if spec_is_whitespace(data[i]) {
        sp_skip_sx_ws(data, end, i + 1)
    } else {
        i
    }
}

/// The run of bytes in `[0x20, 0x39]` beginning at `i`: digits with the
/// stray near-digit punctuation the scan tolerates.
pub open spec fn sp_sx_run(data: Seq<u8>, end: int, i: int) -> Seq<u8>
    decreases end - i,
{
    if i < 0 || i >= end {
        Seq::empty()
    } else if 0x20 <= data[i] && data[i] <= 0x39 {
        seq![data[i]] + sp_sx_run(data, end, i + 1)
    } else {
        Seq::empty()
    }
}

/// Every byte is a decimal digit.
pub open spec fn sp_all_digits(s: Seq<u8>) -> bool {
    forall|i: int| 0 <= i < s.len() ==> 0x30 <= #[trigger] s[i] <= 0x39
}

/// The number the digit string denotes, most significant digit first.
pub open spec fn sp_dec_num(s: Seq<u8>) -> nat
    decreases s.len(),
{
    if s.len() == 0 {
        0
    } else {
        sp_dec_num(s.drop_last()) * 10 + (s.last() - 0x30) as nat
    }
}

/// The value of a collected run, as an unsigned decimal parse reads it: an
/// optional leading `+`, then at least one digit, the value within range;
/// anything else is zero.
pub open spec fn sp_sx_value(s: Seq<u8>) -> u64 {
    let digits = if s.len() > 0 && s[0] == 0x2b {
        s.subrange(1, s.len() as int)
    } else {
        s
    };
    if digits.len() > 0 && sp_all_digits(digits) && sp_dec_num(digits) <= u64::MAX {
        sp_dec_num(digits) as u64
    } else {
        0
    }
}

/// The offset that `parse_startxref` reads from a whole file: zero when the
/// signature is not found or no number follows it.
pub open spec fn sp_parse_startxref(data: Seq<u8>, end: int) -> u64 {
    match sp_scan_back(data, end, end, sp_sxref_sig()) {
        None => 0,
        Some(k) => {
            let j = sp_skip_sx_ws(data, end, k + 9);
            if j >= end {
                0
            } else {
                sp_sx_value(sp_sx_run(data, end, j))
            }
        },
    }
}

/// The bytes of the signature `startxref`.
pub open spec fn sp_sxref_sig() -> Seq<u8> {
    seq![0x73u8, 0x74u8, 0x61u8, 0x72u8, 0x74u8, 0x78u8, 0x72u8, 0x65u8, 0x66u8]
}

/// Bootstraps a document: finds `startxref` from the end of the file and
/// reads the offset of the main xref table.
pub struct Reader {
    pub stream: Stream,
}

impl Reader {
    pub open spec fn wf(&self) -> bool {
        self.stream.wf() && self.stream@.start == 0
    }

    /// Scans the peeked window for the first occurrence of `signature` and,
    /// when found, moves the cursor to its start.
    #[verifier::loop_isolation(false)]
    pub fn find(&mut self, signature: &Vec<u8>, limit: usize) -> (found: bool)
        requires
            old(self).wf(),
            signature@.len() >= 1,
        ensures
            final(self).wf(),
            final(self).stream@.data == old(self).stream@.data,
            final(self).stream@.start == old(self).stream@.start,
            final(self).stream@.end == old(self).stream@.end,
            ({
                let m = sp_find(
                    old(self).stream@.data,
                    old(self).stream@.end,
                    old(self).stream@.pos,
                    signature@,
                    limit as nat,
                );
                match m {
                    Some(k) => found && final(self).stream@.pos == old(self).stream@.pos + k,
                    None => !found && final(self).stream@.pos == old(self).stream@.pos,
                }
            }),
    {
        let ghost m0 = sp_find(
            self.stream@.data,
            self.stream@.end,
            self.stream@.pos,
            signature@,
            limit as nat,
        );
        let scan_bytes = match self.stream.peek_bytes(limit) {
            None => {
                return false;
            },
            Some(b) => b,
        };
        proof {
            assert(scan_bytes@ == self.stream@.data.subrange(
                self.stream@.pos,
                if self.stream@.pos + (limit as nat) <= self.stream@.end {
                    self.stream@.pos + (limit as nat)
                } else {
                    self.stream@.end
                },
            ));
        }
        if scan_bytes.len() <= signature.len() {
            return false;
        }
        let scan_length = scan_bytes.len() - signature.len();
        let mut pos: usize = 0;
        while pos <= scan_length
            invariant
                old(self).wf(),
                self == old(self),
                scan_bytes@.len() > signature@.len(),
                scan_length == scan_bytes@.len() - signature@.len(),
                pos <= scan_length + 1,
                sp_first_from(scan_bytes@, signature@, 0) == sp_first_from(
                    scan_bytes@,
                    signature@,
                    pos as int,
                ),
            decreases scan_length + 1 - pos,
        {
            let mut j: usize = 0;
            while j < signature.len() && scan_bytes[pos + j] == signature[j]
                invariant
                    pos + signature@.len() <= scan_bytes@.len(),
                    j <= signature@.len(),
                    forall|u: int| 0 <= u < j ==> scan_bytes@[pos + u] == signature@[u],
                decreases signature@.len() - j,
            {
                j = j + 1;
            }
            if j >= signature.len() {
                proof {
                    assert(scan_bytes@.subrange(pos as int, pos + signature@.len()) =~= signature@);
                    assert(sp_first_from(scan_bytes@, signature@, pos as int) == Some(pos as int));
                    assert(m0 == Some(pos as int));
                }
                let base = self.stream.pos();
                self.stream.set_pos(base + pos);
                return true;
            }
            proof {
                assert(scan_bytes@[pos + j] != signature@[j as int]);
                assert(scan_bytes@.subrange(pos as int, pos + signature@.len()) != signature@) by {
                    if scan_bytes@.subrange(pos as int, pos + signature@.len()) == signature@ {
                        assert(scan_bytes@.subrange(pos as int, pos + signature@.len())[j as int]
                            == scan_bytes@[pos + j]);
                    }
                }
                assert(sp_first_from(scan_bytes@, signature@, pos as int) == sp_first_from(
                    scan_bytes@,
                    signature@,
                    pos + 1,
                ));
            }
            pos = pos + 1;
        }
        proof {
            assert(sp_first_from(scan_bytes@, signature@, pos as int) is None);
            assert(m0 is None);
        }
        false
    }
}

/// A prefix never exceeds the whole number.
proof fn lemma_dec_mono(s: Seq<u8>, m: int)
    requires
        0 <= m <= s.len(),
    ensures
        sp_dec_num(s.subrange(0, m)) <= sp_dec_num(s),
    decreases s.len() - m,
{
    if m < s.len() {
        lemma_dec_mono(s, m + 1);
        assert(s.subrange(0, m + 1).drop_last() =~= s.subrange(0, m));
        assert(sp_dec_num(s.subrange(0, m + 1)) == sp_dec_num(s.subrange(0, m)) * 10 + (s.subrange(
            0,
            m + 1,
        ).last() - 0x30) as nat);
    } else {
        assert(s.subrange(0, m) =~= s);
    }
}

/// The decimal value of a collected run, exactly as an unsigned 64-bit
/// parse reads it: an optional `+`, then digits; out of range or anything
/// else is zero.
#[verifier::loop_isolation(false)]
fn sx_value(buf: &Vec<u8>) -> (r: u64)
    ensures
        r == sp_sx_value(buf@),
{
    let ghost whole = buf@;
    let start: usize = if buf.len() > 0 && buf[0] == 0x2b {
        1
    } else {
        0
    };
    let ghost digits = if whole.len() > 0 && whole[0] == 0x2b {
        whole.subrange(1, whole.len() as int)
    } else {
        whole
    };
    if buf.len() == start {
        proof {
            assert(digits.len() == 0);
        }
        return 0;
    }
    let mut acc: u64 = 0;
    let mut i: usize = start;
    proof {
        assert(digits.subrange(0, 0) =~= Seq::<u8>::empty());
    }
    while i < buf.len()
        invariant
            start <= i <= buf@.len(),
            acc as nat == sp_dec_num(digits.subrange(0, i - start)),
            sp_all_digits(digits.subrange(0, i - start)),
        decreases buf@.len() - i,
    {
        let c = buf[i];
        if !(0x30 <= c && c <= 0x39) {
            proof {
                assert(digits[i - start] == c);
                assert(!sp_all_digits(digits));
            }
            return 0;
        }
        let ghost pre = digits.subrange(0, i - start);
        proof {
            assert(digits.subrange(0, i + 1 - start).drop_last() =~= pre);
            assert(digits.subrange(0, i + 1 - start).last() == c);
        }
        let d = (c - 0x30) as u64;
        acc = match acc.checked_mul(10) {
            None => {
                proof {
                    lemma_dec_mono(digits, i + 1 - start);
                }
                return 0;
            },
            Some(x) => match x.checked_add(d) {
                None => {
                    proof {
                        lemma_dec_mono(digits, i + 1 - start);
                    }
                    return 0;
                },
                Some(y) => y,
            },
        };
        i = i + 1;
    }
    proof {
        assert(digits.subrange(0, buf@.len() - start) =~= digits);
    }
    acc
}

impl Reader {
    /// Skips SPACE, TAB, CR and LF and consumes the first byte outside them;
    /// nothing when the input ends first.
    fn sx_skip_ws(&mut self) -> (r: Option<u8>)
        requires
            old(self).wf(),
        ensures
            final(self).wf(),
            final(self).stream@.data == old(self).stream@.data,
            final(self).stream@.start == old(self).stream@.start,
            final(self).stream@.end == old(self).stream@.end,
            ({
                let j = sp_skip_sx_ws(
                    old(self).stream@.data,
                    old(self).stream@.end,
                    old(self).stream@.pos,
                );
                match r {
                    Some(c) => old(self).stream@.pos <= j < old(self).stream@.end && c == old(
                        self,
                    ).stream@.data[j] && final(self).stream@.pos == j + 1,
                    None => j == old(self).stream@.end && final(self).stream@.pos == j,
                }
            }),
        decreases old(self).stream@.end - old(self).stream@.pos,
    {
        match self.stream.get_byte() {
            None => None,
            Some(c) => {
                if c == 0x20 || c == 0x09 || c == 0x0d || c == 0x0a {
                    self.sx_skip_ws()
                } else {
                    Some(c)
                }
            },
        }
    }

    /// Collects the run of bytes in `[0x20, 0x39]` whose first byte `c`,
    /// taken from position `i`, is already consumed.
    fn sx_run(&mut self, c: u8, buf: &mut Vec<u8>, Ghost(i): Ghost<int>) -> (r: ())
        requires
            old(self).wf(),
            0 <= i < old(self).stream@.end,
            old(self).stream@.data[i] == c,
            old(self).stream@.pos == i + 1,
        ensures
            final(self).wf(),
            final(self).stream@.data == old(self).stream@.data,
            final(self).stream@.start == old(self).stream@.start,
            final(self).stream@.end == old(self).stream@.end,
            final(buf)@ == old(buf)@ + sp_sx_run(old(self).stream@.data, old(self).stream@.end, i),
        decreases old(self).stream@.end - old(self).stream@.pos,
    {
        if !(0x20 <= c && c <= 0x39) {
            proof {
                assert(old(buf)@ + sp_sx_run(self.stream@.data, self.stream@.end, i) =~= buf@);
            }
            return ;
        }
        buf.push(c);
        let ghost data = self.stream@.data;
        let ghost end = self.stream@.end;
        match self.stream.get_byte() {
            None => {
                proof {
                    assert(sp_sx_run(data, end, i + 1) =~= Seq::<u8>::empty());
                    assert(old(buf)@ + sp_sx_run(data, end, i) =~= buf@);
                }
            },
            Some(c2) => {
                self.sx_run(c2, buf, Ghost(i + 1));
                proof {
                    assert(old(buf)@ + sp_sx_run(data, end, i) =~= old(buf)@.push(c) + sp_sx_run(
                        data,
                        end,
                        i + 1,
                    ));
                }
            },
        }
    }

    /// Finds `startxref` scanning backward from the end of the file in
    /// overlapping windows, then reads the decimal offset after it. A missing
    /// signature or an unparsable number yields zero.
    #[verifier::loop_isolation(false)]
    pub fn parse_startxref(&mut self) -> (r: u64)
        requires
            old(self).wf(),
        ensures
            final(self).wf(),
            final(self).stream@.data == old(self).stream@.data,
            final(self).stream@.start == old(self).stream@.start,
            final(self).stream@.end == old(self).stream@.end,
            r == sp_parse_startxref(old(self).stream@.data, old(self).stream@.end),
    {
        let ghost data = self.stream@.data;
        let ghost endi = self.stream@.end;
        let mut sig: Vec<u8> = Vec::new();
        sig.push(0x73);
        sig.push(0x74);
        sig.push(0x61);
        sig.push(0x72);
        sig.push(0x74);
        sig.push(0x78);
        sig.push(0x72);
        sig.push(0x65);
        sig.push(0x66);
        proof {
            assert(sig@ =~= sp_sxref_sig());
        }
        let end = self.stream.end();
        let mut found = false;
        let mut pos: usize = end;
        while !found && pos > 0
            invariant
                self.wf(),
                self.stream@.data == data,
                self.stream@.end == endi,
                pos <= end,
                sig@ == sp_sxref_sig(),
                !found ==> sp_scan_back(data, endi, endi, sig@) == sp_scan_back(
                    data,
                    endi,
                    pos as int,
                    sig@,
                ),
                found ==> sp_scan_back(data, endi, endi, sig@) == Some(self.stream@.pos),
                found ==> self.stream@.pos + 9 <= endi,
            decreases pos,
        {
            let p2: usize = if pos >= 1015 {
                pos - 1015
            } else {
                0
            };
            self.stream.set_pos(p2);
            found = self.find(&sig, 1024);
            proof {
                let m = sp_find(data, endi, p2 as int, sig@, 1024);
                if found {
                    let w = data.subrange(
                        p2 as int,
                        if p2 + 1024 <= endi {
                            p2 + 1024
                        } else {
                            endi
                        },
                    );
                    let k = m->Some_0;
                    lemma_first_from(w, sig@, 0);
                    assert(k + 9 <= w.len());
                    assert(w.len() <= endi - p2);
                    assert(self.stream@.pos == p2 + k);
                    assert(sp_scan_back(data, endi, pos as int, sig@) == Some(p2 + k));
                } else {
                    assert(m is None);
                    assert(sp_scan_back(data, endi, pos as int, sig@) == sp_scan_back(
                        data,
                        endi,
                        p2 as int,
                        sig@,
                    ));
                }
            }
            pos = p2;
        }
        if !found {
            return 0;
        }
        self.stream.skip(9);
        let ghost sx_start = self.stream@.pos;
        let ch = match self.sx_skip_ws() {
            None => {
                return 0;
            },
            Some(c) => c,
        };
        let ghost j = sp_skip_sx_ws(data, endi, sx_start);
        let mut digits: Vec<u8> = Vec::new();
        self.sx_run(ch, &mut digits, Ghost(j));
        proof {
            assert(digits@ =~= sp_sx_run(data, endi, j));
        }
        sx_value(&digits)
    }

    /// Bootstraps from the start of the file: rewinds and locates the main
    /// xref table's offset.
    pub fn parse(&mut self) -> (r: u64)
        requires
            old(self).wf(),
        ensures
            final(self).wf(),
            final(self).stream@.data == old(self).stream@.data,
            final(self).stream@.start == old(self).stream@.start,
            final(self).stream@.end == old(self).stream@.end,
            r == sp_parse_startxref(old(self).stream@.data, old(self).stream@.end),
    {
        self.stream.reset();
        self.parse_startxref()
    }
}

/// A document loaded into memory: the resolved cross-reference table and
/// the trailer of its newest revision.
pub struct PdfDocument {
    pub xref: XRef,
}

impl PdfDocument {
    /// Loads a document from bytes already in memory: locates `startxref`
    /// from the end of the buffer and resolves the revision chain at the
    /// offset it names.
    pub fn load_data(data: Vec<u8>) -> (r: Result<PdfDocument, Error>)
        ensures
            ({
                let sx = sp_parse_startxref(data@, data@.len() as int);
                let res = sp_resolve(
                    data@,
                    data@.len() as int,
                    seq![sx],
                    Set::empty(),
                    Seq::empty(),
                    Seq::empty(),
                    None,
                );
                match r {
                    Ok(doc) => res == Some((doc.xref.entries_v(), doc.xref.trailer_v())),
                    Err(e) => (e is ParserError || e is InvalidFile) && res is None,
                }
            }),
    {
        let stream = Stream::from_vec(data);
        let mut reader = Reader { stream };
        let start_xref = reader.parse_startxref();
        match XRef::parse(reader.stream, start_xref, None) {
            Ok(xref) => Ok(PdfDocument { xref }),
            Err(e) => Err(e),
        }
    }
}

} // verus!

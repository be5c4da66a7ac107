use vstd::prelude::*;

verus! {

/// Whitespace in the narrow sense used by `startxref` scanning:
/// SPACE, TAB, CR or LF.
pub open spec fn spec_is_whitespace(ch: u8) -> bool {
    ch == 0x20 || ch == 0x09 || ch == 0x0d || ch == 0x0a
}

/// Checks whether `ch` is one of SPACE, TAB, CR or LF.
pub fn is_whitespace(ch: u8) -> (r: bool)
    ensures
        r == spec_is_whitespace(ch),
{
    ch == 0x20 || ch == 0x09 || ch == 0x0d || ch == 0x0a
}

/// An owned copy of a byte buffer.
pub fn clone_bytes(v: &Vec<u8>) -> (r: Vec<u8>)
    ensures
        r@ == v@,
{
    let mut out: Vec<u8> = Vec::new();
    let mut i: usize = 0;
    while i < v.len()
        invariant
            i <= v@.len(),
            out@ == v@.subrange(0, i as int),
        decreases v@.len() - i,
    {
        out.push(v[i]);
        i = i + 1;
        proof {
            assert(out@ =~= v@.subrange(0, i as int));
        }
    }
    proof {
        assert(out@ =~= v@);
    }
    out
}

/// Whether two byte buffers hold the same bytes.
pub fn bytes_eq(a: &Vec<u8>, b: &Vec<u8>) -> (r: bool)
    ensures
        r == (a@ == b@),
{
    if a.len() != b.len() {
        return false;
    }
    let mut i: usize = 0;
    while i < a.len()
        invariant
            a@.len() == b@.len(),
            i <= a@.len(),
            forall|k: int| 0 <= k < i ==> a@[k] == b@[k],
        decreases a@.len() - i,
    {
        if a[i] != b[i] {
            return false;
        }
        i = i + 1;
    }
    proof {
        assert(a@ =~= b@);
    }
    true
}

} // verus!

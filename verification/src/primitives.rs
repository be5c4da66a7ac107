use vstd::prelude::*;

use vstd::string::StringSliceAdditionalSpecFns;

use crate::utils::{bytes_eq, clone_bytes};

verus! {

broadcast use vstd::std_specs::vec::group_vec_axioms;

/// An exact decimal value `num * 10^exp10` produced by the number lexer when
/// the value has a non-zero fractional part. The lexer emits it in canonical
/// form: `exp10 <= 0`, and when `exp10 < 0` the mantissa is not a multiple of
/// ten (otherwise the value would have been classified as an integer).
#[derive(Debug, Clone, Copy, PartialEq, Eq, Structural)]
pub struct RealVal {
    pub num: i64,
    pub exp10: i64,
}

/// A PDF name after `#xx` hex-escape resolution.
#[derive(Debug, Clone)]
pub struct Name(pub Vec<u8>);

/// An indirect reference `⟨object-number⟩ ⟨generation⟩ R`.
#[derive(Debug, Clone, Copy, PartialEq, Eq, Structural)]
pub struct Ref(pub u32, pub u16);

/// An unstructured keyword or delimiter token, interpreted by context.
#[derive(Debug, Clone)]
pub struct Cmd(pub Vec<u8>);

/// A mapping from names to primitives; a duplicate key overwrites
/// (last write wins). Key order is not significant.
#[derive(Debug)]
pub struct Dictionary(Vec<(Name, Primitives)>);

/// A PDF primitive: the durable, caller-owned output of the object parser.
/// The lexer produces the scalar subset (everything but `Array`, `Dict`,
/// `Ref` and `Null`) as transient tokens.
#[derive(Debug)]
pub enum Primitives {
    Null,
    Int(i64),
    Str(Vec<u8>),
    HexStr(Vec<u8>),
    Real(RealVal),
    Name(Name),
    Array(Vec<Primitives>),
    Dict(Dictionary),
    Ref(Ref),
    Cmd(Cmd),
    EOF,
}

/// The mathematical abstraction of a primitive: byte vectors become
/// sequences, arrays become sequences of abstractions, dictionaries become
/// maps from name bytes to abstractions.
pub ghost enum PrimV {
    Null,
    Int(i64),
    Str(Seq<u8>),
    HexStr(Seq<u8>),
    Real(RealVal),
    Name(Seq<u8>),
    Array(Seq<PrimV>),
    Dict(Map<Seq<u8>, PrimV>),
    Ref(u32, u16),
    Cmd(Seq<u8>),
    EOF,
}

/// The map described by an association sequence where a later pair
/// overwrites an earlier pair with the same key.
pub open spec fn assoc_map(s: Seq<(Seq<u8>, PrimV)>) -> Map<Seq<u8>, PrimV>
    decreases s.len(),
{
    if s.len() == 0 {
        Map::empty()
    } else {
        assoc_map(s.drop_last()).insert(s.last().0, s.last().1)
    }
}

impl DeepView for Name {
    type V = Seq<u8>;

    open spec fn deep_view(&self) -> Seq<u8> {
        self.0@
    }
}

impl DeepView for Cmd {
    type V = Seq<u8>;

    open spec fn deep_view(&self) -> Seq<u8> {
        self.0@
    }
}

impl Dictionary {
    /// The stored pairs themselves, newest insertion last.
    pub closed spec fn entries(self) -> Seq<(Name, Primitives)> {
        self.0@
    }

    /// The underlying association sequence, newest insertion last.
    pub closed spec fn entries_view(self) -> Seq<(Seq<u8>, PrimV)>
        decreases self, 0int,
    {
        Seq::new(
            self.0@.len(),
            |i: int|
                if 0 <= i < self.0@.len() {
                    (self.0@[i].0.0@, self.0@[i].1.pv())
                } else {
                    (Seq::<u8>::empty(), PrimV::Null)
                },
        )
    }

    /// The map a dictionary denotes.
    pub open spec fn pv(self) -> Map<Seq<u8>, PrimV>
        decreases self, 1int,
    {
        assoc_map(self.entries_view())
    }
}

impl Dictionary {
    /// The keys are pairwise distinct; constructors establish this and
    /// `insert` preserves it.
    pub open spec fn wf(&self) -> bool {
        forall|i: int, j: int|
            0 <= i < j < self.entries_view().len() ==> self.entries_view()[i].0
                != self.entries_view()[j].0
    }

    pub fn new() -> (d: Dictionary)
        ensures
            d.pv() == Map::<Seq<u8>, PrimV>::empty(),
            d.wf(),
            d.entries_view().len() == 0,
    {
        Dictionary(Vec::new())
    }

    /// Binds `key` to `value`; a duplicate key overwrites (last write wins).
    /// Returns whether the key was already bound.
    pub fn insert(&mut self, key: Name, value: Primitives) -> (dup: bool)
        ensures
            final(self).pv() == old(self).pv().insert(key.0@, value.pv()),
            dup == old(self).pv().contains_key(key.0@),
            final(self).entries_view() == old(self).entries_view().push((key.0@, value.pv())),
    {
        let dup = self.contains_key(&key.0);
        let ghost pre = self.entries_view();
        let ghost kv = key.0@;
        let ghost vv = value.pv();
        self.0.push((key, value));
        proof {
            assert(self.entries_view() =~= pre.push((kv, vv)));
            assert(self.entries_view().drop_last() =~= pre);
        }
        dup
    }

    /// Whether `key` is bound.
    #[verifier::loop_isolation(false)]
    pub fn contains_key(&self, key: &Vec<u8>) -> (r: bool)
        ensures
            r == self.pv().contains_key(key@),
    {
        proof {
            lemma_assoc_map_find(self.entries_view(), key@);
            assert(self.entries_view().subrange(0, self.0@.len() as int) =~= self.entries_view());
        }
        let mut i: usize = self.0.len();
        while i > 0
            invariant
                i <= self.0@.len(),
                self.entries_view().len() == self.0@.len(),
                assoc_find(self.entries_view(), key@) == assoc_find(
                    self.entries_view().subrange(0, i as int),
                    key@,
                ),
            decreases i,
        {
            i = i - 1;
            let ghost prefix = self.entries_view().subrange(0, i + 1);
            proof {
                assert(prefix.last() == self.entries_view()[i as int]);
                assert(prefix.drop_last() =~= self.entries_view().subrange(0, i as int));
            }
            if bytes_eq(&self.0[i].0.0, key) {
                proof {
                    assert(self.entries_view()[i as int].0 == key@);
                    assert(assoc_find(prefix, key@) == i as int);
                    assert(assoc_find(self.entries_view(), key@) == i as int);
                    assert(assoc_map(self.entries_view()).contains_key(key@));
                    assert(self.pv() == assoc_map(self.entries_view()));
                }
                return true;
            }
        }
        proof {
            assert(self.entries_view().subrange(0, 0) =~= Seq::<(Seq<u8>, PrimV)>::empty());
        }
        false
    }

    /// The value bound to `key`, or nothing.
    #[verifier::loop_isolation(false)]
    pub fn get(&self, key: &Vec<u8>) -> (r: Option<&Primitives>)
        ensures
            match r {
                Some(p) => self.pv().contains_key(key@) && p.pv() == self.pv()[key@],
                None => !self.pv().contains_key(key@),
            },
    {
        proof {
            lemma_assoc_map_find(self.entries_view(), key@);
            assert(self.entries_view().subrange(0, self.0@.len() as int) =~= self.entries_view());
        }
        let mut i: usize = self.0.len();
        while i > 0
            invariant
                i <= self.0@.len(),
                self.entries_view().len() == self.0@.len(),
                assoc_find(self.entries_view(), key@) == assoc_find(
                    self.entries_view().subrange(0, i as int),
                    key@,
                ),
            decreases i,
        {
            i = i - 1;
            let ghost prefix = self.entries_view().subrange(0, i + 1);
            proof {
                assert(prefix.last() == self.entries_view()[i as int]);
                assert(prefix.drop_last() =~= self.entries_view().subrange(0, i as int));
            }
            if bytes_eq(&self.0[i].0.0, key) {
                proof {
                    assert(self.entries_view()[i as int].0 == key@);
                    assert(assoc_find(prefix, key@) == i as int);
                    assert(assoc_find(self.entries_view(), key@) == i as int);
                    assert(assoc_map(self.entries_view()).contains_key(key@));
                    assert(self.pv() == assoc_map(self.entries_view()));
                    assert(self.entries_view()[i as int].1 == self.0@[i as int].1.pv());
                }
                return Some(&self.0[i].1);
            }
        }
        proof {
            assert(self.entries_view().subrange(0, 0) =~= Seq::<(Seq<u8>, PrimV)>::empty());
        }
        None
    }
}

/// The value of an optional primitive, for speaking of lookahead buffers.
pub open spec fn opt_pv(t: Option<Primitives>) -> Option<PrimV> {
    match t {
        Some(p) => Some(p.pv()),
        None => None,
    }
}

/// The index of the last pair with key `k`, or a negative number when the
/// key is absent.
pub open spec fn assoc_find(s: Seq<(Seq<u8>, PrimV)>, k: Seq<u8>) -> int
    decreases s.len(),
{
    if s.len() == 0 {
        -1
    } else if s.last().0 == k {
        s.len() - 1
    } else {
        assoc_find(s.drop_last(), k)
    }
}

/// The association map holds exactly the keys of the sequence, each bound to
/// the value of its last pair with that key.
pub proof fn lemma_assoc_map_find(s: Seq<(Seq<u8>, PrimV)>, k: Seq<u8>)
    ensures
        assoc_map(s).contains_key(k) <==> assoc_find(s, k) >= 0,
        assoc_find(s, k) >= 0 ==> {
            &&& assoc_find(s, k) < s.len()
            &&& s[assoc_find(s, k)].0 == k
            &&& assoc_map(s)[k] == s[assoc_find(s, k)].1
        },
    decreases s.len(),
{
    if s.len() > 0 {
        lemma_assoc_map_find(s.drop_last(), k);
    }
}

/// An owned copy of a primitive with the same mathematical value.
#[verifier::loop_isolation(false)]
pub fn clone_primitive(p: &Primitives) -> (r: Primitives)
    ensures
        r.pv() == p.pv(),
    decreases *p,
{
    match p {
        Primitives::Null => Primitives::Null,
        Primitives::Int(n) => Primitives::Int(*n),
        Primitives::Str(b) => Primitives::Str(clone_bytes(b)),
        Primitives::HexStr(b) => Primitives::HexStr(clone_bytes(b)),
        Primitives::Real(v) => Primitives::Real(*v),
        Primitives::Name(n) => Primitives::Name(Name(clone_bytes(&n.0))),
        Primitives::Array(a) => {
            let mut out: Vec<Primitives> = Vec::new();
            let mut i: usize = 0;
            while i < a.len()
                invariant
                    i <= a@.len(),
                    out@.len() == i as int,
                    forall|k: int| 0 <= k < i ==> #[trigger] out@[k].pv() == a@[k].pv(),
                decreases a@.len() - i,
            {
                let q = clone_primitive(&a[i]);
                out.push(q);
                i = i + 1;
            }
            let rp = Primitives::Array(out);
            proof {
                assert forall|k: int| 0 <= k < out@.len() implies arr_pv(out@)[k] == arr_pv(a@)[k] by {
                    assert(arr_pv(out@)[k] == out@[k].pv());
                    assert(arr_pv(a@)[k] == a@[k].pv());
                }
                assert(arr_pv(out@) =~= arr_pv(a@));
            }
            rp
        },
        Primitives::Dict(d) => {
            let mut out: Vec<(Name, Primitives)> = Vec::new();
            let mut i: usize = 0;
            while i < d.0.len()
                invariant
                    i <= d.0@.len(),
                    out@.len() == i as int,
                    forall|k: int|
                        0 <= k < i ==> (#[trigger] out@[k]).0.0@ == d.0@[k].0.0@ && out@[k].1.pv()
                            == d.0@[k].1.pv(),
                decreases d.0@.len() - i,
            {
                let nm = Name(clone_bytes(&d.0[i].0.0));
                let q = clone_primitive(&d.0[i].1);
                out.push((nm, q));
                i = i + 1;
            }
            let nd = Dictionary(out);
            proof {
                assert(nd.entries_view() =~= d.entries_view());
            }
            Primitives::Dict(nd)
        },
        Primitives::Ref(v) => Primitives::Ref(*v),
        Primitives::Cmd(c) => Primitives::Cmd(Cmd(clone_bytes(&c.0))),
        Primitives::EOF => Primitives::EOF,
    }
}

impl Primitives {
    /// The mathematical value of a primitive.
    pub open spec fn pv(self) -> PrimV
        decreases self, 2int,
    {
        match self {
            Primitives::Null => PrimV::Null,
            Primitives::Int(n) => PrimV::Int(n),
            Primitives::Str(b) => PrimV::Str(b@),
            Primitives::HexStr(b) => PrimV::HexStr(b@),
            Primitives::Real(r) => PrimV::Real(r),
            Primitives::Name(n) => PrimV::Name(n.0@),
            Primitives::Array(a) => PrimV::Array(arr_pv(a@)),
            Primitives::Dict(d) => PrimV::Dict(d.pv()),
            Primitives::Ref(r) => PrimV::Ref(r.0, r.1),
            Primitives::Cmd(c) => PrimV::Cmd(c.0@),
            Primitives::EOF => PrimV::EOF,
        }
    }
}

impl Primitives {
    /// A command token over the bytes of `cmd`.
    pub fn cmd(cmd: &str) -> (r: Primitives)
        ensures
            r.pv() == PrimV::Cmd(cmd.spec_bytes()),
    {
        Primitives::Cmd(Cmd(vstd::slice::slice_to_vec(cmd.as_bytes())))
    }

    /// A name token over `bytes`.
    pub fn name(bytes: Vec<u8>) -> (r: Primitives)
        ensures
            r.pv() == PrimV::Name(bytes@),
    {
        Primitives::Name(Name(bytes))
    }

    /// Whether this is the command whose bytes spell `cmd`.
    #[verifier::loop_isolation(false)]
    pub fn is_cmd(&self, cmd: &str) -> (r: bool)
        ensures
            r == (self.pv() == PrimV::Cmd(cmd.spec_bytes())),
    {
        match self {
            Primitives::Cmd(c) => {
                let b = cmd.as_bytes();
                if c.0.len() != b.len() {
                    return false;
                }
                let mut i: usize = 0;
                while i < b.len()
                    invariant
                        c.0@.len() == b@.len(),
                        i <= b@.len(),
                        b@ == cmd.spec_bytes(),
                        forall|k: int| 0 <= k < i ==> c.0@[k] == b@[k],
                    decreases b@.len() - i,
                {
                    if c.0[i] != b[i] {
                        proof {
                            assert(c.0@[i as int] != cmd.spec_bytes()[i as int]);
                        }
                        return false;
                    }
                    i = i + 1;
                }
                proof {
                    assert(c.0@ =~= cmd.spec_bytes());
                }
                true
            },
            _ => false,
        }
    }

    pub fn is_dict(&self) -> (r: bool)
        ensures
            r == (self.pv() is Dict),
    {
        match self {
            Primitives::Dict(_) => true,
            _ => false,
        }
    }

    pub fn is_name(&self) -> (r: bool)
        ensures
            r == (self.pv() is Name),
    {
        match self {
            Primitives::Name(_) => true,
            _ => false,
        }
    }

    pub fn is_integer(&self) -> (r: bool)
        ensures
            r == (self.pv() is Int),
    {
        match self {
            Primitives::Int(_) => true,
            _ => false,
        }
    }

    pub fn is_string(&self) -> (r: bool)
        ensures
            r == (self.pv() is Str),
    {
        match self {
            Primitives::Str(_) => true,
            _ => false,
        }
    }

    /// The dictionary inside, consumed, or nothing.
    pub fn get_dict(self) -> (r: Option<Dictionary>)
        ensures
            match r {
                Some(d) => self.pv() == PrimV::Dict(d.pv()),
                None => !(self.pv() is Dict),
            },
    {
        match self {
            Primitives::Dict(d) => Some(d),
            _ => None,
        }
    }

    /// The bytes of a command, or nothing.
    pub fn get_cmd(&self) -> (r: Option<&Vec<u8>>)
        ensures
            match r {
                Some(b) => self.pv() == PrimV::Cmd(b@),
                None => !(self.pv() is Cmd),
            },
    {
        match self {
            Primitives::Cmd(c) => Some(&c.0),
            _ => None,
        }
    }

    /// The integer inside, or nothing.
    pub fn get_integer(&self) -> (r: Option<i64>)
        ensures
            match r {
                Some(n) => self.pv() == PrimV::Int(n),
                None => !(self.pv() is Int),
            },
    {
        match self {
            Primitives::Int(n) => Some(*n),
            _ => None,
        }
    }

    /// The bytes of a literal string, or nothing.
    pub fn get_str(&self) -> (r: Option<&Vec<u8>>)
        ensures
            match r {
                Some(b) => self.pv() == PrimV::Str(b@),
                None => !(self.pv() is Str),
            },
    {
        match self {
            Primitives::Str(b) => Some(b),
            _ => None,
        }
    }

    /// The bytes of a hex string, or nothing.
    pub fn get_hexstr(&self) -> (r: Option<&Vec<u8>>)
        ensures
            match r {
                Some(b) => self.pv() == PrimV::HexStr(b@),
                None => !(self.pv() is HexStr),
            },
    {
        match self {
            Primitives::HexStr(b) => Some(b),
            _ => None,
        }
    }
}

/// The mathematical values of a sequence of primitives.
pub open spec fn arr_pv(s: Seq<Primitives>) -> Seq<PrimV>
    decreases s, 0int,
{
    Seq::new(s.len(), |i: int| if 0 <= i < s.len() { s[i].pv() } else { PrimV::Null })
}

} // verus!

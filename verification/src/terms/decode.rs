//! Deserialisation of wire bytes back into terms.
//!
//! The decoder's meaning is given by a specification-level decoder
//! ([`sd_term`]) that reads the same tagged layouts the encoder writes;
//! the executable decoder is verified to return exactly what the
//! specification decoder names, including the two disambiguation
//! heuristics for byte lists.

use vstd::prelude::*;
use vstd::arithmetic::div_mod::lemma_mod_add_multiples_vanish;
use vstd::arithmetic::div_mod::lemma_small_mod;
use vstd::utf8::decode_utf8;
use vstd::utf8::encode_utf8;
use vstd::utf8::valid_utf8;

use crate::error::Error;
use crate::terms::EAtom;
use crate::terms::EBinary;
use crate::terms::EExport;
use crate::terms::EFloat;
use crate::terms::EInteger;
use crate::terms::EList;
use crate::terms::EMap;
use crate::terms::ENil;
use crate::terms::ENonProperList;
use crate::terms::EPid;
use crate::terms::EPort;
use crate::terms::EString;
use crate::terms::ETuple;
use crate::terms::Term;
use crate::terms::TermTag;
use crate::terms::TermV;
use crate::terms::canonical_bytes;
use crate::terms::encode::abs_nat;
use crate::terms::encode::atom_wire;
use crate::terms::encode::be_bytes;
use crate::terms::encode::byte_elems_wire;
use crate::terms::encode::elems_wire;
use crate::terms::encode::int_v;
use crate::terms::encode::int_wire;
use crate::terms::encode::le_value;
use crate::terms::encode::lemma_pair_views_index;
use crate::terms::encode::lemma_pair_views_push;
use crate::terms::encode::lemma_pow256_mono;
use crate::terms::encode::lemma_pow256_pos;
use crate::terms::encode::lemma_term_views_index;
use crate::terms::encode::lemma_term_views_push;
use crate::terms::encode::magnitude_bytes_u128;
use crate::terms::encode::min_le_bytes;
use crate::terms::encode::pairs_wire;
use crate::terms::encode::pow256;
use crate::terms::encode::sign_byte;
use crate::terms::encode::trim_bytes;
use crate::terms::encode::trimmed_len;
use crate::terms::encode::wire;
use crate::terms::float_finite;
use crate::terms::pair_views;
use crate::terms::term_view;
use crate::terms::term_views;

verus! {

/// The two decode-time disambiguation switches of the format, which is
/// ambiguous by design about byte lists.
#[derive(Debug, PartialEq, Eq, Clone, Copy)]
pub struct DecodeOptions {
    /// When true, the byte-list layout (tag 107) is decoded as a list of
    /// small-integer terms, one per byte; when false it is decoded as one
    /// text term.
    pub read_string_ext_as_list: bool,
    /// When true, a generic list whose elements are all byte-range
    /// integers and whose tail is `Nil` is decoded as one text term; when
    /// false it is decoded as the list that is on the wire.
    pub try_read_list_ext_as_estring: bool,
}

impl Default for DecodeOptions {
    /// The default favours reading the byte-list layout as text, and
    /// keeps the optimistic list-as-text reading switched on.
    fn default() -> (r: DecodeOptions)
        ensures
            !r.read_string_ext_as_list,
            r.try_read_list_ext_as_estring,
    {
        DecodeOptions { read_string_ext_as_list: false, try_read_list_ext_as_estring: true }
    }
}

/// What decoding one term at a position yields: a term and the position
/// just after it, or the input ended too early, or the bytes are not a
/// term.
pub ghost enum TermOutcome {
    Found { t: TermV, next: int },
    Short,
    Invalid,
}

/// What decoding a counted run of terms yields.
pub ghost enum SeqOutcome {
    Found { ts: Seq<TermV>, next: int },
    Short,
    Invalid,
}

/// What decoding a counted run of key/value pairs yields.
pub ghost enum PairsOutcome {
    Found { ps: Seq<(TermV, TermV)>, next: int },
    Short,
    Invalid,
}

/// The value of `w` bytes at a position, most significant first.
pub open spec fn be_at(b: Seq<u8>, i: int, w: int) -> nat
    decreases w,
{
    if w <= 0 {
        0
    } else {
        (be_at(b, i, w - 1) * 256 + b[i + w - 1]) as nat
    }
}

/// The term denoted by one unsigned byte: zero has an empty magnitude.
pub open spec fn byte_term(v: u8) -> TermV {
    TermV::Integer {
        negative: false,
        magnitude: if v == 0 {
            Seq::empty()
        } else {
            seq![v]
        },
    }
}

/// True for an integer term holding an unsigned byte value.
pub open spec fn is_byte_term(t: TermV) -> bool {
    match t {
        TermV::Integer { negative, magnitude } => !negative && magnitude.len() <= 1,
        _ => false,
    }
}

/// The byte value of a byte-range integer term.
pub open spec fn term_byte(t: TermV) -> u8 {
    match t {
        TermV::Integer { magnitude, .. } => if magnitude.len() == 0 {
            0
        } else {
            magnitude[0]
        },
        _ => 0,
    }
}

/// True when every term of the sequence is a byte-range integer.
pub open spec fn all_byte_terms(ts: Seq<TermV>) -> bool {
    forall|i: int| 0 <= i < ts.len() ==> is_byte_term(#[trigger] ts[i])
}

/// The byte values of a sequence of byte-range integer terms.
pub open spec fn bytes_of_terms(ts: Seq<TermV>) -> Seq<u8> {
    Seq::new(ts.len(), |i: int| term_byte(ts[i]))
}

/// One byte-range integer term per byte.
pub open spec fn byte_terms_of(b: Seq<u8>) -> Seq<TermV> {
    Seq::new(b.len(), |i: int| byte_term(b[i]))
}

/// The characters of Latin-1 bytes: each byte is one character.
pub open spec fn latin1_chars(b: Seq<u8>) -> Seq<char> {
    Seq::new(b.len(), |i: int| (b[i] as u32) as char)
}

/// The canonical integer term of a sign byte and wire magnitude bytes:
/// high zero bytes are dropped, and zero is never negative.
pub open spec fn big_term(neg: bool, data: Seq<u8>) -> TermV {
    let m = trim_bytes(data);
    TermV::Integer { negative: neg && m.len() > 0, magnitude: m }
}

/// The canonical integer term of a 32-bit two's-complement value.
pub open spec fn int32_term(u: nat) -> TermV {
    if u >= 0x8000_0000 {
        TermV::Integer { negative: true, magnitude: min_le_bytes((0x1_0000_0000 - u) as nat) }
    } else {
        TermV::Integer { negative: false, magnitude: min_le_bytes(u) }
    }
}

/// The specification decoder for one term: reads the tag byte at the
/// position and the layout it names, recursing for child terms.  `Short`
/// reports that the input ended inside the term; `Invalid` that the bytes
/// name no decodable layout.  Bounds that hold of every decode (a found
/// term always advances the position and stays inside the input) are
/// checked as guards here and established separately.
pub open spec fn sd_term(b: Seq<u8>, i: int, o: DecodeOptions) -> TermOutcome
    decreases b.len() - i, 0int,
{
    if i < 0 || i >= b.len() {
        TermOutcome::Short
    } else {
        let tag = b[i];
        if tag == 97 {
            // SmallInteger
            if i + 2 <= b.len() {
                TermOutcome::Found { t: byte_term(b[i + 1]), next: i + 2 }
            } else {
                TermOutcome::Short
            }
        } else if tag == 98 {
            // Integer, four bytes, two's complement
            if i + 5 <= b.len() {
                TermOutcome::Found { t: int32_term(be_at(b, i + 1, 4) % 0x1_0000_0000), next: i + 5 }
            } else {
                TermOutcome::Short
            }
        } else if tag == 70 {
            // NewFloat: eight raw IEEE-754 bytes
            if i + 9 <= b.len() {
                TermOutcome::Found {
                    t: TermV::Float((be_at(b, i + 1, 8) % 0x1_0000_0000_0000_0000) as u64),
                    next: i + 9,
                }
            } else {
                TermOutcome::Short
            }
        } else if tag == 106 {
            // Nil
            TermOutcome::Found { t: TermV::Nil, next: i + 1 }
        } else if tag == 110 {
            // SmallBig
            if i + 3 <= b.len() {
                let len = b[i + 1] as int;
                if i + 3 + len <= b.len() {
                    TermOutcome::Found {
                        t: big_term(b[i + 2] != 0, b.subrange(i + 3, i + 3 + len)),
                        next: i + 3 + len,
                    }
                } else {
                    TermOutcome::Short
                }
            } else {
                TermOutcome::Short
            }
        } else if tag == 111 {
            // LargeBig
            if i + 6 <= b.len() {
                let len = be_at(b, i + 1, 4) as int;
                if i + 6 + len <= b.len() {
                    TermOutcome::Found {
                        t: big_term(b[i + 5] != 0, b.subrange(i + 6, i + 6 + len)),
                        next: i + 6 + len,
                    }
                } else {
                    TermOutcome::Short
                }
            } else {
                TermOutcome::Short
            }
        } else if tag == 119 || tag == 115 {
            // SmallAtomUtf8, or legacy SmallAtom in Latin-1
            if i + 2 <= b.len() {
                let len = b[i + 1] as int;
                if i + 2 + len <= b.len() {
                    let bytes = b.subrange(i + 2, i + 2 + len);
                    if tag == 115 {
                        TermOutcome::Found { t: TermV::Atom(latin1_chars(bytes)), next: i + 2 + len }
                    } else if valid_utf8(bytes) {
                        TermOutcome::Found { t: TermV::Atom(decode_utf8(bytes)), next: i + 2 + len }
                    } else {
                        TermOutcome::Invalid
                    }
                } else {
                    TermOutcome::Short
                }
            } else {
                TermOutcome::Short
            }
        } else if tag == 118 || tag == 100 {
            // AtomUtf8, or legacy Atom in Latin-1
            if i + 3 <= b.len() {
                let len = be_at(b, i + 1, 2) as int;
                if i + 3 + len <= b.len() {
                    let bytes = b.subrange(i + 3, i + 3 + len);
                    if tag == 100 {
                        TermOutcome::Found { t: TermV::Atom(latin1_chars(bytes)), next: i + 3 + len }
                    } else if valid_utf8(bytes) {
                        TermOutcome::Found { t: TermV::Atom(decode_utf8(bytes)), next: i + 3 + len }
                    } else {
                        TermOutcome::Invalid
                    }
                } else {
                    TermOutcome::Short
                }
            } else {
                TermOutcome::Short
            }
        } else if tag == 107 {
            // String: the byte-list optimization
            if i + 3 <= b.len() {
                let len = be_at(b, i + 1, 2) as int;
                if i + 3 + len <= b.len() {
                    let bytes = b.subrange(i + 3, i + 3 + len);
                    if o.read_string_ext_as_list {
                        TermOutcome::Found { t: TermV::List(byte_terms_of(bytes)), next: i + 3 + len }
                    } else if valid_utf8(bytes) {
                        TermOutcome::Found { t: TermV::Str(decode_utf8(bytes)), next: i + 3 + len }
                    } else {
                        TermOutcome::Invalid
                    }
                } else {
                    TermOutcome::Short
                }
            } else {
                TermOutcome::Short
            }
        } else if tag == 104 || tag == 105 {
            // SmallTuple and LargeTuple
            let hdr: int = if tag == 104 {
                2
            } else {
                5
            };
            if i + hdr <= b.len() {
                let n: int = if tag == 104 {
                    b[i + 1] as int
                } else {
                    be_at(b, i + 1, 4) as int
                };
                match sd_terms(b, i + hdr, n, o) {
                    SeqOutcome::Found { ts, next } => TermOutcome::Found {
                        t: TermV::Tuple(ts),
                        next,
                    },
                    SeqOutcome::Short => TermOutcome::Short,
                    SeqOutcome::Invalid => TermOutcome::Invalid,
                }
            } else {
                TermOutcome::Short
            }
        } else if tag == 108 {
            // List: elements, then a tail term; a byte-valued list with a
            // Nil tail may optimistically be read as text
            if i + 5 <= b.len() {
                let n = be_at(b, i + 1, 4) as int;
                match sd_terms(b, i + 5, n, o) {
                    SeqOutcome::Found { ts, next } => if i < next <= b.len() {
                        match sd_term(b, next, o) {
                            TermOutcome::Found { t: tail, next: after } => if o.try_read_list_ext_as_estring
                                && tail is Nil && all_byte_terms(ts) {
                                if valid_utf8(bytes_of_terms(ts)) {
                                    TermOutcome::Found {
                                        t: TermV::Str(decode_utf8(bytes_of_terms(ts))),
                                        next: after,
                                    }
                                } else {
                                    TermOutcome::Invalid
                                }
                            } else if tail is Nil {
                                TermOutcome::Found { t: TermV::List(ts), next: after }
                            } else {
                                TermOutcome::Found {
                                    t: TermV::Improper(ts, Box::new(tail)),
                                    next: after,
                                }
                            },
                            TermOutcome::Short => TermOutcome::Short,
                            TermOutcome::Invalid => TermOutcome::Invalid,
                        }
                    } else {
                        TermOutcome::Invalid
                    },
                    SeqOutcome::Short => TermOutcome::Short,
                    SeqOutcome::Invalid => TermOutcome::Invalid,
                }
            } else {
                TermOutcome::Short
            }
        } else if tag == 116 {
            // Map
            if i + 5 <= b.len() {
                let n = be_at(b, i + 1, 4) as int;
                match sd_pairs(b, i + 5, n, o) {
                    PairsOutcome::Found { ps, next } => TermOutcome::Found {
                        t: TermV::Mapping(ps),
                        next,
                    },
                    PairsOutcome::Short => TermOutcome::Short,
                    PairsOutcome::Invalid => TermOutcome::Invalid,
                }
            } else {
                TermOutcome::Short
            }
        } else if tag == 109 {
            // Binary
            if i + 5 <= b.len() {
                let len = be_at(b, i + 1, 4) as int;
                if i + 5 + len <= b.len() {
                    TermOutcome::Found {
                        t: TermV::Binary(b.subrange(i + 5, i + 5 + len)),
                        next: i + 5 + len,
                    }
                } else {
                    TermOutcome::Short
                }
            } else {
                TermOutcome::Short
            }
        } else if tag == 88 {
            // NewPid: a node atom, then id, serial and creation
            match sd_term(b, i + 1, o) {
                TermOutcome::Found { t: node, next } => match node {
                    TermV::Atom(name) => if next + 12 <= b.len() {
                        TermOutcome::Found {
                            t: TermV::Pid {
                                node: name,
                                id: (be_at(b, next, 4) % 0x1_0000_0000) as u32,
                                serial: (be_at(b, next + 4, 4) % 0x1_0000_0000) as u32,
                                creation: (be_at(b, next + 8, 4) % 0x1_0000_0000) as u32,
                            },
                            next: next + 12,
                        }
                    } else {
                        TermOutcome::Short
                    },
                    _ => TermOutcome::Invalid,
                },
                TermOutcome::Short => TermOutcome::Short,
                TermOutcome::Invalid => TermOutcome::Invalid,
            }
        } else if tag == 89 {
            // NewPort: a node atom, then id and creation
            match sd_term(b, i + 1, o) {
                TermOutcome::Found { t: node, next } => match node {
                    TermV::Atom(name) => if next + 8 <= b.len() {
                        TermOutcome::Found {
                            t: TermV::Port {
                                node: name,
                                id: (be_at(b, next, 4) % 0x1_0000_0000) as u32,
                                creation: (be_at(b, next + 4, 4) % 0x1_0000_0000) as u32,
                            },
                            next: next + 8,
                        }
                    } else {
                        TermOutcome::Short
                    },
                    _ => TermOutcome::Invalid,
                },
                TermOutcome::Short => TermOutcome::Short,
                TermOutcome::Invalid => TermOutcome::Invalid,
            }
        } else if tag == 113 {
            // Export: module and function atoms, then a small-integer arity
            match sd_term(b, i + 1, o) {
                TermOutcome::Found { t: module, next } => match module {
                    TermV::Atom(module_name) => if i < next <= b.len() {
                        match sd_term(b, next, o) {
                            TermOutcome::Found { t: function, next: after } => match function {
                                TermV::Atom(function_name) => if after + 2 <= b.len() {
                                    if b[after] == 97 {
                                        TermOutcome::Found {
                                            t: TermV::Export {
                                                module: module_name,
                                                function: function_name,
                                                arity: b[after + 1],
                                            },
                                            next: after + 2,
                                        }
                                    } else {
                                        TermOutcome::Invalid
                                    }
                                } else {
                                    TermOutcome::Short
                                },
                                _ => TermOutcome::Invalid,
                            },
                            TermOutcome::Short => TermOutcome::Short,
                            TermOutcome::Invalid => TermOutcome::Invalid,
                        }
                    } else {
                        TermOutcome::Invalid
                    },
                    _ => TermOutcome::Invalid,
                },
                TermOutcome::Short => TermOutcome::Short,
                TermOutcome::Invalid => TermOutcome::Invalid,
            }
        } else {
            // Unknown tags, and tags this codec does not decode: the
            // legacy string form of floats among them
            TermOutcome::Invalid
        }
    }
}

/// The specification decoder for a counted run of terms.
pub open spec fn sd_terms(b: Seq<u8>, i: int, n: int, o: DecodeOptions) -> SeqOutcome
    decreases b.len() - i, 1int,
{
    if n <= 0 {
        SeqOutcome::Found { ts: Seq::empty(), next: i }
    } else {
        match sd_term(b, i, o) {
            TermOutcome::Found { t, next } => if i < next <= b.len() {
                match sd_terms(b, next, n - 1, o) {
                    SeqOutcome::Found { ts, next: after } => SeqOutcome::Found {
                        ts: seq![t] + ts,
                        next: after,
                    },
                    SeqOutcome::Short => SeqOutcome::Short,
                    SeqOutcome::Invalid => SeqOutcome::Invalid,
                }
            } else {
                SeqOutcome::Invalid
            },
            TermOutcome::Short => SeqOutcome::Short,
            TermOutcome::Invalid => SeqOutcome::Invalid,
        }
    }
}

/// The specification decoder for a counted run of key/value pairs.
pub open spec fn sd_pairs(b: Seq<u8>, i: int, n: int, o: DecodeOptions) -> PairsOutcome
    decreases b.len() - i, 1int,
{
    if n <= 0 {
        PairsOutcome::Found { ps: Seq::empty(), next: i }
    } else {
        match sd_term(b, i, o) {
            TermOutcome::Found { t: key, next } => if i < next <= b.len() {
                match sd_term(b, next, o) {
                    TermOutcome::Found { t: value, next: after } => if next < after <= b.len() {
                        match sd_pairs(b, after, n - 1, o) {
                            PairsOutcome::Found { ps, next: end } => PairsOutcome::Found {
                                ps: seq![(key, value)] + ps,
                                next: end,
                            },
                            PairsOutcome::Short => PairsOutcome::Short,
                            PairsOutcome::Invalid => PairsOutcome::Invalid,
                        }
                    } else {
                        PairsOutcome::Invalid
                    },
                    TermOutcome::Short => PairsOutcome::Short,
                    TermOutcome::Invalid => PairsOutcome::Invalid,
                }
            } else {
                PairsOutcome::Invalid
            },
            TermOutcome::Short => PairsOutcome::Short,
            TermOutcome::Invalid => PairsOutcome::Invalid,
        }
    }
}

/// Relies on `String::from_utf8`: it succeeds exactly on input that is
/// valid UTF-8 and returns the string holding exactly those bytes.
#[verifier::external_body]
fn bytes_to_string(v: Vec<u8>) -> (r: Option<String>)
    ensures
        match r {
            Some(s) => valid_utf8(v@) && encode_utf8(s@) == v@ && s@ == decode_utf8(v@),
            None => !valid_utf8(v@),
        },
{
    String::from_utf8(v).ok()
}

/// Reads the value of `w` big-endian bytes at a position.
fn read_be(b: &[u8], pos: usize, w: usize) -> (x: u64)
    requires
        w <= 8,
        pos + w <= b@.len(),
    ensures
        x == be_at(b@, pos as int, w as int),
        x < pow256(w as nat),
{
    let blen: usize = b.len();
    let mut acc: u64 = 0;
    let mut k: usize = 0;
    while k < w
        invariant
            k <= w <= 8,
            pos + w <= blen,
            blen == b@.len(),
            acc == be_at(b@, pos as int, k as int),
            acc < pow256(k as nat),
        decreases w - k,
    {
        proof {
            reveal_with_fuel(pow256, 9);
            lemma_pow256_pos(k as nat);
            assert(pow256((k + 1) as nat) == 256 * pow256(k as nat));
            lemma_pow256_mono((k + 1) as nat, 8);
            assert(pow256(8) == 0x1_0000_0000_0000_0000);
            assert(acc as nat * 256 + (b@[pos + k] as nat) < pow256((k + 1) as nat)) by (
            nonlinear_arith)
                requires
                    acc < pow256(k as nat),
                    (b@[pos + k] as nat) < 256,
                    pow256((k + 1) as nat) == 256 * pow256(k as nat),
            ;
            assert(be_at(b@, pos as int, k + 1) == (be_at(b@, pos as int, k as int) * 256 + b@[pos
                + k]) as nat);
        }
        acc = acc * 256 + (b[pos + k] as u64);
        k = k + 1;
    }
    acc
}

/// Copies `n` bytes starting at a position into a fresh vector.
fn read_vec(b: &[u8], pos: usize, n: usize) -> (r: Vec<u8>)
    requires
        pos + n <= b@.len(),
    ensures
        r@ == b@.subrange(pos as int, pos as int + n as int),
{
    let blen: usize = b.len();
    let mut r: Vec<u8> = Vec::new();
    let mut k: usize = 0;
    while k < n
        invariant
            k <= n,
            pos + n <= blen,
            blen == b@.len(),
            r@ == b@.subrange(pos as int, pos as int + k as int),
        decreases n - k,
    {
        r.push(b[pos + k]);
        proof {
            assert(b@.subrange(pos as int, pos as int + k + 1) =~= b@.subrange(
                pos as int,
                pos as int + k as int,
            ).push(b@[pos + k]));
        }
        k = k + 1;
    }
    r
}

/// Builds text from Latin-1 bytes: each byte is one character.
fn read_latin1(v: &Vec<u8>) -> (r: String)
    ensures
        r@ == latin1_chars(v@),
{
    broadcast use vstd::utf8::char_u32_cast;

    let mut s = String::new();
    let mut k: usize = 0;
    while k < v.len()
        invariant
            k <= v@.len(),
            s@.len() == k,
            forall|j: int| 0 <= j < k ==> s@[j] == (v@[j] as u32) as char,
        decreases v@.len() - k,
    {
        let c = v[k] as char;
        proof {
            assert(c as u32 == v@[k as int] as u32);
        }
        s.push(c);
        k = k + 1;
    }
    proof {
        assert(s@ =~= latin1_chars(v@));
    }
    s
}

/// The canonical integer term of a sign flag and wire magnitude bytes:
/// high zero bytes are dropped, a zero magnitude is never negative, and
/// an empty magnitude means zero.
pub fn num_vec_to_term(negative: bool, data: Vec<u8>) -> (t: Term)
    ensures
        t@ == big_term(negative, data@),
{
    let ghost orig = data@;
    let mut m = data;
    let tl = trimmed_len(&m);
    m.truncate(tl);
    proof {
        assert(m@ =~= orig.subrange(0, tl as int));
    }
    Term::Integer(EInteger { negative: negative && tl > 0, magnitude: m })
}

/// The byte values of the terms of a vector, when every one of them is a
/// byte-range integer; `None` as soon as one is not.
fn try_bytes_of_terms(ts: &Vec<Term>) -> (r: Option<Vec<u8>>)
    ensures
        match r {
            Some(bs) => all_byte_terms(term_views(ts@)) && bs@ == bytes_of_terms(term_views(ts@)),
            None => !all_byte_terms(term_views(ts@)),
        },
{
    proof {
        lemma_term_views_index(ts@);
    }
    let mut bs: Vec<u8> = Vec::new();
    let mut i: usize = 0;
    while i < ts.len()
        invariant
            i <= ts@.len(),
            term_views(ts@).len() == ts@.len(),
            forall|j: int|
                0 <= j < ts@.len() ==> #[trigger] term_views(ts@)[j] == term_view(ts@[j]),
            bs@.len() == i,
            forall|j: int|
                0 <= j < i ==> is_byte_term(#[trigger] term_views(ts@)[j]) && bs@[j] == term_byte(
                    term_views(ts@)[j],
                ),
        decreases ts@.len() - i,
    {
        match &ts[i] {
            Term::Integer(ei) => {
                if !ei.negative && ei.magnitude.len() <= 1 {
                    let byte: u8 = if ei.magnitude.len() == 0 {
                        0
                    } else {
                        ei.magnitude[0]
                    };
                    bs.push(byte);
                    proof {
                        assert(is_byte_term(term_views(ts@)[i as int]));
                        assert(bs@[i as int] == term_byte(term_views(ts@)[i as int]));
                    }
                } else {
                    proof {
                        assert(!is_byte_term(term_views(ts@)[i as int]));
                    }
                    return None;
                }
            },
            _ => {
                proof {
                    assert(!is_byte_term(term_views(ts@)[i as int]));
                }
                return None;
            },
        }
        i = i + 1;
    }
    proof {
        assert(bs@ =~= bytes_of_terms(term_views(ts@)));
    }
    Some(bs)
}

/// The outcome of a term run with a sequence of terms already read in
/// front of it.
pub open spec fn seq_prepend(ts: Seq<TermV>, r: SeqOutcome) -> SeqOutcome {
    match r {
        SeqOutcome::Found { ts: rest, next } => SeqOutcome::Found { ts: ts + rest, next },
        SeqOutcome::Short => SeqOutcome::Short,
        SeqOutcome::Invalid => SeqOutcome::Invalid,
    }
}

/// The outcome of a pair run with pairs already read in front of it.
pub open spec fn pairs_prepend(ps: Seq<(TermV, TermV)>, r: PairsOutcome) -> PairsOutcome {
    match r {
        PairsOutcome::Found { ps: rest, next } => PairsOutcome::Found { ps: ps + rest, next },
        PairsOutcome::Short => PairsOutcome::Short,
        PairsOutcome::Invalid => PairsOutcome::Invalid,
    }
}

/// Prepending twice is prepending the concatenation.
proof fn lemma_seq_prepend_assoc(a: Seq<TermV>, c: Seq<TermV>, x: SeqOutcome)
    ensures
        seq_prepend(a, seq_prepend(c, x)) == seq_prepend(a + c, x),
{
    match x {
        SeqOutcome::Found { ts, next } => {
            assert((a + c) + ts =~= a + (c + ts));
        },
        _ => {},
    }
}

/// Prepending pairs twice is prepending the concatenation.
proof fn lemma_pairs_prepend_assoc(
    a: Seq<(TermV, TermV)>,
    c: Seq<(TermV, TermV)>,
    x: PairsOutcome,
)
    ensures
        pairs_prepend(a, pairs_prepend(c, x)) == pairs_prepend(a + c, x),
{
    match x {
        PairsOutcome::Found { ps, next } => {
            assert((a + c) + ps =~= a + (c + ps));
        },
        _ => {},
    }
}

/// The term of one unsigned byte, in canonical form.
fn byte_term_exec(v: u8) -> (t: Term)
    ensures
        t@ == byte_term(v),
{
    let mut mag: Vec<u8> = Vec::new();
    if v != 0 {
        mag.push(v);
        proof {
            assert(mag@ =~= seq![v]);
        }
    }
    Term::Integer(EInteger { negative: false, magnitude: mag })
}

/// The error for input that ended inside a term.
fn err_short() -> (e: Error)
    ensures
        e is Io,
{
    Error::Io("the input ended before the term was complete".to_owned())
}

/// Reads a counted run of terms, each decoded in turn.
fn read_terms(b: &[u8], pos: usize, n: usize, options: &DecodeOptions) -> (r: Result<
    (Vec<Term>, usize),
    Error,
>)
    requires
        pos <= b@.len(),
    ensures
        match r {
            Ok(p) => sd_terms(b@, pos as int, n as int, *options) == (SeqOutcome::Found {
                ts: term_views(p.0@),
                next: p.1 as int,
            }) && pos <= p.1 <= b@.len() && p.0@.len() == n,
            Err(e) => match e {
                Error::Io(_) => sd_terms(b@, pos as int, n as int, *options) is Short,
                Error::Message(_) => sd_terms(b@, pos as int, n as int, *options) is Invalid,
            },
        },
    decreases b@.len() - pos, 1int,
{
    let mut acc: Vec<Term> = Vec::new();
    let mut cur: usize = pos;
    let mut k: usize = 0;
    while k < n
        invariant
            pos <= cur <= b@.len(),
            k <= n,
            acc@.len() == k,
            sd_terms(b@, pos as int, n as int, *options) == seq_prepend(
                term_views(acc@),
                sd_terms(b@, cur as int, n as int - k as int, *options),
            ),
        decreases n - k,
    {
        let ghost m: int = n as int - k as int;
        match decode_term_at(b, cur, options) {
            Ok((t, next)) => {
                proof {
                    let inner = sd_terms(b@, next as int, m - 1, *options);
                    assert(sd_terms(b@, cur as int, m, *options) == seq_prepend(
                        seq![t@],
                        inner,
                    ));
                    lemma_seq_prepend_assoc(term_views(acc@), seq![t@], inner);
                    lemma_term_views_push(acc@, t);
                    assert(term_views(acc@) + seq![t@] =~= term_views(acc@.push(t)));
                }
                acc.push(t);
                cur = next;
            },
            Err(e) => {
                proof {
                    assert(sd_term(b@, cur as int, *options) is Short ==> sd_terms(
                        b@,
                        cur as int,
                        m,
                        *options,
                    ) is Short);
                    assert(sd_term(b@, cur as int, *options) is Invalid ==> sd_terms(
                        b@,
                        cur as int,
                        m,
                        *options,
                    ) is Invalid);
                }
                return Err(e);
            },
        }
        k = k + 1;
    }
    proof {
        assert(term_views(acc@) + Seq::<TermV>::empty() =~= term_views(acc@));
    }
    Ok((acc, cur))
}

/// Reads a counted run of key/value pairs, keys and values interleaved.
fn read_map(b: &[u8], pos: usize, n: usize, options: &DecodeOptions) -> (r: Result<
    (Vec<(Term, Term)>, usize),
    Error,
>)
    requires
        pos <= b@.len(),
    ensures
        match r {
            Ok(p) => sd_pairs(b@, pos as int, n as int, *options) == (PairsOutcome::Found {
                ps: pair_views(p.0@),
                next: p.1 as int,
            }) && pos <= p.1 <= b@.len(),
            Err(e) => match e {
                Error::Io(_) => sd_pairs(b@, pos as int, n as int, *options) is Short,
                Error::Message(_) => sd_pairs(b@, pos as int, n as int, *options) is Invalid,
            },
        },
    decreases b@.len() - pos, 1int,
{
    let mut acc: Vec<(Term, Term)> = Vec::new();
    let mut cur: usize = pos;
    let mut k: usize = 0;
    while k < n
        invariant
            pos <= cur <= b@.len(),
            k <= n,
            sd_pairs(b@, pos as int, n as int, *options) == pairs_prepend(
                pair_views(acc@),
                sd_pairs(b@, cur as int, n as int - k as int, *options),
            ),
        decreases n - k,
    {
        let ghost m: int = n as int - k as int;
        let key = match decode_term_at(b, cur, options) {
            Ok(p) => p,
            Err(e) => {
                proof {
                    assert(sd_term(b@, cur as int, *options) is Short ==> sd_pairs(
                        b@,
                        cur as int,
                        m,
                        *options,
                    ) is Short);
                    assert(sd_term(b@, cur as int, *options) is Invalid ==> sd_pairs(
                        b@,
                        cur as int,
                        m,
                        *options,
                    ) is Invalid);
                }
                return Err(e);
            },
        };
        let value = match decode_term_at(b, key.1, options) {
            Ok(p) => p,
            Err(e) => {
                proof {
                    assert(sd_term(b@, key.1 as int, *options) is Short ==> sd_pairs(
                        b@,
                        cur as int,
                        m,
                        *options,
                    ) is Short);
                    assert(sd_term(b@, key.1 as int, *options) is Invalid ==> sd_pairs(
                        b@,
                        cur as int,
                        m,
                        *options,
                    ) is Invalid);
                }
                return Err(e);
            },
        };
        proof {
            let inner = sd_pairs(b@, value.1 as int, m - 1, *options);
            assert(sd_pairs(b@, cur as int, m, *options) == pairs_prepend(
                seq![(key.0@, value.0@)],
                inner,
            ));
            lemma_pairs_prepend_assoc(pair_views(acc@), seq![(key.0@, value.0@)], inner);
            lemma_pair_views_push(acc@, (key.0, value.0));
            assert(pair_views(acc@) + seq![(key.0@, value.0@)] =~= pair_views(
                acc@.push((key.0, value.0)),
            ));
        }
        let next = value.1;
        acc.push((key.0, value.0));
        cur = next;
        k = k + 1;
    }
    proof {
        assert(pair_views(acc@) + Seq::<(TermV, TermV)>::empty() =~= pair_views(acc@));
    }
    Ok((acc, cur))
}

/// Decodes one complete term at a position: the tag byte, then the layout
/// it names, recursing into child terms.  Returns the term and the
/// position just after its last byte.  An `Io` error reports input that
/// ended inside the term; a `Message` error reports bytes that name no
/// decodable layout, an unknown tag among them.
#[verifier::rlimit(100)]
pub fn decode_term_at(b: &[u8], pos: usize, options: &DecodeOptions) -> (r: Result<
    (Term, usize),
    Error,
>)
    requires
        pos <= b@.len(),
    ensures
        match r {
            Ok(p) => sd_term(b@, pos as int, *options) == (TermOutcome::Found {
                t: p.0@,
                next: p.1 as int,
            }) && pos < p.1 <= b@.len(),
            Err(e) => match e {
                Error::Io(_) => sd_term(b@, pos as int, *options) is Short,
                Error::Message(_) => sd_term(b@, pos as int, *options) is Invalid,
            },
        },
    decreases b@.len() - pos, 0int,
{
    let blen: usize = b.len();
    if blen - pos < 1 {
        return Err(err_short());
    }
    let tag = b[pos];
    if tag == 97 {
        // SmallInteger
        if blen - pos < 2 {
            return Err(err_short());
        }
        let v = b[pos + 1];
        let t = byte_term_exec(v);
        Ok((t, pos + 2))
    } else if tag == 98 {
        // Integer: four bytes, two's complement
        if blen - pos < 5 {
            return Err(err_short());
        }
        let u = read_be(b, pos + 1, 4);
        proof {
            reveal_with_fuel(pow256, 5);
            assert(pow256(4) == 0x1_0000_0000);
            lemma_small_mod(u as nat, 0x1_0000_0000);
        }
        let t = if u >= 0x8000_0000 {
            Term::Integer(
                EInteger {
                    negative: true,
                    magnitude: magnitude_bytes_u128((0x1_0000_0000u64 - u) as u128),
                },
            )
        } else {
            Term::Integer(EInteger { negative: false, magnitude: magnitude_bytes_u128(u as u128) })
        };
        proof {
            assert(t@ == int32_term(be_at(b@, pos + 1, 4) % 0x1_0000_0000));
        }
        Ok((t, pos + 5))
    } else if tag == 70 {
        // NewFloat: eight raw IEEE-754 bytes
        if blen - pos < 9 {
            return Err(err_short());
        }
        let bits = read_be(b, pos + 1, 8);
        proof {
            reveal_with_fuel(pow256, 9);
            assert(pow256(8) == 0x1_0000_0000_0000_0000);
            lemma_small_mod(bits as nat, 0x1_0000_0000_0000_0000);
        }
        Ok((Term::Float(EFloat(bits)), pos + 9))
    } else if tag == 106 {
        // Nil
        Ok((Term::Nil(ENil), pos + 1))
    } else if tag == 110 {
        // SmallBig
        if blen - pos < 3 {
            return Err(err_short());
        }
        let len = b[pos + 1] as usize;
        let sign = b[pos + 2];
        if blen - (pos + 3) < len {
            return Err(err_short());
        }
        let data = read_vec(b, pos + 3, len);
        let t = num_vec_to_term(sign != 0, data);
        Ok((t, pos + 3 + len))
    } else if tag == 111 {
        // LargeBig
        if blen - pos < 6 {
            return Err(err_short());
        }
        let len_u = read_be(b, pos + 1, 4);
        let sign = b[pos + 5];
        proof {
            reveal_with_fuel(pow256, 5);
            assert(pow256(4) == 0x1_0000_0000);
        }
        let len = len_u as usize;
        if blen - (pos + 6) < len {
            return Err(err_short());
        }
        let data = read_vec(b, pos + 6, len);
        let t = num_vec_to_term(sign != 0, data);
        Ok((t, pos + 6 + len))
    } else if tag == 119 || tag == 115 {
        // SmallAtomUtf8, or legacy SmallAtom in Latin-1
        if blen - pos < 2 {
            return Err(err_short());
        }
        let len = b[pos + 1] as usize;
        if blen - (pos + 2) < len {
            return Err(err_short());
        }
        let data = read_vec(b, pos + 2, len);
        if tag == 115 {
            let s = read_latin1(&data);
            Ok((Term::Atom(EAtom(s)), pos + 2 + len))
        } else {
            match bytes_to_string(data) {
                Some(s) => Ok((Term::Atom(EAtom(s)), pos + 2 + len)),
                None => Err(Error::Message("the atom bytes are not valid UTF-8 text".to_owned())),
            }
        }
    } else if tag == 118 || tag == 100 {
        // AtomUtf8, or legacy Atom in Latin-1
        if blen - pos < 3 {
            return Err(err_short());
        }
        let len2 = read_be(b, pos + 1, 2);
        proof {
            reveal_with_fuel(pow256, 3);
            assert(pow256(2) == 0x1_0000);
        }
        let len = len2 as usize;
        if blen - (pos + 3) < len {
            return Err(err_short());
        }
        let data = read_vec(b, pos + 3, len);
        if tag == 100 {
            let s = read_latin1(&data);
            Ok((Term::Atom(EAtom(s)), pos + 3 + len))
        } else {
            match bytes_to_string(data) {
                Some(s) => Ok((Term::Atom(EAtom(s)), pos + 3 + len)),
                None => Err(Error::Message("the atom bytes are not valid UTF-8 text".to_owned())),
            }
        }
    } else if tag == 107 {
        // String: the byte-list optimization
        if blen - pos < 3 {
            return Err(err_short());
        }
        let len2 = read_be(b, pos + 1, 2);
        proof {
            reveal_with_fuel(pow256, 3);
            assert(pow256(2) == 0x1_0000);
        }
        let len = len2 as usize;
        if blen - (pos + 3) < len {
            return Err(err_short());
        }
        let data = read_vec(b, pos + 3, len);
        if options.read_string_ext_as_list {
            let mut items: Vec<Term> = Vec::new();
            let mut j: usize = 0;
            while j < data.len()
                invariant
                    j <= data@.len(),
                    items@.len() == j,
                    term_views(items@) == byte_terms_of(data@).subrange(0, j as int),
                decreases data@.len() - j,
            {
                let v = data[j];
                let item = byte_term_exec(v);
                proof {
                    assert(item@ == byte_term(data@[j as int]));
                    lemma_term_views_push(items@, item);
                    assert(byte_terms_of(data@).subrange(0, j + 1) =~= byte_terms_of(
                        data@,
                    ).subrange(0, j as int).push(byte_term(data@[j as int])));
                }
                items.push(item);
                j = j + 1;
            }
            proof {
                assert(byte_terms_of(data@).subrange(0, data@.len() as int) =~= byte_terms_of(
                    data@,
                ));
            }
            Ok((Term::List(EList(items)), pos + 3 + len))
        } else {
            match bytes_to_string(data) {
                Some(s) => Ok((Term::Str(EString(s)), pos + 3 + len)),
                None => Err(Error::Message("the text bytes are not valid UTF-8".to_owned())),
            }
        }
    } else if tag == 104 || tag == 105 {
        // SmallTuple and LargeTuple
        let hdr: usize = if tag == 104 {
            2
        } else {
            5
        };
        if blen - pos < hdr {
            return Err(err_short());
        }
        let n: usize = if tag == 104 {
            b[pos + 1] as usize
        } else {
            proof {
                reveal_with_fuel(pow256, 5);
                assert(pow256(4) == 0x1_0000_0000);
            }
            read_be(b, pos + 1, 4) as usize
        };
        match read_terms(b, pos + hdr, n, options) {
            Ok((ts, next)) => Ok((Term::Tuple(ETuple(ts)), next)),
            Err(e) => Err(e),
        }
    } else if tag == 108 {
        // List: elements, then a tail term
        if blen - pos < 5 {
            return Err(err_short());
        }
        proof {
            reveal_with_fuel(pow256, 5);
            assert(pow256(4) == 0x1_0000_0000);
        }
        let n = read_be(b, pos + 1, 4) as usize;
        let elems = match read_terms(b, pos + 5, n, options) {
            Ok(p) => p,
            Err(e) => {
                return Err(e);
            },
        };
        let (ts, next) = elems;
        let tail = match decode_term_at(b, next, options) {
            Ok(p) => p,
            Err(e) => {
                return Err(e);
            },
        };
        let (tail_t, after) = tail;
        let tail_is_nil = match &tail_t {
            Term::Nil(_) => true,
            _ => false,
        };
        if options.try_read_list_ext_as_estring && tail_is_nil {
            match try_bytes_of_terms(&ts) {
                Some(bs) => {
                    return match bytes_to_string(bs) {
                        Some(s) => Ok((Term::Str(EString(s)), after)),
                        None => Err(
                            Error::Message("the byte list is not valid UTF-8 text".to_owned()),
                        ),
                    };
                },
                None => {},
            }
        }
        if tail_is_nil {
            Ok((Term::List(EList(ts)), after))
        } else {
            Ok((Term::NonProperList(ENonProperList { data: ts, tail: Box::new(tail_t) }), after))
        }
    } else if tag == 116 {
        // Map
        if blen - pos < 5 {
            return Err(err_short());
        }
        proof {
            reveal_with_fuel(pow256, 5);
            assert(pow256(4) == 0x1_0000_0000);
        }
        let n = read_be(b, pos + 1, 4) as usize;
        match read_map(b, pos + 5, n, options) {
            Ok((ps, next)) => Ok((Term::Mapping(EMap(ps)), next)),
            Err(e) => Err(e),
        }
    } else if tag == 109 {
        // Binary
        if blen - pos < 5 {
            return Err(err_short());
        }
        proof {
            reveal_with_fuel(pow256, 5);
            assert(pow256(4) == 0x1_0000_0000);
        }
        let len = read_be(b, pos + 1, 4) as usize;
        if blen - (pos + 5) < len {
            return Err(err_short());
        }
        let data = read_vec(b, pos + 5, len);
        Ok((Term::Binary(EBinary(data)), pos + 5 + len))
    } else if tag == 88 {
        // NewPid: a node atom, then id, serial and creation
        let node = match decode_term_at(b, pos + 1, options) {
            Ok(p) => p,
            Err(e) => {
                return Err(e);
            },
        };
        let (node_t, n1) = node;
        let a = match node_t {
            Term::Atom(a) => a,
            _ => {
                return Err(Error::Message("the node field is not an atom".to_owned()));
            },
        };
        if blen - n1 < 12 {
            return Err(err_short());
        }
        let id64 = read_be(b, n1, 4);
        let serial64 = read_be(b, n1 + 4, 4);
        let creation64 = read_be(b, n1 + 8, 4);
        proof {
            reveal_with_fuel(pow256, 5);
            assert(pow256(4) == 0x1_0000_0000);
            lemma_small_mod(id64 as nat, 0x1_0000_0000);
            lemma_small_mod(serial64 as nat, 0x1_0000_0000);
            lemma_small_mod(creation64 as nat, 0x1_0000_0000);
        }
        let id = id64 as u32;
        let serial = serial64 as u32;
        let creation = creation64 as u32;
        Ok((Term::Pid(EPid { node: a, id, serial, creation }), n1 + 12))
    } else if tag == 89 {
        // NewPort: a node atom, then id and creation
        let node = match decode_term_at(b, pos + 1, options) {
            Ok(p) => p,
            Err(e) => {
                return Err(e);
            },
        };
        let (node_t, n1) = node;
        let a = match node_t {
            Term::Atom(a) => a,
            _ => {
                return Err(Error::Message("the node field is not an atom".to_owned()));
            },
        };
        if blen - n1 < 8 {
            return Err(err_short());
        }
        let id64 = read_be(b, n1, 4);
        let creation64 = read_be(b, n1 + 4, 4);
        proof {
            reveal_with_fuel(pow256, 5);
            assert(pow256(4) == 0x1_0000_0000);
            lemma_small_mod(id64 as nat, 0x1_0000_0000);
            lemma_small_mod(creation64 as nat, 0x1_0000_0000);
        }
        let id = id64 as u32;
        let creation = creation64 as u32;
        Ok((Term::Port(EPort { node: a, id, creation }), n1 + 8))
    } else if tag == 113 {
        // Export: module and function atoms, then a small-integer arity
        let module = match decode_term_at(b, pos + 1, options) {
            Ok(p) => p,
            Err(e) => {
                return Err(e);
            },
        };
        let (module_t, n1) = module;
        let module_a = match module_t {
            Term::Atom(a) => a,
            _ => {
                return Err(Error::Message("the module field is not an atom".to_owned()));
            },
        };
        let function = match decode_term_at(b, n1, options) {
            Ok(p) => p,
            Err(e) => {
                return Err(e);
            },
        };
        let (function_t, n2) = function;
        let function_a = match function_t {
            Term::Atom(a) => a,
            _ => {
                return Err(Error::Message("the function field is not an atom".to_owned()));
            },
        };
        if blen - n2 < 2 {
            return Err(err_short());
        }
        if b[n2] != 97 {
            return Err(Error::Message("the arity field is not a small integer".to_owned()));
        }
        let arity = b[n2 + 1];
        Ok((Term::Export(EExport { module: module_a, function: function_a, arity }), n2 + 2))
    } else if tag == 99 {
        // The legacy text form of floats is not decoded by this codec
        Err(Error::Message("Decoding of this term type not yet supported".to_owned()))
    } else {
        match TermTag::try_from(tag) {
            Ok(_) => Err(Error::Message("Decoding of this term type not yet supported".to_owned())),
            Err(_) => Err(Error::Message("Unsupported term type".to_owned())),
        }
    }
}

/// Decodes one complete term from the start of the input: the
/// counterpart of serialisation.  Exactly the bytes of that one term are
/// read; bytes after it are left untouched, as a caller streaming
/// several terms expects.  An `Io` error reports input that ended inside
/// the term, a `Message` error bytes that name no decodable layout.
/// The legacy layout that carries a float as 31 bytes of decimal text is
/// among the rejected ones: reading it back would take host float
/// parsing, which this codec does not perform.
pub fn decode(input: &[u8], options: &DecodeOptions) -> (r: Result<Term, Error>)
    ensures
        match r {
            Ok(t) => sd_term(input@, 0, *options) matches TermOutcome::Found { t: tv, next }
                && tv == t@ && 0 < next <= input@.len(),
            Err(e) => match e {
                Error::Io(_) => sd_term(input@, 0, *options) is Short,
                Error::Message(_) => sd_term(input@, 0, *options) is Invalid,
            },
        },
{
    match decode_term_at(input, 0, options) {
        Ok((t, _)) => Ok(t),
        Err(e) => Err(e),
    }
}

/// Well-formedness for the round trip: the shapes that survive encoding
/// and decoding unchanged.  Every length fits its wire field; a proper
/// list is non-empty (the empty list is the `Nil` term, which is how it
/// travels on the wire); an improper tail is not `Nil`; an integer is in
/// canonical form; a float is finite; text fits the byte-list layout.
pub open spec fn wf_term(v: TermV) -> bool
    decreases v, 1int,
{
    match v {
        TermV::Nil => true,
        TermV::List(es) => 0 < es.len() <= 0xFFFF_FFFF && wf_elems(es),
        TermV::Improper(es, tail) => es.len() <= 0xFFFF_FFFF && wf_elems(es) && !(*tail is Nil)
            && wf_term(*tail),
        TermV::Atom(s) => encode_utf8(s).len() <= 0xFFFF,
        TermV::Tuple(es) => es.len() <= 0xFFFF_FFFF && wf_elems(es),
        TermV::Str(s) => encode_utf8(s).len() <= 0xFFFF,
        TermV::Mapping(ps) => ps.len() <= 0xFFFF_FFFF && wf_pairs(ps),
        TermV::Binary(bs) => bs.len() <= 0xFFFF_FFFF,
        TermV::Export { module, function, .. } => encode_utf8(module).len() <= 0xFFFF
            && encode_utf8(function).len() <= 0xFFFF,
        TermV::Port { node, .. } => encode_utf8(node).len() <= 0xFFFF,
        TermV::Pid { node, .. } => encode_utf8(node).len() <= 0xFFFF,
        TermV::Integer { negative, magnitude } => canonical_bytes(magnitude) && (negative
            ==> magnitude.len() > 0) && magnitude.len() <= 0xFFFF_FFFF,
        TermV::Float(bits) => float_finite(bits),
    }
}

/// Every term of the sequence is well-formed.
pub open spec fn wf_elems(vs: Seq<TermV>) -> bool
    decreases vs, 0int,
{
    forall|i: int| 0 <= i < vs.len() ==> wf_term(#[trigger] vs[i])
}

/// Every key and value of the sequence is well-formed.
pub open spec fn wf_pairs(ps: Seq<(TermV, TermV)>) -> bool
    decreases ps, 0int,
{
    forall|i: int| 0 <= i < ps.len() ==> wf_term(#[trigger] ps[i].0) && wf_term(ps[i].1)
}

/// A region of the input equal to a concatenation splits into regions
/// equal to the parts.
proof fn lemma_subrange_split(b: Seq<u8>, i: int, x: Seq<u8>, y: Seq<u8>)
    requires
        0 <= i,
        i + x.len() + y.len() <= b.len(),
        b.subrange(i, i + x.len() + y.len()) == x + y,
    ensures
        b.subrange(i, i + x.len() as int) == x,
        b.subrange(i + x.len() as int, i + x.len() + y.len()) == y,
{
    let lx = x.len() as int;
    let ly = y.len() as int;
    assert forall|k: int| 0 <= k < lx implies b.subrange(i, i + lx)[k] == x[k] by {
        assert(b.subrange(i, i + lx + ly)[k] == (x + y)[k]);
    }
    assert(b.subrange(i, i + lx) =~= x);
    assert forall|k: int| 0 <= k < ly implies b.subrange(i + lx, i + lx + ly)[k] == y[k] by {
        assert(b.subrange(i, i + lx + ly)[lx + k] == (x + y)[lx + k]);
    }
    assert(b.subrange(i + lx, i + lx + ly) =~= y);
}

/// Reading fixed-width bytes back gives the written value.
proof fn lemma_be_at_of_be_bytes(b: Seq<u8>, j: int, v: nat, w: nat)
    requires
        0 <= j,
        j + w <= b.len(),
        v < pow256(w),
        b.subrange(j, j + w as int) == be_bytes(v, w),
    ensures
        be_at(b, j, w as int) == v,
    decreases w,
{
    crate::terms::encode::lemma_be_bytes_len(v, w);
    if w == 0 {
    } else {
        let prev = (w - 1) as nat;
        crate::terms::encode::lemma_be_bytes_len(v / 256, prev);
        assert(v / 256 < pow256(prev)) by (nonlinear_arith)
            requires
                v < 256 * pow256(prev),
        ;
        assert(b.subrange(j, j + prev as int) =~= be_bytes(v / 256, prev));
        lemma_be_at_of_be_bytes(b, j, v / 256, prev);
        assert(b[j + w - 1] == be_bytes(v, w)[w - 1]);
        assert(be_bytes(v, w)[w - 1] == (v % 256) as u8);
        assert(be_at(b, j, w as int) == (be_at(b, j, w - 1) * 256 + b[j + w - 1]) as nat);
    }
}

/// Trimming leaves a canonical sequence untouched.
proof fn lemma_trim_canonical(s: Seq<u8>)
    requires
        canonical_bytes(s),
    ensures
        trim_bytes(s) == s,
{
}

/// Decoding the wire bytes of an atom yields the atom.
proof fn lemma_round_trip_atom(b: Seq<u8>, i: int, s: Seq<char>, o: DecodeOptions)
    requires
        encode_utf8(s).len() <= 0xFFFF,
        0 <= i,
        i + atom_wire(s).len() <= b.len(),
        b.subrange(i, i + atom_wire(s).len() as int) == atom_wire(s),
    ensures
        sd_term(b, i, o) == (TermOutcome::Found {
            t: TermV::Atom(s),
            next: i + atom_wire(s).len(),
        }),
{
    let u = encode_utf8(s);
    vstd::utf8::encode_utf8_valid_utf8(s);
    vstd::utf8::encode_utf8_decode_utf8(s);
    if u.len() <= 255 {
        let hdr: Seq<u8> = seq![119u8, u.len() as u8];
        assert(atom_wire(s) == hdr + u);
        lemma_subrange_split(b, i, hdr, u);
        assert(b[i] == (hdr + u)[0]);
        assert(b[i + 1] == (hdr + u)[1]);
        assert(b.subrange(i + 2, i + 2 + u.len() as int) =~= u);
        assert(sd_term(b, i, o) == (TermOutcome::Found {
            t: TermV::Atom(s),
            next: i + atom_wire(s).len(),
        }));
    } else {
        let hdr: Seq<u8> = seq![118u8] + be_bytes(u.len(), 2);
        crate::terms::encode::lemma_be_bytes_len(u.len(), 2);
        assert(atom_wire(s) == hdr + u);
        lemma_subrange_split(b, i, hdr, u);
        lemma_subrange_split(b, i, seq![118u8], be_bytes(u.len(), 2));
        assert(b[i] == (hdr + u)[0]);
        reveal_with_fuel(pow256, 3);
        lemma_be_at_of_be_bytes(b, i + 1, u.len(), 2);
        assert(b.subrange(i + 3, i + 3 + u.len() as int) =~= u);
        assert(sd_term(b, i, o) == (TermOutcome::Found {
            t: TermV::Atom(s),
            next: i + atom_wire(s).len(),
        }));
    }
}

/// Decoding the wire bytes of a canonical integer yields the integer.
proof fn lemma_round_trip_int(
    b: Seq<u8>,
    i: int,
    negative: bool,
    magnitude: Seq<u8>,
    o: DecodeOptions,
)
    requires
        canonical_bytes(magnitude),
        negative ==> magnitude.len() > 0,
        magnitude.len() <= 0xFFFF_FFFF,
        0 <= i,
        i + int_wire(int_v(negative, magnitude)).len() <= b.len(),
        b.subrange(i, i + int_wire(int_v(negative, magnitude)).len() as int) == int_wire(
            int_v(negative, magnitude),
        ),
    ensures
        sd_term(b, i, o) == (TermOutcome::Found {
            t: TermV::Integer { negative, magnitude },
            next: i + int_wire(int_v(negative, magnitude)).len(),
        }),
{
    let n = int_v(negative, magnitude);
    let w = int_wire(n);
    reveal_with_fuel(pow256, 5);
    reveal_with_fuel(min_le_bytes, 3);
    crate::terms::encode::lemma_min_le_of_canonical(magnitude);
    if magnitude.len() > 0 {
        crate::terms::encode::lemma_le_value_lower(magnitude);
        crate::terms::encode::lemma_pow256_pos((magnitude.len() - 1) as nat);
    }
    assert(abs_nat(n) == le_value(magnitude));
    assert(min_le_bytes(abs_nat(n)) == magnitude);
    if negative {
        assert(le_value(magnitude) >= 1);
        assert(n < 0);
    }
    if 0 <= n <= 255 {
        assert(!negative);
        assert(w == seq![97u8, n as u8]);
        assert(b[i] == w[0] && b[i + 1] == w[1]);
        assert(sd_term(b, i, o) == (TermOutcome::Found { t: byte_term(n as u8), next: i + 2 }));
        if n == 0 {
            assert(magnitude =~= Seq::<u8>::empty());
        } else {
            assert(magnitude =~= seq![n as u8]);
        }
        assert(byte_term(n as u8) == (TermV::Integer { negative, magnitude }));
    } else if -0x8000_0000 <= n < 0x8000_0000 {
        let u = ((n + 0x1_0000_0000) % 0x1_0000_0000) as nat;
        let hdr: Seq<u8> = seq![98u8];
        assert(w == hdr + be_bytes(u, 4));
        crate::terms::encode::lemma_be_bytes_len(u, 4);
        lemma_subrange_split(b, i, hdr, be_bytes(u, 4));
        assert(b[i] == (hdr + be_bytes(u, 4))[0]);
        if n >= 0 {
            lemma_mod_add_multiples_vanish(n, 0x1_0000_0000);
            lemma_small_mod(n as nat, 0x1_0000_0000);
            assert(u == n);
        } else {
            lemma_small_mod((n + 0x1_0000_0000) as nat, 0x1_0000_0000);
            assert(u == n + 0x1_0000_0000);
        }
        assert(u < pow256(4));
        lemma_be_at_of_be_bytes(b, i + 1, u, 4);
        lemma_small_mod(u, 0x1_0000_0000);
        assert(sd_term(b, i, o) == (TermOutcome::Found { t: int32_term(u), next: i + 5 }));
        if n >= 0 {
            assert(u < 0x8000_0000);
            assert(int32_term(u) == (TermV::Integer {
                negative: false,
                magnitude: min_le_bytes(u),
            }));
            assert(!negative);
            assert(min_le_bytes(u) == magnitude);
        } else {
            assert(u >= 0x8000_0000);
            assert((0x1_0000_0000 - u) as nat == abs_nat(n));
            assert(int32_term(u) == (TermV::Integer {
                negative: true,
                magnitude: min_le_bytes(abs_nat(n)),
            }));
            assert(negative);
        }
        assert(int32_term(u) == (TermV::Integer { negative, magnitude }));
    } else {
        let ml = magnitude.len();
        let s: u8 = sign_byte(n);
        assert((s != 0) == negative);
        lemma_trim_canonical(magnitude);
        if ml <= 255 {
            let hdr: Seq<u8> = seq![110u8, ml as u8, s];
            assert(w == hdr + magnitude);
            lemma_subrange_split(b, i, hdr, magnitude);
            assert(b[i] == (hdr + magnitude)[0]);
            assert(b[i + 1] == (hdr + magnitude)[1]);
            assert(b[i + 2] == (hdr + magnitude)[2]);
            assert(b.subrange(i + 3, i + 3 + ml as int) =~= magnitude);
            assert(sd_term(b, i, o) == (TermOutcome::Found {
                t: big_term(s != 0, magnitude),
                next: i + 3 + ml,
            }));
            assert(big_term(s != 0, magnitude) == (TermV::Integer { negative, magnitude }));
        } else {
            let hdr: Seq<u8> = seq![111u8] + be_bytes(ml, 4) + seq![s];
            crate::terms::encode::lemma_be_bytes_len(ml, 4);
            assert(w == hdr + magnitude);
            lemma_subrange_split(b, i, hdr, magnitude);
            lemma_subrange_split(b, i, seq![111u8] + be_bytes(ml, 4), seq![s]);
            lemma_subrange_split(b, i, seq![111u8], be_bytes(ml, 4));
            assert(b[i] == (hdr + magnitude)[0]);
            lemma_be_at_of_be_bytes(b, i + 1, ml, 4);
            assert(b[i + 5] == (hdr + magnitude)[5]);
            assert(b.subrange(i + 6, i + 6 + ml as int) =~= magnitude);
            assert(sd_term(b, i, o) == (TermOutcome::Found {
                t: big_term(s != 0, magnitude),
                next: i + 6 + ml,
            }));
            assert(big_term(s != 0, magnitude) == (TermV::Integer { negative, magnitude }));
        }
    }
}

/// Decoding the wire bytes of a well-formed proper list yields the list.
proof fn lemma_rt_list(b: Seq<u8>, i: int, es: Seq<TermV>, o: DecodeOptions)
    requires
        0 < es.len() <= 0xFFFF_FFFF,
        wf_elems(es),
        !o.read_string_ext_as_list,
        !o.try_read_list_ext_as_estring,
        0 <= i,
        i + wire(TermV::List(es)).len() <= b.len(),
        b.subrange(i, i + wire(TermV::List(es)).len() as int) == wire(TermV::List(es)),
    ensures
        sd_term(b, i, o) == (TermOutcome::Found {
            t: TermV::List(es),
            next: i + wire(TermV::List(es)).len(),
        }),
    decreases TermV::List(es), 1int, 0int,
{
    let w = wire(TermV::List(es));
    reveal_with_fuel(pow256, 5);
    let hdr: Seq<u8> = seq![108u8] + be_bytes(es.len(), 4);
    crate::terms::encode::lemma_be_bytes_len(es.len(), 4);
    assert(w == hdr + (elems_wire(es) + seq![106u8]));
    lemma_subrange_split(b, i, hdr, elems_wire(es) + seq![106u8]);
    lemma_subrange_split(b, i + 5, elems_wire(es), seq![106u8]);
    lemma_subrange_split(b, i, seq![108u8], be_bytes(es.len(), 4));
    assert(b[i] == (hdr + (elems_wire(es) + seq![106u8]))[0]);
    lemma_be_at_of_be_bytes(b, i + 1, es.len(), 4);
    lemma_round_trip_elems(b, i + 5, es, o);
    let tail_pos = i + 5 + elems_wire(es).len();
    assert(b[tail_pos] == b.subrange(tail_pos, tail_pos + 1)[0]);
    assert(b[tail_pos] == 106);
    assert(sd_term(b, tail_pos, o) == (TermOutcome::Found { t: TermV::Nil, next: tail_pos + 1 }));
    assert(sd_term(b, i, o) == (TermOutcome::Found { t: TermV::List(es), next: i + w.len() }));
}

/// Decoding the wire bytes of a well-formed improper list yields it.
proof fn lemma_rt_improper(b: Seq<u8>, i: int, es: Seq<TermV>, tail: Box<TermV>, o: DecodeOptions)
    requires
        es.len() <= 0xFFFF_FFFF,
        wf_elems(es),
        !(*tail is Nil),
        wf_term(*tail),
        !o.read_string_ext_as_list,
        !o.try_read_list_ext_as_estring,
        0 <= i,
        i + wire(TermV::Improper(es, tail)).len() <= b.len(),
        b.subrange(i, i + wire(TermV::Improper(es, tail)).len() as int) == wire(
            TermV::Improper(es, tail),
        ),
    ensures
        sd_term(b, i, o) == (TermOutcome::Found {
            t: TermV::Improper(es, tail),
            next: i + wire(TermV::Improper(es, tail)).len(),
        }),
    decreases TermV::Improper(es, tail), 1int, 0int,
{
    let w = wire(TermV::Improper(es, tail));
    reveal_with_fuel(pow256, 5);
    let hdr: Seq<u8> = seq![108u8] + be_bytes(es.len(), 4);
    crate::terms::encode::lemma_be_bytes_len(es.len(), 4);
    assert(w == hdr + (elems_wire(es) + wire(*tail)));
    lemma_subrange_split(b, i, hdr, elems_wire(es) + wire(*tail));
    lemma_subrange_split(b, i + 5, elems_wire(es), wire(*tail));
    lemma_subrange_split(b, i, seq![108u8], be_bytes(es.len(), 4));
    assert(b[i] == (hdr + (elems_wire(es) + wire(*tail)))[0]);
    lemma_be_at_of_be_bytes(b, i + 1, es.len(), 4);
    lemma_round_trip_elems(b, i + 5, es, o);
    let tail_pos = i + 5 + elems_wire(es).len();
    lemma_round_trip(b, tail_pos, *tail, o);
    assert(Box::new(*tail) == tail);
    assert(sd_term(b, i, o) == (TermOutcome::Found {
        t: TermV::Improper(es, tail),
        next: i + w.len(),
    }));
}

/// Decoding the wire bytes of a well-formed tuple yields the tuple.
proof fn lemma_rt_tuple(b: Seq<u8>, i: int, es: Seq<TermV>, o: DecodeOptions)
    requires
        es.len() <= 0xFFFF_FFFF,
        wf_elems(es),
        !o.read_string_ext_as_list,
        !o.try_read_list_ext_as_estring,
        0 <= i,
        i + wire(TermV::Tuple(es)).len() <= b.len(),
        b.subrange(i, i + wire(TermV::Tuple(es)).len() as int) == wire(TermV::Tuple(es)),
    ensures
        sd_term(b, i, o) == (TermOutcome::Found {
            t: TermV::Tuple(es),
            next: i + wire(TermV::Tuple(es)).len(),
        }),
    decreases TermV::Tuple(es), 1int, 0int,
{
    let w = wire(TermV::Tuple(es));
    reveal_with_fuel(pow256, 5);
    if es.len() <= 255 {
        let hdr: Seq<u8> = seq![104u8, es.len() as u8];
        assert(w == hdr + elems_wire(es));
        lemma_subrange_split(b, i, hdr, elems_wire(es));
        assert(b[i] == (hdr + elems_wire(es))[0]);
        assert(b[i + 1] == (hdr + elems_wire(es))[1]);
        lemma_round_trip_elems(b, i + 2, es, o);
        assert(sd_term(b, i, o) == (TermOutcome::Found { t: TermV::Tuple(es), next: i + w.len() }));
    } else {
        let hdr: Seq<u8> = seq![105u8] + be_bytes(es.len(), 4);
        crate::terms::encode::lemma_be_bytes_len(es.len(), 4);
        assert(w == hdr + elems_wire(es));
        lemma_subrange_split(b, i, hdr, elems_wire(es));
        lemma_subrange_split(b, i, seq![105u8], be_bytes(es.len(), 4));
        assert(b[i] == (hdr + elems_wire(es))[0]);
        lemma_be_at_of_be_bytes(b, i + 1, es.len(), 4);
        lemma_round_trip_elems(b, i + 5, es, o);
        assert(sd_term(b, i, o) == (TermOutcome::Found { t: TermV::Tuple(es), next: i + w.len() }));
    }
}

/// Decoding the wire bytes of a well-formed map yields the map.
proof fn lemma_rt_mapping(b: Seq<u8>, i: int, ps: Seq<(TermV, TermV)>, o: DecodeOptions)
    requires
        ps.len() <= 0xFFFF_FFFF,
        wf_pairs(ps),
        !o.read_string_ext_as_list,
        !o.try_read_list_ext_as_estring,
        0 <= i,
        i + wire(TermV::Mapping(ps)).len() <= b.len(),
        b.subrange(i, i + wire(TermV::Mapping(ps)).len() as int) == wire(TermV::Mapping(ps)),
    ensures
        sd_term(b, i, o) == (TermOutcome::Found {
            t: TermV::Mapping(ps),
            next: i + wire(TermV::Mapping(ps)).len(),
        }),
    decreases TermV::Mapping(ps), 1int, 0int,
{
    let w = wire(TermV::Mapping(ps));
    reveal_with_fuel(pow256, 5);
    let hdr: Seq<u8> = seq![116u8] + be_bytes(ps.len(), 4);
    crate::terms::encode::lemma_be_bytes_len(ps.len(), 4);
    assert(w == hdr + pairs_wire(ps));
    lemma_subrange_split(b, i, hdr, pairs_wire(ps));
    lemma_subrange_split(b, i, seq![116u8], be_bytes(ps.len(), 4));
    assert(b[i] == (hdr + pairs_wire(ps))[0]);
    lemma_be_at_of_be_bytes(b, i + 1, ps.len(), 4);
    lemma_round_trip_pairs(b, i + 5, ps, o);
    assert(sd_term(b, i, o) == (TermOutcome::Found { t: TermV::Mapping(ps), next: i + w.len() }));
}

/// Decoding the wire bytes of well-formed text yields the text term.
proof fn lemma_rt_str(b: Seq<u8>, i: int, s: Seq<char>, o: DecodeOptions)
    requires
        encode_utf8(s).len() <= 0xFFFF,
        !o.read_string_ext_as_list,
        !o.try_read_list_ext_as_estring,
        0 <= i,
        i + wire(TermV::Str(s)).len() <= b.len(),
        b.subrange(i, i + wire(TermV::Str(s)).len() as int) == wire(TermV::Str(s)),
    ensures
        sd_term(b, i, o) == (TermOutcome::Found {
            t: TermV::Str(s),
            next: i + wire(TermV::Str(s)).len(),
        }),
{
    let w = wire(TermV::Str(s));
    let u = encode_utf8(s);
    vstd::utf8::encode_utf8_valid_utf8(s);
    vstd::utf8::encode_utf8_decode_utf8(s);
    let hdr: Seq<u8> = seq![107u8] + be_bytes(u.len(), 2);
    crate::terms::encode::lemma_be_bytes_len(u.len(), 2);
    assert(w == hdr + u);
    lemma_subrange_split(b, i, hdr, u);
    lemma_subrange_split(b, i, seq![107u8], be_bytes(u.len(), 2));
    assert(b[i] == (hdr + u)[0]);
    reveal_with_fuel(pow256, 3);
    lemma_be_at_of_be_bytes(b, i + 1, u.len(), 2);
    assert(b.subrange(i + 3, i + 3 + u.len() as int) =~= u);
    assert(sd_term(b, i, o) == (TermOutcome::Found { t: TermV::Str(s), next: i + w.len() }));
}

/// Decoding the wire bytes of a binary yields the binary.
proof fn lemma_rt_binary(b: Seq<u8>, i: int, bs: Seq<u8>, o: DecodeOptions)
    requires
        bs.len() <= 0xFFFF_FFFF,
        0 <= i,
        i + wire(TermV::Binary(bs)).len() <= b.len(),
        b.subrange(i, i + wire(TermV::Binary(bs)).len() as int) == wire(TermV::Binary(bs)),
    ensures
        sd_term(b, i, o) == (TermOutcome::Found {
            t: TermV::Binary(bs),
            next: i + wire(TermV::Binary(bs)).len(),
        }),
{
    let w = wire(TermV::Binary(bs));
    reveal_with_fuel(pow256, 5);
    let hdr: Seq<u8> = seq![109u8] + be_bytes(bs.len(), 4);
    crate::terms::encode::lemma_be_bytes_len(bs.len(), 4);
    assert(w == hdr + bs);
    lemma_subrange_split(b, i, hdr, bs);
    lemma_subrange_split(b, i, seq![109u8], be_bytes(bs.len(), 4));
    assert(b[i] == (hdr + bs)[0]);
    lemma_be_at_of_be_bytes(b, i + 1, bs.len(), 4);
    assert(b.subrange(i + 5, i + 5 + bs.len() as int) =~= bs);
    assert(sd_term(b, i, o) == (TermOutcome::Found { t: TermV::Binary(bs), next: i + w.len() }));
}

/// Decoding the wire bytes of a well-formed export yields the export.
proof fn lemma_rt_export(
    b: Seq<u8>,
    i: int,
    module: Seq<char>,
    function: Seq<char>,
    arity: u8,
    o: DecodeOptions,
)
    requires
        encode_utf8(module).len() <= 0xFFFF,
        encode_utf8(function).len() <= 0xFFFF,
        0 <= i,
        i + wire(TermV::Export { module, function, arity }).len() <= b.len(),
        b.subrange(i, i + wire(TermV::Export { module, function, arity }).len() as int) == wire(
            TermV::Export { module, function, arity },
        ),
    ensures
        sd_term(b, i, o) == (TermOutcome::Found {
            t: TermV::Export { module, function, arity },
            next: i + wire(TermV::Export { module, function, arity }).len(),
        }),
{
    let v = TermV::Export { module, function, arity };
    let w = wire(v);
    let mw = atom_wire(module);
    let fw = atom_wire(function);
    let tailw: Seq<u8> = seq![97u8, arity];
    assert(w == seq![113u8] + (mw + (fw + tailw))) by {
        assert(seq![113u8] + mw + fw + tailw =~= seq![113u8] + (mw + (fw + tailw)));
    }
    lemma_subrange_split(b, i, seq![113u8], mw + (fw + tailw));
    lemma_subrange_split(b, i + 1, mw, fw + tailw);
    lemma_subrange_split(b, i + 1 + mw.len(), fw, tailw);
    assert(b[i] == (seq![113u8] + (mw + (fw + tailw)))[0]);
    lemma_round_trip_atom(b, i + 1, module, o);
    lemma_round_trip_atom(b, i + 1 + mw.len(), function, o);
    let ap = i + 1 + mw.len() + fw.len();
    assert(b[ap] == b.subrange(ap, ap + 2)[0]);
    assert(b[ap + 1] == b.subrange(ap, ap + 2)[1]);
    assert(sd_term(b, i, o) == (TermOutcome::Found { t: v, next: i + w.len() }));
}

/// Decoding the wire bytes of a well-formed port yields the port.
proof fn lemma_rt_port(b: Seq<u8>, i: int, node: Seq<char>, id: u32, creation: u32, o: DecodeOptions)
    requires
        encode_utf8(node).len() <= 0xFFFF,
        0 <= i,
        i + wire(TermV::Port { node, id, creation }).len() <= b.len(),
        b.subrange(i, i + wire(TermV::Port { node, id, creation }).len() as int) == wire(
            TermV::Port { node, id, creation },
        ),
    ensures
        sd_term(b, i, o) == (TermOutcome::Found {
            t: TermV::Port { node, id, creation },
            next: i + wire(TermV::Port { node, id, creation }).len(),
        }),
{
    let v = TermV::Port { node, id, creation };
    let w = wire(v);
    reveal_with_fuel(pow256, 5);
    let nw = atom_wire(node);
    let fields = be_bytes(id as nat, 4) + be_bytes(creation as nat, 4);
    crate::terms::encode::lemma_be_bytes_len(id as nat, 4);
    crate::terms::encode::lemma_be_bytes_len(creation as nat, 4);
    assert(w == seq![89u8] + (nw + fields)) by {
        assert(seq![89u8] + nw + be_bytes(id as nat, 4) + be_bytes(creation as nat, 4) =~= seq![
            89u8,
        ] + (nw + fields));
    }
    lemma_subrange_split(b, i, seq![89u8], nw + fields);
    lemma_subrange_split(b, i + 1, nw, fields);
    let fp = i + 1 + nw.len();
    lemma_subrange_split(b, fp, be_bytes(id as nat, 4), be_bytes(creation as nat, 4));
    assert(b[i] == (seq![89u8] + (nw + fields))[0]);
    lemma_round_trip_atom(b, i + 1, node, o);
    lemma_be_at_of_be_bytes(b, fp, id as nat, 4);
    lemma_be_at_of_be_bytes(b, fp + 4, creation as nat, 4);
    lemma_small_mod(id as nat, 0x1_0000_0000);
    lemma_small_mod(creation as nat, 0x1_0000_0000);
    assert(sd_term(b, i, o) == (TermOutcome::Found { t: v, next: i + w.len() }));
}

/// Decoding the wire bytes of a well-formed process identifier yields it.
proof fn lemma_rt_pid(
    b: Seq<u8>,
    i: int,
    node: Seq<char>,
    id: u32,
    serial: u32,
    creation: u32,
    o: DecodeOptions,
)
    requires
        encode_utf8(node).len() <= 0xFFFF,
        0 <= i,
        i + wire(TermV::Pid { node, id, serial, creation }).len() <= b.len(),
        b.subrange(i, i + wire(TermV::Pid { node, id, serial, creation }).len() as int) == wire(
            TermV::Pid { node, id, serial, creation },
        ),
    ensures
        sd_term(b, i, o) == (TermOutcome::Found {
            t: TermV::Pid { node, id, serial, creation },
            next: i + wire(TermV::Pid { node, id, serial, creation }).len(),
        }),
{
    let v = TermV::Pid { node, id, serial, creation };
    let w = wire(v);
    reveal_with_fuel(pow256, 5);
    let nw = atom_wire(node);
    let fields = be_bytes(id as nat, 4) + (be_bytes(serial as nat, 4) + be_bytes(
        creation as nat,
        4,
    ));
    crate::terms::encode::lemma_be_bytes_len(id as nat, 4);
    crate::terms::encode::lemma_be_bytes_len(serial as nat, 4);
    crate::terms::encode::lemma_be_bytes_len(creation as nat, 4);
    assert(w == seq![88u8] + (nw + fields)) by {
        assert(seq![88u8] + nw + be_bytes(id as nat, 4) + be_bytes(serial as nat, 4) + be_bytes(
            creation as nat,
            4,
        ) =~= seq![88u8] + (nw + fields));
    }
    lemma_subrange_split(b, i, seq![88u8], nw + fields);
    lemma_subrange_split(b, i + 1, nw, fields);
    let fp = i + 1 + nw.len();
    lemma_subrange_split(b, fp, be_bytes(id as nat, 4), be_bytes(serial as nat, 4) + be_bytes(
        creation as nat,
        4,
    ));
    lemma_subrange_split(b, fp + 4, be_bytes(serial as nat, 4), be_bytes(creation as nat, 4));
    assert(b[i] == (seq![88u8] + (nw + fields))[0]);
    lemma_round_trip_atom(b, i + 1, node, o);
    lemma_be_at_of_be_bytes(b, fp, id as nat, 4);
    lemma_be_at_of_be_bytes(b, fp + 4, serial as nat, 4);
    lemma_be_at_of_be_bytes(b, fp + 8, creation as nat, 4);
    lemma_small_mod(id as nat, 0x1_0000_0000);
    lemma_small_mod(serial as nat, 0x1_0000_0000);
    lemma_small_mod(creation as nat, 0x1_0000_0000);
    assert(sd_term(b, i, o) == (TermOutcome::Found { t: v, next: i + w.len() }));
}

/// Decoding the wire bytes of a float yields the float, bit for bit.
proof fn lemma_rt_float(b: Seq<u8>, i: int, bits: u64, o: DecodeOptions)
    requires
        0 <= i,
        i + wire(TermV::Float(bits)).len() <= b.len(),
        b.subrange(i, i + wire(TermV::Float(bits)).len() as int) == wire(TermV::Float(bits)),
    ensures
        sd_term(b, i, o) == (TermOutcome::Found {
            t: TermV::Float(bits),
            next: i + wire(TermV::Float(bits)).len(),
        }),
{
    let w = wire(TermV::Float(bits));
    let hdr: Seq<u8> = seq![70u8];
    crate::terms::encode::lemma_be_bytes_len(bits as nat, 8);
    assert(w == hdr + be_bytes(bits as nat, 8));
    lemma_subrange_split(b, i, hdr, be_bytes(bits as nat, 8));
    assert(b[i] == (hdr + be_bytes(bits as nat, 8))[0]);
    reveal_with_fuel(pow256, 9);
    lemma_be_at_of_be_bytes(b, i + 1, bits as nat, 8);
    lemma_small_mod(bits as nat, 0x1_0000_0000_0000_0000);
    assert(sd_term(b, i, o) == (TermOutcome::Found { t: TermV::Float(bits), next: i + w.len() }));
}

/// Decoding the wire bytes of any well-formed term, with both byte-list
/// heuristics switched off, yields exactly that term: the round-trip law
/// of the codec, stated against the specification decoder at any
/// position of any input that carries the term's wire bytes.
pub proof fn lemma_round_trip(b: Seq<u8>, i: int, v: TermV, o: DecodeOptions)
    requires
        wf_term(v),
        !o.read_string_ext_as_list,
        !o.try_read_list_ext_as_estring,
        0 <= i,
        i + wire(v).len() <= b.len(),
        b.subrange(i, i + wire(v).len() as int) == wire(v),
    ensures
        sd_term(b, i, o) == (TermOutcome::Found { t: v, next: i + wire(v).len() }),
    decreases v, 1int, 1int,
{
    match v {
        TermV::Nil => {
            assert(b[i] == wire(v)[0]);
            assert(sd_term(b, i, o) == (TermOutcome::Found { t: TermV::Nil, next: i + 1 }));
        },
        TermV::List(es) => {
            lemma_rt_list(b, i, es, o);
        },
        TermV::Improper(es, tail) => {
            lemma_rt_improper(b, i, es, tail, o);
        },
        TermV::Atom(s) => {
            lemma_round_trip_atom(b, i, s, o);
        },
        TermV::Tuple(es) => {
            lemma_rt_tuple(b, i, es, o);
        },
        TermV::Str(s) => {
            lemma_rt_str(b, i, s, o);
        },
        TermV::Mapping(ps) => {
            lemma_rt_mapping(b, i, ps, o);
        },
        TermV::Binary(bs) => {
            lemma_rt_binary(b, i, bs, o);
        },
        TermV::Export { module, function, arity } => {
            lemma_rt_export(b, i, module, function, arity, o);
        },
        TermV::Port { node, id, creation } => {
            lemma_rt_port(b, i, node, id, creation, o);
        },
        TermV::Pid { node, id, serial, creation } => {
            lemma_rt_pid(b, i, node, id, serial, creation, o);
        },
        TermV::Integer { negative, magnitude } => {
            lemma_round_trip_int(b, i, negative, magnitude, o);
        },
        TermV::Float(bits) => {
            lemma_rt_float(b, i, bits, o);
        },
    }
}

/// Decoding the concatenated wire bytes of well-formed terms yields
/// those terms, in order.
#[verifier::rlimit(50)]
pub proof fn lemma_round_trip_elems(b: Seq<u8>, i: int, vs: Seq<TermV>, o: DecodeOptions)
    requires
        wf_elems(vs),
        !o.read_string_ext_as_list,
        !o.try_read_list_ext_as_estring,
        0 <= i,
        i + elems_wire(vs).len() <= b.len(),
        b.subrange(i, i + elems_wire(vs).len() as int) == elems_wire(vs),
    ensures
        sd_terms(b, i, vs.len() as int, o) == (SeqOutcome::Found {
            ts: vs,
            next: i + elems_wire(vs).len(),
        }),
    decreases vs, 0int, 0int,
{
    if vs.len() == 0 {
        assert(vs =~= Seq::<TermV>::empty());
        assert(elems_wire(vs) =~= Seq::<u8>::empty());
    } else {
        let head = vs[0];
        let rest = vs.subrange(1, vs.len() as int);
        assert(elems_wire(vs) == wire(head) + elems_wire(rest));
        lemma_subrange_split(b, i, wire(head), elems_wire(rest));
        assert(wf_term(head));
        lemma_round_trip(b, i, head, o);
        let mid = i + wire(head).len();
        lemma_round_trip_elems(b, mid, rest, o);
        assert(seq![head] + rest =~= vs);
        assert(sd_terms(b, i, vs.len() as int, o) == (SeqOutcome::Found {
            ts: vs,
            next: i + elems_wire(vs).len(),
        }));
    }
}

/// Decoding the interleaved wire bytes of well-formed key/value pairs
/// yields those pairs, in order.
#[verifier::rlimit(100)]
pub proof fn lemma_round_trip_pairs(b: Seq<u8>, i: int, ps: Seq<(TermV, TermV)>, o: DecodeOptions)
    requires
        wf_pairs(ps),
        !o.read_string_ext_as_list,
        !o.try_read_list_ext_as_estring,
        0 <= i,
        i + pairs_wire(ps).len() <= b.len(),
        b.subrange(i, i + pairs_wire(ps).len() as int) == pairs_wire(ps),
    ensures
        sd_pairs(b, i, ps.len() as int, o) == (PairsOutcome::Found {
            ps,
            next: i + pairs_wire(ps).len(),
        }),
    decreases ps, 0int, 0int,
{
    if ps.len() == 0 {
        assert(ps =~= Seq::<(TermV, TermV)>::empty());
        assert(pairs_wire(ps) =~= Seq::<u8>::empty());
    } else {
        let head = ps[0];
        let rest = ps.subrange(1, ps.len() as int);
        assert(pairs_wire(ps) == wire(head.0) + wire(head.1) + pairs_wire(rest));
        assert(pairs_wire(ps) == wire(head.0) + (wire(head.1) + pairs_wire(rest))) by {
            assert(wire(head.0) + wire(head.1) + pairs_wire(rest) =~= wire(head.0) + (wire(head.1)
                + pairs_wire(rest)));
        }
        lemma_subrange_split(b, i, wire(head.0), wire(head.1) + pairs_wire(rest));
        let mid = i + wire(head.0).len();
        lemma_subrange_split(b, mid, wire(head.1), pairs_wire(rest));
        assert(wf_term(head.0) && wf_term(head.1));
        lemma_round_trip(b, i, head.0, o);
        lemma_round_trip(b, mid, head.1, o);
        let mid2 = mid + wire(head.1).len();
        lemma_round_trip_pairs(b, mid2, rest, o);
        assert(seq![head] + rest =~= ps);
        assert(sd_pairs(b, i, ps.len() as int, o) == (PairsOutcome::Found {
            ps,
            next: i + pairs_wire(ps).len(),
        }));
    }
}

/// The round-trip law over a whole buffer: the wire bytes of any
/// well-formed term, decoded from the start with both byte-list
/// heuristics off, give back exactly that term and consume exactly those
/// bytes.  The heuristics intentionally normalise byte-valued lists to
/// text, so they are switched off here; their effect is pinned down by
/// the specification decoder itself.
pub proof fn lemma_encode_then_decode(v: TermV, o: DecodeOptions)
    requires
        wf_term(v),
        !o.read_string_ext_as_list,
        !o.try_read_list_ext_as_estring,
    ensures
        sd_term(wire(v), 0, o) == (TermOutcome::Found { t: v, next: wire(v).len() as int }),
{
    assert(wire(v).subrange(0, wire(v).len() as int) =~= wire(v));
    lemma_round_trip(wire(v), 0, v, o);
}

/// The byte-as-small-integer wire of a run of bytes takes two bytes per
/// byte.
proof fn lemma_byte_elems_wire_len(bs: Seq<u8>)
    ensures
        byte_elems_wire(bs).len() == 2 * bs.len(),
    decreases bs.len(),
{
    if bs.len() > 0 {
        lemma_byte_elems_wire_len(bs.subrange(1, bs.len() as int));
    }
}

/// Byte-range integer terms are well-formed, and their concatenated wire
/// bytes are one small-integer layout per byte.
proof fn lemma_byte_terms_wire(bs: Seq<u8>)
    ensures
        wf_elems(byte_terms_of(bs)),
        elems_wire(byte_terms_of(bs)) == byte_elems_wire(bs),
    decreases bs.len(),
{
    let ts = byte_terms_of(bs);
    assert forall|k: int| 0 <= k < ts.len() implies wf_term(#[trigger] ts[k]) by {
        assert(ts[k] == byte_term(bs[k]));
    }
    if bs.len() == 0 {
        assert(elems_wire(ts) =~= byte_elems_wire(bs));
    } else {
        let rest = bs.subrange(1, bs.len() as int);
        lemma_byte_terms_wire(rest);
        assert(ts[0] == byte_term(bs[0]));
        assert(wire(byte_term(bs[0])) == int_wire(int_v(false, byte_term(bs[0])->Integer_magnitude)));
        reveal_with_fuel(le_value, 3);
        if bs[0] == 0 {
            assert(int_v(false, Seq::<u8>::empty()) == 0);
        } else {
            assert(seq![bs[0]].subrange(1, 1) =~= Seq::<u8>::empty());
            assert(le_value(seq![bs[0]]) == bs[0]);
        }
        assert(wire(ts[0]) =~= seq![97u8, bs[0]]);
        assert(ts.subrange(1, ts.len() as int) =~= byte_terms_of(rest));
        assert(elems_wire(ts) == wire(ts[0]) + elems_wire(byte_terms_of(rest)));
        assert(elems_wire(ts) =~= byte_elems_wire(bs));
    }
}

/// Decoding a run of small-integer layouts yields the byte-range integer
/// terms of those bytes, one per layout, under any options.
proof fn lemma_byte_terms_decode(b: Seq<u8>, j: int, bs: Seq<u8>, o: DecodeOptions)
    requires
        0 <= j,
        j + byte_elems_wire(bs).len() <= b.len(),
        b.subrange(j, j + byte_elems_wire(bs).len() as int) == byte_elems_wire(bs),
    ensures
        sd_terms(b, j, bs.len() as int, o) == (SeqOutcome::Found {
            ts: byte_terms_of(bs),
            next: j + byte_elems_wire(bs).len(),
        }),
    decreases bs.len(),
{
    lemma_byte_elems_wire_len(bs);
    if bs.len() == 0 {
        assert(byte_terms_of(bs) =~= Seq::<TermV>::empty());
    } else {
        let rest = bs.subrange(1, bs.len() as int);
        let head: Seq<u8> = seq![97u8, bs[0]];
        assert(byte_elems_wire(bs) == head + byte_elems_wire(rest));
        lemma_subrange_split(b, j, head, byte_elems_wire(rest));
        assert(b[j] == b.subrange(j, j + 2)[0]);
        assert(b[j + 1] == b.subrange(j, j + 2)[1]);
        assert(sd_term(b, j, o) == (TermOutcome::Found { t: byte_term(bs[0]), next: j + 2 }));
        lemma_byte_terms_decode(b, j + 2, rest, o);
        assert(seq![byte_term(bs[0])] + byte_terms_of(rest) =~= byte_terms_of(bs));
        assert(sd_terms(b, j, bs.len() as int, o) == (SeqOutcome::Found {
            ts: byte_terms_of(bs),
            next: j + byte_elems_wire(bs).len(),
        }));
    }
}

/// The normalising direction of the round trip, in general: the wire
/// bytes of any non-empty proper list of byte-range integers whose byte
/// values are valid UTF-8 decode, with the list-as-text heuristic on, to
/// the text term of exactly those bytes.  (An empty such list travels as
/// the `Nil` tag and so comes back as `Nil`; byte values that are not
/// UTF-8 cannot inhabit the text term and are refused.)
pub proof fn lemma_byte_list_normalises(b: Seq<u8>, i: int, bs: Seq<u8>, o: DecodeOptions)
    requires
        o.try_read_list_ext_as_estring,
        valid_utf8(bs),
        0 < bs.len() <= 0xFFFF_FFFF,
        0 <= i,
        i + wire(TermV::List(byte_terms_of(bs))).len() <= b.len(),
        b.subrange(i, i + wire(TermV::List(byte_terms_of(bs))).len() as int) == wire(
            TermV::List(byte_terms_of(bs)),
        ),
    ensures
        sd_term(b, i, o) == (TermOutcome::Found {
            t: TermV::Str(decode_utf8(bs)),
            next: i + wire(TermV::List(byte_terms_of(bs))).len(),
        }),
{
    let es = byte_terms_of(bs);
    let w = wire(TermV::List(es));
    lemma_byte_terms_wire(bs);
    lemma_byte_elems_wire_len(bs);
    reveal_with_fuel(pow256, 5);
    let hdr: Seq<u8> = seq![108u8] + be_bytes(es.len(), 4);
    crate::terms::encode::lemma_be_bytes_len(es.len(), 4);
    assert(w == hdr + (elems_wire(es) + seq![106u8]));
    lemma_subrange_split(b, i, hdr, elems_wire(es) + seq![106u8]);
    lemma_subrange_split(b, i + 5, elems_wire(es), seq![106u8]);
    lemma_subrange_split(b, i, seq![108u8], be_bytes(es.len(), 4));
    assert(b[i] == (hdr + (elems_wire(es) + seq![106u8]))[0]);
    lemma_be_at_of_be_bytes(b, i + 1, es.len(), 4);
    lemma_byte_terms_decode(b, i + 5, bs, o);
    let tail_pos = i + 5 + elems_wire(es).len();
    assert(b[tail_pos] == b.subrange(tail_pos, tail_pos + 1)[0]);
    assert(b[tail_pos] == 106);
    assert(sd_term(b, tail_pos, o) == (TermOutcome::Found { t: TermV::Nil, next: tail_pos + 1 }));
    assert forall|k: int| 0 <= k < es.len() implies is_byte_term(#[trigger] es[k]) by {
        assert(es[k] == byte_term(bs[k]));
    }
    assert(bytes_of_terms(es) =~= bs);
    assert(sd_term(b, i, o) == (TermOutcome::Found {
        t: TermV::Str(decode_utf8(bs)),
        next: i + w.len(),
    }));
}

/// The normalising law over a whole buffer: encoding a non-empty proper
/// list of byte-range integers with valid UTF-8 byte values and decoding
/// its bytes with the list-as-text heuristic on gives the text term of
/// those bytes — the accepted non-identity of the round trip.
pub proof fn lemma_encode_byte_list_then_decode(bs: Seq<u8>, o: DecodeOptions)
    requires
        o.try_read_list_ext_as_estring,
        valid_utf8(bs),
        0 < bs.len() <= 0xFFFF_FFFF,
    ensures
        sd_term(wire(TermV::List(byte_terms_of(bs))), 0, o) == (TermOutcome::Found {
            t: TermV::Str(decode_utf8(bs)),
            next: wire(TermV::List(byte_terms_of(bs))).len() as int,
        }),
{
    let w = wire(TermV::List(byte_terms_of(bs)));
    assert(w.subrange(0, w.len() as int) =~= w);
    lemma_byte_list_normalises(w, 0, bs, o);
}

} // verus!

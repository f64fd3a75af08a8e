//! The term model: a closed set of value variants covering every term kind
//! the codec supports, together with the mathematical view of each term and
//! the well-formedness predicate that the decoder guarantees.

pub mod decode;
pub mod encode;

use vstd::prelude::*;
use vstd::string::StrSliceExecFns;
use vstd::string::StringExecFns;

use crate::terms::encode::le_value;
use crate::terms::encode::lemma_le_value_push;
use crate::terms::encode::lemma_pair_views_index;
use crate::terms::encode::lemma_pow256_mono;
use crate::terms::encode::lemma_pow256_pos;
use crate::terms::encode::lemma_term_views_index;
use crate::terms::encode::pow256;

verus! {

/// The version byte that prefixes a complete encoded message at the
/// transport layer.  Producing and consuming that outer envelope is the
/// caller's responsibility, not the term codec's.
pub const ETF_VERSION: u8 = 131;

/// The header tags of the distribution protocol.  The distribution header
/// (inter-node session framing, atom caching) is a documented non-goal of
/// this codec; the tag values are listed for completeness only.
#[derive(Debug, PartialEq, Eq, Clone, Copy)]
pub enum DistHeaderTag {
    /// A normal unfragmented, uncompressed distribution header (tag 68).
    Normal,
    /// The first fragment of a fragmented message (tag 69).
    Fragmented,
    /// A follow-up fragment of a fragmented message (tag 70).
    Fragment,
    /// A compressed header or term (tag 80).
    Compressed,
}

/// The tag byte of each distribution-header kind.
pub open spec fn dist_header_tag_value(t: DistHeaderTag) -> u8 {
    match t {
        DistHeaderTag::Normal => 68,
        DistHeaderTag::Fragmented => 69,
        DistHeaderTag::Fragment => 70,
        DistHeaderTag::Compressed => 80,
    }
}

impl DistHeaderTag {
    /// The tag byte that introduces this header kind on the wire.
    pub fn value(&self) -> (r: u8)
        ensures
            r == dist_header_tag_value(*self),
    {
        match self {
            DistHeaderTag::Normal => 68,
            DistHeaderTag::Fragmented => 69,
            DistHeaderTag::Fragment => 70,
            DistHeaderTag::Compressed => 80,
        }
    }
}

/// The leading tag byte of every term layout of the external format.
///
/// The variant for the map layout (tag byte 116) is named `Mapping` here.
#[derive(Debug, PartialEq, Eq, Clone, Copy)]
pub enum TermTag {
    /// A reference into the atom cache of the distribution header (tag 82).
    AtomCacheRef,
    /// An unsigned 8-bit integer (tag 97).
    SmallInteger,
    /// A signed 32-bit big-endian integer (tag 98).
    Integer,
    /// A float stored as a 31-byte decimal string (tag 99, legacy).
    Float,
    /// A port with a one-byte creation field (tag 102, legacy).
    Port,
    /// A port with a four-byte creation field (tag 89).
    NewPort,
    /// A process identifier with a one-byte creation field (tag 103, legacy).
    Pid,
    /// A process identifier with a four-byte creation field (tag 88).
    NewPid,
    /// A tuple whose arity fits in one byte (tag 104).
    SmallTuple,
    /// A tuple with a four-byte arity (tag 105).
    LargeTuple,
    /// A map: a pair count followed by interleaved keys and values (tag 116).
    Mapping,
    /// The empty list (tag 106).
    Nil,
    /// The byte-list optimization: a two-byte length and raw bytes (tag 107).
    String,
    /// A list: a four-byte element count, the elements, a tail term (tag 108).
    List,
    /// A byte array: a four-byte length and raw bytes (tag 109).
    Binary,
    /// A big integer whose magnitude length fits in one byte (tag 110).
    SmallBig,
    /// A big integer with a four-byte magnitude length (tag 111).
    LargeBig,
    /// A reference (tag 101, deprecated).
    Reference,
    /// A reference with a one-byte creation field (tag 114, deprecated).
    NewReference,
    /// A reference with a four-byte creation field (tag 90).
    NewerReference,
    /// An old-style internal function (tag 117).
    Fun,
    /// An internal function (tag 112).
    NewFun,
    /// An exported function: module, function and arity (tag 113).
    Export,
    /// A bitstring whose length need not be a whole number of bytes (tag 77).
    BitBinary,
    /// An 8-byte big-endian IEEE-754 double (tag 70).
    NewFloat,
    /// An atom of UTF-8 text with a two-byte length (tag 118).
    AtomUtf8,
    /// An atom of UTF-8 text with a one-byte length (tag 119).
    SmallAtomUtf8,
    /// An atom of Latin-1 text with a two-byte length (tag 100, decode only).
    Atom,
    /// An atom of Latin-1 text with a one-byte length (tag 115, decode only).
    SmallAtom,
}

/// The tag byte of each term layout.
pub open spec fn term_tag_value(t: TermTag) -> u8 {
    match t {
        TermTag::AtomCacheRef => 82,
        TermTag::SmallInteger => 97,
        TermTag::Integer => 98,
        TermTag::Float => 99,
        TermTag::Port => 102,
        TermTag::NewPort => 89,
        TermTag::Pid => 103,
        TermTag::NewPid => 88,
        TermTag::SmallTuple => 104,
        TermTag::LargeTuple => 105,
        TermTag::Mapping => 116,
        TermTag::Nil => 106,
        TermTag::String => 107,
        TermTag::List => 108,
        TermTag::Binary => 109,
        TermTag::SmallBig => 110,
        TermTag::LargeBig => 111,
        TermTag::Reference => 101,
        TermTag::NewReference => 114,
        TermTag::NewerReference => 90,
        TermTag::Fun => 117,
        TermTag::NewFun => 112,
        TermTag::Export => 113,
        TermTag::BitBinary => 77,
        TermTag::NewFloat => 70,
        TermTag::AtomUtf8 => 118,
        TermTag::SmallAtomUtf8 => 119,
        TermTag::Atom => 100,
        TermTag::SmallAtom => 115,
    }
}

impl TermTag {
    /// The tag byte that introduces this layout on the wire.
    pub fn value(&self) -> (r: u8)
        ensures
            r == term_tag_value(*self),
    {
        match self {
            TermTag::AtomCacheRef => 82,
            TermTag::SmallInteger => 97,
            TermTag::Integer => 98,
            TermTag::Float => 99,
            TermTag::Port => 102,
            TermTag::NewPort => 89,
            TermTag::Pid => 103,
            TermTag::NewPid => 88,
            TermTag::SmallTuple => 104,
            TermTag::LargeTuple => 105,
            TermTag::Mapping => 116,
            TermTag::Nil => 106,
            TermTag::String => 107,
            TermTag::List => 108,
            TermTag::Binary => 109,
            TermTag::SmallBig => 110,
            TermTag::LargeBig => 111,
            TermTag::Reference => 101,
            TermTag::NewReference => 114,
            TermTag::NewerReference => 90,
            TermTag::Fun => 117,
            TermTag::NewFun => 112,
            TermTag::Export => 113,
            TermTag::BitBinary => 77,
            TermTag::NewFloat => 70,
            TermTag::AtomUtf8 => 118,
            TermTag::SmallAtomUtf8 => 119,
            TermTag::Atom => 100,
            TermTag::SmallAtom => 115,
        }
    }

    /// The tag named by a wire byte, or `Err` when the byte names no known
    /// layout.
    pub fn try_from(from: u8) -> (r: Result<TermTag, ()>)
        ensures
            match r {
                Ok(t) => term_tag_value(t) == from,
                Err(_) => forall|t: TermTag| term_tag_value(t) != from,
            },
    {
        match from {
            82u8 => Ok(TermTag::AtomCacheRef),
            97u8 => Ok(TermTag::SmallInteger),
            98u8 => Ok(TermTag::Integer),
            99u8 => Ok(TermTag::Float),
            102u8 => Ok(TermTag::Port),
            89u8 => Ok(TermTag::NewPort),
            103u8 => Ok(TermTag::Pid),
            88u8 => Ok(TermTag::NewPid),
            104u8 => Ok(TermTag::SmallTuple),
            105u8 => Ok(TermTag::LargeTuple),
            116u8 => Ok(TermTag::Mapping),
            106u8 => Ok(TermTag::Nil),
            107u8 => Ok(TermTag::String),
            108u8 => Ok(TermTag::List),
            109u8 => Ok(TermTag::Binary),
            110u8 => Ok(TermTag::SmallBig),
            111u8 => Ok(TermTag::LargeBig),
            101u8 => Ok(TermTag::Reference),
            114u8 => Ok(TermTag::NewReference),
            90u8 => Ok(TermTag::NewerReference),
            117u8 => Ok(TermTag::Fun),
            112u8 => Ok(TermTag::NewFun),
            113u8 => Ok(TermTag::Export),
            77u8 => Ok(TermTag::BitBinary),
            70u8 => Ok(TermTag::NewFloat),
            118u8 => Ok(TermTag::AtomUtf8),
            119u8 => Ok(TermTag::SmallAtomUtf8),
            100u8 => Ok(TermTag::Atom),
            115u8 => Ok(TermTag::SmallAtom),
            _ => {
                proof {
                    assert forall|t: TermTag| term_tag_value(t) != from by {
                        match t {
                            TermTag::AtomCacheRef => {},
                            TermTag::SmallInteger => {},
                            TermTag::Integer => {},
                            TermTag::Float => {},
                            TermTag::Port => {},
                            TermTag::NewPort => {},
                            TermTag::Pid => {},
                            TermTag::NewPid => {},
                            TermTag::SmallTuple => {},
                            TermTag::LargeTuple => {},
                            TermTag::Mapping => {},
                            TermTag::Nil => {},
                            TermTag::String => {},
                            TermTag::List => {},
                            TermTag::Binary => {},
                            TermTag::SmallBig => {},
                            TermTag::LargeBig => {},
                            TermTag::Reference => {},
                            TermTag::NewReference => {},
                            TermTag::NewerReference => {},
                            TermTag::Fun => {},
                            TermTag::NewFun => {},
                            TermTag::Export => {},
                            TermTag::BitBinary => {},
                            TermTag::NewFloat => {},
                            TermTag::AtomUtf8 => {},
                            TermTag::SmallAtomUtf8 => {},
                            TermTag::Atom => {},
                            TermTag::SmallAtom => {},
                        }
                    }
                }
                Err(())
            },
        }
    }
}

/// The empty list.
#[derive(Debug, PartialEq, Eq)]
pub struct ENil;

/// A proper list: its encoding carries a `Nil` tail.
#[derive(Debug, PartialEq, Eq)]
pub struct EList(pub Vec<Term>);

/// A list with a non-`Nil` tail, for example `[a|b]`.
#[derive(Debug, PartialEq, Eq)]
pub struct ENonProperList {
    pub data: Vec<Term>,
    pub tail: Box<Term>,
}

/// An atom: a symbolic name carried as UTF-8 text.  The byte length limit
/// of the format (65535) is enforced at encode time, not at construction.
#[derive(Debug, PartialEq, Eq)]
pub struct EAtom(pub String);

/// An exported function: module, function and arity.
#[derive(Debug, PartialEq, Eq)]
pub struct EExport {
    pub module: EAtom,
    pub function: EAtom,
    pub arity: u8,
}

/// A tuple of terms.
#[derive(Debug, PartialEq, Eq)]
pub struct ETuple(pub Vec<Term>);

/// Text that encodes with the byte-list optimization when its UTF-8 form is
/// at most 65535 bytes long, and as a plain list of byte values otherwise.
#[derive(Debug, PartialEq, Eq)]
pub struct EString(pub String);

/// A port identifier.
#[derive(Debug, PartialEq, Eq)]
pub struct EPort {
    pub node: EAtom,
    pub id: u32,
    pub creation: u32,
}

/// A process identifier.
#[derive(Debug, PartialEq, Eq)]
pub struct EPid {
    pub node: EAtom,
    pub id: u32,
    pub serial: u32,
    pub creation: u32,
}

/// A map: key/value pairs in caller-supplied order.  The codec neither
/// sorts nor deduplicates the keys.
#[derive(Debug, PartialEq, Eq)]
pub struct EMap(pub Vec<(Term, Term)>);

/// A byte array.
#[derive(Debug, PartialEq, Eq)]
pub struct EBinary(pub Vec<u8>);

/// A signed integer of unbounded size: a sign and a magnitude stored
/// least-significant byte first, as the big-integer layouts of the wire
/// format store it.  The canonical form carries no most-significant zero
/// byte and never marks zero negative; the decoder always produces the
/// canonical form, and the encoder accepts any form.
#[derive(Debug, PartialEq, Eq)]
pub struct EInteger {
    pub negative: bool,
    pub magnitude: Vec<u8>,
}

/// An IEEE-754 double carried by its raw bit pattern, most significant bit
/// first.  Holding the bits rather than a host float keeps the wire
/// round-trip exact; conversion to and from a host float is one
/// `to_bits`/`from_bits` call at the caller's side.
#[derive(Debug, PartialEq, Eq)]
pub struct EFloat(pub u64);

/// One term of the external format: the closed union of every term kind
/// this codec can encode, decode or render.
#[derive(Debug, PartialEq, Eq)]
pub enum Term {
    Nil(ENil),
    List(EList),
    NonProperList(ENonProperList),
    Atom(EAtom),
    Tuple(ETuple),
    Str(EString),
    Mapping(EMap),
    Binary(EBinary),
    Export(EExport),
    Port(EPort),
    Pid(EPid),
    Integer(EInteger),
    Float(EFloat),
}

/// The mathematical view of a term: the same tree with every executable
/// collection replaced by its sequence view.  All wire and rendering
/// specifications are stated over this type.
pub ghost enum TermV {
    Nil,
    List(Seq<TermV>),
    Improper(Seq<TermV>, Box<TermV>),
    Atom(Seq<char>),
    Tuple(Seq<TermV>),
    Str(Seq<char>),
    Mapping(Seq<(TermV, TermV)>),
    Binary(Seq<u8>),
    Export { module: Seq<char>, function: Seq<char>, arity: u8 },
    Port { node: Seq<char>, id: u32, creation: u32 },
    Pid { node: Seq<char>, id: u32, serial: u32, creation: u32 },
    Integer { negative: bool, magnitude: Seq<u8> },
    Float(u64),
}

/// The view of one term.
pub open spec fn term_view(t: Term) -> TermV
    decreases t,
{
    match t {
        Term::Nil(_) => TermV::Nil,
        Term::List(l) => TermV::List(term_views(l.0@)),
        Term::NonProperList(l) => TermV::Improper(
            term_views(l.data@),
            Box::new(term_view(*l.tail)),
        ),
        Term::Atom(a) => TermV::Atom(a.0@),
        Term::Tuple(tu) => TermV::Tuple(term_views(tu.0@)),
        Term::Str(s) => TermV::Str(s.0@),
        Term::Mapping(m) => TermV::Mapping(pair_views(m.0@)),
        Term::Binary(b) => TermV::Binary(b.0@),
        Term::Export(e) => TermV::Export {
            module: e.module.0@,
            function: e.function.0@,
            arity: e.arity,
        },
        Term::Port(p) => TermV::Port { node: p.node.0@, id: p.id, creation: p.creation },
        Term::Pid(p) => TermV::Pid {
            node: p.node.0@,
            id: p.id,
            serial: p.serial,
            creation: p.creation,
        },
        Term::Integer(i) => TermV::Integer { negative: i.negative, magnitude: i.magnitude@ },
        Term::Float(f) => TermV::Float(f.0),
    }
}

/// The views of a sequence of terms.
pub open spec fn term_views(s: Seq<Term>) -> Seq<TermV>
    decreases s,
{
    if s.len() == 0 {
        Seq::empty()
    } else {
        seq![term_view(s[0])] + term_views(s.subrange(1, s.len() as int))
    }
}

/// The views of a sequence of key/value pairs.
pub open spec fn pair_views(s: Seq<(Term, Term)>) -> Seq<(TermV, TermV)>
    decreases s,
{
    if s.len() == 0 {
        Seq::empty()
    } else {
        seq![(term_view(s[0].0), term_view(s[0].1))] + pair_views(
            s.subrange(1, s.len() as int),
        )
    }
}

impl View for Term {
    type V = TermV;

    open spec fn view(&self) -> TermV {
        term_view(*self)
    }
}

/// Relies on `String::push`: it appends the given character to the end
/// of the string.
pub assume_specification[ std::string::String::push ](s: &mut String, c: char)
    ensures
        final(s)@ == old(s)@.push(c),
;

/// True when a magnitude byte sequence is canonical: empty, or with a
/// non-zero most-significant (last) byte.
pub open spec fn canonical_bytes(s: Seq<u8>) -> bool {
    s.len() == 0 || s[s.len() - 1] != 0
}

/// True when a float bit pattern denotes a finite value: the exponent
/// field, bits 62 down to 52, is not all ones (all ones denotes an
/// infinity or a NaN).
pub open spec fn float_finite(bits: u64) -> bool {
    (bits >> 52) & 0x7ff != 0x7ff
}

/// One upper-case hexadecimal digit.
pub open spec fn hex_digit(d: nat) -> char {
    if d == 0 {
        '0'
    } else if d == 1 {
        '1'
    } else if d == 2 {
        '2'
    } else if d == 3 {
        '3'
    } else if d == 4 {
        '4'
    } else if d == 5 {
        '5'
    } else if d == 6 {
        '6'
    } else if d == 7 {
        '7'
    } else if d == 8 {
        '8'
    } else if d == 9 {
        '9'
    } else if d == 10 {
        'A'
    } else if d == 11 {
        'B'
    } else if d == 12 {
        'C'
    } else if d == 13 {
        'D'
    } else if d == 14 {
        'E'
    } else {
        'F'
    }
}

/// One decimal digit.
pub open spec fn dec_digit(d: nat) -> char {
    if d == 0 {
        '0'
    } else if d == 1 {
        '1'
    } else if d == 2 {
        '2'
    } else if d == 3 {
        '3'
    } else if d == 4 {
        '4'
    } else if d == 5 {
        '5'
    } else if d == 6 {
        '6'
    } else if d == 7 {
        '7'
    } else if d == 8 {
        '8'
    } else {
        '9'
    }
}

/// The hexadecimal digits of a value, most significant first; empty for
/// zero.
pub open spec fn hex_rec(v: nat) -> Seq<char>
    decreases v,
{
    if v == 0 {
        Seq::empty()
    } else {
        hex_rec(v / 16) + seq![hex_digit(v % 16)]
    }
}

/// The hexadecimal digits of a value, left-padded with zeros to the
/// given width.
pub open spec fn hex_text(v: nat, w: nat) -> Seq<char> {
    if hex_rec(v).len() >= w {
        hex_rec(v)
    } else {
        Seq::new((w - hex_rec(v).len()) as nat, |i: int| '0') + hex_rec(v)
    }
}

/// The decimal digits of a value, most significant first; zero is "0".
pub open spec fn dec_text(v: nat) -> Seq<char>
    decreases v,
{
    if v < 10 {
        seq![dec_digit(v)]
    } else {
        dec_text(v / 10) + seq![dec_digit(v % 10)]
    }
}

/// The escape of one character in quoted atom or string text: named
/// escapes for the conventional control characters, a two-digit
/// hexadecimal escape for the remaining control characters, the
/// character itself for printable ASCII, and a braced hexadecimal escape
/// for everything else.
pub open spec fn escape_char(c: char) -> Seq<char> {
    let u = c as u32;
    if c == '\\' {
        "\\\\"@
    } else if 1 <= u <= 7 {
        "\\x"@ + hex_text(u as nat, 2)
    } else if u == 8 {
        "\\b"@
    } else if u == 9 {
        "\\t"@
    } else if u == 10 {
        "\\n"@
    } else if u == 11 {
        "\\v"@
    } else if u == 12 {
        "\\f"@
    } else if u == 13 {
        "\\r"@
    } else if 14 <= u <= 26 {
        "\\x"@ + hex_text(u as nat, 2)
    } else if u == 27 {
        "\\e"@
    } else if 28 <= u <= 31 {
        "\\x"@ + hex_text(u as nat, 2)
    } else if 32 <= u <= 126 {
        seq![c]
    } else if u == 127 {
        "\\d"@
    } else {
        "\\x{"@ + hex_text(u as nat, 1) + "}"@
    }
}

/// The escape of a whole text, character by character.
pub open spec fn escape_text(s: Seq<char>) -> Seq<char>
    decreases s.len(),
{
    if s.len() == 0 {
        Seq::empty()
    } else {
        escape_char(s[0]) + escape_text(s.subrange(1, s.len() as int))
    }
}

/// True of a character that may open a bare atom: a lower-case ASCII
/// letter or `@`.
pub open spec fn bare_atom_start(c: char) -> bool {
    97 <= c as u32 <= 122 || c as u32 == 64
}

/// True of a character that may continue a bare atom: an ASCII letter,
/// digit, underscore or `@`.
pub open spec fn bare_atom_char(c: char) -> bool {
    48 <= c as u32 <= 57 || 65 <= c as u32 <= 90 || 97 <= c as u32 <= 122 || c as u32 == 95
        || c as u32 == 64
}

/// True when the whole text is a bare identifier: a lower-case letter or
/// `@` followed by letters, digits, underscores and `@`.  Only such an
/// atom is printed without quotes.
pub open spec fn is_bare_atom(s: Seq<char>) -> bool {
    s.len() > 0 && bare_atom_start(s[0]) && forall|i: int|
        1 <= i < s.len() ==> bare_atom_char(#[trigger] s[i])
}

/// The text of an atom: bare when the whole text is a bare identifier,
/// single-quoted with escaping otherwise.
pub open spec fn render_atom(s: Seq<char>) -> Seq<char> {
    if is_bare_atom(s) {
        s
    } else {
        "'"@ + escape_text(s) + "'"@
    }
}

/// The digits of an integer given by sign and magnitude bytes: decimal
/// for a magnitude of at most sixteen bytes, and the base-prefixed
/// hexadecimal form `16#...` for a wider one.
pub open spec fn render_int(negative: bool, magnitude: Seq<u8>) -> Seq<char> {
    let digits: Seq<char> = if magnitude.len() <= 16 {
        dec_text(crate::terms::encode::le_value(magnitude))
    } else {
        "16#"@ + hex_bytes(magnitude)
    };
    if negative {
        "-"@ + digits
    } else {
        digits
    }
}

/// The hexadecimal digits of magnitude bytes, most significant byte
/// first, two digits per byte.
pub open spec fn hex_bytes(m: Seq<u8>) -> Seq<char>
    decreases m.len(),
{
    if m.len() == 0 {
        Seq::empty()
    } else {
        hex_text(m[m.len() - 1] as nat, 2) + hex_bytes(m.subrange(0, m.len() - 1))
    }
}

/// The simple text form of a term, mirroring conventional notation for
/// each variant.  A float is shown as its raw bit pattern in fixed-width
/// hexadecimal: decimal float formatting belongs to the host.
pub open spec fn render(v: TermV) -> Seq<char>
    decreases v, 1int,
{
    match v {
        TermV::Nil => "[]"@,
        TermV::List(es) => "["@ + render_join(es) + "]"@,
        TermV::Improper(es, tail) => "["@ + render_join(es) + "|"@ + render(*tail) + "]"@,
        TermV::Atom(s) => render_atom(s),
        TermV::Tuple(es) => "{"@ + render_join(es) + "}"@,
        TermV::Str(s) => "\""@ + escape_text(s) + "\""@,
        TermV::Mapping(ps) => "#{"@ + render_pairs(ps) + "}"@,
        TermV::Binary(bytes) => "<<"@ + render_bytes(bytes) + ">>"@,
        TermV::Export { module, function, arity } => "{"@ + render_atom(module) + ","@
            + render_atom(function) + ","@ + dec_text(arity as nat) + "}"@,
        TermV::Port { node, id, .. } => "#Port<"@ + render_atom(node) + "."@ + dec_text(id as nat)
            + ">"@,
        TermV::Pid { node, id, serial, .. } => "<"@ + render_atom(node) + "."@ + dec_text(
            id as nat,
        ) + "."@ + dec_text(serial as nat) + ">"@,
        TermV::Integer { negative, magnitude } => render_int(negative, magnitude),
        TermV::Float(bits) => "#Float<"@ + hex_text(bits as nat, 16) + ">"@,
    }
}

/// The texts of a run of terms separated by commas, as list and tuple
/// elements are shown.
pub open spec fn render_join(es: Seq<TermV>) -> Seq<char>
    decreases es, 0int,
{
    if es.len() == 0 {
        Seq::empty()
    } else if es.len() == 1 {
        render(es[0])
    } else {
        render(es[0]) + ","@ + render_join(es.subrange(1, es.len() as int))
    }
}

/// The texts of a run of key/value pairs, `key=>value` separated by
/// commas, as map pairs are shown.
pub open spec fn render_pairs(ps: Seq<(TermV, TermV)>) -> Seq<char>
    decreases ps, 0int,
{
    if ps.len() == 0 {
        Seq::empty()
    } else if ps.len() == 1 {
        render(ps[0].0) + "=>"@ + render(ps[0].1)
    } else {
        render(ps[0].0) + "=>"@ + render(ps[0].1) + ","@ + render_pairs(
            ps.subrange(1, ps.len() as int),
        )
    }
}

/// The decimal texts of a run of bytes separated by commas, as binary
/// contents are shown.
pub open spec fn render_bytes(bs: Seq<u8>) -> Seq<char>
    decreases bs.len(),
{
    if bs.len() == 0 {
        Seq::empty()
    } else if bs.len() == 1 {
        dec_text(bs[0] as nat)
    } else {
        dec_text(bs[0] as nat) + ","@ + render_bytes(bs.subrange(1, bs.len() as int))
    }
}

/// Escaping a text extended by one character.
pub proof fn lemma_escape_text_push(s: Seq<char>, c: char)
    ensures
        escape_text(s.push(c)) == escape_text(s) + escape_char(c),
    decreases s.len(),
{
    reveal_with_fuel(escape_text, 3);
    if s.len() == 0 {
        assert(s.push(c) =~= seq![c]);
        assert(s.push(c).subrange(1, 1) =~= Seq::<char>::empty());
        assert(escape_text(s.push(c)) =~= escape_text(s) + escape_char(c));
    } else {
        let rest = s.subrange(1, s.len() as int);
        assert(s.push(c).subrange(1, s.len() as int + 1) =~= rest.push(c));
        lemma_escape_text_push(rest, c);
        assert(s.push(c)[0] == s[0]);
        assert(escape_text(s.push(c)) == escape_char(s[0]) + escape_text(rest.push(c)));
        assert(escape_text(s.push(c)) =~= escape_text(s) + escape_char(c));
    }
}

/// The comma-joined texts of a term run extended by one term.
pub proof fn lemma_render_join_push(es: Seq<TermV>, v: TermV)
    ensures
        render_join(es.push(v)) == if es.len() == 0 {
            render(v)
        } else {
            render_join(es) + ","@ + render(v)
        },
    decreases es.len(),
{
    reveal_with_fuel(render_join, 3);
    if es.len() == 0 {
        assert(es.push(v) =~= seq![v]);
    } else {
        let rest = es.subrange(1, es.len() as int);
        assert(es.push(v).subrange(1, es.len() as int + 1) =~= rest.push(v));
        lemma_render_join_push(rest, v);
        assert(es.push(v)[0] == es[0]);
        if es.len() == 1 {
            assert(render_join(es.push(v)) =~= render_join(es) + ","@ + render(v));
        } else {
            assert(render_join(es.push(v)) == render(es[0]) + ","@ + render_join(rest.push(v)));
            assert(render_join(es.push(v)) =~= render_join(es) + ","@ + render(v));
        }
    }
}

/// The comma-joined texts of a pair run extended by one pair.
pub proof fn lemma_render_pairs_push(ps: Seq<(TermV, TermV)>, p: (TermV, TermV))
    ensures
        render_pairs(ps.push(p)) == if ps.len() == 0 {
            render(p.0) + "=>"@ + render(p.1)
        } else {
            render_pairs(ps) + ","@ + render(p.0) + "=>"@ + render(p.1)
        },
    decreases ps.len(),
{
    reveal_with_fuel(render_pairs, 3);
    if ps.len() == 0 {
        assert(ps.push(p) =~= seq![p]);
    } else {
        let rest = ps.subrange(1, ps.len() as int);
        assert(ps.push(p).subrange(1, ps.len() as int + 1) =~= rest.push(p));
        lemma_render_pairs_push(rest, p);
        assert(ps.push(p)[0] == ps[0]);
        if ps.len() == 1 {
            assert(render_pairs(ps.push(p)) =~= render_pairs(ps) + ","@ + render(p.0) + "=>"@
                + render(p.1));
        } else {
            assert(render_pairs(ps.push(p)) == render(ps[0].0) + "=>"@ + render(ps[0].1) + ","@
                + render_pairs(rest.push(p)));
            assert(render_pairs(ps.push(p)) =~= render_pairs(ps) + ","@ + render(p.0) + "=>"@
                + render(p.1));
        }
    }
}

/// The comma-joined decimal texts of a byte run extended by one byte.
pub proof fn lemma_render_bytes_push(bs: Seq<u8>, x: u8)
    ensures
        render_bytes(bs.push(x)) == if bs.len() == 0 {
            dec_text(x as nat)
        } else {
            render_bytes(bs) + ","@ + dec_text(x as nat)
        },
    decreases bs.len(),
{
    reveal_with_fuel(render_bytes, 3);
    if bs.len() == 0 {
        assert(bs.push(x) =~= seq![x]);
    } else {
        let rest = bs.subrange(1, bs.len() as int);
        assert(bs.push(x).subrange(1, bs.len() as int + 1) =~= rest.push(x));
        lemma_render_bytes_push(rest, x);
        assert(bs.push(x)[0] == bs[0]);
        if bs.len() == 1 {
            assert(render_bytes(bs.push(x)) =~= render_bytes(bs) + ","@ + dec_text(x as nat));
        } else {
            assert(render_bytes(bs.push(x)) == dec_text(bs[0] as nat) + ","@ + render_bytes(
                rest.push(x),
            ));
            assert(render_bytes(bs.push(x)) =~= render_bytes(bs) + ","@ + dec_text(x as nat));
        }
    }
}

/// 16 raised to the given power.
pub open spec fn pow16(n: nat) -> nat
    decreases n,
{
    if n == 0 {
        1
    } else {
        16 * pow16((n - 1) as nat)
    }
}

/// A value below a power of 16 has at most that many hexadecimal digits.
pub proof fn lemma_hex_rec_len(v: nat, k: nat)
    requires
        v < pow16(k),
    ensures
        hex_rec(v).len() <= k,
    decreases k,
{
    if v > 0 {
        assert(k > 0);
        assert(v / 16 < pow16((k - 1) as nat)) by (nonlinear_arith)
            requires
                v < 16 * pow16((k - 1) as nat),
        ;
        lemma_hex_rec_len(v / 16, (k - 1) as nat);
    }
}

/// One upper-case hexadecimal digit.
fn hex_digit_char(d: u64) -> (c: char)
    requires
        d < 16,
    ensures
        c == hex_digit(d as nat),
{
    if d == 0 {
        '0'
    } else if d == 1 {
        '1'
    } else if d == 2 {
        '2'
    } else if d == 3 {
        '3'
    } else if d == 4 {
        '4'
    } else if d == 5 {
        '5'
    } else if d == 6 {
        '6'
    } else if d == 7 {
        '7'
    } else if d == 8 {
        '8'
    } else if d == 9 {
        '9'
    } else if d == 10 {
        'A'
    } else if d == 11 {
        'B'
    } else if d == 12 {
        'C'
    } else if d == 13 {
        'D'
    } else if d == 14 {
        'E'
    } else {
        'F'
    }
}

/// One decimal digit.
fn dec_digit_char(d: u128) -> (c: char)
    requires
        d < 10,
    ensures
        c == dec_digit(d as nat),
{
    if d == 0 {
        '0'
    } else if d == 1 {
        '1'
    } else if d == 2 {
        '2'
    } else if d == 3 {
        '3'
    } else if d == 4 {
        '4'
    } else if d == 5 {
        '5'
    } else if d == 6 {
        '6'
    } else if d == 7 {
        '7'
    } else if d == 8 {
        '8'
    } else {
        '9'
    }
}

/// Appends the bare hexadecimal digits of a value; nothing for zero.
fn push_hex_rec(out: &mut String, v: u64)
    ensures
        final(out)@ == old(out)@ + hex_rec(v as nat),
    decreases v,
{
    if v == 0 {
        proof {
            assert(out@ =~= old(out)@ + hex_rec(0));
        }
    } else {
        push_hex_rec(out, v / 16);
        out.push(hex_digit_char(v % 16));
        proof {
            assert(out@ =~= old(out)@ + hex_rec(v as nat));
        }
    }
}

/// Appends the hexadecimal digits of a value, left-padded with zeros to
/// at least the given width.
fn push_hex_min(out: &mut String, v: u64, w: usize)
    ensures
        final(out)@ == old(out)@ + hex_text(v as nat, w as nat),
{
    let mut x: u64 = v;
    let mut cnt: usize = 0;
    while x != 0
        invariant
            cnt + hex_rec(x as nat).len() == hex_rec(v as nat).len(),
            cnt <= 16,
        decreases x,
    {
        proof {
            reveal_with_fuel(pow16, 17);
            assert(pow16(16) == 0x1_0000_0000_0000_0000);
            lemma_hex_rec_len(v as nat, 16);
        }
        x = x / 16;
        cnt = cnt + 1;
    }
    proof {
        assert(hex_rec(0).len() == 0);
        assert(cnt == hex_rec(v as nat).len());
    }
    let target: usize = if w > cnt {
        w - cnt
    } else {
        0
    };
    let ghost zeros_needed: nat = if hex_rec(v as nat).len() >= w as nat {
        0
    } else {
        (w - hex_rec(v as nat).len()) as nat
    };
    let mut pad: usize = 0;
    while pad < target
        invariant
            target == zeros_needed,
            pad <= target,
            out@ == old(out)@ + Seq::new(pad as nat, |i: int| '0'),
        decreases target - pad,
    {
        out.push('0');
        proof {
            assert(out@ =~= old(out)@ + Seq::new((pad + 1) as nat, |i: int| '0'));
        }
        pad = pad + 1;
    }
    proof {
        assert(pad == zeros_needed);
    }
    push_hex_rec(out, v);
    proof {
        if hex_rec(v as nat).len() >= w as nat {
            assert(Seq::new(0, |i: int| '0') =~= Seq::<char>::empty());
            assert(out@ =~= old(out)@ + hex_text(v as nat, w as nat));
        } else {
            assert(out@ =~= old(out)@ + hex_text(v as nat, w as nat));
        }
    }
}

/// The hexadecimal digits of a character's scalar value, zero-padded to
/// at least the given width, most significant digit first.
pub fn to_hex(c: char, len: usize) -> (r: String)
    ensures
        r@ == hex_text(c as u32 as nat, len as nat),
{
    let mut out = String::new();
    push_hex_min(&mut out, (c as u32) as u64, len);
    proof {
        assert(out@ =~= hex_text(c as u32 as nat, len as nat));
    }
    out
}

/// Appends the decimal digits of a value.
fn push_dec(out: &mut String, v: u128)
    ensures
        final(out)@ == old(out)@ + dec_text(v as nat),
    decreases v,
{
    if v < 10 {
        out.push(dec_digit_char(v));
        proof {
            assert(out@ =~= old(out)@ + dec_text(v as nat));
        }
    } else {
        push_dec(out, v / 10);
        out.push(dec_digit_char(v % 10));
        proof {
            assert(out@ =~= old(out)@ + dec_text(v as nat));
        }
    }
}

/// Appends the escape of one character.
fn push_escaped_char(out: &mut String, c: char)
    ensures
        final(out)@ == old(out)@ + escape_char(c),
{
    let u = c as u32;
    if c == '\\' {
        out.append("\\\\");
    } else if 1 <= u && u <= 7 {
        out.append("\\x");
        push_hex_min(out, u as u64, 2);
    } else if u == 8 {
        out.append("\\b");
    } else if u == 9 {
        out.append("\\t");
    } else if u == 10 {
        out.append("\\n");
    } else if u == 11 {
        out.append("\\v");
    } else if u == 12 {
        out.append("\\f");
    } else if u == 13 {
        out.append("\\r");
    } else if 14 <= u && u <= 26 {
        out.append("\\x");
        push_hex_min(out, u as u64, 2);
    } else if u == 27 {
        out.append("\\e");
    } else if 28 <= u && u <= 31 {
        out.append("\\x");
        push_hex_min(out, u as u64, 2);
    } else if 32 <= u && u <= 126 {
        out.push(c);
        proof {
            assert(out@ =~= old(out)@ + escape_char(c));
        }
    } else if u == 127 {
        out.append("\\d");
    } else {
        out.append("\\x{");
        push_hex_min(out, u as u64, 1);
        out.append("}");
    }
    proof {
        assert(out@ =~= old(out)@ + escape_char(c));
    }
}

/// Appends the escaped form of a text, character by character.
fn push_escaped_text(out: &mut String, s: &str)
    ensures
        final(out)@ == old(out)@ + escape_text(s@),
{
    let n = s.unicode_len();
    let mut i: usize = 0;
    while i < n
        invariant
            i <= n == s@.len(),
            out@ == old(out)@ + escape_text(s@.subrange(0, i as int)),
        decreases n - i,
    {
        let c = s.get_char(i);
        push_escaped_char(out, c);
        proof {
            assert(s@.subrange(0, i + 1) =~= s@.subrange(0, i as int).push(s@[i as int]));
            lemma_escape_text_push(s@.subrange(0, i as int), s@[i as int]);
            assert(out@ =~= old(out)@ + escape_text(s@.subrange(0, i + 1)));
        }
        i = i + 1;
    }
    proof {
        assert(s@.subrange(0, s@.len() as int) =~= s@);
    }
}

/// The escaped form of a text, with the conventional named escapes, a
/// two-digit hexadecimal escape for other control characters, and a
/// braced hexadecimal escape for everything not printable ASCII.
pub fn escape_string(s: &str) -> (r: String)
    ensures
        r@ == escape_text(s@),
{
    let mut out = String::new();
    push_escaped_text(&mut out, s);
    proof {
        assert(out@ =~= escape_text(s@));
    }
    out
}

/// Whether the whole text is a bare identifier: a character scan over
/// the fixed pattern of a lower-case letter or `@` followed by letters,
/// digits, underscores and `@`.
fn atom_is_bare(s: &str) -> (r: bool)
    ensures
        r == is_bare_atom(s@),
{
    let n = s.unicode_len();
    if n == 0 {
        return false;
    }
    let first = s.get_char(0);
    let u = first as u32;
    if !(97 <= u && u <= 122 || u == 64) {
        return false;
    }
    let mut i: usize = 1;
    while i < n
        invariant
            1 <= i <= n == s@.len(),
            bare_atom_start(s@[0]),
            forall|j: int| 1 <= j < i ==> bare_atom_char(#[trigger] s@[j]),
        decreases n - i,
    {
        let c = s.get_char(i);
        let v = c as u32;
        if !(48 <= v && v <= 57 || 65 <= v && v <= 90 || 97 <= v && v <= 122 || v == 95 || v
            == 64) {
            proof {
                assert(!bare_atom_char(s@[i as int]));
            }
            return false;
        }
        i = i + 1;
    }
    true
}

/// Appends the text of an atom: bare when the whole text is a bare
/// identifier, single-quoted with escaping otherwise.
fn push_atom_text(out: &mut String, a: &EAtom)
    ensures
        final(out)@ == old(out)@ + render_atom(a.0@),
{
    if atom_is_bare(a.0.as_str()) {
        out.append(a.0.as_str());
    } else {
        out.append("'");
        push_escaped_text(out, a.0.as_str());
        out.append("'");
        proof {
            assert(out@ =~= old(out)@ + render_atom(a.0@));
        }
    }
}

/// Reads the value of a magnitude of at most sixteen bytes.
fn int_value_16(v: &Vec<u8>) -> (r: u128)
    requires
        v@.len() <= 16,
    ensures
        r == le_value(v@),
{
    let mut acc: u128 = 0;
    let mut shift: u128 = 1;
    let mut i: usize = 0;
    let n = v.len();
    while i < n
        invariant
            i <= n == v@.len() <= 16,
            i < n ==> shift == pow256(i as nat),
            acc == le_value(v@.subrange(0, i as int)),
            acc < pow256(i as nat),
        decreases n - i,
    {
        proof {
            reveal_with_fuel(pow256, 17);
            lemma_pow256_pos(i as nat);
            assert(pow256((i + 1) as nat) == 256 * pow256(i as nat));
            assert(v@.subrange(0, i + 1) =~= v@.subrange(0, i as int).push(v@[i as int]));
            lemma_le_value_push(v@.subrange(0, i as int), v@[i as int]);
            assert(pow256(16) == 0x100000000000000000000000000000000);
            lemma_pow256_mono((i + 1) as nat, 16);
            assert(acc as nat + (v@[i as int] as nat) * (shift as nat) < pow256((i + 1) as nat))
                by (nonlinear_arith)
                requires
                    acc < pow256(i as nat),
                    (v@[i as int] as nat) < 256,
                    shift == pow256(i as nat),
                    pow256((i + 1) as nat) == 256 * pow256(i as nat),
            ;
            assert((v@[i as int] as nat) * (shift as nat) == pow256(i as nat) * (
            v@[i as int] as nat)) by (nonlinear_arith)
                requires
                    shift == pow256(i as nat),
            ;
            if i + 1 < n {
                lemma_pow256_mono((i + 1) as nat, 15);
                assert(pow256(15) == 0x1000000000000000000000000000000);
            }
        }
        acc = acc + (v[i] as u128) * shift;
        if i + 1 < n {
            shift = shift * 256;
        }
        i = i + 1;
    }
    proof {
        assert(v@.subrange(0, n as int) =~= v@);
    }
    acc
}

/// Appends the simple texts of the terms of a vector, separated by
/// commas, as list and tuple elements are shown.
fn push_join_text(v: &Vec<Term>, out: &mut String)
    ensures
        final(out)@ == old(out)@ + render_join(term_views(v@)),
    decreases v@,
{
    proof {
        lemma_term_views_index(v@);
    }
    let mut i: usize = 0;
    while i < v.len()
        invariant
            i <= v@.len(),
            term_views(v@).len() == v@.len(),
            forall|j: int| 0 <= j < v@.len() ==> #[trigger] term_views(v@)[j] == term_view(v@[j]),
            out@ == old(out)@ + render_join(term_views(v@).subrange(0, i as int)),
        decreases v@.len() - i,
    {
        if i > 0 {
            out.append(",");
        }
        term_text(&v[i], out);
        proof {
            let vs = term_views(v@);
            assert(vs.subrange(0, i + 1) =~= vs.subrange(0, i as int).push(vs[i as int]));
            lemma_render_join_push(vs.subrange(0, i as int), vs[i as int]);
            assert(out@ =~= old(out)@ + render_join(vs.subrange(0, i + 1)));
        }
        i = i + 1;
    }
    proof {
        assert(term_views(v@).subrange(0, v@.len() as int) =~= term_views(v@));
    }
}

/// Appends the simple texts of the pairs of a vector as `key=>value`,
/// separated by commas, as map pairs are shown.
fn push_pairs_text(v: &Vec<(Term, Term)>, out: &mut String)
    ensures
        final(out)@ == old(out)@ + render_pairs(pair_views(v@)),
    decreases v@,
{
    proof {
        lemma_pair_views_index(v@);
    }
    let mut i: usize = 0;
    while i < v.len()
        invariant
            i <= v@.len(),
            pair_views(v@).len() == v@.len(),
            forall|j: int|
                0 <= j < v@.len() ==> #[trigger] pair_views(v@)[j] == (
                    term_view(v@[j].0),
                    term_view(v@[j].1),
                ),
            out@ == old(out)@ + render_pairs(pair_views(v@).subrange(0, i as int)),
        decreases v@.len() - i,
    {
        if i > 0 {
            out.append(",");
        }
        term_text(&v[i].0, out);
        out.append("=>");
        term_text(&v[i].1, out);
        proof {
            let ps = pair_views(v@);
            assert(ps.subrange(0, i + 1) =~= ps.subrange(0, i as int).push(ps[i as int]));
            lemma_render_pairs_push(ps.subrange(0, i as int), ps[i as int]);
            assert(out@ =~= old(out)@ + render_pairs(ps.subrange(0, i + 1)));
        }
        i = i + 1;
    }
    proof {
        assert(pair_views(v@).subrange(0, v@.len() as int) =~= pair_views(v@));
    }
}

/// Appends the decimal texts of the bytes of a vector, separated by
/// commas, as binary contents are shown.
fn push_bytes_text(v: &Vec<u8>, out: &mut String)
    ensures
        final(out)@ == old(out)@ + render_bytes(v@),
{
    let mut i: usize = 0;
    while i < v.len()
        invariant
            i <= v@.len(),
            out@ == old(out)@ + render_bytes(v@.subrange(0, i as int)),
        decreases v@.len() - i,
    {
        if i > 0 {
            out.append(",");
        }
        push_dec(out, v[i] as u128);
        proof {
            assert(v@.subrange(0, i + 1) =~= v@.subrange(0, i as int).push(v@[i as int]));
            lemma_render_bytes_push(v@.subrange(0, i as int), v@[i as int]);
            assert(out@ =~= old(out)@ + render_bytes(v@.subrange(0, i + 1)));
        }
        i = i + 1;
    }
    proof {
        assert(v@.subrange(0, v@.len() as int) =~= v@);
    }
}

/// Appends the digits of an integer given by sign and magnitude bytes:
/// decimal up to sixteen magnitude bytes, the hexadecimal `16#` form
/// beyond that.
fn push_int_text(negative: bool, magnitude: &Vec<u8>, out: &mut String)
    ensures
        final(out)@ == old(out)@ + render_int(negative, magnitude@),
{
    if negative {
        out.append("-");
    }
    let ghost base = out@;
    if magnitude.len() <= 16 {
        let val = int_value_16(magnitude);
        push_dec(out, val);
    } else {
        out.append("16#");
        let ghost hex_base = out@;
        let m = magnitude;
        let mut j: usize = m.len();
        proof {
            assert(m@.subrange(0, m@.len() as int) =~= m@);
        }
        while j > 0
            invariant
                j <= m@.len(),
                out@ + hex_bytes(m@.subrange(0, j as int)) == hex_base + hex_bytes(m@),
            decreases j,
        {
            j = j - 1;
            push_hex_min(out, m[j] as u64, 2);
            proof {
                let whole = m@.subrange(0, j + 1);
                assert(whole.subrange(0, j as int) =~= m@.subrange(0, j as int));
                assert(hex_bytes(whole) == hex_text(whole[j as int] as nat, 2) + hex_bytes(
                    whole.subrange(0, j as int),
                ));
                assert(out@ + hex_bytes(m@.subrange(0, j as int)) =~= hex_base + hex_bytes(m@));
            }
        }
        proof {
            assert(hex_bytes(m@.subrange(0, 0)) =~= Seq::<char>::empty());
            assert(out@ =~= hex_base + hex_bytes(m@));
        }
    }
    proof {
        assert(out@ =~= old(out)@ + render_int(negative, magnitude@));
    }
}

/// Appends the simple text form of one term.
fn term_text(t: &Term, out: &mut String)
    ensures
        final(out)@ == old(out)@ + render(t@),
    decreases *t,
{
    match t {
        Term::Nil(_) => {
            out.append("[]");
        },
        Term::List(l) => {
            out.append("[");
            push_join_text(&l.0, out);
            out.append("]");
            proof {
                assert(out@ =~= old(out)@ + render(t@));
            }
        },
        Term::NonProperList(l) => {
            out.append("[");
            push_join_text(&l.data, out);
            out.append("|");
            term_text(&*l.tail, out);
            out.append("]");
            proof {
                assert(out@ =~= old(out)@ + render(t@));
            }
        },
        Term::Atom(a) => {
            push_atom_text(out, a);
        },
        Term::Tuple(tu) => {
            out.append("{");
            push_join_text(&tu.0, out);
            out.append("}");
            proof {
                assert(out@ =~= old(out)@ + render(t@));
            }
        },
        Term::Str(s) => {
            out.append("\"");
            push_escaped_text(out, s.0.as_str());
            out.append("\"");
            proof {
                assert(out@ =~= old(out)@ + render(t@));
            }
        },
        Term::Mapping(m) => {
            out.append("#{");
            push_pairs_text(&m.0, out);
            out.append("}");
            proof {
                assert(out@ =~= old(out)@ + render(t@));
            }
        },
        Term::Binary(b) => {
            out.append("<<");
            push_bytes_text(&b.0, out);
            out.append(">>");
            proof {
                assert(out@ =~= old(out)@ + render(t@));
            }
        },
        Term::Export(e) => {
            out.append("{");
            push_atom_text(out, &e.module);
            out.append(",");
            push_atom_text(out, &e.function);
            out.append(",");
            push_dec(out, e.arity as u128);
            out.append("}");
            proof {
                assert(out@ =~= old(out)@ + render(t@));
            }
        },
        Term::Port(p) => {
            out.append("#Port<");
            push_atom_text(out, &p.node);
            out.append(".");
            push_dec(out, p.id as u128);
            out.append(">");
            proof {
                assert(out@ =~= old(out)@ + render(t@));
            }
        },
        Term::Pid(p) => {
            out.append("<");
            push_atom_text(out, &p.node);
            out.append(".");
            push_dec(out, p.id as u128);
            out.append(".");
            push_dec(out, p.serial as u128);
            out.append(">");
            proof {
                assert(out@ =~= old(out)@ + render(t@));
            }
        },
        Term::Integer(i) => {
            push_int_text(i.negative, &i.magnitude, out);
        },
        Term::Float(f) => {
            out.append("#Float<");
            push_hex_min(out, f.0, 16);
            out.append(">");
            proof {
                assert(out@ =~= old(out)@ + render(t@));
            }
        },
    }
}

impl Term {
    /// The simple text form of the term, mirroring conventional notation
    /// for each variant.
    pub fn to_simple_text(&self) -> (r: String)
        ensures
            r@ == render(self@),
    {
        let mut out = String::new();
        term_text(self, &mut out);
        proof {
            assert(out@ =~= render(self@));
        }
        out
    }
}

impl ENil {
    /// The text of the empty list.
    pub fn to_simple_text(&self) -> (r: String)
        ensures
            r@ == "[]"@,
    {
        "[]".to_owned()
    }
}

impl EList {
    /// The text of the list: its elements' texts, comma-separated,
    /// between brackets.
    pub fn to_simple_text(&self) -> (r: String)
        ensures
            r@ == "["@ + render_join(term_views(self.0@)) + "]"@,
    {
        let mut out = String::new();
        out.append("[");
        push_join_text(&self.0, &mut out);
        out.append("]");
        proof {
            assert(out@ =~= "["@ + render_join(term_views(self.0@)) + "]"@);
        }
        out
    }
}

impl ENonProperList {
    /// The text of the list with its tail after a bar.
    pub fn to_simple_text(&self) -> (r: String)
        ensures
            r@ == "["@ + render_join(term_views(self.data@)) + "|"@ + render(self.tail@) + "]"@,
    {
        let mut out = String::new();
        out.append("[");
        push_join_text(&self.data, &mut out);
        out.append("|");
        term_text(&*self.tail, &mut out);
        out.append("]");
        proof {
            assert(out@ =~= "["@ + render_join(term_views(self.data@)) + "|"@ + render(self.tail@)
                + "]"@);
        }
        out
    }
}

impl EAtom {
    /// The text of the atom: bare, or quoted with escaping.
    pub fn to_simple_text(&self) -> (r: String)
        ensures
            r@ == render_atom(self.0@),
    {
        let mut out = String::new();
        push_atom_text(&mut out, self);
        proof {
            assert(out@ =~= render_atom(self.0@));
        }
        out
    }
}

impl EExport {
    /// The text of the export: module, function and arity in braces.
    pub fn to_simple_text(&self) -> (r: String)
        ensures
            r@ == "{"@ + render_atom(self.module.0@) + ","@ + render_atom(self.function.0@) + ","@
                + dec_text(self.arity as nat) + "}"@,
    {
        let mut out = String::new();
        out.append("{");
        push_atom_text(&mut out, &self.module);
        out.append(",");
        push_atom_text(&mut out, &self.function);
        out.append(",");
        push_dec(&mut out, self.arity as u128);
        out.append("}");
        proof {
            assert(out@ =~= "{"@ + render_atom(self.module.0@) + ","@ + render_atom(
                self.function.0@,
            ) + ","@ + dec_text(self.arity as nat) + "}"@);
        }
        out
    }
}

impl ETuple {
    /// The text of the tuple: its elements' texts, comma-separated, in
    /// braces.
    pub fn to_simple_text(&self) -> (r: String)
        ensures
            r@ == "{"@ + render_join(term_views(self.0@)) + "}"@,
    {
        let mut out = String::new();
        out.append("{");
        push_join_text(&self.0, &mut out);
        out.append("}");
        proof {
            assert(out@ =~= "{"@ + render_join(term_views(self.0@)) + "}"@);
        }
        out
    }
}

impl EString {
    /// The text between double quotes, with escaping.
    pub fn to_simple_text(&self) -> (r: String)
        ensures
            r@ == "\""@ + escape_text(self.0@) + "\""@,
    {
        let mut out = String::new();
        out.append("\"");
        push_escaped_text(&mut out, self.0.as_str());
        out.append("\"");
        proof {
            assert(out@ =~= "\""@ + escape_text(self.0@) + "\""@);
        }
        out
    }
}

impl EPort {
    /// A readable stand-in for the port: its node and id.
    pub fn to_simple_text(&self) -> (r: String)
        ensures
            r@ == "#Port<"@ + render_atom(self.node.0@) + "."@ + dec_text(self.id as nat) + ">"@,
    {
        let mut out = String::new();
        out.append("#Port<");
        push_atom_text(&mut out, &self.node);
        out.append(".");
        push_dec(&mut out, self.id as u128);
        out.append(">");
        proof {
            assert(out@ =~= "#Port<"@ + render_atom(self.node.0@) + "."@ + dec_text(
                self.id as nat,
            ) + ">"@);
        }
        out
    }
}

impl EPid {
    /// A readable stand-in for the process identifier: its node, id and
    /// serial.
    pub fn to_simple_text(&self) -> (r: String)
        ensures
            r@ == "<"@ + render_atom(self.node.0@) + "."@ + dec_text(self.id as nat) + "."@
                + dec_text(self.serial as nat) + ">"@,
    {
        let mut out = String::new();
        out.append("<");
        push_atom_text(&mut out, &self.node);
        out.append(".");
        push_dec(&mut out, self.id as u128);
        out.append(".");
        push_dec(&mut out, self.serial as u128);
        out.append(">");
        proof {
            assert(out@ =~= "<"@ + render_atom(self.node.0@) + "."@ + dec_text(self.id as nat)
                + "."@ + dec_text(self.serial as nat) + ">"@);
        }
        out
    }
}

impl EMap {
    /// The text of the map: `key=>value` pairs, comma-separated, behind a
    /// hash.
    pub fn to_simple_text(&self) -> (r: String)
        ensures
            r@ == "#{"@ + render_pairs(pair_views(self.0@)) + "}"@,
    {
        let mut out = String::new();
        out.append("#{");
        push_pairs_text(&self.0, &mut out);
        out.append("}");
        proof {
            assert(out@ =~= "#{"@ + render_pairs(pair_views(self.0@)) + "}"@);
        }
        out
    }
}

impl EBinary {
    /// The text of the binary: its bytes in decimal between double angle
    /// brackets.
    pub fn to_simple_text(&self) -> (r: String)
        ensures
            r@ == "<<"@ + render_bytes(self.0@) + ">>"@,
    {
        let mut out = String::new();
        out.append("<<");
        push_bytes_text(&self.0, &mut out);
        out.append(">>");
        proof {
            assert(out@ =~= "<<"@ + render_bytes(self.0@) + ">>"@);
        }
        out
    }
}

impl EInteger {
    /// The digits of the integer, with a leading minus sign when it is
    /// negative.
    pub fn to_simple_text(&self) -> (r: String)
        ensures
            r@ == render_int(self.negative, self.magnitude@),
    {
        let mut out = String::new();
        push_int_text(self.negative, &self.magnitude, &mut out);
        proof {
            assert(out@ =~= render_int(self.negative, self.magnitude@));
        }
        out
    }
}

impl EFloat {
    /// The raw bit pattern of the float in fixed-width hexadecimal.
    /// Decimal float formatting belongs to the host, which holds the
    /// value as a native float.
    pub fn to_simple_text(&self) -> (r: String)
        ensures
            r@ == "#Float<"@ + hex_text(self.0 as nat, 16) + ">"@,
    {
        let mut out = String::new();
        out.append("#Float<");
        push_hex_min(&mut out, self.0, 16);
        out.append(">");
        proof {
            assert(out@ =~= "#Float<"@ + hex_text(self.0 as nat, 16) + ">"@);
        }
        out
    }
}

} // verus!

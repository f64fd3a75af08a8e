use erlterm::error::Error;
use erlterm::terms::decode::decode;
use erlterm::terms::decode::decode_term_at;
use erlterm::terms::decode::DecodeOptions;
use erlterm::terms::encode::ETerm;
use erlterm::terms::EAtom;
use erlterm::terms::EBinary;
use erlterm::terms::EExport;
use erlterm::terms::EInteger;
use erlterm::terms::EList;
use erlterm::terms::EMap;
use erlterm::terms::ENil;
use erlterm::terms::ENonProperList;
use erlterm::terms::EPid;
use erlterm::terms::EPort;
use erlterm::terms::EString;
use erlterm::terms::ETuple;
use erlterm::terms::Term;
use erlterm::terms::TermTag;

fn atom(name: &str) -> Term {
    Term::Atom(EAtom(name.to_string()))
}

fn int_term(value: i64) -> Term {
    let negative = value < 0;
    let mut magnitude = Vec::new();
    let mut m = value.unsigned_abs();
    while m != 0 {
        magnitude.push((m % 256) as u8);
        m /= 256;
    }
    Term::Integer(EInteger { negative, magnitude })
}

fn strict() -> DecodeOptions {
    DecodeOptions { read_string_ext_as_list: false, try_read_list_ext_as_estring: false }
}

#[test]
fn empty_list_special_case() {
    // the empty list is the Nil tag, never a zero-length list layout
    assert_eq!(vec![106], Term::List(EList(Vec::new())).to_external_binary().unwrap());
    assert_eq!(vec![106], Term::Nil(ENil).to_external_binary().unwrap());
}

#[test]
fn atom_width_boundary() {
    let mut short_name = String::new();
    for _ in 0..255 {
        short_name.push('a');
    }
    let bytes = atom(&short_name).to_external_binary().unwrap();
    assert_eq!(119, bytes[0]);
    assert_eq!(255, bytes[1]);
    assert_eq!(257, bytes.len());

    let mut wide_name = String::new();
    for _ in 0..256 {
        wide_name.push('a');
    }
    let bytes = atom(&wide_name).to_external_binary().unwrap();
    assert_eq!(118, bytes[0]);
    assert_eq!(1, bytes[1]);
    assert_eq!(0, bytes[2]);
    assert_eq!(259, bytes.len());

    let mut oversize_name = String::new();
    for _ in 0..65536 {
        oversize_name.push('a');
    }
    match atom(&oversize_name).to_external_binary() {
        Err(Error::Message(text)) => assert_eq!(oversize_name, text),
        other => panic!("expected a data error, got {:?}", other),
    }
}

#[test]
fn float_rejection() {
    // NaN and the infinities yield a data error, never wire bytes
    for bits in [
        f64::NAN.to_bits(),
        f64::INFINITY.to_bits(),
        f64::NEG_INFINITY.to_bits(),
    ] {
        let term = Term::Float(erlterm::terms::EFloat(bits));
        assert!(matches!(term.to_external_binary(), Err(Error::Message(_))));
    }
}

#[test]
fn tuple_scenario() {
    let term = Term::Tuple(ETuple(vec![atom("ok"), int_term(42)]));
    assert_eq!(
        vec![104, 2, 119, 2, 111, 107, 97, 42],
        term.to_external_binary().unwrap()
    );
}

#[test]
fn decode_nil_and_render() {
    let term = decode(&[106], &DecodeOptions::default()).unwrap();
    assert_eq!(Term::Nil(ENil), term);
    assert_eq!("[]", term.to_simple_text());
}

#[test]
fn list_as_string_heuristic() {
    // a list of one byte-range integer with a Nil tail reads as text
    let term = decode(&[108, 0, 0, 0, 1, 97, 65, 106], &DecodeOptions::default()).unwrap();
    assert_eq!(Term::Str(EString("A".to_string())), term);
}

#[test]
fn list_heuristic_off() {
    let term = decode(&[108, 0, 0, 0, 1, 97, 65, 106], &strict()).unwrap();
    assert_eq!(Term::List(EList(vec![int_term(65)])), term);
}

#[test]
fn list_heuristic_falls_back() {
    // an element outside byte range keeps the list a list
    let term = decode(
        &[108, 0, 0, 0, 1, 98, 0, 0, 1, 0, 106],
        &DecodeOptions::default(),
    )
    .unwrap();
    assert_eq!(Term::List(EList(vec![int_term(256)])), term);

    // a non-Nil tail keeps the elements an improper list
    let term = decode(&[108, 0, 0, 0, 1, 97, 65, 97, 66], &DecodeOptions::default()).unwrap();
    assert_eq!(
        Term::NonProperList(ENonProperList { data: vec![int_term(65)], tail: Box::new(int_term(66)) }),
        term
    );
}

#[test]
fn string_tag_both_ways() {
    // as text by default
    let term = decode(&[107, 0, 2, 104, 105], &DecodeOptions::default()).unwrap();
    assert_eq!(Term::Str(EString("hi".to_string())), term);

    // as a list of small integers when asked
    let as_list = DecodeOptions { read_string_ext_as_list: true, try_read_list_ext_as_estring: true };
    let term = decode(&[107, 0, 2, 104, 105], &as_list).unwrap();
    assert_eq!(Term::List(EList(vec![int_term(104), int_term(105)])), term);
}

#[test]
fn round_trip_structures() {
    // nested structures come back exactly, heuristics off
    let terms = vec![
        Term::Nil(ENil),
        atom("ok"),
        atom("hello world"),
        int_term(0),
        int_term(-1),
        int_term(256),
        int_term(-123456789),
        Term::Float(erlterm::terms::EFloat(0.5f64.to_bits())),
        Term::Str(EString("text".to_string())),
        Term::Binary(EBinary(vec![0, 1, 2, 255])),
        Term::Tuple(ETuple(vec![atom("a"), int_term(1), Term::Nil(ENil)])),
        Term::List(EList(vec![atom("x"), Term::Tuple(ETuple(vec![int_term(7)]))])),
        Term::NonProperList(ENonProperList { data: vec![int_term(1)], tail: Box::new(atom("t")) }),
        Term::Mapping(EMap(vec![(atom("k"), int_term(9)), (int_term(2), atom("v"))])),
        Term::Export(EExport {
            module: EAtom("lists".to_string()),
            function: EAtom("map".to_string()),
            arity: 2,
        }),
        Term::Port(EPort { node: EAtom("node@host".to_string()), id: 5, creation: 1 }),
        Term::Pid(EPid { node: EAtom("node@host".to_string()), id: 3, serial: 2, creation: 1 }),
    ];
    for term in terms {
        let bytes = term.to_external_binary().unwrap();
        let (back, used) = decode_term_at(&bytes, 0, &strict()).unwrap();
        assert_eq!(term, back);
        assert_eq!(bytes.len(), used);
    }
}

#[test]
fn round_trip_normalises_byte_list() {
    // the accepted non-identity: with the heuristic on, a byte-valued
    // list with a Nil tail comes back as text
    let byte_list = Term::List(EList(vec![int_term(104), int_term(105)]));
    let bytes = byte_list.to_external_binary().unwrap();
    let normalised = decode(&bytes, &DecodeOptions::default()).unwrap();
    assert_eq!(Term::Str(EString("hi".to_string())), normalised);

    // and exactly as itself with the heuristic off
    let same = decode(&bytes, &strict()).unwrap();
    assert_eq!(Term::List(EList(vec![int_term(104), int_term(105)])), same);
}

#[test]
fn decode_errors() {
    // an unknown tag byte
    match decode(&[200], &DecodeOptions::default()) {
        Err(Error::Message(text)) => assert_eq!("Unsupported term type", text),
        other => panic!("expected a syntax error, got {:?}", other),
    }
    // a known tag this codec does not decode
    match decode(&[77, 0, 0, 0, 1, 8, 255], &DecodeOptions::default()) {
        Err(Error::Message(text)) => {
            assert_eq!("Decoding of this term type not yet supported", text)
        },
        other => panic!("expected a syntax error, got {:?}", other),
    }
    // input that ends inside a term
    assert!(matches!(decode(&[104, 2, 97], &DecodeOptions::default()), Err(Error::Io(_))));
    assert!(matches!(decode(&[], &DecodeOptions::default()), Err(Error::Io(_))));
    // atom bytes that are not UTF-8
    assert!(matches!(
        decode(&[119, 1, 255], &DecodeOptions::default()),
        Err(Error::Message(_))
    ));
}

#[test]
fn decode_legacy_atoms() {
    // the Latin-1 layouts produce the same atom as the UTF-8 layouts
    let legacy_small = decode(&[115, 2, 104, 105], &DecodeOptions::default()).unwrap();
    let legacy_wide = decode(&[100, 0, 2, 104, 105], &DecodeOptions::default()).unwrap();
    let modern = decode(&[119, 2, 104, 105], &DecodeOptions::default()).unwrap();
    assert_eq!(modern, legacy_small);
    assert_eq!(modern, legacy_wide);
    assert_eq!(atom("hi"), modern);

    // a Latin-1 byte above ASCII is one character
    let accented = decode(&[115, 1, 0xE9], &DecodeOptions::default()).unwrap();
    assert_eq!(atom("\u{e9}"), accented);
}

#[test]
fn decode_big_integers() {
    // an empty magnitude means zero, whatever the sign byte says
    assert_eq!(int_term(0), decode(&[110, 0, 1], &DecodeOptions::default()).unwrap());
    // high zero magnitude bytes are dropped
    assert_eq!(int_term(5), decode(&[110, 3, 0, 5, 0, 0], &DecodeOptions::default()).unwrap());
    // a negative value keeps its sign
    assert_eq!(int_term(-5), decode(&[110, 1, 1, 5], &DecodeOptions::default()).unwrap());
    // the large layout decodes like the small one
    assert_eq!(int_term(5), decode(&[111, 0, 0, 0, 1, 0, 5], &DecodeOptions::default()).unwrap());
}

#[test]
fn decode_consumes_exactly_one_term() {
    // trailing bytes stay untouched for the next read
    let bytes = [97, 7, 97, 8];
    let (first, used) = decode_term_at(&bytes, 0, &DecodeOptions::default()).unwrap();
    assert_eq!(int_term(7), first);
    assert_eq!(2, used);
    let (second, used) = decode_term_at(&bytes, used, &DecodeOptions::default()).unwrap();
    assert_eq!(int_term(8), second);
    assert_eq!(4, used);
}

#[test]
fn term_tag_values() {
    assert_eq!(106, TermTag::Nil.value());
    assert_eq!(116, TermTag::Mapping.value());
    assert_eq!(Ok(TermTag::SmallInteger), TermTag::try_from(97));
    assert_eq!(Ok(TermTag::NewFloat), TermTag::try_from(70));
    assert_eq!(Err(()), TermTag::try_from(200));
    assert_eq!(131, erlterm::terms::ETF_VERSION);
    assert_eq!(68, erlterm::terms::DistHeaderTag::Normal.value());
}

#[test]
fn round_trip_with_default_options() {
    // terms with no byte-valued list in them come back unchanged under
    // the default options too
    let terms = vec![
        atom("ok"),
        Term::Tuple(ETuple(vec![atom("a"), int_term(1000)])),
        Term::Mapping(EMap(vec![(atom("k"), Term::Str(EString("v".to_string())))])),
        Term::Binary(EBinary(vec![1, 2, 3])),
    ];
    for term in terms {
        let bytes = term.to_external_binary().unwrap();
        let back = decode(&bytes, &DecodeOptions::default()).unwrap();
        assert_eq!(term, back);
    }
}

#[test]
fn utf8_atom_round_trip() {
    // a two-byte UTF-8 character decodes to one character and comes back
    let term = decode(&[119, 2, 195, 169], &DecodeOptions::default()).unwrap();
    assert_eq!(atom("\u{e9}"), term);
    let bytes = term.to_external_binary().unwrap();
    assert_eq!(vec![119, 2, 195, 169], bytes);
}

#[test]
fn byte_list_normalisation_includes_zero() {
    // the heuristic accepts the zero byte, whose canonical integer term
    // has an empty magnitude
    let term = decode(
        &[108, 0, 0, 0, 2, 97, 104, 97, 0, 106],
        &DecodeOptions::default(),
    )
    .unwrap();
    assert_eq!(Term::Str(EString("h\u{0}".to_string())), term);
}

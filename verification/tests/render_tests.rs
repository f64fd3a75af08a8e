use erlterm::terms::escape_string;
use erlterm::terms::to_hex;
use erlterm::terms::EAtom;
use erlterm::terms::EBinary;
use erlterm::terms::EExport;
use erlterm::terms::EFloat;
use erlterm::terms::EInteger;
use erlterm::terms::EList;
use erlterm::terms::EMap;
use erlterm::terms::ENil;
use erlterm::terms::ENonProperList;
use erlterm::terms::EPid;
use erlterm::terms::EPort;
use erlterm::terms::EString;
use erlterm::terms::ETuple;
use erlterm::terms::Term;

fn atom(name: &str) -> Term {
    Term::Atom(EAtom(name.to_string()))
}

fn int_term(value: i64) -> Term {
    let negative = value < 0;
    let mut magnitude = Vec::new();
    let mut m = value.unsigned_abs();
    while m != 0 {
        magnitude.push((m % 256) as u8);
        m /= 256;
    }
    Term::Integer(EInteger { negative, magnitude })
}

#[test]
fn escapes() {
    assert_eq!("a\\nb", escape_string("a\nb"));
    assert_eq!("\\\\", escape_string("\\"));
    assert_eq!("\\t\\b\\v\\f\\r\\e\\d", escape_string("\t\u{8}\u{b}\u{c}\r\u{1b}\u{7f}"));
    assert_eq!("\\x01\\x1A", escape_string("\u{1}\u{1a}"));
    assert_eq!("plain text!", escape_string("plain text!"));
    assert_eq!("\\x{E9}", escape_string("\u{e9}"));
    assert_eq!("\\x{0}", escape_string("\u{0}"));
}

#[test]
fn hex_digits() {
    assert_eq!("41", to_hex('A', 2));
    assert_eq!("0041", to_hex('A', 4));
    assert_eq!("E9", to_hex('\u{e9}', 1));
}

#[test]
fn atom_quoting() {
    // a lower-case letter or @ anywhere leaves the atom bare
    assert_eq!("ok", atom("ok").to_simple_text());
    assert_eq!("node@host", atom("node@host").to_simple_text());
    // no such character means quotes and escaping
    assert_eq!("'OK'", atom("OK").to_simple_text());
    assert_eq!("'A\\nB'", atom("A\nB").to_simple_text());
    assert_eq!("''", atom("").to_simple_text());
}

#[test]
fn simple_forms() {
    assert_eq!("[]", Term::Nil(ENil).to_simple_text());
    assert_eq!("[]", ENil.to_simple_text());
    // list elements are comma-separated, like tuple elements
    assert_eq!("[1,2]", Term::List(EList(vec![int_term(1), int_term(2)])).to_simple_text());
    assert_eq!(
        "[1|x]",
        Term::NonProperList(ENonProperList { data: vec![int_term(1)], tail: Box::new(atom("x")) })
            .to_simple_text()
    );
    assert_eq!("{a,1}", Term::Tuple(ETuple(vec![atom("a"), int_term(1)])).to_simple_text());
    assert_eq!("\"hi\"", Term::Str(EString("hi".to_string())).to_simple_text());
    assert_eq!(
        "#{a=>1,b=>2}",
        Term::Mapping(EMap(vec![(atom("a"), int_term(1)), (atom("b"), int_term(2))])).to_simple_text()
    );
    assert_eq!("<<0,13,255>>", Term::Binary(EBinary(vec![0, 13, 255])).to_simple_text());
    assert_eq!(
        "{lists,map,2}",
        Term::Export(EExport {
            module: EAtom("lists".to_string()),
            function: EAtom("map".to_string()),
            arity: 2,
        })
        .to_simple_text()
    );
    assert_eq!(
        "#Port<node@host.5>",
        Term::Port(EPort { node: EAtom("node@host".to_string()), id: 5, creation: 1 })
            .to_simple_text()
    );
    assert_eq!(
        "<node@host.3.2>",
        Term::Pid(EPid { node: EAtom("node@host".to_string()), id: 3, serial: 2, creation: 1 })
            .to_simple_text()
    );
}

#[test]
fn struct_text_matches_term_text() {
    let list = EList(vec![int_term(1), int_term(2)]);
    assert_eq!("[1,2]", list.to_simple_text());
    let tuple = ETuple(vec![atom("a")]);
    assert_eq!("{a}", tuple.to_simple_text());
    let text = EString("a\"b".to_string());
    assert_eq!("\"a\"b\"", text.to_simple_text());
    let map = EMap(vec![]);
    assert_eq!("#{}", map.to_simple_text());
    let binary = EBinary(vec![]);
    assert_eq!("<<>>", binary.to_simple_text());
    let improper = ENonProperList { data: vec![], tail: Box::new(int_term(9)) };
    assert_eq!("[|9]", improper.to_simple_text());
}

#[test]
fn integer_text() {
    assert_eq!("0", int_term(0).to_simple_text());
    assert_eq!("255", int_term(255).to_simple_text());
    assert_eq!("-123456789", int_term(-123456789).to_simple_text());
    let sixteen_bytes = EInteger { negative: false, magnitude: vec![0xff; 16] };
    assert_eq!("340282366920938463463374607431768211455", sixteen_bytes.to_simple_text());
    // past sixteen magnitude bytes the base-prefixed hexadecimal form is used
    let mut magnitude = vec![0u8; 16];
    magnitude.push(1);
    let seventeen_bytes = EInteger { negative: true, magnitude };
    assert_eq!("-16#0100000000000000000000000000000000", seventeen_bytes.to_simple_text());
}

#[test]
fn float_text_is_bit_pattern() {
    assert_eq!("#Float<3FE0000000000000>", EFloat(0.5f64.to_bits()).to_simple_text());
    assert_eq!(
        "#Float<3FE0000000000000>",
        Term::Float(EFloat(0.5f64.to_bits())).to_simple_text()
    );
}

#[test]
fn error_description() {
    let err = erlterm::error::Error::Message("what happened".to_string());
    assert_eq!("what happened", err.describe());
    let io = erlterm::error::Error::Io("ended early".to_string());
    assert_eq!("ended early", io.describe());
}

use erlterm::terms::encode::ETerm;
use erlterm::terms::encode::ToExternalBinary;
use erlterm::terms::EAtom;
use erlterm::terms::EBinary;
use erlterm::terms::EFloat;
use erlterm::terms::ENil;
use erlterm::terms::EString;
use erlterm::terms::EInteger;
use erlterm::terms::Term;

fn big_positive(bytes: usize) -> Term {
    // The value 256^bytes - 1: every magnitude byte is 0xff.
    let mut magnitude = Vec::new();
    for _ in 0..bytes {
        magnitude.push(0xffu8);
    }
    Term::Integer(EInteger { negative: false, magnitude })
}

fn big_negative(bytes: usize) -> Term {
    let mut magnitude = Vec::new();
    for _ in 0..bytes {
        magnitude.push(0xffu8);
    }
    Term::Integer(EInteger { negative: true, magnitude })
}

fn small_big_expected(sign: u8, magnitude_bytes: usize) -> Vec<u8> {
    let mut expected = vec![0x6e, magnitude_bytes as u8, sign];
    for _ in 0..magnitude_bytes {
        expected.push(0xff);
    }
    expected
}

fn large_big_expected(sign: u8, zero_bytes: usize) -> Vec<u8> {
    // The value 256^zero_bytes: its magnitude is that many zero bytes and
    // then a one, least significant byte first.
    let len = (zero_bytes + 1) as u32;
    let mut expected = vec![0x6f];
    expected.extend_from_slice(&len.to_be_bytes());
    expected.push(sign);
    for _ in 0..zero_bytes {
        expected.push(0x00);
    }
    expected.push(0x01);
    expected
}

#[test]
fn bigint_small_upper_boundary() {
    // 255 magnitude bytes: the largest value the small big layout holds.
    assert_eq!(
        small_big_expected(0x00, 255),
        big_positive(255).to_external_binary().unwrap(),
        "(positive)"
    );
    assert_eq!(
        small_big_expected(0x01, 255),
        big_negative(255).to_external_binary().unwrap(),
        "(negative)"
    );
}

#[test]
fn biguint_small_upper_boundary() {
    assert_eq!(
        small_big_expected(0x00, 255),
        big_positive(255).to_external_binary().unwrap()
    );
}

#[test]
fn bigint_big_lower_boundary() {
    // 256 magnitude bytes: the smallest value needing the large big layout.
    let mut positive_magnitude = vec![0u8; 255];
    positive_magnitude.push(1);
    let positive = Term::Integer(EInteger { negative: false, magnitude: positive_magnitude });
    assert_eq!(
        large_big_expected(0x00, 255),
        positive.to_external_binary().unwrap(),
        "(positive)"
    );
    let mut negative_magnitude = vec![0u8; 255];
    negative_magnitude.push(1);
    let negative = Term::Integer(EInteger { negative: true, magnitude: negative_magnitude });
    assert_eq!(
        large_big_expected(0x01, 255),
        negative.to_external_binary().unwrap(),
        "(negative)"
    );
}

#[test]
fn biguint_big_lower_boundary() {
    let mut magnitude = vec![0u8; 255];
    magnitude.push(1);
    let value = Term::Integer(EInteger { negative: false, magnitude });
    assert_eq!(large_big_expected(0x00, 255), value.to_external_binary().unwrap());
}

struct FloatTest {
    pub value: f64,
    pub binary: Vec<u8>,
}

#[test]
#[allow(clippy::float_cmp)]
fn floats() {
    for t in &[
        // exactly representable as f32 and f64
        &FloatTest { value: 0.5, binary: vec![70, 63, 224, 0, 0, 0, 0, 0, 0] },
        &FloatTest {
            value: -1.66656506061553955078125,
            binary: vec![70, 191, 250, 170, 64, 32, 0, 0, 0],
        },
        &FloatTest {
            value: 0.999999940395355224609375,
            binary: vec![70, 63, 239, 255, 255, 224, 0, 0, 0],
        },
        // f64 only
        &FloatTest {
            value: 0.200000000000000011102230246252,
            binary: vec![70, 63, 201, 153, 153, 153, 153, 153, 154],
        },
    ] {
        let term = Term::Float(EFloat(t.value.to_bits()));
        assert_eq!(t.binary, term.to_external_binary().unwrap(), "(f64: {})", t.value);

        // When the f32 form is exact, the same bytes must come from it.
        if ((t.value as f32) as f64) == t.value {
            let narrowed = Term::Float(EFloat(((t.value as f32) as f64).to_bits()));
            assert_eq!(t.binary, narrowed.to_external_binary().unwrap(), "(f32: {})", t.value);
        }
    }
}

#[test]
fn integer_width_boundaries() {
    let mut out: Vec<u8> = Vec::new();

    // the ordered minimum-width rule at each native type boundary
    let cases: Vec<(i128, Vec<u8>)> = vec![
        (0, vec![97, 0]),
        (i8::MIN as i128, vec![98, 255, 255, 255, 128]),
        (i8::MAX as i128, vec![97, 127]),
        (u8::MAX as i128, vec![97, 255]),
        (i16::MIN as i128, vec![98, 255, 255, 128, 0]),
        (i16::MAX as i128, vec![98, 0, 0, 127, 255]),
        (u16::MAX as i128, vec![98, 0, 0, 255, 255]),
        (i32::MIN as i128, vec![98, 128, 0, 0, 0]),
        (i32::MAX as i128, vec![98, 127, 255, 255, 255]),
        (u32::MAX as i128, vec![110, 4, 0, 255, 255, 255, 255]),
        (i64::MIN as i128, vec![110, 8, 1, 0, 0, 0, 0, 0, 0, 0, 128]),
        (i64::MAX as i128, vec![110, 8, 0, 255, 255, 255, 255, 255, 255, 255, 127]),
        (
            i128::MIN,
            vec![110, 16, 1, 0, 0, 0, 0, 0, 0, 0, 0, 0, 0, 0, 0, 0, 0, 0, 128],
        ),
        (
            i128::MAX,
            vec![
                110, 16, 0, 255, 255, 255, 255, 255, 255, 255, 255, 255, 255, 255, 255, 255, 255,
                255, 127,
            ],
        ),
    ];
    for (value, expected) in cases {
        out.clear();
        value.to_writer(&mut out).unwrap();
        assert_eq!(expected, out, "(value: {})", value);
        assert_eq!(expected, value.to_external_binary().unwrap(), "(value: {})", value);
    }

    let mut out2: Vec<u8> = Vec::new();
    u64::MAX.to_writer(&mut out2).unwrap();
    assert_eq!(
        vec![110, 8, 0, 255, 255, 255, 255, 255, 255, 255, 255],
        out2,
        "(u64 max)"
    );
    assert_eq!(
        vec![
            110, 16, 0, 255, 255, 255, 255, 255, 255, 255, 255, 255, 255, 255, 255, 255, 255, 255,
            255
        ],
        u128::MAX.to_external_binary().unwrap(),
        "(u128 max)"
    );
}

fn enc(negative: bool, magnitude: Vec<u8>) -> Vec<u8> {
    Term::Integer(EInteger { negative, magnitude }).to_external_binary().unwrap()
}

#[test]
fn minimum_width_examples() {
    // the worked examples of the narrowest-tag rule
    assert_eq!(vec![97, 0], enc(false, vec![]));
    assert_eq!(vec![98, 255, 255, 255, 255], enc(true, vec![1]));
    assert_eq!(vec![97, 255], enc(false, vec![255]));
    assert_eq!(vec![98, 0, 0, 1, 0], enc(false, vec![0, 1]));
    // an uncanonical magnitude still takes the narrowest form
    assert_eq!(vec![97, 5], enc(false, vec![5, 0, 0, 0]));
}

#[test]
fn big_integer_boundary() {
    // 2^128 - 1 is a small big of sixteen magnitude bytes
    let bytes = big_positive(16).to_external_binary().unwrap();
    assert_eq!(110, bytes[0]);
    assert_eq!(16, bytes[1]);
    assert_eq!(0, bytes[2]);
    assert_eq!(19, bytes.len());

    // 2^128 takes a seventeenth magnitude byte
    let mut magnitude = vec![0u8; 16];
    magnitude.push(1);
    let over = Term::Integer(EInteger { negative: false, magnitude });
    let mut expected = vec![110, 17, 0];
    expected.extend_from_slice(&[0u8; 16]);
    expected.push(1);
    assert_eq!(expected, over.to_external_binary().unwrap());
}

#[test]
fn struct_level_encoding() {
    assert_eq!(vec![106], ENil.to_external_binary().unwrap());
    assert_eq!(
        vec![119, 2, 111, 107],
        EAtom("ok".to_string()).to_external_binary().unwrap()
    );
    assert_eq!(
        vec![109, 0, 0, 0, 2, 7, 8],
        EBinary(vec![7, 8]).to_external_binary().unwrap()
    );
    assert_eq!(
        vec![107, 0, 2, 104, 105],
        EString("hi".to_string()).to_external_binary().unwrap()
    );

    // text past the two-byte length ceiling falls back to a plain list of
    // byte values with a Nil tail
    let mut long_text = String::new();
    for _ in 0..65536 {
        long_text.push('a');
    }
    let bytes = EString(long_text).to_external_binary().unwrap();
    assert_eq!(108, bytes[0]);
    assert_eq!(&[0, 1, 0, 0], &bytes[1..5]);
    assert_eq!(97, bytes[5]);
    assert_eq!(97, bytes[6]);
    assert_eq!(106, bytes[bytes.len() - 1]);
    assert_eq!(5 + 2 * 65536 + 1, bytes.len());
}

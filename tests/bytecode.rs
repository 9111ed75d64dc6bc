use lkql_jit::lkqlc::bc::{
    encode_uleb128, BCInstABC, BCInstAD, BCInstruction, ComplexConstant, Header, KComplex, KNum, KStr, KTable,
    NumericConstant, Program, Prototype, TableItem, CALL, GGET, KPRI,
};

#[test]
fn header_new_encodes_magic_version_flags() {
    let h = Header::new();
    assert_eq!(h.encode(), vec![0x1B, 0x4C, 0x4A, 0x02, 0x06]);
}

#[test]
fn header_round_trip_through_program() {
    let p = Program::new();
    let bytes = p.encode();
    assert_eq!(bytes, vec![0x1B, 0x4C, 0x4A, 0x02, 0x06, 0x00]);
    let h = Header::decode(&bytes).unwrap();
    assert_eq!(h.magic, p.header.magic);
    assert_eq!(h.version, p.header.version);
    assert_eq!(h.flags, p.header.flags);
}

#[test]
fn header_decode_too_short() {
    assert!(Header::decode(&[0x1B, 0x4C, 0x4A, 0x02]).is_none());
}

#[test]
fn uleb128_values() {
    let mut v = Vec::new();
    encode_uleb128(624485, &mut v);
    assert_eq!(v, vec![0xE5, 0x8E, 0x26]);
    let mut v = vec![9];
    encode_uleb128(0, &mut v);
    encode_uleb128(127, &mut v);
    encode_uleb128(128, &mut v);
    assert_eq!(v, vec![9, 0x00, 0x7F, 0x80, 0x01]);
    let mut v = Vec::new();
    encode_uleb128(u64::MAX, &mut v);
    assert_eq!(v, vec![0xFF, 0xFF, 0xFF, 0xFF, 0xFF, 0xFF, 0xFF, 0xFF, 0xFF, 0x01]);
}

#[test]
fn instruction_words() {
    assert_eq!(BCInstABC::new(CALL, 1, 2, 3).encode(), vec![0x42, 1, 3, 2]);
    assert_eq!(BCInstAD::new(GGET, 5, 0x1234).encode(), vec![0x36, 5, 0x34, 0x12]);
    assert_eq!(BCInstAD::emit(KPRI, 0, 2).encode(), vec![0x2B, 0, 2, 0]);
    match BCInstABC::emit(CALL, 7, 8, 9) {
        BCInstruction::Abc(i) => assert_eq!((i.op_code, i.a, i.b, i.c), (CALL, 7, 8, 9)),
        BCInstruction::Ad(_) => panic!("wrong layout"),
    }
}

#[test]
fn kstr_new_decode_encode() {
    let k = KStr::new(String::from("hi"));
    assert_eq!(k.content, vec![104, 105]);
    assert_eq!(k.encode(), vec![104, 105]);
    assert_eq!(k.decode(), "hi");
    let bad = KStr { content: vec![0xFF, 0xFE] };
    assert_eq!(bad.decode(), "INVALID UTF_8 STRING");
    let accented = KStr::new(String::from("é"));
    assert_eq!(accented.content, vec![0xC3, 0xA9]);
}

#[test]
fn complex_constants_encode() {
    let s = ComplexConstant::String(KStr::new(String::from("hi")));
    assert_eq!(s.encode(), vec![7, 104, 105]);
    assert_eq!(ComplexConstant::Child.encode(), vec![0]);
    assert_eq!(ComplexConstant::U64(0x1_0000_0002).encode(), vec![3, 2, 1]);
    assert_eq!(ComplexConstant::I64(-1).encode(), vec![2, 0xFF, 0xFF, 0xFF, 0xFF, 0x0F, 0xFF, 0xFF, 0xFF, 0xFF, 0x0F]);
    let c = ComplexConstant::Complex(KComplex { number: 1, imaginary: 0x2_0000_0000 });
    assert_eq!(c.encode(), vec![4, 1, 0, 0, 2]);
    let mut t = KTable::new();
    t.array.push(TableItem::True);
    t.array.push(TableItem::Int(300));
    t.map.push((TableItem::String(KStr::new(String::from("k"))), TableItem::Nil));
    assert_eq!(ComplexConstant::Table(t).encode(), vec![1, 2, 1, 2, 3, 0xAC, 0x02, 6, 107, 0]);
}

#[test]
fn table_items_encode() {
    assert_eq!(TableItem::False.encode(), vec![1]);
    assert_eq!(TableItem::Nil.encode(), vec![0]);
    assert_eq!(TableItem::Int(-1).encode(), vec![3, 0xFF, 0xFF, 0xFF, 0xFF, 0xFF, 0xFF, 0xFF, 0xFF, 0xFF, 0x01]);
    let one = KNum::new(1.0f64.to_bits());
    assert_eq!(TableItem::Num(one).encode(), vec![4, 0x00, 0x80, 0x80, 0xC0, 0xFF, 0x03]);
    assert_eq!(TableItem::String(KStr::new(String::from("ab"))).encode(), vec![7, 97, 98]);
}

#[test]
fn numeric_constants_encode() {
    let one = KNum::new(1.0f64.to_bits());
    assert_eq!(one.encode(), vec![0x00, 0x80, 0x80, 0xC0, 0xFF, 0x03]);
    assert_eq!(one.encode_33bits(), vec![0x01, 0x80, 0x80, 0xC0, 0xFF, 0x03]);
    assert_eq!(NumericConstant::Int(1).encode(), vec![2]);
    assert_eq!(NumericConstant::Int(100).encode(), vec![0xC8, 0x01]);
    assert_eq!(NumericConstant::Num(KNum::new(1.5f64.to_bits())).encode(), vec![0x01, 0x80, 0x80, 0xE0, 0xFF, 0x03]);
}

#[test]
fn prototype_and_program_encode() {
    let mut p = Prototype::new(1);
    p.frame_size = 2;
    p.instructions.push(BCInstAD::emit(KPRI, 0, 2));
    p.upval_references.push(0xC001);
    p.complex_constants.push(ComplexConstant::String(KStr::new(String::from("a"))));
    p.numeric_constants.push(NumericConstant::Int(3));
    let body = vec![0, 1, 2, 1, 1, 1, 1, 0x2B, 0, 2, 0, 0x01, 0xC0, 6, 97, 6];
    let mut expected = vec![body.len() as u8];
    expected.extend_from_slice(&body);
    assert_eq!(p.encode(), expected);
    let mut prog = Program::new();
    prog.prototypes.push(p);
    let mut all = vec![0x1B, 0x4C, 0x4A, 0x02, 0x06];
    all.extend_from_slice(&expected);
    all.push(0);
    assert_eq!(prog.encode(), all);
}

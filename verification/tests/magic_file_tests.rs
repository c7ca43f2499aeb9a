use backend::magic_file::{
    magics_from_items, magics_from_source, parse_decimal, parse_magic_struct, parse_num,
    parse_u64_array, parse_value, MagicFileError, SourceConst, SourceExpr, SourceField, SourceItem,
};

fn lit(s: &str) -> SourceExpr {
    SourceExpr::Int(s.to_string())
}

fn field(name: &str, value: SourceExpr) -> SourceField {
    SourceField { name: Some(name.to_string()), value }
}

fn array_ref(xs: &[&str]) -> SourceExpr {
    SourceExpr::Reference(Box::new(SourceExpr::Array(xs.iter().map(|x| lit(x)).collect())))
}

fn magic_expr(magic: &str, mask: &str, shift: &str, arr: &[&str]) -> SourceExpr {
    SourceExpr::Struct(vec![
        field("magic", lit(magic)),
        field("mask", lit(mask)),
        field("shift", lit(shift)),
        field("array", array_ref(arr)),
    ])
}

fn table(n: usize) -> SourceExpr {
    SourceExpr::Array((0..n).map(|i| magic_expr(&i.to_string(), "7", "52", &["1", "2"])).collect())
}

#[test]
fn decimals() {
    assert_eq!(parse_decimal(b"0"), Some(0));
    assert_eq!(parse_decimal(b"12345"), Some(12345));
    assert_eq!(parse_decimal(b"18446744073709551615"), Some(u64::MAX));
    assert_eq!(parse_decimal(b"18446744073709551616"), None);
    assert_eq!(parse_decimal(b""), None);
    assert_eq!(parse_decimal(b"12a"), None);
}

#[test]
fn numbers() {
    assert_eq!(parse_num(&lit("42")), Ok(42));
    assert_eq!(parse_num(&lit("99999999999999999999")), Err(MagicFileError::IntOutOfRange));
    assert_eq!(parse_num(&lit("4x")), Err(MagicFileError::BadIntLit));
    assert_eq!(parse_num(&SourceExpr::Other), Err(MagicFileError::BadIntLit));
}

#[test]
fn number_arrays() {
    assert_eq!(parse_u64_array(&array_ref(&["1", "0", "9"])), Ok(vec![Some(1), Some(0), Some(9)]));
    assert_eq!(parse_u64_array(&array_ref(&[])), Ok(vec![]));
    assert_eq!(
        parse_u64_array(&SourceExpr::Array(vec![lit("1")])),
        Err(MagicFileError::NotAReference)
    );
    assert_eq!(
        parse_u64_array(&SourceExpr::Reference(Box::new(lit("1")))),
        Err(MagicFileError::NotAnArray)
    );
    assert_eq!(parse_u64_array(&array_ref(&["1", "x"])), Err(MagicFileError::BadIntLit));
}

#[test]
fn magic_structs() {
    let m = parse_magic_struct(&magic_expr("5", "6", "52", &["3", "4"])).unwrap().unwrap();
    assert_eq!(m.magic, 5);
    assert_eq!(m.mask, 6);
    assert_eq!(m.shift, 52);
    assert_eq!(m.array, vec![Some(3), Some(4)]);
}

#[test]
fn magic_struct_errors() {
    let missing_mask = SourceExpr::Struct(vec![field("magic", lit("1"))]);
    assert_eq!(parse_magic_struct(&missing_mask).err(), Some(MagicFileError::NoMask));
    let missing_magic = SourceExpr::Struct(vec![]);
    assert_eq!(parse_magic_struct(&missing_magic).err(), Some(MagicFileError::NoMagic));
    let no_shift = SourceExpr::Struct(vec![field("magic", lit("1")), field("mask", lit("2"))]);
    assert_eq!(parse_magic_struct(&no_shift).err(), Some(MagicFileError::NoShift));
    let no_array = SourceExpr::Struct(vec![
        field("magic", lit("1")),
        field("mask", lit("2")),
        field("shift", lit("3")),
    ]);
    assert_eq!(parse_magic_struct(&no_array).err(), Some(MagicFileError::NoArray));
    let unknown = SourceExpr::Struct(vec![field("other", lit("1"))]);
    assert_eq!(parse_magic_struct(&unknown).err(), Some(MagicFileError::UnknownField));
    let unnamed = SourceExpr::Struct(vec![SourceField { name: None, value: lit("1") }]);
    assert_eq!(parse_magic_struct(&unnamed).err(), Some(MagicFileError::UnnamedField));
    assert_eq!(parse_magic_struct(&lit("1")).err(), Some(MagicFileError::NotAStruct));
    let big_shift = SourceExpr::Struct(vec![field("shift", lit("99999999999999999999"))]);
    assert_eq!(parse_magic_struct(&big_shift).err(), Some(MagicFileError::IntOutOfRange));
}

#[test]
fn magic_struct_later_field_wins() {
    let e = SourceExpr::Struct(vec![
        field("magic", lit("1")),
        field("mask", lit("2")),
        field("shift", lit("3")),
        field("array", array_ref(&[])),
        field("magic", lit("9")),
    ]);
    assert_eq!(parse_magic_struct(&e).unwrap().unwrap().magic, 9);
}

#[test]
fn magic_tables() {
    let t = parse_value(&table(64)).unwrap();
    assert_eq!(t.len(), 64);
    assert_eq!(t[10].as_ref().unwrap().magic, 10);
    assert_eq!(parse_value(&table(63)).err(), Some(MagicFileError::WrongLength));
    assert_eq!(parse_value(&lit("1")).err(), Some(MagicFileError::NotAnArray));
    assert_eq!(
        parse_value(&SourceExpr::Array(vec![SourceExpr::Other])).err(),
        Some(MagicFileError::NotAStruct)
    );
}

fn konst(name: &str, value: SourceExpr) -> SourceItem {
    SourceItem::Const(SourceConst { name: name.to_string(), value })
}

#[test]
fn tables_from_items() {
    let items = vec![
        konst("OTHER", SourceExpr::Other),
        SourceItem::Other,
        konst("ROOK_MAGICS", table(64)),
        konst("BISHOP_MAGICS", table(64)),
    ];
    let (b, r) = magics_from_items(&items).unwrap();
    assert_eq!(b.len(), 64);
    assert_eq!(r.len(), 64);
    assert_eq!(
        magics_from_items(&vec![konst("ROOK_MAGICS", table(64))]).err(),
        Some(MagicFileError::NoBishop)
    );
    assert_eq!(
        magics_from_items(&vec![konst("BISHOP_MAGICS", table(64))]).err(),
        Some(MagicFileError::NoRook)
    );
    assert_eq!(
        magics_from_items(&vec![konst("BISHOP_MAGICS", table(2))]).err(),
        Some(MagicFileError::WrongLength)
    );
    assert_eq!(magics_from_items(&vec![]).err(), Some(MagicFileError::NoBishop));
}

fn table_source(name: &str, n: usize, base: u64) -> String {
    let entries: Vec<String> = (0..n)
        .map(|i| {
            format!(
                "Magic {{ magic: {}u64, mask: 0x{:x}, shift: 5_2, array: &[1, 2, 0] }}",
                base + i as u64,
                255 + i
            )
        })
        .collect();
    format!("pub const {}: [Magic; 64] = [{}];\n", name, entries.join(", "))
}

#[test]
fn tables_from_source_text() {
    let code = format!(
        "pub struct Magic {{ pub magic: u64, pub mask: u64, pub shift: usize, pub array: &'static [u64] }}\n{}{}",
        table_source("BISHOP_MAGICS", 64, 1000),
        table_source("ROOK_MAGICS", 64, 5000)
    );
    let (b, r) = magics_from_source(&code).unwrap();
    assert_eq!(b.len(), 64);
    assert_eq!(r.len(), 64);
    let b3 = b[3].as_ref().unwrap();
    assert_eq!(b3.magic, 1003);
    assert_eq!(b3.mask, 258);
    assert_eq!(b3.shift, 52);
    assert_eq!(b3.array, vec![Some(1), Some(2), Some(0)]);
    assert_eq!(r[63].as_ref().unwrap().magic, 5063);
    let only_bishop = table_source("BISHOP_MAGICS", 64, 1);
    assert_eq!(magics_from_source(&only_bishop).err(), Some(MagicFileError::NoRook));
    let short = format!("{}{}", table_source("BISHOP_MAGICS", 3, 1), table_source("ROOK_MAGICS", 64, 1));
    assert_eq!(magics_from_source(&short).err(), Some(MagicFileError::WrongLength));
}

#[test]
fn source_text_that_is_not_rust() {
    assert_eq!(magics_from_source("const X: = ;").err(), Some(MagicFileError::NotRustSource));
    assert_eq!(magics_from_source("BISHOP_MAGICS {").err(), Some(MagicFileError::NotRustSource));
    assert_eq!(magics_from_source("").err(), Some(MagicFileError::NoBishop));
}

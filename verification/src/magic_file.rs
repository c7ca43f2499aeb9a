//! Reading the magics back from the generated table source: the expressions
//! of its two constants, as far as the reader looks at them.
use vstd::prelude::*;
use vstd::string::{StringExecFns, StringSliceAdditionalSpecFns};
use crate::magic::{Magic, MagicView};

verus! {

/// An expression of the generated source, as the reader sees it.
pub enum SourceExpr {
    /// `[a, b, ...]`
    Array(Vec<SourceExpr>),
    /// `Name { field: value, ... }`; each field's member and value.
    Struct(Vec<SourceField>),
    /// An integer literal, by its base-10 digits (suffix and underscores removed).
    Int(String),
    /// `&e`
    Reference(Box<SourceExpr>),
    /// Any other expression.
    Other,
}

/// A field of a struct expression.
pub struct SourceField {
    /// The field's name; `None` for a positional member such as `0`.
    pub name: Option<String>,
    pub value: SourceExpr,
}

/// A `const` item of the generated source: its name and its value.
pub struct SourceConst {
    pub name: String,
    pub value: SourceExpr,
}

/// An item of the generated source: a `const` item, or any other item.
pub enum SourceItem {
    Const(SourceConst),
    Other,
}

/// Why the generated source could not be read back.
#[derive(PartialEq, Eq, Structural, Clone, Copy, Debug)]
pub enum MagicFileError {
    NotAnArray,
    NotAStruct,
    UnnamedField,
    UnknownField,
    BadIntLit,
    IntOutOfRange,
    NotAReference,
    NoMagic,
    NoMask,
    NoShift,
    NoArray,
    WrongLength,
    NoBishop,
    NoRook,
    NotRustSource,
}

/// The value of a string of decimal digits; `None` unless the string is
/// non-empty, all digits, and its value fits in a `u64`.
pub open spec fn decimal_value(b: Seq<u8>) -> Option<int>
    decreases b.len(),
{
    if b.len() == 0 {
        None
    } else {
        let last = b.last();
        if !(48 <= last <= 57) {
            None
        } else if b.len() == 1 {
            Some(last - 48)
        } else {
            match decimal_value(b.drop_last()) {
                Some(v) => Some(v * 10 + (last - 48)),
                None => None,
            }
        }
    }
}

/// A string has a decimal value exactly when it is non-empty and every byte
/// is a digit `0`..`9`; the value of a string one digit longer is ten times
/// the value, plus that digit.
pub proof fn lemma_decimal_digits(b: Seq<u8>, d: u8)
    ensures
        decimal_value(b) is Some <==> (b.len() > 0 && forall|i: int| 0 <= i < b.len() ==> 48 <= #[trigger] b[i]
            <= 57),
        48 <= d <= 57 && decimal_value(b) is Some ==> decimal_value(b.push(d)) == Some(
            decimal_value(b)->0 * 10 + (d - 48),
        ),
    decreases b.len(),
{
    if b.len() > 1 {
        lemma_decimal_digits(b.drop_last(), d);
        if decimal_value(b) is Some {
            assert forall|i: int| 0 <= i < b.len() implies 48 <= #[trigger] b[i] <= 57 by {
                if i < b.len() - 1 {
                    assert(b.drop_last()[i] == b[i]);
                }
            }
        }
        if forall|i: int| 0 <= i < b.len() ==> 48 <= #[trigger] b[i] <= 57 {
            assert forall|i: int| 0 <= i < b.drop_last().len() implies 48 <= #[trigger] b.drop_last()[i]
                <= 57 by {
                assert(b.drop_last()[i] == b[i]);
            }
        }
    }
    assert(b.push(d).drop_last() =~= b);
}

/// A leading zero does not change the value of a decimal string.
pub proof fn lemma_decimal_leading_zero(b: Seq<u8>)
    requires
        b.len() > 0,
    ensures
        decimal_value(seq![48u8] + b) == decimal_value(b),
    decreases b.len(),
{
    let z = seq![48u8] + b;
    assert(z.last() == b.last());
    if b.len() == 1 {
        assert(z.drop_last() =~= seq![48u8]);
    } else {
        assert(z.drop_last() =~= seq![48u8] + b.drop_last());
        lemma_decimal_leading_zero(b.drop_last());
    }
}

/// A value of a decimal string is at least the value of each non-empty prefix.
proof fn lemma_decimal_prefix(b: Seq<u8>, i: int)
    requires
        1 <= i <= b.len(),
        decimal_value(b) is Some,
    ensures
        decimal_value(b.subrange(0, i)) is Some,
        decimal_value(b.subrange(0, i))->0 <= decimal_value(b)->0,
        decimal_value(b.subrange(0, i))->0 >= 0,
    decreases b.len(),
{
    if i == b.len() {
        assert(b.subrange(0, i) =~= b);
        lemma_decimal_nonneg(b);
    } else {
        lemma_decimal_prefix(b.drop_last(), i);
        assert(b.drop_last().subrange(0, i) =~= b.subrange(0, i));
        lemma_decimal_nonneg(b.drop_last());
    }
}

proof fn lemma_decimal_nonneg(b: Seq<u8>)
    requires
        decimal_value(b) is Some,
    ensures
        decimal_value(b)->0 >= 0,
    decreases b.len(),
{
    if b.len() > 1 {
        lemma_decimal_nonneg(b.drop_last());
    }
}

/// The value of the decimal digits `b`, where it fits in a `u64`.
pub fn parse_decimal(b: &[u8]) -> (r: Option<u64>)
    ensures
        r == (match decimal_value(b@) {
            Some(v) => if v <= u64::MAX {
                Some(v as u64)
            } else {
                None
            },
            None => None,
        }),
{
    if b.len() == 0 {
        return None;
    }
    let mut value: u64 = 0;
    let mut i: usize = 0;
    while i < b.len()
        invariant
            0 <= i <= b@.len(),
            b@.len() > 0,
            i == 0 ==> value == 0,
            i > 0 ==> decimal_value(b@.subrange(0, i as int)) == Some(value as int),
        decreases b@.len() - i,
    {
        let c = b[i];
        let ghost next = b@.subrange(0, i + 1);
        assert(next.drop_last() =~= b@.subrange(0, i as int));
        assert(next.last() == c);
        if c < 48u8 || c > 57u8 {
            proof {
                if decimal_value(b@) is Some {
                    lemma_decimal_prefix(b@, i + 1);
                }
            }
            return None;
        }
        let d = (c - 48u8) as u64;
        match value.checked_mul(10) {
            None => {
                proof {
                    if decimal_value(b@) is Some {
                        lemma_decimal_prefix(b@, i + 1);
                    }
                }
                return None;
            },
            Some(v10) => match v10.checked_add(d) {
                None => {
                    proof {
                        if decimal_value(b@) is Some {
                            lemma_decimal_prefix(b@, i + 1);
                        }
                    }
                    return None;
                },
                Some(v) => {
                    value = v;
                },
            },
        }
        i = i + 1;
    }
    assert(b@.subrange(0, b@.len() as int) =~= b@);
    Some(value)
}

/// The number an integer-literal expression stands for.
pub open spec fn num_of(e: SourceExpr) -> Result<u64, MagicFileError> {
    match e {
        SourceExpr::Int(digits) => match decimal_value(vstd::utf8::encode_utf8(digits@)) {
            Some(v) => if v <= u64::MAX {
                Ok(v as u64)
            } else {
                Err(MagicFileError::IntOutOfRange)
            },
            None => Err(MagicFileError::BadIntLit),
        },
        _ => Err(MagicFileError::BadIntLit),
    }
}

/// Reads an integer literal as a `u64`.
pub fn parse_num(expr: &SourceExpr) -> (r: Result<u64, MagicFileError>)
    ensures
        r == num_of(*expr),
{
    match expr {
        SourceExpr::Int(digits) => {
            let bytes = digits.as_str().as_bytes();
            match parse_decimal(bytes) {
                Some(v) => Ok(v),
                None => {
                    if bytes.len() > 0 && all_digits(bytes) {
                        Err(MagicFileError::IntOutOfRange)
                    } else {
                        Err(MagicFileError::BadIntLit)
                    }
                },
            }
        },
        _ => Err(MagicFileError::BadIntLit),
    }
}

/// Whether every byte is a decimal digit.
fn all_digits(b: &[u8]) -> (r: bool)
    requires
        b@.len() > 0,
    ensures
        r == (decimal_value(b@) is Some),
{
    let mut i: usize = 0;
    while i < b.len()
        invariant
            0 <= i <= b@.len(),
            b@.len() > 0,
            i > 0 ==> decimal_value(b@.subrange(0, i as int)) is Some,
        decreases b@.len() - i,
    {
        let ghost next = b@.subrange(0, i + 1);
        assert(next.drop_last() =~= b@.subrange(0, i as int));
        if b[i] < 48u8 || b[i] > 57u8 {
            proof {
                if decimal_value(b@) is Some {
                    lemma_decimal_prefix(b@, i + 1);
                }
            }
            return false;
        }
        i = i + 1;
    }
    assert(b@.subrange(0, b@.len() as int) =~= b@);
    true
}

/// The numbers of the first `n` elements, each as `Some`; the first error where one is not a number.
pub open spec fn nums_upto(elems: Seq<SourceExpr>, n: int) -> Result<Seq<Option<u64>>, MagicFileError>
    decreases n,
{
    if n <= 0 {
        Ok(seq![])
    } else {
        match nums_upto(elems, n - 1) {
            Err(e) => Err(e),
            Ok(s) => match num_of(elems[n - 1]) {
                Err(e) => Err(e),
                Ok(v) => Ok(s.push(Some(v))),
            },
        }
    }
}

/// What an `&[n, ...]` expression reads as.
pub open spec fn u64_array_of(e: SourceExpr) -> Result<Seq<Option<u64>>, MagicFileError> {
    match e {
        SourceExpr::Reference(inner) => match *inner {
            SourceExpr::Array(elems) => nums_upto(elems@, elems@.len() as int),
            _ => Err(MagicFileError::NotAnArray),
        },
        _ => Err(MagicFileError::NotAReference),
    }
}

/// Reads an `&[n, ...]` expression as a list of numbers.
pub fn parse_u64_array(expr: &SourceExpr) -> (r: Result<Vec<Option<u64>>, MagicFileError>)
    ensures
        match (r, u64_array_of(*expr)) {
            (Ok(v), Ok(s)) => v@ == s,
            (Err(e), Err(f)) => e == f,
            _ => false,
        },
{
    let arr = match expr {
        SourceExpr::Reference(inner) => match &**inner {
            SourceExpr::Array(arr) => arr,
            _ => {
                return Err(MagicFileError::NotAnArray);
            },
        },
        _ => {
            return Err(MagicFileError::NotAReference);
        },
    };
    let mut out: Vec<Option<u64>> = Vec::new();
    for i in 0..arr.len()
        invariant
            u64_array_of(*expr) == nums_upto(arr@, arr@.len() as int),
            nums_upto(arr@, i as int) == Ok::<Seq<Option<u64>>, MagicFileError>(out@),
    {
        match parse_num(&arr[i]) {
            Ok(v) => {
                out.push(Some(v));
            },
            Err(e) => {
                proof {
                    lemma_nums_error_stays(arr@, i + 1, arr@.len() as int);
                }
                return Err(e);
            },
        }
    }
    Ok(out)
}

/// Once reading the numbers fails, reading more of them fails the same way.
proof fn lemma_nums_error_stays(elems: Seq<SourceExpr>, i: int, n: int)
    requires
        0 <= i <= n,
        nums_upto(elems, i) is Err,
    ensures
        nums_upto(elems, n) == nums_upto(elems, i),
    decreases n - i,
{
    if n > i {
        lemma_nums_error_stays(elems, i, n - 1);
    }
}

/// What has been read of a magic's fields so far.
pub struct FieldsRead {
    pub magic: Option<u64>,
    pub mask: Option<u64>,
    pub shift: Option<usize>,
    pub array: Option<Seq<Option<u64>>>,
}

/// Reading one more field: a later field of the same name replaces an earlier one.
pub open spec fn read_field(st: FieldsRead, f: SourceField) -> Result<FieldsRead, MagicFileError> {
    match f.name {
        None => Err(MagicFileError::UnnamedField),
        Some(name) => if name@ == "magic"@ {
            match num_of(f.value) {
                Ok(v) => Ok(FieldsRead { magic: Some(v), mask: st.mask, shift: st.shift, array: st.array }),
                Err(e) => Err(e),
            }
        } else if name@ == "mask"@ {
            match num_of(f.value) {
                Ok(v) => Ok(FieldsRead { magic: st.magic, mask: Some(v), shift: st.shift, array: st.array }),
                Err(e) => Err(e),
            }
        } else if name@ == "shift"@ {
            match num_of(f.value) {
                Ok(v) => if v <= usize::MAX {
                    Ok(FieldsRead { magic: st.magic, mask: st.mask, shift: Some(v as usize), array: st.array })
                } else {
                    Err(MagicFileError::IntOutOfRange)
                },
                Err(e) => Err(e),
            }
        } else if name@ == "array"@ {
            match u64_array_of(f.value) {
                Ok(a) => Ok(FieldsRead { magic: st.magic, mask: st.mask, shift: st.shift, array: Some(a) }),
                Err(e) => Err(e),
            }
        } else {
            Err(MagicFileError::UnknownField)
        },
    }
}

/// Reading the first `n` fields in order; the first error stops the reading.
pub open spec fn read_fields(fields: Seq<SourceField>, n: int) -> Result<FieldsRead, MagicFileError>
    decreases n,
{
    if n <= 0 {
        Ok(FieldsRead { magic: None, mask: None, shift: None, array: None })
    } else {
        match read_fields(fields, n - 1) {
            Err(e) => Err(e),
            Ok(st) => read_field(st, fields[n - 1]),
        }
    }
}

/// What a `Magic { magic: .., mask: .., shift: .., array: &[..] }` expression reads as.
pub open spec fn magic_struct_of(e: SourceExpr) -> Result<MagicView, MagicFileError> {
    match e {
        SourceExpr::Struct(fields) => match read_fields(fields@, fields@.len() as int) {
            Err(e) => Err(e),
            Ok(st) => if st.magic is None {
                Err(MagicFileError::NoMagic)
            } else if st.mask is None {
                Err(MagicFileError::NoMask)
            } else if st.shift is None {
                Err(MagicFileError::NoShift)
            } else if st.array is None {
                Err(MagicFileError::NoArray)
            } else {
                Ok(MagicView { magic: st.magic->0, mask: st.mask->0, shift: st.shift->0, array: st.array->0 })
            },
        },
        _ => Err(MagicFileError::NotAStruct),
    }
}

proof fn lemma_fields_error_stays(fields: Seq<SourceField>, i: int, n: int)
    requires
        0 <= i <= n,
        read_fields(fields, i) is Err,
    ensures
        read_fields(fields, n) == read_fields(fields, i),
    decreases n - i,
{
    if n > i {
        lemma_fields_error_stays(fields, i, n - 1);
    }
}

/// Whether `name` spells `text`.
fn is_named(name: &String, text: &str) -> (r: bool)
    ensures
        r == (name@ == text@),
{
    let key = String::from_str(text);
    *name == key
}

/// Reads one magic from its struct expression.
pub fn parse_magic_struct(expr: &SourceExpr) -> (r: Result<Option<Magic>, MagicFileError>)
    ensures
        match (r, magic_struct_of(*expr)) {
            (Ok(Some(m)), Ok(v)) => m@ == v,
            (Err(e), Err(f)) => e == f,
            _ => false,
        },
{
    let fields = match expr {
        SourceExpr::Struct(fields) => fields,
        _ => {
            return Err(MagicFileError::NotAStruct);
        },
    };
    let mut magic_val: Option<u64> = None;
    let mut magic_mask: Option<u64> = None;
    let mut magic_shift: Option<usize> = None;
    let mut magic_arr: Option<Vec<Option<u64>>> = None;
    for i in 0..fields.len()
        invariant
            magic_struct_of(*expr) == (match read_fields(fields@, fields@.len() as int) {
                Err(e) => Err(e),
                Ok(st) => if st.magic is None {
                    Err(MagicFileError::NoMagic)
                } else if st.mask is None {
                    Err(MagicFileError::NoMask)
                } else if st.shift is None {
                    Err(MagicFileError::NoShift)
                } else if st.array is None {
                    Err(MagicFileError::NoArray)
                } else {
                    Ok(MagicView { magic: st.magic->0, mask: st.mask->0, shift: st.shift->0, array: st.array->0 })
                },
            }),
            read_fields(fields@, i as int) == Ok::<FieldsRead, MagicFileError>(FieldsRead {
                magic: magic_val,
                mask: magic_mask,
                shift: magic_shift,
                array: match magic_arr {
                    Some(a) => Some(a@),
                    None => None,
                },
            }),
    {
        let field = &fields[i];
        let name = match &field.name {
            Some(name) => name,
            None => {
                proof {
                    lemma_fields_error_stays(fields@, i + 1, fields@.len() as int);
                }
                return Err(MagicFileError::UnnamedField);
            },
        };
        if is_named(name, "magic") {
            match parse_num(&field.value) {
                Ok(v) => {
                    magic_val = Some(v);
                },
                Err(e) => {
                    proof {
                        lemma_fields_error_stays(fields@, i + 1, fields@.len() as int);
                    }
                    return Err(e);
                },
            }
        } else if is_named(name, "mask") {
            match parse_num(&field.value) {
                Ok(v) => {
                    magic_mask = Some(v);
                },
                Err(e) => {
                    proof {
                        lemma_fields_error_stays(fields@, i + 1, fields@.len() as int);
                    }
                    return Err(e);
                },
            }
        } else if is_named(name, "shift") {
            match parse_num(&field.value) {
                Ok(v) => {
                    if v <= usize::MAX as u64 {
                        magic_shift = Some(v as usize);
                    } else {
                        proof {
                            lemma_fields_error_stays(fields@, i + 1, fields@.len() as int);
                        }
                        return Err(MagicFileError::IntOutOfRange);
                    }
                },
                Err(e) => {
                    proof {
                        lemma_fields_error_stays(fields@, i + 1, fields@.len() as int);
                    }
                    return Err(e);
                },
            }
        } else if is_named(name, "array") {
            match parse_u64_array(&field.value) {
                Ok(a) => {
                    magic_arr = Some(a);
                },
                Err(e) => {
                    proof {
                        lemma_fields_error_stays(fields@, i + 1, fields@.len() as int);
                    }
                    return Err(e);
                },
            }
        } else {
            proof {
                lemma_fields_error_stays(fields@, i + 1, fields@.len() as int);
            }
            return Err(MagicFileError::UnknownField);
        }
    }
    let magic = match magic_val {
        Some(m) => m,
        None => {
            return Err(MagicFileError::NoMagic);
        },
    };
    let mask = match magic_mask {
        Some(m) => m,
        None => {
            return Err(MagicFileError::NoMask);
        },
    };
    let shift = match magic_shift {
        Some(s) => s,
        None => {
            return Err(MagicFileError::NoShift);
        },
    };
    let array = match magic_arr {
        Some(a) => a,
        None => {
            return Err(MagicFileError::NoArray);
        },
    };
    Ok(Some(Magic { magic, mask, shift, array }))
}

/// The magics of the first `n` struct expressions; the first error stops the reading.
pub open spec fn magics_upto(elems: Seq<SourceExpr>, n: int) -> Result<Seq<MagicView>, MagicFileError>
    decreases n,
{
    if n <= 0 {
        Ok(seq![])
    } else {
        match magics_upto(elems, n - 1) {
            Err(e) => Err(e),
            Ok(s) => match magic_struct_of(elems[n - 1]) {
                Err(e) => Err(e),
                Ok(m) => Ok(s.push(m)),
            },
        }
    }
}

/// What the value of a table constant reads as: an array of exactly 64 magics.
pub open spec fn magic_table_of(e: SourceExpr) -> Result<Seq<MagicView>, MagicFileError> {
    match e {
        SourceExpr::Array(elems) => match magics_upto(elems@, elems@.len() as int) {
            Err(e) => Err(e),
            Ok(s) => if s.len() == 64 {
                Ok(s)
            } else {
                Err(MagicFileError::WrongLength)
            },
        },
        _ => Err(MagicFileError::NotAnArray),
    }
}

proof fn lemma_magics_error_stays(elems: Seq<SourceExpr>, i: int, n: int)
    requires
        0 <= i <= n,
        magics_upto(elems, i) is Err,
    ensures
        magics_upto(elems, n) == magics_upto(elems, i),
    decreases n - i,
{
    if n > i {
        lemma_magics_error_stays(elems, i, n - 1);
    }
}

/// The views of a list of magics, each present.
pub open spec fn present_views(v: Seq<Option<Magic>>) -> Seq<MagicView> {
    v.map_values(|m: Option<Magic>| m->0@)
}

/// Reads the value of a table constant: 64 magics.
pub fn parse_value(expr: &SourceExpr) -> (r: Result<Vec<Option<Magic>>, MagicFileError>)
    ensures
        match (r, magic_table_of(*expr)) {
            (Ok(v), Ok(s)) => (forall|i: int| 0 <= i < v@.len() ==> #[trigger] v@[i] is Some)
                && present_views(v@) == s,
            (Err(e), Err(f)) => e == f,
            _ => false,
        },
{
    let elems = match expr {
        SourceExpr::Array(elems) => elems,
        _ => {
            return Err(MagicFileError::NotAnArray);
        },
    };
    let mut out: Vec<Option<Magic>> = Vec::new();
    assert(present_views(out@) =~= Seq::<MagicView>::empty());
    for i in 0..elems.len()
        invariant
            magic_table_of(*expr) == (match magics_upto(elems@, elems@.len() as int) {
                Err(e) => Err(e),
                Ok(s) => if s.len() == 64 {
                    Ok(s)
                } else {
                    Err(MagicFileError::WrongLength)
                },
            }),
            magics_upto(elems@, i as int) == Ok::<Seq<MagicView>, MagicFileError>(present_views(out@)),
            forall|k: int| 0 <= k < out@.len() ==> #[trigger] out@[k] is Some,
    {
        match parse_magic_struct(&elems[i]) {
            Ok(m) => {
                let ghost before = out@;
                out.push(m);
                proof {
                    assert(present_views(out@) =~= present_views(before).push(m->0@));
                }
            },
            Err(e) => {
                proof {
                    lemma_magics_error_stays(elems@, i + 1, elems@.len() as int);
                }
                return Err(e);
            },
        }
    }
    if out.len() != 64 {
        return Err(MagicFileError::WrongLength);
    }
    Ok(out)
}

/// The state of reading the constants: the bishop and rook tables found so far.
pub struct TablesRead {
    pub bishop: Option<Seq<MagicView>>,
    pub rook: Option<Seq<MagicView>>,
}

/// Reading one `const` item: one named `BISHOP_MAGICS` or `ROOK_MAGICS` is
/// read as a table, replacing any table read before it; others change nothing.
pub open spec fn read_const(st: TablesRead, c: SourceConst) -> Result<TablesRead, MagicFileError> {
    let after_bishop = if c.name@ == "BISHOP_MAGICS"@ {
        match magic_table_of(c.value) {
            Ok(t) => Ok(TablesRead { bishop: Some(t), rook: st.rook }),
            Err(e) => Err(e),
        }
    } else {
        Ok(st)
    };
    match after_bishop {
        Err(e) => Err(e),
        Ok(st2) => if c.name@ == "ROOK_MAGICS"@ {
            match magic_table_of(c.value) {
                Ok(t) => Ok(TablesRead { bishop: st2.bishop, rook: Some(t) }),
                Err(e) => Err(e),
            }
        } else {
            Ok(st2)
        },
    }
}

/// Reading the first `n` items: `const` items as `read_const` says, other
/// items passed over; the first error stops the reading.
pub open spec fn read_items(items: Seq<SourceItem>, n: int) -> Result<TablesRead, MagicFileError>
    decreases n,
{
    if n <= 0 {
        Ok(TablesRead { bishop: None, rook: None })
    } else {
        match read_items(items, n - 1) {
            Err(e) => Err(e),
            Ok(st) => match items[n - 1] {
                SourceItem::Const(c) => read_const(st, c),
                SourceItem::Other => Ok(st),
            },
        }
    }
}

/// What the items of the generated source read as: the bishop table, then
/// the rook table.
pub open spec fn magics_of(items: Seq<SourceItem>) -> Result<(Seq<MagicView>, Seq<MagicView>), MagicFileError> {
    match read_items(items, items.len() as int) {
        Err(e) => Err(e),
        Ok(st) => match st.bishop {
            None => Err(MagicFileError::NoBishop),
            Some(b) => match st.rook {
                None => Err(MagicFileError::NoRook),
                Some(r) => Ok((b, r)),
            },
        },
    }
}

proof fn lemma_items_error_stays(items: Seq<SourceItem>, i: int, n: int)
    requires
        0 <= i <= n,
        read_items(items, i) is Err,
    ensures
        read_items(items, n) == read_items(items, i),
    decreases n - i,
{
    if n > i {
        lemma_items_error_stays(items, i, n - 1);
    }
}

/// The views of an optional table.
pub open spec fn table_view(t: Option<Vec<Option<Magic>>>) -> Option<Seq<MagicView>> {
    match t {
        Some(v) => Some(present_views(v@)),
        None => None,
    }
}

/// A pair of tables read, or the error, as the expected outcome `m` says:
/// the same error, or tables whose entries are all present with the views of `m`.
pub open spec fn reads_as(
    r: Result<(Vec<Option<Magic>>, Vec<Option<Magic>>), MagicFileError>,
    m: Result<(Seq<MagicView>, Seq<MagicView>), MagicFileError>,
) -> bool {
    match (r, m) {
        (Ok((b, rk)), Ok((sb, sr))) => present_views(b@) == sb && present_views(rk@) == sr
            && (forall|i: int| 0 <= i < b@.len() ==> #[trigger] b@[i] is Some)
            && (forall|i: int| 0 <= i < rk@.len() ==> #[trigger] rk@[i] is Some),
        (Err(e), Err(f)) => e == f,
        _ => false,
    }
}

/// Reads the bishop and rook tables from the items of the generated source.
pub fn magics_from_items(items: &Vec<SourceItem>) -> (r: Result<
    (Vec<Option<Magic>>, Vec<Option<Magic>>),
    MagicFileError,
>)
    ensures
        reads_as(r, magics_of(items@)),
{
    let mut b_magic: Option<Vec<Option<Magic>>> = None;
    let mut r_magic: Option<Vec<Option<Magic>>> = None;
    for i in 0..items.len()
        invariant
            read_items(items@, i as int) == Ok::<TablesRead, MagicFileError>(TablesRead {
                bishop: table_view(b_magic),
                rook: table_view(r_magic),
            }),
            b_magic matches Some(v) ==> forall|k: int| 0 <= k < v@.len() ==> #[trigger] v@[k] is Some,
            r_magic matches Some(v) ==> forall|k: int| 0 <= k < v@.len() ==> #[trigger] v@[k] is Some,
    {
        if let SourceItem::Const(c) = &items[i] {
            if is_named(&c.name, "BISHOP_MAGICS") {
                match parse_value(&c.value) {
                    Ok(t) => {
                        b_magic = Some(t);
                    },
                    Err(e) => {
                        proof {
                            lemma_items_error_stays(items@, i + 1, items@.len() as int);
                        }
                        return Err(e);
                    },
                }
            }
            if is_named(&c.name, "ROOK_MAGICS") {
                match parse_value(&c.value) {
                    Ok(t) => {
                        r_magic = Some(t);
                    },
                    Err(e) => {
                        proof {
                            lemma_items_error_stays(items@, i + 1, items@.len() as int);
                        }
                        return Err(e);
                    },
                }
            }
        }
    }
    let b = match b_magic {
        Some(b) => b,
        None => {
            return Err(MagicFileError::NoBishop);
        },
    };
    let r = match r_magic {
        Some(r) => r,
        None => {
            return Err(MagicFileError::NoRook);
        },
    };
    Ok((b, r))
}

/// The items of a Rust source file, as `syn::parse_file` reads them; `None`
/// where the text is not a Rust file that `syn` can parse.
pub uninterp spec fn rust_items_of(code: Seq<char>) -> Option<Seq<SourceItem>>;

/// `syn::Item`, an item of a parsed Rust file; a type declaration only.
#[verifier::external_type_specification]
#[verifier::external_body]
pub struct ExSynItem(syn::Item);

/// `syn::Expr`, an expression of a parsed Rust file; a type declaration only.
#[verifier::external_type_specification]
#[verifier::external_body]
pub struct ExSynExpr(syn::Expr);

/// `syn::FieldValue`, a field of a struct expression; a type declaration only.
#[verifier::external_type_specification]
#[verifier::external_body]
pub struct ExSynFieldValue(syn::FieldValue);

/// An expression of a `syn` tree, as the library reads expressions: one
/// variant for each kind the reader looks at, the rest as `Other`.
#[verifier::external_body]
fn source_expr(e: &syn::Expr) -> SourceExpr {
    match e {
        syn::Expr::Array(a) => SourceExpr::Array(a.elems.iter().map(source_expr).collect()),
        syn::Expr::Struct(s) => SourceExpr::Struct(s.fields.iter().map(source_field).collect()),
        syn::Expr::Lit(syn::ExprLit { lit: syn::Lit::Int(i), .. }) => SourceExpr::Int(
            i.base10_digits().to_string(),
        ),
        syn::Expr::Reference(r) => SourceExpr::Reference(Box::new(source_expr(&r.expr))),
        _ => SourceExpr::Other,
    }
}

/// A field of a `syn` struct expression: its name, or `None` for a
/// positional member, and its value.
#[verifier::external_body]
fn source_field(f: &syn::FieldValue) -> SourceField {
    let name = match &f.member {
        syn::Member::Named(n) => Some(n.to_string()),
        syn::Member::Unnamed(_) => None,
    };
    SourceField { name, value: source_expr(&f.expr) }
}

/// An item of a `syn` tree: a `const` item by its name and value, any other
/// item as `Other`.
#[verifier::external_body]
fn source_item(item: &syn::Item) -> SourceItem {
    match item {
        syn::Item::Const(c) => SourceItem::Const(
            SourceConst { name: c.ident.to_string(), value: source_expr(&c.expr) },
        ),
        _ => SourceItem::Other,
    }
}

/// Parses Rust source text with `syn::parse_file`, giving its items in order.
/// The contract claims that the result is `rust_items_of` of the text: the
/// same text always gives the same items, and `None` exactly where `syn`
/// reports an error. What `syn` accepts as Rust is not stated here.
#[verifier::external_body]
fn parse_rust_items(code: &str) -> (r: Option<Vec<SourceItem>>)
    ensures
        rust_items_of(code@) == (match r {
            Some(v) => Some(v@),
            None => None::<Seq<SourceItem>>,
        }),
{
    syn::parse_file(code).ok().map(|f| f.items.iter().map(source_item).collect())
}

/// What the text of the generated source reads as: `NotRustSource` where it
/// does not parse as Rust, else what its items read as.
pub open spec fn source_magics(code: Seq<char>) -> Result<(Seq<MagicView>, Seq<MagicView>), MagicFileError> {
    match rust_items_of(code) {
        None => Err(MagicFileError::NotRustSource),
        Some(items) => magics_of(items),
    }
}

/// Reads the bishop and rook tables from the text of the generated source.
pub fn magics_from_source(code: &str) -> (r: Result<
    (Vec<Option<Magic>>, Vec<Option<Magic>>),
    MagicFileError,
>)
    ensures
        reads_as(r, source_magics(code@)),
{
    match parse_rust_items(code) {
        None => Err(MagicFileError::NotRustSource),
        Some(items) => magics_from_items(&items),
    }
}

} // verus!

//! Cell values of @UTF tables.

use vstd::prelude::*;

verus! {

/// A cell value of a @UTF table. A float cell holds the IEEE-754 bit
/// pattern of its value.
#[derive(Debug, Clone)]
pub enum Value {
    U8(u8),
    I8(i8),
    U16(u16),
    I16(i16),
    U32(u32),
    I32(i32),
    U64(u64),
    F32(u32),
    String(String),
    Data(Vec<u8>),
}

/// A cell value as a mathematical value: strings as characters, blobs as
/// bytes.
pub enum ValueView {
    U8(u8),
    I8(i8),
    U16(u16),
    I16(i16),
    U32(u32),
    I32(i32),
    U64(u64),
    F32(u32),
    Str(Seq<char>),
    Data(Seq<u8>),
}

impl View for Value {
    type V = ValueView;

    open spec fn view(&self) -> ValueView {
        match self {
            Value::U8(x) => ValueView::U8(*x),
            Value::I8(x) => ValueView::I8(*x),
            Value::U16(x) => ValueView::U16(*x),
            Value::I16(x) => ValueView::I16(*x),
            Value::U32(x) => ValueView::U32(*x),
            Value::I32(x) => ValueView::I32(*x),
            Value::U64(x) => ValueView::U64(*x),
            Value::F32(x) => ValueView::F32(*x),
            Value::String(s) => ValueView::Str(s@),
            Value::Data(d) => ValueView::Data(d@),
        }
    }
}

} // verus!

use vstd::prelude::*;

verus! {

/// A datum of the host language's textual syntax. The string decoder produces
/// the text carried by the `Str` variant; the remaining variants are the value
/// shapes a full reader of the syntax would hand back.
pub enum Value {
    Bool(bool),
    Number(i64),
    Character(char),
    Vector(Vec<Value>),
    Str(String),
    Bytevector(Vec<u8>),
}

} // verus!

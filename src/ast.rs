//! The syntax tree handed over by the parser.
use vstd::prelude::*;

use crate::text::str_equal;

verus! {

/// An expression of a box body.
#[derive(Debug)]
pub enum Expr {
    /// An operator applied to its arguments, in order.
    Operator(String, Vec<Expr>),
    /// A reference to a wire of the enclosing box.
    NodeIdent(String),
    /// A numeric literal.
    Num(Numeric),
}

/// A numeric literal. A float literal is kept as the IEEE-754 bit pattern of
/// its `f32` value.
#[derive(Debug, Clone, Copy, PartialEq, Eq, Structural)]
pub enum Numeric {
    Int32(i32),
    Float(u32),
}

#[derive(Debug)]
pub enum LetDef {
    Let(String, Expr),
}

#[derive(Debug)]
pub enum BoxWire {
    Boxw(String, Vec<Expr>),
}

#[derive(Debug)]
pub enum BoxDef {
    ModuleBox(String, Vec<Port>, Vec<Stmt>),
}

#[derive(Debug)]
pub enum Stmt {
    LetDef(LetDef),
    BoxWire(BoxWire),
}

#[derive(Debug, Clone)]
pub enum Port {
    In(String, Type),
    Out(String, Type),
}

#[derive(Debug, Clone, Copy, PartialEq, Eq, Structural)]
pub enum Type {
    Int32,
    Float,
    Waveform,
}

#[derive(Debug)]
pub enum TopDef {
    Boxes(Vec<BoxDef>),
}

/// The port type that a type keyword names, if any.
pub open spec fn type_named(s: Seq<char>) -> Option<Type> {
    if s == seq!['i', '3', '2'] {
        Some(Type::Int32)
    } else if s == seq!['f', 'l', 'o', 'a', 't'] {
        Some(Type::Float)
    } else if s == seq!['w', 'a', 'v', 'e', 'f', 'o', 'r', 'm'] {
        Some(Type::Waveform)
    } else {
        None
    }
}

impl Type {
    /// Reads a type keyword: `i32`, `float` or `waveform`.
    pub fn from_str(s: &str) -> (r: Option<Type>)
        ensures
            r == type_named(s@),
    {
        proof {
            reveal_strlit("i32");
            reveal_strlit("float");
            reveal_strlit("waveform");
        }
        if str_equal(s, "i32") {
            assert(s@ =~= seq!['i', '3', '2']);
            Some(Type::Int32)
        } else if str_equal(s, "float") {
            assert(s@ =~= seq!['f', 'l', 'o', 'a', 't']);
            Some(Type::Float)
        } else if str_equal(s, "waveform") {
            assert(s@ =~= seq!['w', 'a', 'v', 'e', 'f', 'o', 'r', 'm']);
            Some(Type::Waveform)
        } else {
            assert("i32"@ =~= seq!['i', '3', '2']);
            assert("float"@ =~= seq!['f', 'l', 'o', 'a', 't']);
            assert("waveform"@ =~= seq!['w', 'a', 'v', 'e', 'f', 'o', 'r', 'm']);
            assert(s@ != seq!['i', '3', '2']);
            assert(s@ != seq!['f', 'l', 'o', 'a', 't']);
            assert(s@ != seq!['w', 'a', 'v', 'e', 'f', 'o', 'r', 'm']);
            None
        }
    }
}

} // verus!

//! The part of MIR the interpreter reads, as plain data.
//!
//! Whatever it does not understand is carried as the text that describes it,
//! so that a refusal can say what it met.

use vstd::prelude::*;

use crate::mir::kinds::IntKind;
use crate::mir::ops::{BinOp, UnOp};

verus! {

/// An unsigned integer type.
#[derive(Clone, Copy, Debug, PartialEq, Eq, Structural)]
pub enum UintTy {
    Usize,
    U8,
    U16,
    U32,
    U64,
    U128,
}

/// A signed integer type.
#[derive(Clone, Copy, Debug, PartialEq, Eq, Structural)]
pub enum IntTy {
    Isize,
    I8,
    I16,
    I32,
    I64,
    I128,
}

/// What a type is, as far as the interpreter tells types apart.
#[derive(Clone, Copy, Debug, PartialEq, Eq, Structural)]
pub enum TyShape {
    Bool,
    Uint(UintTy),
    Int(IntTy),
    Other,
}

/// A type, with the text that describes it.
#[derive(Debug)]
pub struct Ty {
    pub shape: TyShape,
    pub text: String,
}

/// The width and signedness of a type, if it is an integer type.
///
/// Pointer-sized types are modelled as 64 bit.
pub open spec fn kind_of(shape: TyShape) -> Option<IntKind> {
    match shape {
        TyShape::Uint(uint) => Some(
            IntKind {
                bits: match uint {
                    UintTy::Usize => 64,
                    UintTy::U8 => 8,
                    UintTy::U16 => 16,
                    UintTy::U32 => 32,
                    UintTy::U64 => 64,
                    UintTy::U128 => 128,
                },
                signed: false,
            },
        ),
        TyShape::Int(signed) => Some(
            IntKind {
                bits: match signed {
                    IntTy::Isize => 64,
                    IntTy::I8 => 8,
                    IntTy::I16 => 16,
                    IntTy::I32 => 32,
                    IntTy::I64 => 64,
                    IntTy::I128 => 128,
                },
                signed: true,
            },
        ),
        _ => None,
    }
}

/// The width and signedness of a type, if it is an integer type.
pub fn int_kind(ty: &Ty) -> (r: Option<IntKind>)
    ensures
        r == kind_of(ty.shape),
        r matches Some(kind) ==> kind.wf(),
{
    match ty.shape {
        TyShape::Uint(uint) => Some(
            match uint {
                UintTy::Usize => IntKind::new(64, false),
                UintTy::U8 => IntKind::new(8, false),
                UintTy::U16 => IntKind::new(16, false),
                UintTy::U32 => IntKind::new(32, false),
                UintTy::U64 => IntKind::new(64, false),
                UintTy::U128 => IntKind::new(128, false),
            },
        ),
        TyShape::Int(signed) => Some(
            match signed {
                IntTy::Isize => IntKind::new(64, true),
                IntTy::I8 => IntKind::new(8, true),
                IntTy::I16 => IntKind::new(16, true),
                IntTy::I32 => IntKind::new(32, true),
                IntTy::I64 => IntKind::new(64, true),
                IntTy::I128 => IntKind::new(128, true),
            },
        ),
        _ => None,
    }
}

/// One step from a place to a place inside it.
#[derive(Debug)]
pub enum Projection {
    Field { index: usize, text: String },
    Other { text: String },
}

/// The text that describes a projection.
pub open spec fn projection_text(p: Projection) -> Seq<char> {
    match p {
        Projection::Field { index, text } => text@,
        Projection::Other { text } => text@,
    }
}

/// A local, or a part of one.
#[derive(Debug)]
pub struct Place {
    pub local: usize,
    pub projection: Vec<Projection>,
}

/// A constant.
#[derive(Debug)]
pub enum Constant {
    /// A constant in memory: its type, and its bytes read as an unsigned
    /// integer, or why they cannot be.
    Allocated { ty: Ty, bits: Result<u128, String> },
    Other { text: String },
}

/// What a computation starts from.
#[derive(Debug)]
pub enum Operand {
    Copy(Place),
    Move(Place),
    Constant(Constant),
    /// Whether the build has a runtime check on, and whether the check asked
    /// about is the one for overflow.
    RuntimeChecks { overflow: bool },
}

/// A computation.
#[derive(Debug)]
pub enum Rvalue {
    Use(Operand),
    BinaryOp(BinOp, Operand, Operand),
    CheckedBinaryOp(BinOp, Operand, Operand),
    UnaryOp(UnOp, Operand),
    Cast(Operand, Ty),
    Aggregate(Vec<Operand>),
    CopyForDeref(Place),
    Other { text: String },
}

/// A statement.
#[derive(Debug)]
pub enum Statement {
    Assign(Place, Rvalue),
    /// Liveness and diagnostics, which carry no runtime meaning here.
    Marker,
    Other { text: String },
}

/// How a block ends.
#[derive(Debug)]
pub enum Terminator {
    Goto { target: usize },
    Return,
    SwitchInt { discr: Operand, branches: Vec<(u128, usize)>, otherwise: usize },
    /// Stops with the message unless the condition is as expected. This is
    /// where an overflow or a bounds check lands.
    Assert { cond: Operand, expected: bool, target: usize, message: String },
    Call { func: String },
    Unreachable,
    Other { text: String },
}

/// A run of statements with one way in and one end.
#[derive(Debug)]
pub struct Block {
    pub statements: Vec<Statement>,
    pub terminator: Terminator,
}

/// A function body: how many locals it has, and its blocks.
#[derive(Debug)]
pub struct Body {
    pub locals: usize,
    pub blocks: Vec<Block>,
}

} // verus!

//! The p-code operation codes.
use vstd::prelude::*;

verus! {

/// A p-code operation code.
#[allow(non_camel_case_types)]
#[derive(Debug, Clone, Copy, PartialEq, Eq, Structural)]
pub enum OpCode {
    /// The `COPY` operation.
    CPUI_COPY,
    /// The `LOAD` operation.
    CPUI_LOAD,
    /// The `STORE` operation.
    CPUI_STORE,
    /// The `BRANCH` operation.
    CPUI_BRANCH,
    /// The `CBRANCH` operation.
    CPUI_CBRANCH,
    /// The `BRANCHIND` operation.
    CPUI_BRANCHIND,
    /// The `CALL` operation.
    CPUI_CALL,
    /// The `CALLIND` operation.
    CPUI_CALLIND,
    /// The `CALLOTHER` operation.
    CPUI_CALLOTHER,
    /// The `RETURN` operation.
    CPUI_RETURN,
    /// The `INT_EQUAL` operation.
    CPUI_INT_EQUAL,
    /// The `INT_NOTEQUAL` operation.
    CPUI_INT_NOTEQUAL,
    /// The `INT_SLESS` operation.
    CPUI_INT_SLESS,
    /// The `INT_SLESSEQUAL` operation.
    CPUI_INT_SLESSEQUAL,
    /// The `INT_LESS` operation.
    CPUI_INT_LESS,
    /// The `INT_LESSEQUAL` operation.
    CPUI_INT_LESSEQUAL,
    /// The `INT_ZEXT` operation.
    CPUI_INT_ZEXT,
    /// The `INT_SEXT` operation.
    CPUI_INT_SEXT,
    /// The `INT_ADD` operation.
    CPUI_INT_ADD,
    /// The `INT_SUB` operation.
    CPUI_INT_SUB,
    /// The `INT_CARRY` operation.
    CPUI_INT_CARRY,
    /// The `INT_SCARRY` operation.
    CPUI_INT_SCARRY,
    /// The `INT_SBORROW` operation.
    CPUI_INT_SBORROW,
    /// The `INT_2COMP` operation.
    CPUI_INT_2COMP,
    /// The `INT_NEGATE` operation.
    CPUI_INT_NEGATE,
    /// The `INT_XOR` operation.
    CPUI_INT_XOR,
    /// The `INT_AND` operation.
    CPUI_INT_AND,
    /// The `INT_OR` operation.
    CPUI_INT_OR,
    /// The `INT_LEFT` operation.
    CPUI_INT_LEFT,
    /// The `INT_RIGHT` operation.
    CPUI_INT_RIGHT,
    /// The `INT_SRIGHT` operation.
    CPUI_INT_SRIGHT,
    /// The `INT_MULT` operation.
    CPUI_INT_MULT,
    /// The `INT_DIV` operation.
    CPUI_INT_DIV,
    /// The `INT_SDIV` operation.
    CPUI_INT_SDIV,
    /// The `INT_REM` operation.
    CPUI_INT_REM,
    /// The `INT_SREM` operation.
    CPUI_INT_SREM,
    /// The `BOOL_NEGATE` operation.
    CPUI_BOOL_NEGATE,
    /// The `BOOL_XOR` operation.
    CPUI_BOOL_XOR,
    /// The `BOOL_AND` operation.
    CPUI_BOOL_AND,
    /// The `BOOL_OR` operation.
    CPUI_BOOL_OR,
    /// The `FLOAT_EQUAL` operation.
    CPUI_FLOAT_EQUAL,
    /// The `FLOAT_NOTEQUAL` operation.
    CPUI_FLOAT_NOTEQUAL,
    /// The `FLOAT_LESS` operation.
    CPUI_FLOAT_LESS,
    /// The `FLOAT_LESSEQUAL` operation.
    CPUI_FLOAT_LESSEQUAL,
    /// The `FLOAT_NAN` operation.
    CPUI_FLOAT_NAN,
    /// The `FLOAT_ADD` operation.
    CPUI_FLOAT_ADD,
    /// The `FLOAT_DIV` operation.
    CPUI_FLOAT_DIV,
    /// The `FLOAT_MULT` operation.
    CPUI_FLOAT_MULT,
    /// The `FLOAT_SUB` operation.
    CPUI_FLOAT_SUB,
    /// The `FLOAT_NEG` operation.
    CPUI_FLOAT_NEG,
    /// The `FLOAT_ABS` operation.
    CPUI_FLOAT_ABS,
    /// The `FLOAT_SQRT` operation.
    CPUI_FLOAT_SQRT,
    /// The `FLOAT_INT2FLOAT` operation.
    CPUI_FLOAT_INT2FLOAT,
    /// The `FLOAT_FLOAT2FLOAT` operation.
    CPUI_FLOAT_FLOAT2FLOAT,
    /// The `FLOAT_TRUNC` operation.
    CPUI_FLOAT_TRUNC,
    /// The `FLOAT_CEIL` operation.
    CPUI_FLOAT_CEIL,
    /// The `FLOAT_FLOOR` operation.
    CPUI_FLOAT_FLOOR,
    /// The `FLOAT_ROUND` operation.
    CPUI_FLOAT_ROUND,
    /// The `MULTIEQUAL` operation.
    CPUI_MULTIEQUAL,
    /// The `INDIRECT` operation.
    CPUI_INDIRECT,
    /// The `PIECE` operation.
    CPUI_PIECE,
    /// The `SUBPIECE` operation.
    CPUI_SUBPIECE,
    /// The `CAST` operation.
    CPUI_CAST,
    /// The `PTRADD` operation.
    CPUI_PTRADD,
    /// The `PTRSUB` operation.
    CPUI_PTRSUB,
    /// The `SEGMENTOP` operation.
    CPUI_SEGMENTOP,
    /// The `CPOOLREF` operation.
    CPUI_CPOOLREF,
    /// The `NEW` operation.
    CPUI_NEW,
    /// The `INSERT` operation.
    CPUI_INSERT,
    /// The `EXTRACT` operation.
    CPUI_EXTRACT,
    /// The `POPCOUNT` operation.
    CPUI_POPCOUNT,
    /// The `LZCOUNT` operation.
    CPUI_LZCOUNT,
}

} // verus!

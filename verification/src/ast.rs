//! The statements and expressions of a circuit program, as the symbolic executor reads them.
//! Names are interned: a variable, template or function is named by a number.
use crate::bignum::BigNum;
use vstd::prelude::*;

verus! {

/// Binary operators of the circuit language.
#[derive(Clone, Copy, Debug, PartialEq, Eq, Structural, Hash)]
pub enum ExpressionInfixOpcode {
    Mul,
    Div,
    Add,
    Sub,
    Pow,
    IntDiv,
    Mod,
    ShiftL,
    ShiftR,
    LesserEq,
    GreaterEq,
    Lesser,
    Greater,
    Eq,
    NotEq,
    BoolOr,
    BoolAnd,
    BitOr,
    BitAnd,
    BitXor,
}

/// Unary operators of the circuit language.
#[derive(Clone, Copy, Debug, PartialEq, Eq, Structural, Hash)]
pub enum ExpressionPrefixOpcode {
    Sub,
    BoolNot,
    Complement,
}

/// The role of a signal within a template.
#[derive(Clone, Copy, Debug, PartialEq, Eq, Structural)]
pub enum SignalType {
    Output,
    Input,
    Intermediate,
}

/// The kind of a declared name.
#[derive(Clone, Debug)]
pub enum VariableType {
    Var,
    Signal(SignalType, Vec<String>),
    Component,
    AnonymousComponent,
    Bus(String, SignalType, Vec<String>),
}

/// The three assignment operators (`=`, `<--`, `<==`).
#[derive(Clone, Copy, Debug, PartialEq, Eq, Structural)]
pub enum AssignOp {
    AssignVar,
    AssignSignal,
    AssignConstraintSignal,
}

/// Position information of a syntax element.
#[derive(Clone, Copy, Debug, PartialEq, Eq, Structural)]
pub struct Meta {
    pub elem_id: usize,
}

/// A signal role, as the syntax trees print it.
#[derive(Clone, Copy, Debug, PartialEq, Eq, Structural)]
pub struct DebugSignalType(pub SignalType);

/// A declared kind, as the syntax trees print it.
#[derive(Clone, Debug)]
pub struct DebugVariableType(pub VariableType);

/// An assignment operator, as the syntax trees print it.
#[derive(Clone, Copy, Debug, PartialEq, Eq, Structural)]
pub struct DebugAssignOp(pub AssignOp);

/// A binary operator, as the syntax trees print it.
#[derive(Clone, Copy, Debug, PartialEq, Eq, Structural, Hash)]
pub struct DebugExpressionInfixOpcode(pub ExpressionInfixOpcode);

/// A unary operator, as the syntax trees print it.
#[derive(Clone, Copy, Debug, PartialEq, Eq, Structural, Hash)]
pub struct DebugExpressionPrefixOpcode(pub ExpressionPrefixOpcode);

/// An access path step: a component field or an array index.
#[derive(Debug)]
pub enum DebugAccess {
    ComponentAccess(usize),
    ArrayAccess(DebugExpression),
}

/// An argument of a `log` call.
#[derive(Debug)]
pub enum LogArgument {
    LogStr(String),
    LogExp(DebugExpression),
}

/// An expression of the circuit language, names interned.
#[derive(Debug)]
pub enum DebugExpression {
    InfixOp {
        meta: Meta,
        lhe: Box<DebugExpression>,
        infix_op: DebugExpressionInfixOpcode,
        rhe: Box<DebugExpression>,
    },
    PrefixOp { meta: Meta, prefix_op: DebugExpressionPrefixOpcode, rhe: Box<DebugExpression> },
    InlineSwitchOp {
        meta: Meta,
        cond: Box<DebugExpression>,
        if_true: Box<DebugExpression>,
        if_false: Box<DebugExpression>,
    },
    ParallelOp { meta: Meta, rhe: Box<DebugExpression> },
    Variable { meta: Meta, name: usize, access: Vec<DebugAccess> },
    Number(Meta, BigNum),
    Call { meta: Meta, id: usize, args: Vec<DebugExpression> },
    BusCall { meta: Meta, id: usize, args: Vec<DebugExpression> },
    AnonymousComp {
        meta: Meta,
        id: usize,
        is_parallel: bool,
        params: Vec<DebugExpression>,
        signals: Vec<DebugExpression>,
        names: Option<Vec<(AssignOp, String)>>,
    },
    ArrayInLine { meta: Meta, values: Vec<DebugExpression> },
    Tuple { meta: Meta, values: Vec<DebugExpression> },
    UniformArray { meta: Meta, value: Box<DebugExpression>, dimension: Box<DebugExpression> },
}

/// A statement of the circuit language, names interned; `Ret` closes a body.
#[derive(Debug)]
pub enum DebugStatement {
    IfThenElse {
        meta: Meta,
        cond: DebugExpression,
        if_case: Box<DebugStatement>,
        else_case: Option<Box<DebugStatement>>,
    },
    While { meta: Meta, cond: DebugExpression, stmt: Box<DebugStatement> },
    Return { meta: Meta, value: DebugExpression },
    InitializationBlock {
        meta: Meta,
        xtype: VariableType,
        initializations: Vec<DebugStatement>,
    },
    Declaration {
        meta: Meta,
        xtype: VariableType,
        name: usize,
        dimensions: Vec<DebugExpression>,
        is_constant: bool,
    },
    Substitution {
        meta: Meta,
        var: usize,
        access: Vec<DebugAccess>,
        op: DebugAssignOp,
        rhe: DebugExpression,
    },
    MultSubstitution { meta: Meta, lhe: DebugExpression, op: DebugAssignOp, rhe: DebugExpression },
    UnderscoreSubstitution { meta: Meta, op: DebugAssignOp, rhe: DebugExpression },
    ConstraintEquality { meta: Meta, lhe: DebugExpression, rhe: DebugExpression },
    LogCall { meta: Meta, args: Vec<LogArgument> },
    Block { meta: Meta, stmts: Vec<DebugStatement> },
    Assert { meta: Meta, arg: DebugExpression },
    Ret,
}

impl VariableType {
    /// A copy of the kind, of the same variant.
    pub fn duplicate(&self) -> (r: VariableType)
        ensures
            (r is Var) == (self is Var),
            (r is Signal) == (self is Signal),
            (r is Component) == (self is Component),
            (r is AnonymousComponent) == (self is AnonymousComponent),
            (r is Bus) == (self is Bus),
    {
        match self {
            VariableType::Var => VariableType::Var,
            VariableType::Signal(t, d) => VariableType::Signal(*t, d.clone()),
            VariableType::Component => VariableType::Component,
            VariableType::AnonymousComponent => VariableType::AnonymousComponent,
            VariableType::Bus(n, t, d) => VariableType::Bus(n.clone(), *t, d.clone()),
        }
    }

    /// Whether the name is a plain variable (not a signal, component or bus).
    pub fn is_var(&self) -> (r: bool)
        ensures
            r == (self is Var),
    {
        match self {
            VariableType::Var => true,
            _ => false,
        }
    }

    /// Whether the name is an input signal.
    pub fn is_input_signal(&self) -> (r: bool)
        ensures
            r == (self matches VariableType::Signal(SignalType::Input, _)),
    {
        match self {
            VariableType::Signal(SignalType::Input, _) => true,
            _ => false,
        }
    }

    /// Whether the name is an output signal.
    pub fn is_output_signal(&self) -> (r: bool)
        ensures
            r == (self matches VariableType::Signal(SignalType::Output, _)),
    {
        match self {
            VariableType::Signal(SignalType::Output, _) => true,
            _ => false,
        }
    }
}

} // verus!

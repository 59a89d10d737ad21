//! Symbolic values: constants, variables and the expressions built over them.
use crate::ast::{DebugExpressionInfixOpcode, DebugExpressionPrefixOpcode, ExpressionInfixOpcode, ExpressionPrefixOpcode};
use crate::bignum::BigNum;
use std::rc::Rc;
use vstd::prelude::*;
use vstd::std_specs::cmp::PartialEqSpecImpl;

verus! {

/// One step of an owner path: the name of a component or function instance and its counter.
#[derive(Clone, Copy, Debug, PartialEq, Eq, Structural)]
pub struct OwnerName {
    pub name: usize,
    pub counter: usize,
}

/// The access type within a symbolic expression, such as component or array access.
#[derive(Debug)]
pub enum SymbolicAccess {
    ComponentAccess(usize),
    ArrayAccess(SymbolicValue),
}

/// A fully qualified variable: its interned name, the path of owners, and the accesses applied.
#[derive(Debug)]
pub struct SymbolicName {
    pub name: usize,
    pub owner: Rc<Vec<OwnerName>>,
    pub access: Vec<SymbolicAccess>,
}

/// A symbolic value used in symbolic execution: a constant, a variable, or an operation.
#[derive(Debug)]
pub enum SymbolicValue {
    ConstantInt(BigNum),
    ConstantBool(bool),
    Variable(SymbolicName),
    BinaryOp(Rc<SymbolicValue>, DebugExpressionInfixOpcode, Rc<SymbolicValue>),
    Assign(Rc<SymbolicValue>, Rc<SymbolicValue>),
    Conditional(Rc<SymbolicValue>, Rc<SymbolicValue>, Rc<SymbolicValue>),
    UnaryOp(DebugExpressionPrefixOpcode, Rc<SymbolicValue>),
    Array(Vec<Rc<SymbolicValue>>),
    Tuple(Vec<Rc<SymbolicValue>>),
    UniformArray(Rc<SymbolicValue>, Rc<SymbolicValue>),
    Call(usize, Vec<Rc<SymbolicValue>>),
}

/// The mathematical meaning of a `SymbolicValue`: integers are unbounded.
pub ghost enum SpecValue {
    Int(int),
    Bool(bool),
    Var(SpecName),
    BinaryOp(Box<SpecValue>, ExpressionInfixOpcode, Box<SpecValue>),
    Assign(Box<SpecValue>, Box<SpecValue>),
    Conditional(Box<SpecValue>, Box<SpecValue>, Box<SpecValue>),
    UnaryOp(ExpressionPrefixOpcode, Box<SpecValue>),
    Array(Seq<SpecValue>),
    Tuple(Seq<SpecValue>),
    UniformArray(Box<SpecValue>, Box<SpecValue>),
    Call(usize, Seq<SpecValue>),
}

/// The mathematical meaning of a `SymbolicName`.
pub ghost struct SpecName {
    pub name: usize,
    pub owner: Seq<OwnerName>,
    pub access: Seq<SpecAccess>,
}

/// The mathematical meaning of a `SymbolicAccess`.
pub ghost enum SpecAccess {
    Component(usize),
    Array(SpecValue),
}

/// The meaning of a symbolic value.
pub open spec fn value_view(v: &SymbolicValue) -> SpecValue
    decreases v,
{
    match v {
        SymbolicValue::ConstantInt(n) => SpecValue::Int(n@),
        SymbolicValue::ConstantBool(b) => SpecValue::Bool(*b),
        SymbolicValue::Variable(n) => SpecValue::Var(name_view(n)),
        SymbolicValue::BinaryOp(l, o, r) => SpecValue::BinaryOp(
            Box::new(value_view(l)),
            o.0,
            Box::new(value_view(r)),
        ),
        SymbolicValue::Assign(l, r) => SpecValue::Assign(
            Box::new(value_view(l)),
            Box::new(value_view(r)),
        ),
        SymbolicValue::Conditional(c, t, e) => SpecValue::Conditional(
            Box::new(value_view(c)),
            Box::new(value_view(t)),
            Box::new(value_view(e)),
        ),
        SymbolicValue::UnaryOp(o, e) => SpecValue::UnaryOp(o.0, Box::new(value_view(e))),
        SymbolicValue::Array(es) => SpecValue::Array(
            Seq::new(
                es@.len(),
                |i: int|
                    if 0 <= i < es@.len() {
                        value_view(&es@[i])
                    } else {
                        SpecValue::Bool(false)
                    },
            ),
        ),
        SymbolicValue::Tuple(es) => SpecValue::Tuple(
            Seq::new(
                es@.len(),
                |i: int|
                    if 0 <= i < es@.len() {
                        value_view(&es@[i])
                    } else {
                        SpecValue::Bool(false)
                    },
            ),
        ),
        SymbolicValue::UniformArray(e, c) => SpecValue::UniformArray(
            Box::new(value_view(e)),
            Box::new(value_view(c)),
        ),
        SymbolicValue::Call(f, es) => SpecValue::Call(
            *f,
            Seq::new(
                es@.len(),
                |i: int|
                    if 0 <= i < es@.len() {
                        value_view(&es@[i])
                    } else {
                        SpecValue::Bool(false)
                    },
            ),
        ),
    }
}

/// The meaning of a symbolic name.
pub open spec fn name_view(n: &SymbolicName) -> SpecName
    decreases n,
{
    SpecName {
        name: n.name,
        owner: n.owner@,
        access: Seq::new(
            n.access@.len(),
            |i: int|
                if 0 <= i < n.access@.len() {
                    access_view(&n.access@[i])
                } else {
                    SpecAccess::Component(0)
                },
        ),
    }
}

/// The meaning of an access step.
pub open spec fn access_view(a: &SymbolicAccess) -> SpecAccess
    decreases a,
{
    match a {
        SymbolicAccess::ComponentAccess(c) => SpecAccess::Component(*c),
        SymbolicAccess::ArrayAccess(v) => SpecAccess::Array(value_view(v)),
    }
}

/// The meanings of a sequence of shared values.
pub open spec fn values_view(es: Seq<Rc<SymbolicValue>>) -> Seq<SpecValue> {
    Seq::new(es.len(), |i: int| value_view(&es[i]))
}

impl View for SymbolicValue {
    type V = SpecValue;

    open spec fn view(&self) -> SpecValue {
        value_view(self)
    }
}

impl View for SymbolicName {
    type V = SpecName;

    open spec fn view(&self) -> SpecName {
        name_view(self)
    }
}

impl View for SymbolicAccess {
    type V = SpecAccess;

    open spec fn view(&self) -> SpecAccess {
        access_view(self)
    }
}

/// Whether two symbolic values mean the same.
pub fn value_eq(a: &SymbolicValue, b: &SymbolicValue) -> (r: bool)
    ensures
        r == (a@ == b@),
    decreases a,
{
    match (a, b) {
        (SymbolicValue::ConstantInt(x), SymbolicValue::ConstantInt(y)) => crate::bignum::big_eq(x, y),
        (SymbolicValue::ConstantBool(x), SymbolicValue::ConstantBool(y)) => *x == *y,
        (SymbolicValue::Variable(x), SymbolicValue::Variable(y)) => name_eq(x, y),
        (SymbolicValue::BinaryOp(l1, o1, r1), SymbolicValue::BinaryOp(l2, o2, r2)) => {
            o1.0 == o2.0 && value_eq(l1, l2) && value_eq(r1, r2)
        },
        (SymbolicValue::Assign(l1, r1), SymbolicValue::Assign(l2, r2)) => {
            value_eq(l1, l2) && value_eq(r1, r2)
        },
        (SymbolicValue::Conditional(c1, t1, e1), SymbolicValue::Conditional(c2, t2, e2)) => {
            value_eq(c1, c2) && value_eq(t1, t2) && value_eq(e1, e2)
        },
        (SymbolicValue::UnaryOp(o1, e1), SymbolicValue::UnaryOp(o2, e2)) => {
            o1.0 == o2.0 && value_eq(e1, e2)
        },
        (SymbolicValue::Array(x), SymbolicValue::Array(y)) => {
            let r = values_eq(x, y);
            proof {
                assert(values_view(x@) =~= a@->Array_0);
                assert(values_view(y@) =~= b@->Array_0);
            }
            r
        },
        (SymbolicValue::Tuple(x), SymbolicValue::Tuple(y)) => {
            let r = values_eq(x, y);
            proof {
                assert(values_view(x@) =~= a@->Tuple_0);
                assert(values_view(y@) =~= b@->Tuple_0);
            }
            r
        },
        (SymbolicValue::UniformArray(e1, c1), SymbolicValue::UniformArray(e2, c2)) => {
            value_eq(e1, e2) && value_eq(c1, c2)
        },
        (SymbolicValue::Call(f1, x), SymbolicValue::Call(f2, y)) => {
            let r = values_eq(x, y);
            proof {
                assert(values_view(x@) =~= a@->Call_1);
                assert(values_view(y@) =~= b@->Call_1);
            }
            *f1 == *f2 && r
        },
        _ => false,
    }
}

/// Whether two sequences of symbolic values mean the same, element by element.
pub fn values_eq(a: &Vec<Rc<SymbolicValue>>, b: &Vec<Rc<SymbolicValue>>) -> (r: bool)
    ensures
        r == (values_view(a@) == values_view(b@)),
    decreases a,
{
    if a.len() != b.len() {
        proof {
            assert(values_view(a@).len() != values_view(b@).len());
        }
        return false;
    }
    let mut i: usize = 0;
    while i < a.len()
        invariant
            i <= a.len(),
            a.len() == b.len(),
            forall|j: int| 0 <= j < i ==> value_view(&a@[j]) == value_view(&b@[j]),
        decreases a.len() - i,
    {
        proof {
            assert(decreases_to!(a => a@[i as int]));
        }
        if !value_eq(&a[i], &b[i]) {
            proof {
                assert(values_view(a@)[i as int] != values_view(b@)[i as int]);
            }
            return false;
        }
        i = i + 1;
    }
    proof {
        assert(values_view(a@) =~= values_view(b@));
    }
    true
}

/// Whether two names mean the same.
pub fn name_eq(a: &SymbolicName, b: &SymbolicName) -> (r: bool)
    ensures
        r == (a@ == b@),
    decreases a,
{
    if a.name != b.name {
        return false;
    }
    let oa: &Vec<OwnerName> = &a.owner;
    let ob: &Vec<OwnerName> = &b.owner;
    if oa.len() != ob.len() {
        proof {
            assert(a@.owner.len() != b@.owner.len());
        }
        return false;
    }
    let mut i: usize = 0;
    while i < oa.len()
        invariant
            i <= oa.len(),
            oa.len() == ob.len(),
            oa@ == a.owner@,
            ob@ == b.owner@,
            forall|j: int| 0 <= j < i ==> oa@[j] == ob@[j],
        decreases oa.len() - i,
    {
        if oa[i] != ob[i] {
            proof {
                assert(a@.owner[i as int] != b@.owner[i as int]);
            }
            return false;
        }
        i = i + 1;
    }
    proof {
        assert(a@.owner =~= b@.owner);
    }
    if a.access.len() != b.access.len() {
        proof {
            assert(a@.access.len() != b@.access.len());
        }
        return false;
    }
    let mut k: usize = 0;
    while k < a.access.len()
        invariant
            k <= a.access.len(),
            a.access.len() == b.access.len(),
            forall|j: int| 0 <= j < k ==> access_view(&a.access@[j]) == access_view(&b.access@[j]),
        decreases a.access.len() - k,
    {
        proof {
            assert(decreases_to!(a => a.access@[k as int]));
        }
        if !access_eq(&a.access[k], &b.access[k]) {
            proof {
                assert(a@.access[k as int] != b@.access[k as int]);
            }
            return false;
        }
        k = k + 1;
    }
    proof {
        assert(a@.access =~= b@.access);
    }
    true
}

/// Whether two accesses mean the same.
pub fn access_eq(a: &SymbolicAccess, b: &SymbolicAccess) -> (r: bool)
    ensures
        r == (a@ == b@),
    decreases a,
{
    match (a, b) {
        (SymbolicAccess::ComponentAccess(x), SymbolicAccess::ComponentAccess(y)) => *x == *y,
        (SymbolicAccess::ArrayAccess(x), SymbolicAccess::ArrayAccess(y)) => value_eq(x, y),
        _ => false,
    }
}

/// A copy of a sequence of shared values (the values themselves are shared, not copied).
pub fn values_copy(a: &Vec<Rc<SymbolicValue>>) -> (r: Vec<Rc<SymbolicValue>>)
    ensures
        values_view(r@) == values_view(a@),
        r@.len() == a@.len(),
{
    let mut out: Vec<Rc<SymbolicValue>> = Vec::new();
    let mut i: usize = 0;
    while i < a.len()
        invariant
            i <= a.len(),
            out@.len() == i,
            forall|j: int| 0 <= j < i ==> value_view(&out@[j]) == value_view(&a@[j]),
        decreases a.len() - i,
    {
        out.push(a[i].clone());
        i = i + 1;
    }
    proof {
        assert(values_view(out@) =~= values_view(a@));
    }
    out
}

impl SymbolicValue {
    /// A copy of the value.
    pub fn copy(&self) -> (r: SymbolicValue)
        ensures
            r@ == self@,
        decreases self,
    {
        match self {
            SymbolicValue::ConstantInt(n) => SymbolicValue::ConstantInt(n.copy()),
            SymbolicValue::ConstantBool(b) => SymbolicValue::ConstantBool(*b),
            SymbolicValue::Variable(n) => SymbolicValue::Variable(n.copy()),
            SymbolicValue::BinaryOp(l, o, r) => SymbolicValue::BinaryOp(l.clone(), *o, r.clone()),
            SymbolicValue::Assign(l, r) => SymbolicValue::Assign(l.clone(), r.clone()),
            SymbolicValue::Conditional(c, t, e) => SymbolicValue::Conditional(
                c.clone(),
                t.clone(),
                e.clone(),
            ),
            SymbolicValue::UnaryOp(o, e) => SymbolicValue::UnaryOp(*o, e.clone()),
            SymbolicValue::Array(es) => {
                let c = values_copy(es);
                proof {
                    assert(values_view(c@) =~= SymbolicValue::Array(c)@->Array_0);
                    assert(values_view(es@) =~= self@->Array_0);
                }
                let r = SymbolicValue::Array(c);
                r
            },
            SymbolicValue::Tuple(es) => {
                let c = values_copy(es);
                proof {
                    assert(values_view(c@) =~= SymbolicValue::Tuple(c)@->Tuple_0);
                    assert(values_view(es@) =~= self@->Tuple_0);
                }
                let r = SymbolicValue::Tuple(c);
                r
            },
            SymbolicValue::UniformArray(e, c) => SymbolicValue::UniformArray(e.clone(), c.clone()),
            SymbolicValue::Call(f, es) => {
                let c = values_copy(es);
                proof {
                    assert(values_view(c@) =~= SymbolicValue::Call(*f, c)@->Call_1);
                    assert(values_view(es@) =~= self@->Call_1);
                }
                let r = SymbolicValue::Call(*f, c);
                r
            },
        }
    }
}

impl SymbolicName {
    /// A copy of the name (the owner path is shared).
    pub fn copy(&self) -> (r: SymbolicName)
        ensures
            r@ == self@,
        decreases self,
    {
        let mut acc: Vec<SymbolicAccess> = Vec::new();
        let mut i: usize = 0;
        while i < self.access.len()
            invariant
                i <= self.access.len(),
                acc@.len() == i,
                forall|j: int| 0 <= j < i ==> access_view(&acc@[j]) == access_view(&self.access@[j]),
            decreases self.access.len() - i,
        {
            proof {
                assert(decreases_to!(self => self.access@[i as int]));
            }
            acc.push(self.access[i].copy());
            i = i + 1;
        }
        let r = SymbolicName { name: self.name, owner: self.owner.clone(), access: acc };
        proof {
            assert(r@.access =~= self@.access);
        }
        r
    }
}

impl SymbolicAccess {
    /// A copy of the access.
    pub fn copy(&self) -> (r: SymbolicAccess)
        ensures
            r@ == self@,
        decreases self,
    {
        match self {
            SymbolicAccess::ComponentAccess(c) => SymbolicAccess::ComponentAccess(*c),
            SymbolicAccess::ArrayAccess(v) => SymbolicAccess::ArrayAccess(v.copy()),
        }
    }
}

impl PartialEq for SymbolicValue {
    fn eq(&self, other: &Self) -> (r: bool) {
        value_eq(self, other)
    }
}

impl PartialEqSpecImpl for SymbolicValue {
    open spec fn obeys_eq_spec() -> bool {
        true
    }

    open spec fn eq_spec(&self, other: &SymbolicValue) -> bool {
        self@ == other@
    }
}

} // verus!

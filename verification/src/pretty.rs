//! Text renderings of the program's syntax: the indented, colored trees that the executor
//! prints when it traces, and the one-line form of an access step.
use crate::ast::{
    AssignOp, DebugAccess, DebugAssignOp, DebugExpression, DebugExpressionInfixOpcode,
    DebugExpressionPrefixOpcode, DebugSignalType, DebugStatement, DebugVariableType,
    ExpressionInfixOpcode, ExpressionPrefixOpcode, SignalType, VariableType,
};
use crate::bignum::{big_to_decimal, BigNum};
use crate::lookup::colors_enabled;
use vstd::prelude::*;

verus! {

/// The text of a decimal digit.
pub open spec fn digit(d: int) -> Seq<char> {
    if d == 0 {
        "0"@
    } else if d == 1 {
        "1"@
    } else if d == 2 {
        "2"@
    } else if d == 3 {
        "3"@
    } else if d == 4 {
        "4"@
    } else if d == 5 {
        "5"@
    } else if d == 6 {
        "6"@
    } else if d == 7 {
        "7"@
    } else if d == 8 {
        "8"@
    } else {
        "9"@
    }
}

/// The decimal text of a natural number, without leading zeros.
pub open spec fn decimal(n: nat) -> Seq<char>
    decreases n,
{
    if n < 10 {
        digit(n as int)
    } else {
        decimal(n / 10) + digit((n % 10) as int)
    }
}

/// The decimal text of an integer, with a leading `-` where it is negative.
pub open spec fn int_text(x: int) -> Seq<char> {
    if x < 0 {
        "-"@ + decimal((-x) as nat)
    } else {
        decimal(x as nat)
    }
}

/// `true` or `false`.
pub open spec fn bool_text(b: bool) -> Seq<char> {
    if b {
        "true"@
    } else {
        "false"@
    }
}

/// `n` levels of indentation, two spaces each.
pub open spec fn indentation(n: nat) -> Seq<char>
    decreases n,
{
    if n == 0 {
        Seq::empty()
    } else {
        indentation((n - 1) as nat) + "  "@
    }
}

fn digit_str(d: usize) -> (r: &'static str)
    requires
        d < 10,
    ensures
        r@ == digit(d as int),
{
    match d {
        0 => "0",
        1 => "1",
        2 => "2",
        3 => "3",
        4 => "4",
        5 => "5",
        6 => "6",
        7 => "7",
        8 => "8",
        _ => "9",
    }
}

/// The decimal text of `n`.
pub fn usize_text(n: usize) -> (r: String)
    ensures
        r@ == decimal(n as nat),
    decreases n,
{
    if n < 10 {
        String::from_str(digit_str(n))
    } else {
        let mut s = usize_text(n / 10);
        s.append(digit_str(n % 10));
        s
    }
}

/// The decimal text of `x`, with a leading `-` where it is negative.
pub fn bignum_text(x: &BigNum) -> (r: String)
    ensures
        r@ == int_text(x@),
{
    big_to_decimal(x)
}

/// `true` or `false`.
pub fn bool_str(b: bool) -> (r: &'static str)
    ensures
        r@ == bool_text(b),
{
    if b {
        "true"
    } else {
        "false"
    }
}

/// `n` levels of indentation, two spaces each.
pub fn indentation_text(n: usize) -> (r: String)
    ensures
        r@ == indentation(n as nat),
{
    let mut s = String::new();
    let mut i: usize = 0;
    while i < n
        invariant
            i <= n,
            s@ == indentation(i as nat),
        decreases n - i,
    {
        s.append("  ");
        i = i + 1;
    }
    s
}

/// The name under which a binary operator is shown.
pub open spec fn infix_name(op: ExpressionInfixOpcode) -> Seq<char> {
    match op {
        ExpressionInfixOpcode::Mul => "Mul"@,
        ExpressionInfixOpcode::Div => "Div"@,
        ExpressionInfixOpcode::Add => "Add"@,
        ExpressionInfixOpcode::Sub => "Sub"@,
        ExpressionInfixOpcode::Pow => "Pow"@,
        ExpressionInfixOpcode::IntDiv => "IntDiv"@,
        ExpressionInfixOpcode::Mod => "Mod"@,
        ExpressionInfixOpcode::ShiftL => "ShL"@,
        ExpressionInfixOpcode::ShiftR => "ShR"@,
        ExpressionInfixOpcode::LesserEq => "LEq"@,
        ExpressionInfixOpcode::GreaterEq => "GEq"@,
        ExpressionInfixOpcode::Lesser => "Lt"@,
        ExpressionInfixOpcode::Greater => "Gt"@,
        ExpressionInfixOpcode::Eq => "Eq"@,
        ExpressionInfixOpcode::NotEq => "NEq"@,
        ExpressionInfixOpcode::BoolOr => "BoolOr"@,
        ExpressionInfixOpcode::BoolAnd => "BoolAnd"@,
        ExpressionInfixOpcode::BitOr => "BitOr"@,
        ExpressionInfixOpcode::BitAnd => "BitAnd"@,
        ExpressionInfixOpcode::BitXor => "BitXor"@,
    }
}

/// The name under which a unary operator is shown.
pub open spec fn prefix_name(op: ExpressionPrefixOpcode) -> Seq<char> {
    match op {
        ExpressionPrefixOpcode::Sub => "Minus"@,
        ExpressionPrefixOpcode::BoolNot => "BoolNot"@,
        ExpressionPrefixOpcode::Complement => "Complement"@,
    }
}

/// The name under which an assignment operator is shown.
pub open spec fn assign_name(op: AssignOp) -> Seq<char> {
    match op {
        AssignOp::AssignVar => "AssignVar"@,
        AssignOp::AssignSignal => "AssignSignal"@,
        AssignOp::AssignConstraintSignal => "AssignConstraintSignal"@,
    }
}

/// The name under which a signal role is shown.
pub open spec fn signal_name(t: SignalType) -> Seq<char> {
    match t {
        SignalType::Output => "Output"@,
        SignalType::Input => "Input"@,
        SignalType::Intermediate => "Intermediate"@,
    }
}

impl DebugExpressionInfixOpcode {
    /// The name under which the operator is shown.
    pub fn fmt(&self) -> (r: &'static str)
        ensures
            r@ == infix_name(self.0),
    {
        match self.0 {
            ExpressionInfixOpcode::Mul => "Mul",
            ExpressionInfixOpcode::Div => "Div",
            ExpressionInfixOpcode::Add => "Add",
            ExpressionInfixOpcode::Sub => "Sub",
            ExpressionInfixOpcode::Pow => "Pow",
            ExpressionInfixOpcode::IntDiv => "IntDiv",
            ExpressionInfixOpcode::Mod => "Mod",
            ExpressionInfixOpcode::ShiftL => "ShL",
            ExpressionInfixOpcode::ShiftR => "ShR",
            ExpressionInfixOpcode::LesserEq => "LEq",
            ExpressionInfixOpcode::GreaterEq => "GEq",
            ExpressionInfixOpcode::Lesser => "Lt",
            ExpressionInfixOpcode::Greater => "Gt",
            ExpressionInfixOpcode::Eq => "Eq",
            ExpressionInfixOpcode::NotEq => "NEq",
            ExpressionInfixOpcode::BoolOr => "BoolOr",
            ExpressionInfixOpcode::BoolAnd => "BoolAnd",
            ExpressionInfixOpcode::BitOr => "BitOr",
            ExpressionInfixOpcode::BitAnd => "BitAnd",
            ExpressionInfixOpcode::BitXor => "BitXor",
        }
    }
}

impl DebugExpressionPrefixOpcode {
    /// The name under which the operator is shown.
    pub fn fmt(&self) -> (r: &'static str)
        ensures
            r@ == prefix_name(self.0),
    {
        match self.0 {
            ExpressionPrefixOpcode::Sub => "Minus",
            ExpressionPrefixOpcode::BoolNot => "BoolNot",
            ExpressionPrefixOpcode::Complement => "Complement",
        }
    }
}

impl DebugAssignOp {
    /// The name under which the operator is shown.
    pub fn fmt(&self) -> (r: &'static str)
        ensures
            r@ == assign_name(self.0),
    {
        match self.0 {
            AssignOp::AssignVar => "AssignVar",
            AssignOp::AssignSignal => "AssignSignal",
            AssignOp::AssignConstraintSignal => "AssignConstraintSignal",
        }
    }
}

impl DebugSignalType {
    /// The name under which the role is shown.
    pub fn fmt(&self) -> (r: &'static str)
        ensures
            r@ == signal_name(self.0),
    {
        match self.0 {
            SignalType::Output => "Output",
            SignalType::Input => "Input",
            SignalType::Intermediate => "Intermediate",
        }
    }
}

/// Text in a terminal color, the color reset after it, where colors are on; the text alone
/// where they are off.
pub open spec fn paint(colors: bool, color: Seq<char>, text: Seq<char>) -> Seq<char> {
    if colors {
        color + text + "\x1b[0m"@
    } else {
        text
    }
}

/// The terminal color blue.
pub open spec fn blue() -> Seq<char> {
    "\x1b[34m"@
}

/// The terminal color green.
pub open spec fn green() -> Seq<char> {
    "\x1b[32m"@
}

/// The terminal color yellow.
pub open spec fn yellow() -> Seq<char> {
    "\x1b[33m"@
}

/// The terminal color cyan.
pub open spec fn cyan() -> Seq<char> {
    "\x1b[36m"@
}

/// The terminal color magenta.
pub open spec fn magenta() -> Seq<char> {
    "\x1b[35m"@
}

/// The terminal color red.
pub open spec fn red() -> Seq<char> {
    "\x1b[31m"@
}

/// The indentation of the parts of an element indented by `ind`: two levels deeper.
pub open spec fn deeper(ind: Seq<char>) -> Seq<char> {
    ind + "    "@
}

/// The tree of an expression, each line starting with `ind`.
pub open spec fn pretty_expr(colors: bool, e: DebugExpression, ind: Seq<char>) -> Seq<char>
    decreases e,
{
    let d = deeper(ind);
    match e {
        DebugExpression::Number(_, v) => ind + paint(colors, blue(), "Number:"@) + " "@ + int_text(v@) + "\n"@,
        DebugExpression::InfixOp { lhe, infix_op, rhe, .. } =>
            ind + paint(colors, green(), "InfixOp:"@) + "\n"@
            + ind + "  "@ + paint(colors, cyan(), "Operator:"@) + " "@ + infix_name(infix_op.0) + "\n"@
            + ind + "  "@ + paint(colors, yellow(), "Left-Hand Expression:"@) + "\n"@
            + pretty_expr(colors, *lhe, d)
            + ind + "  "@ + paint(colors, yellow(), "Right-Hand Expression:"@) + "\n"@
            + pretty_expr(colors, *rhe, d),
        DebugExpression::PrefixOp { prefix_op, rhe, .. } =>
            ind + paint(colors, green(), "PrefixOp:"@) + "\n"@
            + ind + "  "@ + paint(colors, cyan(), "Operator:"@) + " "@ + prefix_name(prefix_op.0) + "\n"@
            + ind + "  "@ + paint(colors, yellow(), "Right-Hand Expression:"@) + "\n"@
            + pretty_expr(colors, *rhe, d),
        DebugExpression::ParallelOp { rhe, .. } =>
            ind + "ParallelOp\n"@
            + ind + "  "@ + paint(colors, yellow(), "Right-Hand Expression:"@) + "\n"@
            + pretty_expr(colors, *rhe, d),
        DebugExpression::Variable { name, access, .. } =>
            ind + paint(colors, blue(), "Variable:"@) + "\n"@
            + ind + "  Name: "@ + decimal(name as nat) + "\n"@
            + ind + "  Access:\n"@
            + pretty_accesses(colors, access@, d),
        DebugExpression::InlineSwitchOp { if_true, if_false, .. } =>
            ind + "InlineSwitchOp:\n"@
            + ind + "  if_true:\n"@ + pretty_expr(colors, *if_true, d)
            + ind + "  if_false:\n"@ + pretty_expr(colors, *if_false, d),
        DebugExpression::Call { id, args, .. } =>
            ind + "Call\n"@ + ind + "  id: "@ + decimal(id as nat) + "\n"@ + ind + "  args:\n"@ + pretty_exprs(colors, args@, d),
        DebugExpression::ArrayInLine { values, .. } =>
            ind + "ArrayInLine\n"@ + ind + "  values:\n"@ + pretty_exprs(colors, values@, d),
        DebugExpression::Tuple { values, .. } =>
            ind + "Tuple\n"@ + ind + "  values:\n"@ + pretty_exprs(colors, values@, d),
        DebugExpression::UniformArray { value, dimension, .. } =>
            ind + "UniformArray\n"@
            + ind + "  value:\n"@ + pretty_expr(colors, *value, d)
            + ind + "  dimension:\n"@ + pretty_expr(colors, *dimension, d),
        DebugExpression::BusCall { id, args, .. } =>
            ind + "BusCall\n"@ + decimal(id as nat) + "  id:\n"@ + ind + "  args:\n"@ + pretty_exprs(colors, args@, d),
        DebugExpression::AnonymousComp { id, is_parallel, params, signals, .. } =>
            ind + "AnonymousComp\n"@
            + ind + "  id: "@ + decimal(id as nat) + "\n"@
            + ind + "  is_parallel: "@ + bool_text(is_parallel) + "\n"@
            + ind + "  params:\n"@ + pretty_exprs(colors, params@, d)
            + ind + "  signals:\n"@ + pretty_exprs(colors, signals@, d),
    }
}

/// The trees of a list of expressions, one after another.
pub open spec fn pretty_exprs(colors: bool, es: Seq<DebugExpression>, ind: Seq<char>) -> Seq<char>
    decreases es,
{
    if es.len() == 0 {
        Seq::empty()
    } else {
        pretty_exprs(colors, es.drop_last(), ind) + pretty_expr(colors, es.last(), ind)
    }
}

/// The tree of an access step.
pub open spec fn pretty_access(colors: bool, a: DebugAccess, ind: Seq<char>) -> Seq<char>
    decreases a,
{
    match a {
        DebugAccess::ComponentAccess(name) => ind + "ComponentAccess\n"@ + ind + "  name: "@ + decimal(name as nat) + "\n"@,
        DebugAccess::ArrayAccess(expr) => ind + "ArrayAccess:\n"@ + pretty_expr(colors, expr, deeper(ind)),
    }
}

/// The trees of a list of access steps, one after another.
pub open spec fn pretty_accesses(colors: bool, acc: Seq<DebugAccess>, ind: Seq<char>) -> Seq<char>
    decreases acc,
{
    if acc.len() == 0 {
        Seq::empty()
    } else {
        pretty_accesses(colors, acc.drop_last(), ind) + pretty_access(colors, acc.last(), ind)
    }
}

/// Appends `color`, `text` and the color reset to `out`.
fn put_painted(colors: bool, out: &mut String, color: &str, text: &str)
    ensures
        final(out)@ == old(out)@ + paint(colors, color@, text@),
{
    if colors {
        out.append(color);
        out.append(text);
        out.append("\x1b[0m");
        proof {
            assert(out@ =~= old(out)@ + paint(colors, color@, text@));
        }
    } else {
        out.append(text);
    }
}

/// `ind` two levels deeper.
fn deeper_text(ind: &str) -> (r: String)
    ensures
        r@ == deeper(ind@),
{
    let mut d = String::from_str(ind);
    d.append("    ");
    d
}

/// The tree of `e`, each line starting with `ind`.
fn expr_text(colors: bool, e: &DebugExpression, ind: &str) -> (r: String)
    ensures
        r@ == pretty_expr(colors, *e, ind@),
    decreases e,
{
    let d = deeper_text(ind);
    let mut s = String::from_str(ind);
    match e {
        DebugExpression::Number(_, v) => {
            put_painted(colors, &mut s, "\x1b[34m", "Number:");
            s.append(" ");
            s.append(bignum_text(v).as_str());
            s.append("\n");
        },
        DebugExpression::InfixOp { lhe, infix_op, rhe, .. } => {
            put_painted(colors, &mut s, "\x1b[32m", "InfixOp:");
            s.append("\n");
            s.append(ind);
            s.append("  ");
            put_painted(colors, &mut s, "\x1b[36m", "Operator:");
            s.append(" ");
            s.append(infix_op.fmt());
            s.append("\n");
            s.append(ind);
            s.append("  ");
            put_painted(colors, &mut s, "\x1b[33m", "Left-Hand Expression:");
            s.append("\n");
            s.append(expr_text(colors, lhe, d.as_str()).as_str());
            s.append(ind);
            s.append("  ");
            put_painted(colors, &mut s, "\x1b[33m", "Right-Hand Expression:");
            s.append("\n");
            s.append(expr_text(colors, rhe, d.as_str()).as_str());
        },
        DebugExpression::PrefixOp { prefix_op, rhe, .. } => {
            put_painted(colors, &mut s, "\x1b[32m", "PrefixOp:");
            s.append("\n");
            s.append(ind);
            s.append("  ");
            put_painted(colors, &mut s, "\x1b[36m", "Operator:");
            s.append(" ");
            s.append(prefix_op.fmt());
            s.append("\n");
            s.append(ind);
            s.append("  ");
            put_painted(colors, &mut s, "\x1b[33m", "Right-Hand Expression:");
            s.append("\n");
            s.append(expr_text(colors, rhe, d.as_str()).as_str());
        },
        DebugExpression::ParallelOp { rhe, .. } => {
            s.append("ParallelOp\n");
            s.append(ind);
            s.append("  ");
            put_painted(colors, &mut s, "\x1b[33m", "Right-Hand Expression:");
            s.append("\n");
            s.append(expr_text(colors, rhe, d.as_str()).as_str());
        },
        DebugExpression::Variable { name, access, .. } => {
            put_painted(colors, &mut s, "\x1b[34m", "Variable:");
            s.append("\n");
            s.append(ind);
            s.append("  Name: ");
            s.append(usize_text(*name).as_str());
            s.append("\n");
            s.append(ind);
            s.append("  Access:\n");
            s.append(accesses_text(colors, access, d.as_str()).as_str());
        },
        DebugExpression::InlineSwitchOp { if_true, if_false, .. } => {
            s.append("InlineSwitchOp:\n");
            s.append(ind);
            s.append("  if_true:\n");
            s.append(expr_text(colors, if_true, d.as_str()).as_str());
            s.append(ind);
            s.append("  if_false:\n");
            s.append(expr_text(colors, if_false, d.as_str()).as_str());
        },
        DebugExpression::Call { id, args, .. } => {
            s.append("Call\n");
            s.append(ind);
            s.append("  id: ");
            s.append(usize_text(*id).as_str());
            s.append("\n");
            s.append(ind);
            s.append("  args:\n");
            s.append(exprs_text(colors, args, d.as_str()).as_str());
        },
        DebugExpression::ArrayInLine { values, .. } => {
            s.append("ArrayInLine\n");
            s.append(ind);
            s.append("  values:\n");
            s.append(exprs_text(colors, values, d.as_str()).as_str());
        },
        DebugExpression::Tuple { values, .. } => {
            s.append("Tuple\n");
            s.append(ind);
            s.append("  values:\n");
            s.append(exprs_text(colors, values, d.as_str()).as_str());
        },
        DebugExpression::UniformArray { value, dimension, .. } => {
            s.append("UniformArray\n");
            s.append(ind);
            s.append("  value:\n");
            s.append(expr_text(colors, value, d.as_str()).as_str());
            s.append(ind);
            s.append("  dimension:\n");
            s.append(expr_text(colors, dimension, d.as_str()).as_str());
        },
        DebugExpression::BusCall { id, args, .. } => {
            s.append("BusCall\n");
            s.append(usize_text(*id).as_str());
            s.append("  id:\n");
            s.append(ind);
            s.append("  args:\n");
            s.append(exprs_text(colors, args, d.as_str()).as_str());
        },
        DebugExpression::AnonymousComp { id, is_parallel, params, signals, .. } => {
            s.append("AnonymousComp\n");
            s.append(ind);
            s.append("  id: ");
            s.append(usize_text(*id).as_str());
            s.append("\n");
            s.append(ind);
            s.append("  is_parallel: ");
            s.append(bool_str(*is_parallel));
            s.append("\n");
            s.append(ind);
            s.append("  params:\n");
            s.append(exprs_text(colors, params, d.as_str()).as_str());
            s.append(ind);
            s.append("  signals:\n");
            s.append(exprs_text(colors, signals, d.as_str()).as_str());
        },
    }
    s
}

/// The trees of `es`, one after another.
fn exprs_text(colors: bool, es: &Vec<DebugExpression>, ind: &str) -> (r: String)
    ensures
        r@ == pretty_exprs(colors, es@, ind@),
    decreases es,
{
    let mut out = String::new();
    let mut i: usize = 0;
    proof {
        assert(es@.take(0) =~= Seq::<DebugExpression>::empty());
    }
    while i < es.len()
        invariant
            i <= es@.len(),
            out@ == pretty_exprs(colors, es@.take(i as int), ind@),
            forall|j: int| 0 <= j < es@.len() ==> decreases_to!(es => es@[j]),
        decreases es.len() - i,
    {
        proof {
            assert(es@.take(i + 1).drop_last() =~= es@.take(i as int));
            assert(es@.take(i + 1).last() == es@[i as int]);
        }
        out.append(expr_text(colors, &es[i], ind).as_str());
        i = i + 1;
    }
    proof {
        assert(es@.take(es@.len() as int) =~= es@);
    }
    out
}

/// The tree of `a`, each line starting with `ind`.
fn access_text(colors: bool, a: &DebugAccess, ind: &str) -> (r: String)
    ensures
        r@ == pretty_access(colors, *a, ind@),
    decreases a,
{
    let mut s = String::from_str(ind);
    match a {
        DebugAccess::ComponentAccess(name) => {
            s.append("ComponentAccess\n");
            s.append(ind);
            s.append("  name: ");
            s.append(usize_text(*name).as_str());
            s.append("\n");
        },
        DebugAccess::ArrayAccess(expr) => {
            s.append("ArrayAccess:\n");
            let d = deeper_text(ind);
            s.append(expr_text(colors, expr, d.as_str()).as_str());
        },
    }
    s
}

/// The trees of `acc`, one after another.
fn accesses_text(colors: bool, acc: &Vec<DebugAccess>, ind: &str) -> (r: String)
    ensures
        r@ == pretty_accesses(colors, acc@, ind@),
    decreases acc,
{
    let mut out = String::new();
    let mut i: usize = 0;
    proof {
        assert(acc@.take(0) =~= Seq::<DebugAccess>::empty());
    }
    while i < acc.len()
        invariant
            i <= acc@.len(),
            out@ == pretty_accesses(colors, acc@.take(i as int), ind@),
            forall|j: int| 0 <= j < acc@.len() ==> decreases_to!(acc => acc@[j]),
        decreases acc.len() - i,
    {
        proof {
            assert(acc@.take(i + 1).drop_last() =~= acc@.take(i as int));
            assert(acc@.take(i + 1).last() == acc@[i as int]);
        }
        out.append(access_text(colors, &acc[i], ind).as_str());
        i = i + 1;
    }
    proof {
        assert(acc@.take(acc@.len() as int) =~= acc@);
    }
    out
}

/// What `{:?}` shows of a list of strings.
pub uninterp spec fn debug_strings(items: Seq<Seq<char>>) -> Seq<char>;

/// `Debug` of `Vec<String>`, through `format!("{:?}", ..)`: the list in brackets, each
/// string quoted and escaped. The contract names the text and says no more of it.
#[verifier::external_body]
fn strings_debug(items: &Vec<String>) -> (r: String)
    ensures
        r@ == debug_strings(items.deep_view()),
{
    format!("{:?}", items)
}

/// The text of a declared kind.
pub open spec fn vartype_text(t: VariableType) -> Seq<char> {
    match t {
        VariableType::Var => "Var"@,
        VariableType::Signal(st, tags) => "Signal: "@ + signal_name(st) + " "@ + debug_strings(tags.deep_view()),
        VariableType::Component => "Component"@,
        VariableType::AnonymousComponent => "AnonymousComponent"@,
        VariableType::Bus(name, st, tags) => "Bus: "@ + name@ + " "@ + signal_name(st) + " "@ + debug_strings(tags.deep_view()),
    }
}

impl DebugVariableType {
    /// The text of the declared kind.
    pub fn fmt(&self) -> (r: String)
        ensures
            r@ == vartype_text(self.0),
    {
        vartype_fmt(&self.0)
    }
}

/// The first line of a statement: its kind and the identifier of its syntax element.
pub open spec fn stmt_header(colors: bool, ind: Seq<char>, kind: Seq<char>, elem_id: usize) -> Seq<char> {
    ind + paint(colors, green(), kind) + " (elem_id="@ + decimal(elem_id as nat) + "):\n"@
}

/// The line that separates the statements of a block.
pub open spec fn block_rule(colors: bool, ind: Seq<char>) -> Seq<char> {
    ind + "    "@ + paint(colors, red(), "-------------------------------"@) + "\n"@
}

/// The tree of a statement, each line starting with `ind`.
pub open spec fn pretty_stmt(colors: bool, st: DebugStatement, ind: Seq<char>) -> Seq<char>
    decreases st,
{
    let d = deeper(ind);
    match st {
        DebugStatement::IfThenElse { meta, cond, if_case, else_case } =>
            stmt_header(colors, ind, "IfThenElse"@, meta.elem_id)
            + ind + "  "@ + paint(colors, cyan(), "Condition:"@) + ":\n"@ + pretty_expr(colors, cond, d)
            + ind + "  "@ + paint(colors, cyan(), "If Case:"@) + ":\n"@ + pretty_stmt(colors, *if_case, d)
            + match else_case {
                Some(e) => ind + "  "@ + paint(colors, cyan(), "Else Case:"@) + ":\n"@ + pretty_stmt(colors, *e, d),
                None => Seq::empty(),
            },
        DebugStatement::While { meta, cond, stmt } =>
            stmt_header(colors, ind, "While"@, meta.elem_id)
            + ind + "  "@ + paint(colors, cyan(), "Condition:"@) + ":\n"@ + pretty_expr(colors, cond, d)
            + ind + "  "@ + paint(colors, cyan(), "Statement:"@) + ":\n"@ + pretty_stmt(colors, *stmt, d),
        DebugStatement::Return { meta, value } =>
            stmt_header(colors, ind, "Return"@, meta.elem_id)
            + ind + "  "@ + paint(colors, magenta(), "Value:"@) + ":\n"@ + pretty_expr(colors, value, d),
        DebugStatement::InitializationBlock { meta, xtype, initializations } =>
            stmt_header(colors, ind, "InitializationBlock"@, meta.elem_id)
            + ind + "  "@ + paint(colors, cyan(), "Type:"@) + " "@ + vartype_text(xtype) + "\n"@
            + ind + "  "@ + paint(colors, yellow(), "Initializations:"@) + "\n"@
            + pretty_stmts(colors, initializations@, d),
        DebugStatement::Declaration { meta, xtype, name, dimensions, is_constant } =>
            stmt_header(colors, ind, "Declaration"@, meta.elem_id)
            + ind + "  "@ + paint(colors, cyan(), "Type:"@) + " "@ + vartype_text(xtype) + "\n"@
            + ind + "  "@ + paint(colors, magenta(), "Name:"@) + " "@ + decimal(name as nat) + "\n"@
            + ind + "  "@ + paint(colors, yellow(), "Dimensions:"@) + ":\n"@
            + pretty_exprs(colors, dimensions@, d)
            + ind + "  "@ + paint(colors, cyan(), "Is Constant:"@) + " "@ + bool_text(is_constant) + "\n"@,
        DebugStatement::Substitution { meta, var, access, op, rhe } =>
            stmt_header(colors, ind, "Substitution"@, meta.elem_id)
            + ind + "  "@ + paint(colors, blue(), "Variable:"@) + " "@ + decimal(var as nat) + "\n"@
            + ind + "  "@ + paint(colors, magenta(), "Access:"@) + "\n"@
            + pretty_accesses(colors, access@, d)
            + ind + "  "@ + paint(colors, cyan(), "Operation:"@) + " "@ + assign_name(op.0) + "\n"@
            + ind + "  "@ + paint(colors, yellow(), "Right-Hand Expression:"@) + ":\n"@ + pretty_expr(colors, rhe, d),
        DebugStatement::MultSubstitution { meta, lhe, op, rhe } =>
            stmt_header(colors, ind, "MultSubstitution"@, meta.elem_id)
            + ind + "  "@ + paint(colors, cyan(), "Op:"@) + " "@ + assign_name(op.0) + "\n"@
            + ind + "  "@ + paint(colors, yellow(), "Left-Hand Expression:"@) + ":\n"@ + pretty_expr(colors, lhe, d)
            + ind + "  "@ + paint(colors, yellow(), "Right-Hand Expression:"@) + ":\n"@ + pretty_expr(colors, rhe, d),
        DebugStatement::UnderscoreSubstitution { meta, op, rhe } =>
            stmt_header(colors, ind, "UnderscoreSubstitution"@, meta.elem_id)
            + ind + "  "@ + paint(colors, cyan(), "Op:"@) + " "@ + assign_name(op.0) + "\n"@
            + ind + "  "@ + paint(colors, yellow(), "Right-Hand Expression:"@) + ":\n"@ + pretty_expr(colors, rhe, d),
        DebugStatement::ConstraintEquality { meta, lhe, rhe } =>
            stmt_header(colors, ind, "ConstraintEquality"@, meta.elem_id)
            + ind + "  "@ + paint(colors, yellow(), "Left-Hand Expression:"@) + ":\n"@ + pretty_expr(colors, lhe, d)
            + ind + "  "@ + paint(colors, yellow(), "Right-Hand Expression:"@) + ":\n"@ + pretty_expr(colors, rhe, d),
        DebugStatement::LogCall { .. } => ind + paint(colors, green(), "LogCall"@) + "\n"@,
        DebugStatement::Block { meta, stmts } =>
            stmt_header(colors, ind, "Block"@, meta.elem_id) + block_rule(colors, ind) + pretty_block_items(colors, stmts@, ind),
        DebugStatement::Assert { meta, arg } =>
            stmt_header(colors, ind, "Assert"@, meta.elem_id)
            + ind + "  "@ + paint(colors, yellow(), "Argument:"@) + ":\n"@ + pretty_expr(colors, arg, d),
        DebugStatement::Ret => ind + paint(colors, blue(), "Ret"@) + "\n"@,
    }
}

/// The trees of a list of statements, one after another.
pub open spec fn pretty_stmts(colors: bool, ss: Seq<DebugStatement>, ind: Seq<char>) -> Seq<char>
    decreases ss,
{
    if ss.len() == 0 {
        Seq::empty()
    } else {
        pretty_stmts(colors, ss.drop_last(), ind) + pretty_stmt(colors, ss.last(), ind)
    }
}

/// The statements of a block indented by `ind`, each followed by the separating line.
pub open spec fn pretty_block_items(colors: bool, ss: Seq<DebugStatement>, ind: Seq<char>) -> Seq<char>
    decreases ss,
{
    if ss.len() == 0 {
        Seq::empty()
    } else {
        pretty_block_items(colors, ss.drop_last(), ind) + pretty_stmt(colors, ss.last(), deeper(ind)) + block_rule(colors, ind)
    }
}

impl DebugExpression {
    /// The tree of the expression, each line indented by `indent` levels, labels painted
    /// where the terminal takes colors.
    pub fn pretty_fmt(&self, indent: usize) -> (r: String)
        ensures
            r@ == pretty_expr(true, *self, indentation(indent as nat)) || r@ == pretty_expr(false, *self, indentation(indent as nat)),
    {
        let ind = indentation_text(indent);
        expr_text(colors_enabled(), self, ind.as_str())
    }
}

impl DebugAccess {
    /// The tree of the access step, each line indented by `indent` levels, labels painted
    /// where the terminal takes colors.
    pub fn pretty_fmt(&self, indent: usize) -> (r: String)
        ensures
            r@ == pretty_access(true, *self, indentation(indent as nat)) || r@ == pretty_access(false, *self, indentation(indent as nat)),
    {
        let ind = indentation_text(indent);
        access_text(colors_enabled(), self, ind.as_str())
    }
}

/// The first line of a statement.
fn header_text(colors: bool, ind: &str, kind: &str, elem_id: usize) -> (r: String)
    ensures
        r@ == stmt_header(colors, ind@, kind@, elem_id),
{
    let mut s = String::from_str(ind);
    put_painted(colors, &mut s, "\x1b[32m", kind);
    s.append(" (elem_id=");
    s.append(usize_text(elem_id).as_str());
    s.append("):\n");
    s
}

/// The line that separates the statements of a block.
fn rule_text(colors: bool, ind: &str) -> (r: String)
    ensures
        r@ == block_rule(colors, ind@),
{
    let mut s = String::from_str(ind);
    s.append("    ");
    put_painted(colors, &mut s, "\x1b[31m", "-------------------------------");
    s.append("\n");
    s
}

/// Appends `ind`, two spaces, a painted label and `after`.
fn put_label(colors: bool, s: &mut String, ind: &str, color: &str, label: &str, after: &str)
    ensures
        final(s)@ == old(s)@ + ind@ + "  "@ + paint(colors, color@, label@) + after@,
{
    s.append(ind);
    s.append("  ");
    put_painted(colors, s, color, label);
    s.append(after);
}

/// The tree of `st`, each line starting with `ind`.
#[verifier::spinoff_prover]
fn stmt_text(colors: bool, st: &DebugStatement, ind: &str) -> (r: String)
    ensures
        r@ == pretty_stmt(colors, *st, ind@),
    decreases st,
{
    let d = deeper_text(ind);
    match st {
        DebugStatement::IfThenElse { meta, cond, if_case, else_case } => {
            let mut s = header_text(colors, ind, "IfThenElse", meta.elem_id);
            put_label(colors, &mut s, ind, "\x1b[36m", "Condition:", ":\n");
            s.append(expr_text(colors, cond, d.as_str()).as_str());
            put_label(colors, &mut s, ind, "\x1b[36m", "If Case:", ":\n");
            s.append(stmt_text(colors, if_case, d.as_str()).as_str());
            let tail = match else_case {
                Some(e) => {
                    let mut t = String::new();
                    put_label(colors, &mut t, ind, "\x1b[36m", "Else Case:", ":\n");
                    t.append(stmt_text(colors, e, d.as_str()).as_str());
                    proof {
                        assert(t@ =~= ind@ + "  "@ + paint(colors, cyan(), "Else Case:"@) + ":\n"@ + pretty_stmt(colors, **e, d@));
                    }
                    t
                },
                None => String::new(),
            };
            s.append(tail.as_str());
            s
        },
        DebugStatement::While { meta, cond, stmt } => {
            let mut s = header_text(colors, ind, "While", meta.elem_id);
            put_label(colors, &mut s, ind, "\x1b[36m", "Condition:", ":\n");
            s.append(expr_text(colors, cond, d.as_str()).as_str());
            put_label(colors, &mut s, ind, "\x1b[36m", "Statement:", ":\n");
            s.append(stmt_text(colors, stmt, d.as_str()).as_str());
            s
        },
        DebugStatement::Return { meta, value } => {
            let mut s = header_text(colors, ind, "Return", meta.elem_id);
            put_label(colors, &mut s, ind, "\x1b[35m", "Value:", ":\n");
            s.append(expr_text(colors, value, d.as_str()).as_str());
            s
        },
        DebugStatement::InitializationBlock { meta, xtype, initializations } => {
            let mut s = header_text(colors, ind, "InitializationBlock", meta.elem_id);
            put_label(colors, &mut s, ind, "\x1b[36m", "Type:", " ");
            s.append(vartype_fmt(xtype).as_str());
            s.append("\n");
            put_label(colors, &mut s, ind, "\x1b[33m", "Initializations:", "\n");
            s.append(stmts_text(colors, initializations, d.as_str()).as_str());
            s
        },
        DebugStatement::Declaration { meta, xtype, name, dimensions, is_constant } => {
            let mut s = header_text(colors, ind, "Declaration", meta.elem_id);
            put_label(colors, &mut s, ind, "\x1b[36m", "Type:", " ");
            s.append(vartype_fmt(xtype).as_str());
            s.append("\n");
            put_label(colors, &mut s, ind, "\x1b[35m", "Name:", " ");
            s.append(usize_text(*name).as_str());
            s.append("\n");
            put_label(colors, &mut s, ind, "\x1b[33m", "Dimensions:", ":\n");
            s.append(exprs_text(colors, dimensions, d.as_str()).as_str());
            put_label(colors, &mut s, ind, "\x1b[36m", "Is Constant:", " ");
            s.append(bool_str(*is_constant));
            s.append("\n");
            s
        },
        DebugStatement::Substitution { meta, var, access, op, rhe } => {
            let mut s = header_text(colors, ind, "Substitution", meta.elem_id);
            put_label(colors, &mut s, ind, "\x1b[34m", "Variable:", " ");
            s.append(usize_text(*var).as_str());
            s.append("\n");
            put_label(colors, &mut s, ind, "\x1b[35m", "Access:", "\n");
            s.append(accesses_text(colors, access, d.as_str()).as_str());
            put_label(colors, &mut s, ind, "\x1b[36m", "Operation:", " ");
            s.append(op.fmt());
            s.append("\n");
            put_label(colors, &mut s, ind, "\x1b[33m", "Right-Hand Expression:", ":\n");
            s.append(expr_text(colors, rhe, d.as_str()).as_str());
            s
        },
        DebugStatement::MultSubstitution { meta, lhe, op, rhe } => {
            let mut s = header_text(colors, ind, "MultSubstitution", meta.elem_id);
            put_label(colors, &mut s, ind, "\x1b[36m", "Op:", " ");
            s.append(op.fmt());
            s.append("\n");
            put_label(colors, &mut s, ind, "\x1b[33m", "Left-Hand Expression:", ":\n");
            s.append(expr_text(colors, lhe, d.as_str()).as_str());
            put_label(colors, &mut s, ind, "\x1b[33m", "Right-Hand Expression:", ":\n");
            s.append(expr_text(colors, rhe, d.as_str()).as_str());
            s
        },
        DebugStatement::UnderscoreSubstitution { meta, op, rhe } => {
            let mut s = header_text(colors, ind, "UnderscoreSubstitution", meta.elem_id);
            put_label(colors, &mut s, ind, "\x1b[36m", "Op:", " ");
            s.append(op.fmt());
            s.append("\n");
            put_label(colors, &mut s, ind, "\x1b[33m", "Right-Hand Expression:", ":\n");
            s.append(expr_text(colors, rhe, d.as_str()).as_str());
            s
        },
        DebugStatement::ConstraintEquality { meta, lhe, rhe } => {
            let mut s = header_text(colors, ind, "ConstraintEquality", meta.elem_id);
            put_label(colors, &mut s, ind, "\x1b[33m", "Left-Hand Expression:", ":\n");
            s.append(expr_text(colors, lhe, d.as_str()).as_str());
            put_label(colors, &mut s, ind, "\x1b[33m", "Right-Hand Expression:", ":\n");
            s.append(expr_text(colors, rhe, d.as_str()).as_str());
            s
        },
        DebugStatement::LogCall { .. } => {
            let mut s = String::from_str(ind);
            put_painted(colors, &mut s, "\x1b[32m", "LogCall");
            s.append("\n");
            s
        },
        DebugStatement::Block { meta, stmts } => {
            let mut s = header_text(colors, ind, "Block", meta.elem_id);
            s.append(rule_text(colors, ind).as_str());
            s.append(block_items_text(colors, stmts, ind).as_str());
            s
        },
        DebugStatement::Assert { meta, arg } => {
            let mut s = header_text(colors, ind, "Assert", meta.elem_id);
            put_label(colors, &mut s, ind, "\x1b[33m", "Argument:", ":\n");
            s.append(expr_text(colors, arg, d.as_str()).as_str());
            s
        },
        DebugStatement::Ret => {
            let mut s = String::from_str(ind);
            put_painted(colors, &mut s, "\x1b[34m", "Ret");
            s.append("\n");
            s
        },
    }
}

/// The text of a declared kind.
fn vartype_fmt(t: &VariableType) -> (r: String)
    ensures
        r@ == vartype_text(*t),
{
    match t {
        VariableType::Var => String::from_str("Var"),
        VariableType::Signal(st, tags) => {
            let mut s = String::from_str("Signal: ");
            s.append(DebugSignalType(*st).fmt());
            s.append(" ");
            s.append(strings_debug(tags).as_str());
            s
        },
        VariableType::Component => String::from_str("Component"),
        VariableType::AnonymousComponent => String::from_str("AnonymousComponent"),
        VariableType::Bus(name, st, tags) => {
            let mut s = String::from_str("Bus: ");
            s.append(name.as_str());
            s.append(" ");
            s.append(DebugSignalType(*st).fmt());
            s.append(" ");
            s.append(strings_debug(tags).as_str());
            s
        },
    }
}

/// The trees of `ss`, one after another.
fn stmts_text(colors: bool, ss: &Vec<DebugStatement>, ind: &str) -> (r: String)
    ensures
        r@ == pretty_stmts(colors, ss@, ind@),
    decreases ss,
{
    let mut out = String::new();
    let mut i: usize = 0;
    proof {
        assert(ss@.take(0) =~= Seq::<DebugStatement>::empty());
    }
    while i < ss.len()
        invariant
            i <= ss@.len(),
            out@ == pretty_stmts(colors, ss@.take(i as int), ind@),
            forall|j: int| 0 <= j < ss@.len() ==> decreases_to!(ss => ss@[j]),
        decreases ss.len() - i,
    {
        proof {
            assert(ss@.take(i + 1).drop_last() =~= ss@.take(i as int));
            assert(ss@.take(i + 1).last() == ss@[i as int]);
        }
        out.append(stmt_text(colors, &ss[i], ind).as_str());
        i = i + 1;
    }
    proof {
        assert(ss@.take(ss@.len() as int) =~= ss@);
    }
    out
}

/// The statements of a block indented by `ind`, each followed by the separating line.
fn block_items_text(colors: bool, ss: &Vec<DebugStatement>, ind: &str) -> (r: String)
    ensures
        r@ == pretty_block_items(colors, ss@, ind@),
    decreases ss,
{
    let d = deeper_text(ind);
    let mut out = String::new();
    let mut i: usize = 0;
    proof {
        assert(ss@.take(0) =~= Seq::<DebugStatement>::empty());
    }
    while i < ss.len()
        invariant
            i <= ss@.len(),
            d@ == deeper(ind@),
            out@ == pretty_block_items(colors, ss@.take(i as int), ind@),
            forall|j: int| 0 <= j < ss@.len() ==> decreases_to!(ss => ss@[j]),
        decreases ss.len() - i,
    {
        proof {
            assert(ss@.take(i + 1).drop_last() =~= ss@.take(i as int));
            assert(ss@.take(i + 1).last() == ss@[i as int]);
        }
        out.append(stmt_text(colors, &ss[i], d.as_str()).as_str());
        out.append(rule_text(colors, ind).as_str());
        i = i + 1;
    }
    proof {
        assert(ss@.take(ss@.len() as int) =~= ss@);
    }
    out
}

impl DebugStatement {
    /// The tree of the statement, each line indented by `indent` levels, labels painted
    /// where the terminal takes colors.
    pub fn pretty_fmt(&self, indent: usize) -> (r: String)
        ensures
            r@ == pretty_stmt(true, *self, indentation(indent as nat)) || r@ == pretty_stmt(false, *self, indentation(indent as nat)),
    {
        let ind = indentation_text(indent);
        stmt_text(colors_enabled(), self, ind.as_str())
    }
}

/// The text without its line breaks.
pub open spec fn without_newlines(s: Seq<char>) -> Seq<char>
    decreases s.len(),
{
    if s.len() == 0 {
        s
    } else if s.last() == '\n' {
        without_newlines(s.drop_last())
    } else {
        without_newlines(s.drop_last()).push(s.last())
    }
}

/// The text with each pair of spaces, read from the left and without overlap, made one.
pub open spec fn squeeze_spaces(s: Seq<char>) -> Seq<char>
    decreases s.len(),
{
    if s.len() < 2 {
        s
    } else if s[0] == ' ' && s[1] == ' ' {
        seq![' '] + squeeze_spaces(s.skip(2))
    } else {
        seq![s[0]] + squeeze_spaces(s.skip(1))
    }
}

/// The one-line form of an access step: `.name` for a component access, and for an array
/// access the tree of its index on one line, in brackets.
pub open spec fn compact_access(colors: bool, a: DebugAccess) -> Seq<char> {
    match a {
        DebugAccess::ComponentAccess(name) => "."@ + decimal(name as nat),
        DebugAccess::ArrayAccess(expr) => "["@ + squeeze_spaces(without_newlines(pretty_expr(colors, expr, Seq::empty()))) + "]"@,
    }
}

/// `s` without its line breaks.
pub fn remove_newlines(s: &str) -> (r: String)
    ensures
        r@ == without_newlines(s@),
{
    let n = s.unicode_len();
    let mut out = String::new();
    let mut i: usize = 0;
    proof {
        assert(s@.take(0) =~= Seq::<char>::empty());
    }
    while i < n
        invariant
            i <= n,
            n == s@.len(),
            out@ == without_newlines(s@.take(i as int)),
        decreases n - i,
    {
        let c = s.get_char(i);
        proof {
            assert(s@.take(i + 1).drop_last() =~= s@.take(i as int));
            assert(s@.take(i + 1).last() == c);
        }
        if c != '\n' {
            let one = s.substring_char(i, i + 1);
            out.append(one);
            proof {
                assert(one@ =~= seq![c]);
                assert(out@ =~= without_newlines(s@.take(i as int)).push(c));
            }
        }
        i = i + 1;
    }
    proof {
        assert(s@.take(n as int) =~= s@);
    }
    out
}

/// `s` with each pair of spaces, read from the left and without overlap, made one.
pub fn collapse_spaces(s: &str) -> (r: String)
    ensures
        r@ == squeeze_spaces(s@),
{
    let n = s.unicode_len();
    let mut out = String::new();
    let mut i: usize = 0;
    proof {
        reveal_strlit(" ");
        assert(s@.skip(0) =~= s@);
        assert(out@ + squeeze_spaces(s@.skip(0)) =~= squeeze_spaces(s@));
    }
    while i < n
        invariant
            i <= n,
            n == s@.len(),
            out@ + squeeze_spaces(s@.skip(i as int)) == squeeze_spaces(s@),
        decreases n - i,
    {
        let ghost rest = s@.skip(i as int);
        let c = s.get_char(i);
        if i + 1 < n && c == ' ' && s.get_char(i + 1) == ' ' {
            out.append(" ");
            proof {
                reveal_strlit(" ");
                assert(rest[0] == ' ' && rest[1] == ' ');
                assert(rest.skip(2) =~= s@.skip(i + 2));
                assert(out@ + squeeze_spaces(s@.skip(i + 2)) =~= squeeze_spaces(s@));
            }
            i = i + 2;
        } else {
            let one = s.substring_char(i, i + 1);
            out.append(one);
            proof {
                assert(one@ =~= seq![c]);
                assert(rest[0] == c);
                assert(rest.skip(1) =~= s@.skip(i + 1));
                if rest.len() >= 2 {
                    assert(!(rest[0] == ' ' && rest[1] == ' '));
                } else {
                    assert(rest =~= seq![c]);
                    assert(s@.skip(i + 1) =~= Seq::<char>::empty());
                }
                assert(out@ + squeeze_spaces(s@.skip(i + 1)) =~= squeeze_spaces(s@));
            }
            i = i + 1;
        }
    }
    proof {
        assert(s@.skip(n as int) =~= Seq::<char>::empty());
        assert(out@ + squeeze_spaces(s@.skip(n as int)) =~= out@);
    }
    out
}

/// The text holds no line break.
pub open spec fn one_line(s: Seq<char>) -> bool {
    forall|i: int| 0 <= i < s.len() ==> #[trigger] s[i] != '\n'
}

proof fn lemma_without_newlines_one_line(s: Seq<char>)
    ensures
        one_line(without_newlines(s)),
    decreases s.len(),
{
    if s.len() > 0 {
        lemma_without_newlines_one_line(s.drop_last());
    }
}

proof fn lemma_squeeze_one_line(s: Seq<char>)
    requires
        one_line(s),
    ensures
        one_line(squeeze_spaces(s)),
    decreases s.len(),
{
    if s.len() >= 2 {
        if s[0] == ' ' && s[1] == ' ' {
            assert(one_line(s.skip(2))) by {
                assert forall|i: int| 0 <= i < s.skip(2).len() implies #[trigger] s.skip(2)[i] != '\n' by {
                    assert(s.skip(2)[i] == s[i + 2]);
                }
            }
            lemma_squeeze_one_line(s.skip(2));
        } else {
            assert(one_line(s.skip(1))) by {
                assert forall|i: int| 0 <= i < s.skip(1).len() implies #[trigger] s.skip(1)[i] != '\n' by {
                    assert(s.skip(1)[i] == s[i + 1]);
                }
            }
            lemma_squeeze_one_line(s.skip(1));
            assert(s[0] != '\n');
        }
    }
}

proof fn lemma_decimal_one_line(n: nat)
    ensures
        one_line(decimal(n)),
    decreases n,
{
    reveal_strlit("0");
    reveal_strlit("1");
    reveal_strlit("2");
    reveal_strlit("3");
    reveal_strlit("4");
    reveal_strlit("5");
    reveal_strlit("6");
    reveal_strlit("7");
    reveal_strlit("8");
    reveal_strlit("9");
    if n >= 10 {
        lemma_decimal_one_line(n / 10);
    }
}

/// The one-line form of an access step holds no line break, painted or not.
pub proof fn law_compact_access_is_one_line(colors: bool, a: DebugAccess)
    ensures
        one_line(compact_access(colors, a)),
{
    reveal_strlit(".");
    reveal_strlit("[");
    reveal_strlit("]");
    match a {
        DebugAccess::ComponentAccess(name) => {
            lemma_decimal_one_line(name as nat);
        },
        DebugAccess::ArrayAccess(expr) => {
            let flat = without_newlines(pretty_expr(colors, expr, Seq::empty()));
            lemma_without_newlines_one_line(pretty_expr(colors, expr, Seq::empty()));
            lemma_squeeze_one_line(flat);
        },
    }
}

impl DebugAccess {
    /// The one-line form of the access step, labels painted where the terminal takes colors.
    pub fn compact_fmt(&self) -> (r: String)
        ensures
            r@ == compact_access(true, *self) || r@ == compact_access(false, *self),
    {
        let colors = colors_enabled();
        match self {
            DebugAccess::ComponentAccess(name) => {
                let mut s = String::from_str(".");
                s.append(usize_text(*name).as_str());
                s
            },
            DebugAccess::ArrayAccess(expr) => {
                let tree = expr_text(colors, expr, "");
                let flat = remove_newlines(tree.as_str());
                let mut s = String::from_str("[");
                s.append(collapse_spaces(flat.as_str()).as_str());
                s.append("]");
                proof {
                    reveal_strlit("");
                    assert(""@ =~= Seq::<char>::empty());
                }
                s
            },
        }
    }
}

} // verus!

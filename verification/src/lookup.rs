//! Readable forms of symbolic values and counterexample reports, with interned names looked
//! up in the table of names. Text is painted with the escape sequences that `colored` writes
//! (its `Display` of a styled string), where `colored`'s own test says the terminal takes
//! colors.
use crate::ast::{ExpressionInfixOpcode, ExpressionPrefixOpcode};
use crate::pretty::{bignum_text, infix_name, int_text, prefix_name, squeeze_spaces, without_newlines};
use crate::bignum::BigNum;
use crate::solver::utils::{CounterExample, VerificationResult};
use crate::symbolic_value::{OwnerName, SymbolicAccess, SymbolicName, SymbolicValue};
use crate::tables::{fx_contains_key, fx_get};
use rustc_hash::FxHashMap;
use std::rc::Rc;
use vstd::prelude::*;

verus! {

/// `colored`'s own test of whether output is to be colored (`SHOULD_COLORIZE`), which reads
/// the environment; nothing is promised of the answer.
#[verifier::external_body]
pub(crate) fn colors_enabled() -> bool {
    colored::control::SHOULD_COLORIZE.should_colorize()
}

/// The escape sequence that ends a painted stretch.
pub open spec fn reset_code() -> Seq<char> {
    "\x1b[0m"@
}

/// `text` with `style` put back after each reset sequence in it, the sequences read from the
/// left, so that a painted stretch inside a painted text does not end the outer paint.
pub open spec fn restyled(text: Seq<char>, style: Seq<char>) -> Seq<char>
    decreases text.len(),
{
    if text.len() == 0 {
        Seq::empty()
    } else if text.len() >= 4 && text.take(4) == reset_code() {
        reset_code() + style + restyled(text.skip(4), style)
    } else {
        seq![text[0]] + restyled(text.skip(1), style)
    }
}

/// A text painted in `style` where colors are on: the style, the text with the style put back
/// after each reset in it, and a reset. The text alone where colors are off.
pub open spec fn painted(colors: bool, style: Seq<char>, text: Seq<char>) -> Seq<char> {
    if colors {
        style + restyled(text, style) + reset_code()
    } else {
        text
    }
}

/// The color of a binary operator: green for comparisons, red for shifts, bit operations and
/// divisions, yellow for the rest.
pub open spec fn infix_color(op: ExpressionInfixOpcode) -> Seq<char> {
    match op {
        ExpressionInfixOpcode::Eq | ExpressionInfixOpcode::NotEq | ExpressionInfixOpcode::LesserEq
        | ExpressionInfixOpcode::GreaterEq | ExpressionInfixOpcode::Lesser | ExpressionInfixOpcode::Greater => "\x1b[32m"@,
        ExpressionInfixOpcode::ShiftL | ExpressionInfixOpcode::ShiftR | ExpressionInfixOpcode::BitAnd
        | ExpressionInfixOpcode::BitOr | ExpressionInfixOpcode::BitXor | ExpressionInfixOpcode::Div
        | ExpressionInfixOpcode::IntDiv => "\x1b[31m"@,
        _ => "\x1b[33m"@,
    }
}

/// The texts of a list, with `sep` between each two.
pub open spec fn joined(texts: Seq<Seq<char>>, sep: Seq<char>) -> Seq<char>
    decreases texts.len(),
{
    if texts.len() == 0 {
        Seq::empty()
    } else if texts.len() == 1 {
        texts[0]
    } else {
        joined(texts.drop_last(), sep) + sep + texts.last()
    }
}

/// Every identifier that the value shows has a name in `ids`.
pub open spec fn value_known(v: SymbolicValue, ids: Map<usize, String>) -> bool
    decreases v,
{
    match v {
        SymbolicValue::Variable(n) => name_known(n, ids),
        SymbolicValue::BinaryOp(l, _, r) => value_known(*l, ids) && value_known(*r, ids),
        SymbolicValue::Conditional(c, t, e) => value_known(*c, ids) && value_known(*t, ids) && value_known(*e, ids),
        SymbolicValue::UnaryOp(_, e) => value_known(*e, ids),
        SymbolicValue::Call(f, args) => ids.contains_key(f) && values_known(args@, ids),
        SymbolicValue::Array(es) => values_known(es@, ids),
        SymbolicValue::UniformArray(e, c) => value_known(*e, ids) && value_known(*c, ids),
        _ => true,
    }
}

/// Every value of the list is `value_known`.
pub open spec fn values_known(es: Seq<Rc<SymbolicValue>>, ids: Map<usize, String>) -> bool
    decreases es,
{
    if es.len() == 0 {
        true
    } else {
        values_known(es.drop_last(), ids) && value_known(*es.last(), ids)
    }
}

/// The owners, the name and the accesses of a variable have names in `ids`.
pub open spec fn name_known(n: SymbolicName, ids: Map<usize, String>) -> bool
    decreases n,
{
    &&& forall|i: int| 0 <= i < n.owner@.len() ==> ids.contains_key(#[trigger] n.owner@[i].name)
    &&& ids.contains_key(n.name)
    &&& accesses_known(n.access@, ids)
}

/// Every access of the list has its names in `ids`.
pub open spec fn accesses_known(acc: Seq<SymbolicAccess>, ids: Map<usize, String>) -> bool
    decreases acc,
{
    if acc.len() == 0 {
        true
    } else {
        accesses_known(acc.drop_last(), ids) && access_known(acc.last(), ids)
    }
}

/// The names of an access are in `ids`.
pub open spec fn access_known(a: SymbolicAccess, ids: Map<usize, String>) -> bool
    decreases a,
{
    match a {
        SymbolicAccess::ComponentAccess(c) => ids.contains_key(c),
        SymbolicAccess::ArrayAccess(v) => value_known(v, ids),
    }
}

/// The readable form of a value.
pub open spec fn value_text(v: SymbolicValue, ids: Map<usize, String>, colors: bool) -> Seq<char>
    decreases v,
{
    match v {
        SymbolicValue::ConstantInt(x) => int_text(x@),
        SymbolicValue::ConstantBool(b) => (if b { "✅"@ } else { "❌"@ }) + " "@ + (if b { "true"@ } else { "false"@ }),
        SymbolicValue::Variable(n) => name_text(n, ids, colors),
        SymbolicValue::BinaryOp(l, op, r) =>
            "("@ + painted(colors, infix_color(op.0), infix_name(op.0)) + " "@ + value_text(*l, ids, colors) + " "@
            + value_text(*r, ids, colors) + ")"@,
        SymbolicValue::Conditional(c, t, e) =>
            "("@ + value_text(*c, ids, colors) + " "@ + value_text(*t, ids, colors) + " "@ + value_text(*e, ids, colors) + ")"@,
        SymbolicValue::UnaryOp(op, e) =>
            "("@ + painted(colors, "\x1b[35m"@, prefix_name(op.0)) + " "@ + value_text(*e, ids, colors) + ")"@,
        SymbolicValue::Call(f, args) => "📞"@ + ids[f]@ + "("@ + values_text(args@, ids, colors) + ")"@,
        SymbolicValue::Array(es) => "🧬 "@ + values_text(es@, ids, colors),
        SymbolicValue::UniformArray(e, c) =>
            "🧬 ("@ + value_text(*e, ids, colors) + ", "@ + value_text(*c, ids, colors) + ")"@,
        _ => "❓Unknown symbolic value"@,
    }
}

/// The readable forms of a list of values, separated by commas.
pub open spec fn values_text(es: Seq<Rc<SymbolicValue>>, ids: Map<usize, String>, colors: bool) -> Seq<char>
    decreases es,
{
    if es.len() == 0 {
        Seq::empty()
    } else if es.len() == 1 {
        value_text(*es[0], ids, colors)
    } else {
        values_text(es.drop_last(), ids, colors) + ", "@ + value_text(*es.last(), ids, colors)
    }
}

/// The names of an owner path, separated by dots.
pub open spec fn owners_text(owner: Seq<OwnerName>, ids: Map<usize, String>) -> Seq<char>
    decreases owner.len(),
{
    if owner.len() == 0 {
        Seq::empty()
    } else if owner.len() == 1 {
        ids[owner[0].name]@
    } else {
        owners_text(owner.drop_last(), ids) + "."@ + ids[owner.last().name]@
    }
}

/// The readable form of a variable: its owners, a dot, its name and its accesses.
pub open spec fn name_text(n: SymbolicName, ids: Map<usize, String>, colors: bool) -> Seq<char>
    decreases n,
{
    owners_text(n.owner@, ids) + "."@ + ids[n.name]@ + accesses_text(n.access@, ids, colors)
}

/// The readable forms of a list of accesses, one after another.
pub open spec fn accesses_text(acc: Seq<SymbolicAccess>, ids: Map<usize, String>, colors: bool) -> Seq<char>
    decreases acc,
{
    if acc.len() == 0 {
        Seq::empty()
    } else {
        accesses_text(acc.drop_last(), ids, colors) + access_text(acc.last(), ids, colors)
    }
}

/// The readable form of an access: `.name`, or the index on one line in brackets.
pub open spec fn access_text(a: SymbolicAccess, ids: Map<usize, String>, colors: bool) -> Seq<char>
    decreases a,
{
    match a {
        SymbolicAccess::ComponentAccess(c) => "."@ + ids[c]@,
        SymbolicAccess::ArrayAccess(v) => "["@ + squeeze_spaces(without_newlines(value_text(v, ids, colors))) + "]"@,
    }
}

proof fn lemma_values_known_each(es: Seq<Rc<SymbolicValue>>, ids: Map<usize, String>)
    requires
        values_known(es, ids),
    ensures
        forall|i: int| 0 <= i < es.len() ==> value_known(*#[trigger] es[i], ids),
    decreases es.len(),
{
    if es.len() > 0 {
        lemma_values_known_each(es.drop_last(), ids);
        assert forall|i: int| 0 <= i < es.len() implies value_known(*#[trigger] es[i], ids) by {
            if i < es.len() - 1 {
                assert(es.drop_last()[i] == es[i]);
            }
        }
    }
}

proof fn lemma_accesses_known_each(acc: Seq<SymbolicAccess>, ids: Map<usize, String>)
    requires
        accesses_known(acc, ids),
    ensures
        forall|i: int| 0 <= i < acc.len() ==> access_known(#[trigger] acc[i], ids),
    decreases acc.len(),
{
    if acc.len() > 0 {
        lemma_accesses_known_each(acc.drop_last(), ids);
        assert forall|i: int| 0 <= i < acc.len() implies access_known(#[trigger] acc[i], ids) by {
            if i < acc.len() - 1 {
                assert(acc.drop_last()[i] == acc[i]);
            }
        }
    }
}

/// The color of a binary operator.
fn infix_color_str(op: ExpressionInfixOpcode) -> (r: &'static str)
    ensures
        r@ == infix_color(op),
{
    match op {
        ExpressionInfixOpcode::Eq | ExpressionInfixOpcode::NotEq | ExpressionInfixOpcode::LesserEq
        | ExpressionInfixOpcode::GreaterEq | ExpressionInfixOpcode::Lesser | ExpressionInfixOpcode::Greater => "\x1b[32m",
        ExpressionInfixOpcode::ShiftL | ExpressionInfixOpcode::ShiftR | ExpressionInfixOpcode::BitAnd
        | ExpressionInfixOpcode::BitOr | ExpressionInfixOpcode::BitXor | ExpressionInfixOpcode::Div
        | ExpressionInfixOpcode::IntDiv => "\x1b[31m",
        _ => "\x1b[33m",
    }
}

/// The name stored for `id`.
fn id_name(ids: &FxHashMap<usize, String>, id: usize) -> (r: String)
    requires
        ids@.contains_key(id),
    ensures
        r@ == ids@[id]@,
{
    match fx_get(ids, id) {
        Some(n) => String::from_str(n.as_str()),
        None => {
            proof {
                assert(false);
            }
            String::new()
        },
    }
}

/// The readable form of a value, painted where `colors` is set.
pub fn value_lookup_text(v: &SymbolicValue, ids: &FxHashMap<usize, String>, colors: bool) -> (r: String)
    requires
        value_known(*v, ids@),
    ensures
        r@ == value_text(*v, ids@, colors),
    decreases v,
{
    match v {
        SymbolicValue::ConstantInt(x) => bignum_text(x),
        SymbolicValue::ConstantBool(b) => {
            let mut s = String::from_str(if *b { "✅" } else { "❌" });
            s.append(" ");
            s.append(if *b { "true" } else { "false" });
            s
        },
        SymbolicValue::Variable(n) => name_lookup_text(n, ids, colors),
        SymbolicValue::BinaryOp(l, op, r) => {
            let mut s = String::from_str("(");
            put_painted(&mut s, colors, infix_color_str(op.0), op.fmt());
            s.append(" ");
            s.append(value_lookup_text(l, ids, colors).as_str());
            s.append(" ");
            s.append(value_lookup_text(r, ids, colors).as_str());
            s.append(")");
            s
        },
        SymbolicValue::Conditional(c, t, e) => {
            let mut s = String::from_str("(");
            s.append(value_lookup_text(c, ids, colors).as_str());
            s.append(" ");
            s.append(value_lookup_text(t, ids, colors).as_str());
            s.append(" ");
            s.append(value_lookup_text(e, ids, colors).as_str());
            s.append(")");
            s
        },
        SymbolicValue::UnaryOp(op, e) => {
            let mut s = String::from_str("(");
            put_painted(&mut s, colors, "\x1b[35m", op.fmt());
            s.append(" ");
            s.append(value_lookup_text(e, ids, colors).as_str());
            s.append(")");
            s
        },
        SymbolicValue::Call(f, args) => {
            let mut s = String::from_str("📞");
            s.append(id_name(ids, *f).as_str());
            s.append("(");
            s.append(values_lookup_text(args, ids, colors).as_str());
            s.append(")");
            s
        },
        SymbolicValue::Array(es) => {
            let mut s = String::from_str("🧬 ");
            s.append(values_lookup_text(es, ids, colors).as_str());
            s
        },
        SymbolicValue::UniformArray(e, c) => {
            let mut s = String::from_str("🧬 (");
            s.append(value_lookup_text(e, ids, colors).as_str());
            s.append(", ");
            s.append(value_lookup_text(c, ids, colors).as_str());
            s.append(")");
            s
        },
        _ => String::from_str("❓Unknown symbolic value"),
    }
}

/// The readable forms of a list of values, separated by commas.
fn values_lookup_text(es: &Vec<Rc<SymbolicValue>>, ids: &FxHashMap<usize, String>, colors: bool) -> (r: String)
    requires
        values_known(es@, ids@),
    ensures
        r@ == values_text(es@, ids@, colors),
    decreases es,
{
    proof {
        lemma_values_known_each(es@, ids@);
    }
    let mut out = String::new();
    let mut i: usize = 0;
    proof {
        assert(es@.take(0) =~= Seq::<Rc<SymbolicValue>>::empty());
    }
    while i < es.len()
        invariant
            i <= es@.len(),
            out@ == values_text(es@.take(i as int), ids@, colors),
            forall|j: int| 0 <= j < es@.len() ==> value_known(*#[trigger] es@[j], ids@),
            forall|j: int| 0 <= j < es@.len() ==> decreases_to!(es => es@[j]),
        decreases es.len() - i,
    {
        let t = value_lookup_text(&es[i], ids, colors);
        if i > 0 {
            out.append(", ");
        }
        out.append(t.as_str());
        proof {
            assert(es@.take(i + 1).drop_last() =~= es@.take(i as int));
            assert(es@.take(i + 1).last() == es@[i as int]);
            if i == 0 {
                assert(es@.take(1)[0] == es@[0]);
                assert(out@ =~= values_text(es@.take(1), ids@, colors));
            }
        }
        i = i + 1;
    }
    proof {
        assert(es@.take(es@.len() as int) =~= es@);
    }
    out
}

/// The names of an owner path, separated by dots.
pub fn owners_lookup_text(owner: &Vec<OwnerName>, ids: &FxHashMap<usize, String>) -> (r: String)
    requires
        forall|i: int| 0 <= i < owner@.len() ==> ids@.contains_key(#[trigger] owner@[i].name),
    ensures
        r@ == owners_text(owner@, ids@),
{
    let mut out = String::new();
    let mut i: usize = 0;
    proof {
        assert(owner@.take(0) =~= Seq::<OwnerName>::empty());
    }
    while i < owner.len()
        invariant
            i <= owner@.len(),
            out@ == owners_text(owner@.take(i as int), ids@),
            forall|j: int| 0 <= j < owner@.len() ==> ids@.contains_key(#[trigger] owner@[j].name),
        decreases owner.len() - i,
    {
        let t = id_name(ids, owner[i].name);
        if i > 0 {
            out.append(".");
        }
        out.append(t.as_str());
        proof {
            assert(owner@.take(i + 1).drop_last() =~= owner@.take(i as int));
            assert(owner@.take(i + 1).last() == owner@[i as int]);
            if i == 0 {
                assert(owner@.take(1)[0] == owner@[0]);
                assert(out@ =~= owners_text(owner@.take(1), ids@));
            }
        }
        i = i + 1;
    }
    proof {
        assert(owner@.take(owner@.len() as int) =~= owner@);
    }
    out
}

/// The readable form of a variable, painted where `colors` is set.
pub fn name_lookup_text(n: &SymbolicName, ids: &FxHashMap<usize, String>, colors: bool) -> (r: String)
    requires
        name_known(*n, ids@),
    ensures
        r@ == name_text(*n, ids@, colors),
    decreases n,
{
    let mut s = owners_lookup_text(&n.owner, ids);
    s.append(".");
    s.append(id_name(ids, n.name).as_str());
    s.append(accesses_lookup_text(&n.access, ids, colors).as_str());
    s
}

/// The readable forms of a list of accesses, one after another.
fn accesses_lookup_text(acc: &Vec<SymbolicAccess>, ids: &FxHashMap<usize, String>, colors: bool) -> (r: String)
    requires
        accesses_known(acc@, ids@),
    ensures
        r@ == accesses_text(acc@, ids@, colors),
    decreases acc,
{
    proof {
        lemma_accesses_known_each(acc@, ids@);
    }
    let mut out = String::new();
    let mut i: usize = 0;
    proof {
        assert(acc@.take(0) =~= Seq::<SymbolicAccess>::empty());
    }
    while i < acc.len()
        invariant
            i <= acc@.len(),
            out@ == accesses_text(acc@.take(i as int), ids@, colors),
            forall|j: int| 0 <= j < acc@.len() ==> access_known(#[trigger] acc@[j], ids@),
            forall|j: int| 0 <= j < acc@.len() ==> decreases_to!(acc => acc@[j]),
        decreases acc.len() - i,
    {
        proof {
            assert(acc@.take(i + 1).drop_last() =~= acc@.take(i as int));
            assert(acc@.take(i + 1).last() == acc@[i as int]);
        }
        out.append(access_lookup_text(&acc[i], ids, colors).as_str());
        i = i + 1;
    }
    proof {
        assert(acc@.take(acc@.len() as int) =~= acc@);
    }
    out
}

/// The readable form of an access, painted where `colors` is set.
pub fn access_lookup_text(a: &SymbolicAccess, ids: &FxHashMap<usize, String>, colors: bool) -> (r: String)
    requires
        access_known(*a, ids@),
    ensures
        r@ == access_text(*a, ids@, colors),
    decreases a,
{
    match a {
        SymbolicAccess::ComponentAccess(c) => {
            let mut s = String::from_str(".");
            s.append(id_name(ids, *c).as_str());
            s
        },
        SymbolicAccess::ArrayAccess(v) => {
            let t = value_lookup_text(v, ids, colors);
            let flat = crate::pretty::remove_newlines(t.as_str());
            let mut s = String::from_str("[");
            s.append(crate::pretty::collapse_spaces(flat.as_str()).as_str());
            s.append("]");
            s
        },
    }
}

impl SymbolicValue {
    /// The readable form of the value, names looked up in `lookup`, operators painted where
    /// the terminal takes colors.
    pub fn lookup_fmt(&self, lookup: &FxHashMap<usize, String>) -> (r: String)
        requires
            value_known(*self, lookup@),
        ensures
            r@ == value_text(*self, lookup@, true) || r@ == value_text(*self, lookup@, false),
    {
        value_lookup_text(self, lookup, colors_enabled())
    }
}

impl SymbolicName {
    /// The readable form of the variable, names looked up in `lookup`.
    pub fn lookup_fmt(&self, lookup: &FxHashMap<usize, String>) -> (r: String)
        requires
            name_known(*self, lookup@),
        ensures
            r@ == name_text(*self, lookup@, true) || r@ == name_text(*self, lookup@, false),
    {
        name_lookup_text(self, lookup, colors_enabled())
    }
}

impl SymbolicAccess {
    /// The readable form of the access, names looked up in `lookup`.
    pub fn lookup_fmt(&self, lookup: &FxHashMap<usize, String>) -> (r: String)
        requires
            access_known(*self, lookup@),
        ensures
            r@ == access_text(*self, lookup@, true) || r@ == access_text(*self, lookup@, false),
    {
        access_lookup_text(self, lookup, colors_enabled())
    }
}


/// How a verification result is shown: bold, and red, yellow or green for an under-,
/// over- or well-constrained circuit.
pub open spec fn verdict_text(flag: VerificationResult, colors: bool) -> Seq<char> {
    match flag {
        VerificationResult::UnderConstrained => painted(colors, "\x1b[1;31m"@, "🔥 UnderConstrained 🔥"@),
        VerificationResult::OverConstrained => painted(colors, "\x1b[1;33m"@, "💣 OverConstrained 💣"@),
        VerificationResult::WellConstrained => painted(colors, "\x1b[1;32m"@, "✅ WellConstrained ✅"@),
    }
}

/// One line of an assignment in a counterexample report: the variable and its value.
pub open spec fn assignment_line(e: (SymbolicName, BigNum), ids: Map<usize, String>, colors: bool) -> Seq<char> {
    painted(colors, "\x1b[31m"@, "║"@) + "           "@ + painted(colors, "\x1b[36m"@, "➡️"@) + " "@
        + painted(colors, "\x1b[1;35m"@, name_text(e.0, ids, colors)) + " = "@
        + painted(colors, "\x1b[93m"@, int_text(e.1@)) + " \n"@
}

/// The lines of an assignment, in the order of its entries.
pub open spec fn assignment_lines(es: Seq<(SymbolicName, BigNum)>, ids: Map<usize, String>, colors: bool) -> Seq<char>
    decreases es.len(),
{
    if es.len() == 0 {
        Seq::empty()
    } else {
        assignment_lines(es.drop_last(), ids, colors) + assignment_line(es.last(), ids, colors)
    }
}

/// Every variable of an assignment has its names in `ids`.
pub open spec fn assignment_known(es: Seq<(SymbolicName, BigNum)>, ids: Map<usize, String>) -> bool {
    forall|i: int| 0 <= i < es.len() ==> name_known(#[trigger] es[i].0, ids)
}

/// The framed report of a counterexample: a header, the verdict, and one line per variable.
pub open spec fn counter_example_text(ce: CounterExample, ids: Map<usize, String>, colors: bool) -> Seq<char> {
    painted(colors, "\x1b[31m"@, "╔══════════════════════════════════════════════════════════════╗\n"@)
        + painted(colors, "\x1b[31m"@, "║"@) + "🚨 "@ + painted(colors, "\x1b[1;101;37m"@, "Counter Example:"@)
        + "                                           "@ + painted(colors, "\x1b[31m"@, "║\n"@)
        + painted(colors, "\x1b[31m"@, "║"@) + "    "@ + verdict_text(ce.flag, colors) + " \n"@
        + painted(colors, "\x1b[31m"@, "║"@) + "    "@ + painted(colors, "\x1b[1;34m"@, "🔍 Assignment Details:"@) + " \n"@
        + assignment_lines(ce.assignment.entries@, ids, colors)
        + painted(colors, "\x1b[31m"@, "╚══════════════════════════════════════════════════════════════╝\n"@)
}

/// `text` with `style` put back after each reset sequence in it.
fn restyle(text: &str, style: &str) -> (r: String)
    ensures
        r@ == restyled(text@, style@),
{
    let n = text.unicode_len();
    let mut out = String::new();
    let mut i: usize = 0;
    proof {
        reveal_strlit("\x1b[0m");
        assert(text@.skip(0) =~= text@);
        assert(out@ + restyled(text@.skip(0), style@) =~= restyled(text@, style@));
    }
    while i < n
        invariant
            i <= n,
            n == text@.len(),
            reset_code() =~= seq!['\x1b', '[', '0', 'm'],
            out@ + restyled(text@.skip(i as int), style@) == restyled(text@, style@),
        decreases n - i,
    {
        let ghost rest = text@.skip(i as int);
        let c0 = text.get_char(i);
        let at_reset = if c0 == '\x1b' && 4 <= n - i {
            let c1 = text.get_char(i + 1);
            let c2 = text.get_char(i + 2);
            let c3 = text.get_char(i + 3);
            c1 == '[' && c2 == '0' && c3 == 'm'
        } else {
            false
        };
        if at_reset {
            proof {
                assert(rest.take(4) =~= reset_code());
                assert(rest.skip(4) =~= text@.skip(i + 4));
            }
            let old_out = Ghost(out@);
            out.append("\x1b[0m");
            out.append(style);
            i = i + 4;
            proof {
                assert(out@ =~= old_out@ + reset_code() + style@);
                assert(out@ + restyled(text@.skip(i as int), style@) =~= old_out@ + restyled(rest, style@));
            }
        } else {
            proof {
                if rest.len() >= 4 && rest.take(4) == reset_code() {
                    assert(rest.take(4)[0] == text@[i as int]);
                    assert(rest.take(4)[1] == text@[i + 1]);
                    assert(rest.take(4)[2] == text@[i + 2]);
                    assert(rest.take(4)[3] == text@[i + 3]);
                }
                assert(rest.skip(1) =~= text@.skip(i + 1));
            }
            let one = text.substring_char(i, i + 1);
            let old_out = Ghost(out@);
            out.append(one);
            i = i + 1;
            proof {
                assert(one@ =~= seq![c0]);
                assert(out@ + restyled(text@.skip(i as int), style@) =~= old_out@ + restyled(rest, style@));
            }
        }
    }
    proof {
        assert(text@.skip(n as int) =~= Seq::<char>::empty());
        assert(out@ + restyled(text@.skip(n as int), style@) =~= out@);
    }
    out
}

/// Appends `text`, painted in `style` where `colors` is set.
fn put_painted(s: &mut String, colors: bool, style: &str, text: &str)
    ensures
        final(s)@ == old(s)@ + painted(colors, style@, text@),
{
    if colors {
        let inner = restyle(text, style);
        s.append(style);
        s.append(inner.as_str());
        s.append("\x1b[0m");
        proof {
            assert(s@ =~= old(s)@ + painted(colors, style@, text@));
        }
    } else {
        s.append(text);
    }
}

/// The banner of a verdict, painted where `colors` is set.
pub fn verdict_lookup_text(flag: VerificationResult, colors: bool) -> (r: String)
    ensures
        r@ == verdict_text(flag, colors),
{
    let mut s = String::new();
    match flag {
        VerificationResult::UnderConstrained => put_painted(&mut s, colors, "\x1b[1;31m", "🔥 UnderConstrained 🔥"),
        VerificationResult::OverConstrained => put_painted(&mut s, colors, "\x1b[1;33m", "💣 OverConstrained 💣"),
        VerificationResult::WellConstrained => put_painted(&mut s, colors, "\x1b[1;32m", "✅ WellConstrained ✅"),
    }
    proof {
        assert(s@ =~= verdict_text(flag, colors));
    }
    s
}

/// Appends the report line of one variable of an assignment.
fn put_assignment_line(s: &mut String, e: &(SymbolicName, BigNum), ids: &FxHashMap<usize, String>, colors: bool)
    requires
        name_known(e.0, ids@),
    ensures
        final(s)@ == old(s)@ + assignment_line(*e, ids@, colors),
{
    put_painted(s, colors, "\x1b[31m", "║");
    s.append("           ");
    put_painted(s, colors, "\x1b[36m", "➡️");
    s.append(" ");
    let name = name_lookup_text(&e.0, ids, colors);
    put_painted(s, colors, "\x1b[1;35m", name.as_str());
    s.append(" = ");
    let value = bignum_text(&e.1);
    put_painted(s, colors, "\x1b[93m", value.as_str());
    s.append(" \n");
    proof {
        assert(s@ =~= old(s)@ + assignment_line(*e, ids@, colors));
    }
}

/// The framed report of a counterexample, names looked up in `ids`, painted where `colors`
/// is set.
pub fn counter_example_lookup_text(ce: &CounterExample, ids: &FxHashMap<usize, String>, colors: bool) -> (r: String)
    requires
        assignment_known(ce.assignment.entries@, ids@),
    ensures
        r@ == counter_example_text(*ce, ids@, colors),
{
    let mut s = String::new();
    put_painted(&mut s, colors, "\x1b[31m", "╔══════════════════════════════════════════════════════════════╗\n");
    put_painted(&mut s, colors, "\x1b[31m", "║");
    s.append("🚨 ");
    put_painted(&mut s, colors, "\x1b[1;101;37m", "Counter Example:");
    s.append("                                           ");
    put_painted(&mut s, colors, "\x1b[31m", "║\n");
    put_painted(&mut s, colors, "\x1b[31m", "║");
    s.append("    ");
    let verdict = verdict_lookup_text(ce.flag, colors);
    s.append(verdict.as_str());
    s.append(" \n");
    put_painted(&mut s, colors, "\x1b[31m", "║");
    s.append("    ");
    put_painted(&mut s, colors, "\x1b[1;34m", "🔍 Assignment Details:");
    s.append(" \n");
    let ghost head = s@;
    let es = &ce.assignment.entries;
    let mut i: usize = 0;
    proof {
        assert(es@.take(0) =~= Seq::<(SymbolicName, BigNum)>::empty());
        assert(s@ =~= head + assignment_lines(es@.take(0), ids@, colors));
    }
    while i < es.len()
        invariant
            i <= es.len(),
            es@ == ce.assignment.entries@,
            assignment_known(es@, ids@),
            s@ == head + assignment_lines(es@.take(i as int), ids@, colors),
        decreases es.len() - i,
    {
        assert(name_known(es@[i as int].0, ids@));
        let ghost before = s@;
        put_assignment_line(&mut s, &es[i], ids, colors);
        proof {
            assert(es@.take(i + 1).drop_last() =~= es@.take(i as int));
            assert(es@.take(i + 1).last() == es@[i as int]);
            assert(s@ =~= head + assignment_lines(es@.take(i + 1), ids@, colors));
        }
        i = i + 1;
    }
    proof {
        assert(es@.take(es@.len() as int) =~= es@);
    }
    put_painted(&mut s, colors, "\x1b[31m", "╚══════════════════════════════════════════════════════════════╝\n");
    proof {
        assert(s@ =~= counter_example_text(*ce, ids@, colors));
    }
    s
}

impl CounterExample {
    /// The framed report of the counterexample, names looked up in `lookup`, painted where
    /// the terminal takes colors.
    pub fn lookup_fmt(&self, lookup: &FxHashMap<usize, String>) -> (r: String)
        requires
            assignment_known(self.assignment.entries@, lookup@),
        ensures
            r@ == counter_example_text(*self, lookup@, true) || r@ == counter_example_text(*self, lookup@, false),
    {
        counter_example_lookup_text(self, lookup, colors_enabled())
    }
}


/// Whether every identifier that the value shows has a name in `ids`.
pub fn value_names_known(v: &SymbolicValue, ids: &FxHashMap<usize, String>) -> (r: bool)
    ensures
        r == value_known(*v, ids@),
    decreases v,
{
    match v {
        SymbolicValue::Variable(n) => name_names_known(n, ids),
        SymbolicValue::BinaryOp(l, _, r) => value_names_known(l, ids) && value_names_known(r, ids),
        SymbolicValue::Conditional(c, t, e) =>
            value_names_known(c, ids) && value_names_known(t, ids) && value_names_known(e, ids),
        SymbolicValue::UnaryOp(_, e) => value_names_known(e, ids),
        SymbolicValue::Call(f, args) => fx_contains_key(ids, *f) && values_names_known(args, ids),
        SymbolicValue::Array(es) => values_names_known(es, ids),
        SymbolicValue::UniformArray(e, c) => value_names_known(e, ids) && value_names_known(c, ids),
        _ => true,
    }
}

/// Whether every value of the list is `value_known`.
fn values_names_known(es: &Vec<Rc<SymbolicValue>>, ids: &FxHashMap<usize, String>) -> (r: bool)
    ensures
        r == values_known(es@, ids@),
    decreases es,
{
    let mut i: usize = 0;
    proof {
        assert(es@.take(0) =~= Seq::<Rc<SymbolicValue>>::empty());
    }
    while i < es.len()
        invariant
            i <= es@.len(),
            values_known(es@.take(i as int), ids@),
            forall|j: int| 0 <= j < es@.len() ==> decreases_to!(es => es@[j]),
        decreases es.len() - i,
    {
        let ok = value_names_known(&es[i], ids);
        if !ok {
            proof {
                if values_known(es@, ids@) {
                    lemma_values_known_each(es@, ids@);
                    assert(value_known(*es@[i as int], ids@));
                }
            }
            return false;
        }
        proof {
            assert(es@.take(i + 1).drop_last() =~= es@.take(i as int));
            assert(es@.take(i + 1).last() == es@[i as int]);
        }
        i = i + 1;
    }
    proof {
        assert(es@.take(es@.len() as int) =~= es@);
    }
    true
}

/// Whether the owners, the name and the accesses of a variable have names in `ids`.
pub fn name_names_known(n: &SymbolicName, ids: &FxHashMap<usize, String>) -> (r: bool)
    ensures
        r == name_known(*n, ids@),
    decreases n,
{
    let mut i: usize = 0;
    while i < n.owner.len()
        invariant
            i <= n.owner@.len(),
            forall|j: int| 0 <= j < i ==> ids@.contains_key(#[trigger] n.owner@[j].name),
        decreases n.owner.len() - i,
    {
        if !fx_contains_key(ids, n.owner[i].name) {
            proof {
                assert(!ids@.contains_key(n.owner@[i as int].name));
            }
            return false;
        }
        i = i + 1;
    }
    fx_contains_key(ids, n.name) && accesses_names_known(&n.access, ids)
}

/// Whether every access of the list has its names in `ids`.
fn accesses_names_known(acc: &Vec<SymbolicAccess>, ids: &FxHashMap<usize, String>) -> (r: bool)
    ensures
        r == accesses_known(acc@, ids@),
    decreases acc,
{
    let mut i: usize = 0;
    proof {
        assert(acc@.take(0) =~= Seq::<SymbolicAccess>::empty());
    }
    while i < acc.len()
        invariant
            i <= acc@.len(),
            accesses_known(acc@.take(i as int), ids@),
            forall|j: int| 0 <= j < acc@.len() ==> decreases_to!(acc => acc@[j]),
        decreases acc.len() - i,
    {
        let ok = match &acc[i] {
            SymbolicAccess::ComponentAccess(c) => fx_contains_key(ids, *c),
            SymbolicAccess::ArrayAccess(v) => value_names_known(v, ids),
        };
        assert(ok == access_known(acc@[i as int], ids@));
        if !ok {
            proof {
                if accesses_known(acc@, ids@) {
                    lemma_accesses_known_each(acc@, ids@);
                    assert(access_known(acc@[i as int], ids@));
                }
            }
            return false;
        }
        proof {
            assert(acc@.take(i + 1).drop_last() =~= acc@.take(i as int));
            assert(acc@.take(i + 1).last() == acc@[i as int]);
        }
        i = i + 1;
    }
    proof {
        assert(acc@.take(acc@.len() as int) =~= acc@);
    }
    true
}

/// Whether every variable of an assignment has its names in `ids`.
pub fn assignment_names_known(es: &Vec<(SymbolicName, BigNum)>, ids: &FxHashMap<usize, String>) -> (r: bool)
    ensures
        r == assignment_known(es@, ids@),
{
    let mut i: usize = 0;
    while i < es.len()
        invariant
            i <= es@.len(),
            forall|j: int| 0 <= j < i ==> name_known(#[trigger] es@[j].0, ids@),
        decreases es.len() - i,
    {
        if !name_names_known(&es[i].0, ids) {
            return false;
        }
        i = i + 1;
    }
    true
}

} // verus!

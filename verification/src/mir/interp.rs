//! Running a body: locals, steps and the reasons to stop.

use vstd::prelude::*;

use crate::mir::kinds::IntKind;
use crate::mir::ops::{self, binary, cast_to, unary};
use crate::mir::syntax::{
    self, int_kind, Block, Body, Constant, Operand, Place, Projection, Rvalue, Statement,
    Terminator, Ty, TyShape,
};
use crate::mir::value::{self, Val, Value};
use crate::text::{self, push_decimal};

verus! {

/// Guards against a kernel that never terminates, which an interpreter cannot
/// tell from one that is merely slow.
pub const STEP_LIMIT: usize = 1_000_000;

// ----------------------------------------------------------- mathematics ---

/// What a constant stands for.
pub open spec fn constant_result(c: Constant) -> Result<Val, Seq<char>> {
    match c {
        Constant::Other { text } => Err("constant not interpreted yet: "@ + text@),
        Constant::Allocated { ty, bits } => match (ty.shape, syntax::kind_of(ty.shape)) {
            (TyShape::Bool, _) => match bits {
                Ok(raw) => Ok(Val::Bool(raw != 0)),
                Err(why) => Err(why@),
            },
            (_, Some(kind)) => match bits {
                Ok(raw) => Ok(ops::integer(kind, raw as int)),
                Err(why) => Err(why@),
            },
            (_, None) => Err("constant type not supported: "@ + ty.text@),
        },
    }
}

/// What a cast to a type gives.
pub open spec fn cast_outcome(v: Val, ty: Ty) -> Result<Val, Seq<char>> {
    match syntax::kind_of(ty.shape) {
        Some(kind) => ops::cast_result(v, kind),
        None => Err("cast target not supported: "@ + ty.text@),
    }
}

/// The part of a value that the projections from the `i`th on lead to.
pub open spec fn projected(v: Val, path: Seq<Projection>, i: nat) -> Result<Val, Seq<char>>
    decreases path.len() - i,
{
    if i >= path.len() {
        Ok(v)
    } else {
        match (path[i as int], v) {
            (Projection::Other { text }, _) => Err("projection not interpreted yet: "@ + text@),
            (Projection::Field { index, .. }, Val::Aggregate(parts)) => if index < parts.len() {
                projected(parts[index as int], path, i + 1)
            } else {
                Err("no field "@ + text::decimal(index as nat))
            },
            (Projection::Field { .. }, other) => Err(
                "cannot take a field of "@ + value::debug_text(other),
            ),
        }
    }
}

/// What a place holds. Reading what was not assigned is refused.
pub open spec fn loaded(locals: Seq<Val>, place: Place) -> Result<Val, Seq<char>> {
    if place.local >= locals.len() {
        Err("no local _"@ + text::decimal(place.local as nat))
    } else {
        match projected(locals[place.local as int], place.projection@, 0) {
            Ok(Val::Uninit) => Err("read of uninitialised _"@ + text::decimal(place.local as nat)),
            other => other,
        }
    }
}

/// The texts of projections.
pub open spec fn path_texts(path: Seq<Projection>) -> Seq<Seq<char>> {
    Seq::new(path.len(), |i: int| syntax::projection_text(path[i]))
}

/// The locals after a value was put in a place. Whole locals and their fields
/// can be assigned.
pub open spec fn stored(locals: Seq<Val>, place: Place, v: Val) -> Result<Seq<Val>, Seq<char>> {
    let path = place.projection@;
    let at = place.local as int;
    if place.local >= locals.len() {
        Err("no local _"@ + text::decimal(place.local as nat))
    } else if path.len() == 0 {
        Ok(locals.update(at, v))
    } else if path.len() == 1 && path[0] is Field {
        let index = path[0]->index;
        match locals[at] {
            Val::Aggregate(parts) => if index < parts.len() {
                Ok(locals.update(at, Val::Aggregate(parts.update(index as int, v))))
            } else {
                Err("no field "@ + text::decimal(index as nat))
            },
            other => Err("cannot assign a field of "@ + value::debug_text(other)),
        }
    } else {
        Err("projection not interpreted yet: ["@ + text::join(path_texts(path), ", "@) + "]"@)
    }
}

/// What an operand stands for.
///
/// A build that has overflow checks is what produced the checked arithmetic,
/// so the check for overflow is on and the others are off.
pub open spec fn operand_result(locals: Seq<Val>, o: Operand) -> Result<Val, Seq<char>> {
    match o {
        Operand::Copy(place) => loaded(locals, place),
        Operand::Move(place) => loaded(locals, place),
        Operand::Constant(c) => constant_result(c),
        Operand::RuntimeChecks { overflow } => Ok(Val::Bool(overflow)),
    }
}

/// What the first `n` operands stand for, or the first reason why one stands
/// for nothing.
pub open spec fn operand_results(locals: Seq<Val>, os: Seq<Operand>, n: nat) -> Result<
    Seq<Val>,
    Seq<char>,
>
    decreases n,
{
    if n == 0 {
        Ok(Seq::empty())
    } else {
        match operand_results(locals, os, (n - 1) as nat) {
            Err(why) => Err(why),
            Ok(vs) => match operand_result(locals, os[n - 1]) {
                Err(why) => Err(why),
                Ok(v) => Ok(vs.push(v)),
            },
        }
    }
}

/// What a binary operator gives on two operands, with its overflow flag.
pub open spec fn operator_result(
    locals: Seq<Val>,
    op: ops::BinOp,
    lhs: Operand,
    rhs: Operand,
) -> Result<(Val, bool), Seq<char>> {
    match (operand_result(locals, lhs), operand_result(locals, rhs)) {
        (Err(why), _) => Err(why),
        (_, Err(why)) => Err(why),
        (Ok(a), Ok(b)) => ops::binary_result(op, a, b),
    }
}

/// What a computation gives.
pub open spec fn rvalue_result(locals: Seq<Val>, r: Rvalue) -> Result<Val, Seq<char>> {
    match r {
        Rvalue::Use(o) => operand_result(locals, o),
        Rvalue::BinaryOp(op, lhs, rhs) => match operator_result(locals, op, lhs, rhs) {
            Err(why) => Err(why),
            Ok(x) => Ok(x.0),
        },
        Rvalue::CheckedBinaryOp(op, lhs, rhs) => match operator_result(locals, op, lhs, rhs) {
            Err(why) => Err(why),
            Ok(x) => Ok(Val::Aggregate(seq![x.0, Val::Bool(x.1)])),
        },
        Rvalue::UnaryOp(op, o) => match operand_result(locals, o) {
            Err(why) => Err(why),
            Ok(v) => ops::unary_result(op, v),
        },
        Rvalue::Cast(o, ty) => match operand_result(locals, o) {
            Err(why) => Err(why),
            Ok(v) => cast_outcome(v, ty),
        },
        Rvalue::Aggregate(os) => match operand_results(locals, os@, os@.len()) {
            Err(why) => Err(why),
            Ok(vs) => Ok(Val::Aggregate(vs)),
        },
        Rvalue::CopyForDeref(place) => loaded(locals, place),
        Rvalue::Other { text } => Err("rvalue not interpreted yet: "@ + text@),
    }
}

/// The locals after a statement.
pub open spec fn after_statement(locals: Seq<Val>, s: Statement) -> Result<Seq<Val>, Seq<char>> {
    match s {
        Statement::Assign(place, r) => match rvalue_result(locals, r) {
            Err(why) => Err(why),
            Ok(v) => stored(locals, place, v),
        },
        Statement::Marker => Ok(locals),
        Statement::Other { text } => Err("statement not interpreted yet: "@ + text@),
    }
}

/// The locals after the first `n` statements.
pub open spec fn after_statements(locals: Seq<Val>, ss: Seq<Statement>, n: nat) -> Result<
    Seq<Val>,
    Seq<char>,
>
    decreases n,
{
    if n == 0 {
        Ok(locals)
    } else {
        match after_statements(locals, ss, (n - 1) as nat) {
            Err(why) => Err(why),
            Ok(now) => after_statement(now, ss[n - 1]),
        }
    }
}

/// The target of the first of the branches from the `i`th on whose arm is the
/// value, or the target for every other value.
pub open spec fn switched(
    branches: Seq<(u128, usize)>,
    otherwise: usize,
    v: u128,
    i: nat,
) -> usize
    decreases branches.len() - i,
{
    if i >= branches.len() {
        otherwise
    } else if branches[i as int].0 == v {
        branches[i as int].1
    } else {
        switched(branches, otherwise, v, i + 1)
    }
}

/// The value as it would select a switch arm.
pub open spec fn selector(v: Val) -> Result<u128, Seq<char>> {
    match v {
        Val::Bool(b) => Ok(
            if b {
                1
            } else {
                0
            },
        ),
        Val::Int { raw, .. } => Ok(raw),
        other => Err("cannot switch on "@ + value::debug_text(other)),
    }
}

/// Where a block's end leads: to a block, or out of the body.
pub enum Next {
    Block(usize),
    Done(Result<Val, Seq<char>>),
}

/// Where a block's end leads.
pub open spec fn after_block(locals: Seq<Val>, t: Terminator) -> Next {
    match t {
        Terminator::Goto { target } => Next::Block(target),
        Terminator::Return => Next::Done(Ok(locals[0])),
        Terminator::SwitchInt { discr, branches, otherwise } => match operand_result(
            locals,
            discr,
        ) {
            Err(why) => Next::Done(Err(why)),
            Ok(v) => match selector(v) {
                Err(why) => Next::Done(Err(why)),
                Ok(raw) => Next::Block(switched(branches@, otherwise, raw, 0)),
            },
        },
        Terminator::Assert { cond, expected, target, message } => match operand_result(
            locals,
            cond,
        ) {
            Err(why) => Next::Done(Err(why)),
            Ok(Val::Bool(held)) => if held == expected {
                Next::Block(target)
            } else {
                Next::Done(Err(message@))
            },
            Ok(other) => Next::Done(Err("expected a bool, found "@ + value::debug_text(other))),
        },
        Terminator::Call { func } => Next::Done(Err("calls are not interpreted yet: "@ + func@)),
        Terminator::Unreachable => Next::Done(Err("reached unreachable"@)),
        Terminator::Other { text } => Next::Done(Err("terminator not interpreted yet: "@ + text@)),
    }
}

/// What running on from a block gives, if so many more blocks may be entered.
pub open spec fn executed(body: Body, locals: Seq<Val>, block: usize, left: nat) -> Result<
    Val,
    Seq<char>,
>
    decreases left,
{
    if left == 0 {
        Err("gave up after 1000000 steps"@)
    } else if block >= body.blocks@.len() {
        Err("jumped to bb"@ + text::decimal(block as nat) + ", which does not exist"@)
    } else {
        let b = body.blocks@[block as int];
        match after_statements(locals, b.statements@, b.statements@.len()) {
            Err(why) => Err(why),
            Ok(now) => match after_block(now, b.terminator) {
                Next::Done(r) => r,
                Next::Block(target) => executed(body, now, target, (left - 1) as nat),
            },
        }
    }
}

/// What a body gives: the first local, the return place, when it returns.
pub open spec fn run_result(body: Body) -> Result<Val, Seq<char>> {
    executed(body, Seq::new(body.locals as nat, |i: int| Val::Uninit), 0, STEP_LIMIT as nat)
}

/// Whether a step went as the mathematics says.
pub open spec fn unit_outcome(r: Result<(), String>, locals: Seq<Val>) -> Result<
    Seq<Val>,
    Seq<char>,
> {
    match r {
        Ok(_) => Ok(locals),
        Err(why) => Err(why@),
    }
}

// ------------------------------------------------------------- the parts ---

/// Appends a number to a text that starts a complaint.
fn numbered(lead: &str, n: usize) -> (r: String)
    ensures
        r@ == lead@ + text::decimal(n as nat),
{
    let mut why = lead.to_owned();
    push_decimal(&mut why, n as u128);
    why
}

/// Appends a text to one that starts a complaint.
fn described(lead: &str, what: &String) -> (r: String)
    ensures
        r@ == lead@ + what@,
{
    let mut why = lead.to_owned();
    why.append(what.as_str());
    why
}

/// Appends a value to a text that starts a complaint.
fn about(lead: &str, v: &Value) -> (r: String)
    ensures
        r@ == lead@ + value::debug_text(v@),
{
    let mut why = lead.to_owned();
    v.push_debug(&mut why);
    why
}

/// A copy of a text.
fn copied(what: &String) -> (r: String)
    ensures
        r@ == what@,
{
    what.as_str().to_owned()
}

/// What a constant stands for.
fn constant(c: &Constant) -> (r: Result<Value, String>)
    ensures
        value::outcome(r) == constant_result(*c),
        r matches Ok(v) ==> value::well_formed(v@),
{
    match c {
        Constant::Allocated { ty, bits } => {
            if let TyShape::Bool = ty.shape {
                return match bits {
                    Ok(raw) => Ok(Value::Bool(*raw != 0)),
                    Err(why) => Err(copied(why)),
                };
            }
            match int_kind(ty) {
                Some(kind) => match bits {
                    Ok(raw) => Ok(Value::integer(*raw, kind)),
                    Err(why) => Err(copied(why)),
                },
                None => Err(described("constant type not supported: ", &ty.text)),
            }
        },
        Constant::Other { text } => Err(described("constant not interpreted yet: ", text)),
    }
}

/// Converts a value to a type.
fn cast(v: &Value, ty: &Ty) -> (r: Result<Value, String>)
    requires
        value::well_formed(v@),
    ensures
        value::outcome(r) == cast_outcome(v@, *ty),
        r matches Ok(x) ==> value::well_formed(x@),
{
    match int_kind(ty) {
        Some(kind) => cast_to(v, kind),
        None => Err(described("cast target not supported: ", &ty.text)),
    }
}

/// The complaint about a path that cannot be assigned through.
fn refused_path(path: &Vec<Projection>) -> (r: String)
    ensures
        r@ == "projection not interpreted yet: ["@ + text::join(path_texts(path@), ", "@) + "]"@,
{
    let mut out = "projection not interpreted yet: [".to_owned();
    let ghost lead = out@;
    let n: usize = path.len();
    let mut i: usize = 0;
    proof {
        assert(out@ =~= lead + text::join(path_texts(path@).take(0), ", "@));
    }
    while i < n
        invariant
            i <= n,
            n == path@.len(),
            out@ == lead + text::join(path_texts(path@).take(i as int), ", "@),
        decreases n - i,
    {
        if i > 0 {
            out.append(", ");
        }
        match &path[i] {
            Projection::Field { text, .. } => {
                out.append(text.as_str());
            },
            Projection::Other { text } => {
                out.append(text.as_str());
            },
        }
        proof {
            let longer = path_texts(path@).take(i + 1);
            assert(longer.drop_last() =~= path_texts(path@).take(i as int));
            assert(longer.last() == syntax::projection_text(path@[i as int]));
            assert(out@ =~= lead + text::join(longer, ", "@));
        }
        i = i + 1;
    }
    proof {
        assert(path_texts(path@).take(n as int) =~= path_texts(path@));
    }
    out.append("]");
    out
}

/// A body's locals on the way.
pub struct Interp {
    locals: Vec<Value>,
    steps: usize,
}

impl View for Interp {
    type V = Seq<Val>;

    closed spec fn view(&self) -> Seq<Val> {
        value::all_views(self.locals@)
    }
}

impl Interp {
    /// Every local holds a well formed value.
    pub closed spec fn wf(self) -> bool {
        forall|i: int| 0 <= i < self@.len() ==> value::well_formed(#[trigger] self@[i])
    }

    /// Runs a body with no arguments and returns local 0, the return place.
    pub fn run(body: &Body) -> (r: Result<Value, String>)
        requires
            body.locals > 0,
        ensures
            value::outcome(r) == run_result(*body),
            r matches Ok(v) ==> value::well_formed(v@),
    {
        let mut locals: Vec<Value> = Vec::new();
        let mut i: usize = 0;
        while i < body.locals
            invariant
                i <= body.locals,
                locals@.len() == i,
                forall|j: int| 0 <= j < i ==> #[trigger] locals@[j] is Uninit,
            decreases body.locals - i,
        {
            locals.push(Value::Uninit);
            i = i + 1;
        }
        let mut interp = Interp { locals, steps: 0 };
        proof {
            value::lemma_views(locals@, locals@.len());
            assert(interp@ =~= Seq::new(body.locals as nat, |i: int| Val::Uninit));
        }
        interp.execute(body)
    }

    fn execute(&mut self, body: &Body) -> (r: Result<Value, String>)
        requires
            old(self).wf(),
            old(self)@.len() > 0,
            old(self).steps <= STEP_LIMIT,
        ensures
            value::outcome(r) == executed(
                *body,
                old(self)@,
                0,
                (STEP_LIMIT - old(self).steps) as nat,
            ),
            r matches Ok(v) ==> value::well_formed(v@),
    {
        let mut block: usize = 0;
        let ghost all = executed(*body, self@, 0, (STEP_LIMIT - self.steps) as nat);
        loop
            invariant
                self.wf(),
                self@.len() > 0,
                self.steps <= STEP_LIMIT,
                all == executed(*body, self@, block, (STEP_LIMIT - self.steps) as nat),
                all == executed(*body, old(self)@, 0, (STEP_LIMIT - old(self).steps) as nat),
            decreases STEP_LIMIT - self.steps,
        {
            if self.steps >= STEP_LIMIT {
                return Err("gave up after 1000000 steps".to_owned());
            }
            self.steps = self.steps + 1;

            if block >= body.blocks.len() {
                let mut why = numbered("jumped to bb", block);
                why.append(", which does not exist");
                return Err(why);
            }
            let bb: &Block = &body.blocks[block];
            let r = self.statements(&bb.statements);
            if let Err(why) = r {
                return Err(why);
            }
            match &bb.terminator {
                Terminator::Goto { target } => {
                    block = *target;
                },
                Terminator::Return => {
                    proof {
                        value::lemma_views(self.locals@, self.locals@.len());
                        assert(value::well_formed(self@[0]));
                    }
                    return Ok(self.locals[0].clone());
                },
                Terminator::SwitchInt { discr, branches, otherwise } => {
                    let v = match self.operand(discr) {
                        Ok(v) => v,
                        Err(why) => return Err(why),
                    };
                    match v.discriminant() {
                        Ok(raw) => {
                            block = switch(branches, *otherwise, raw);
                        },
                        Err(why) => return Err(why),
                    }
                },
                Terminator::Assert { cond, expected, target, message } => {
                    let v = match self.operand(cond) {
                        Ok(v) => v,
                        Err(why) => return Err(why),
                    };
                    match v.as_bool() {
                        Ok(held) => {
                            if held != *expected {
                                return Err(copied(message));
                            }
                            block = *target;
                        },
                        Err(why) => return Err(why),
                    }
                },
                Terminator::Call { func } => {
                    return Err(described("calls are not interpreted yet: ", func));
                },
                Terminator::Unreachable => {
                    return Err("reached unreachable".to_owned());
                },
                Terminator::Other { text } => {
                    return Err(described("terminator not interpreted yet: ", text));
                },
            }
        }
    }

    /// The statements of a block, one after the other.
    fn statements(&mut self, statements: &Vec<Statement>) -> (r: Result<(), String>)
        requires
            old(self).wf(),
        ensures
            unit_outcome(r, final(self)@) == after_statements(
                old(self)@,
                statements@,
                statements@.len(),
            ),
            final(self).wf(),
            final(self)@.len() == old(self)@.len(),
            final(self).steps == old(self).steps,
    {
        let ghost before = self@;
        let n: usize = statements.len();
        let mut i: usize = 0;
        while i < n
            invariant
                i <= n,
                n == statements@.len(),
                old(self)@ == before,
                self.wf(),
                self@.len() == before.len(),
                self.steps == old(self).steps,
                Ok::<Seq<Val>, Seq<char>>(self@) == after_statements(before, statements@, i as nat),
            decreases n - i,
        {
            let r = self.statement(&statements[i]);
            i = i + 1;
            if let Err(why) = r {
                proof {
                    lemma_stops_early(before, statements@, i as nat, n as nat);
                }
                return Err(why);
            }
        }
        Ok(())
    }

    fn statement(&mut self, s: &Statement) -> (r: Result<(), String>)
        requires
            old(self).wf(),
        ensures
            unit_outcome(r, final(self)@) == after_statement(old(self)@, *s),
            final(self).wf(),
            final(self)@.len() == old(self)@.len(),
            final(self).steps == old(self).steps,
    {
        match s {
            Statement::Assign(place, rvalue) => match self.rvalue(rvalue) {
                Ok(v) => self.store(place, v),
                Err(why) => Err(why),
            },
            Statement::Marker => Ok(()),
            Statement::Other { text } => Err(described("statement not interpreted yet: ", text)),
        }
    }

    fn rvalue(&self, rvalue: &Rvalue) -> (r: Result<Value, String>)
        requires
            self.wf(),
        ensures
            value::outcome(r) == rvalue_result(self@, *rvalue),
            r matches Ok(v) ==> value::well_formed(v@),
    {
        match rvalue {
            Rvalue::Use(operand) => self.operand(operand),
            Rvalue::BinaryOp(op, lhs, rhs) => {
                let lhs = match self.operand(lhs) {
                    Ok(v) => v,
                    Err(why) => return Err(why),
                };
                let rhs = match self.operand(rhs) {
                    Ok(v) => v,
                    Err(why) => return Err(why),
                };
                match binary(*op, &lhs, &rhs) {
                    Ok((v, _)) => Ok(v),
                    Err(why) => Err(why),
                }
            },
            Rvalue::CheckedBinaryOp(op, lhs, rhs) => {
                let lhs = match self.operand(lhs) {
                    Ok(v) => v,
                    Err(why) => return Err(why),
                };
                let rhs = match self.operand(rhs) {
                    Ok(v) => v,
                    Err(why) => return Err(why),
                };
                match binary(*op, &lhs, &rhs) {
                    Ok((v, overflowed)) => {
                        let ghost pair = seq![v@, Val::Bool(overflowed)];
                        let r = Value::Aggregate(vec![v, Value::Bool(overflowed)]);
                        proof {
                            let parts = r->Aggregate_0@;
                            value::lemma_views(parts, parts.len());
                            assert(value::all_views(parts) =~= pair);
                            value::lemma_well_formed_parts(pair, pair.len());
                        }
                        Ok(r)
                    },
                    Err(why) => Err(why),
                }
            },
            Rvalue::UnaryOp(op, operand) => match self.operand(operand) {
                Ok(v) => unary(*op, &v),
                Err(why) => Err(why),
            },
            Rvalue::Cast(operand, ty) => match self.operand(operand) {
                Ok(v) => cast(&v, ty),
                Err(why) => Err(why),
            },
            Rvalue::Aggregate(operands) => match self.operands(operands) {
                Ok(parts) => {
                    proof {
                        let vs = value::all_views(parts@);
                        value::lemma_views(parts@, parts@.len());
                        value::lemma_well_formed_parts(vs, vs.len());
                    }
                    Ok(Value::Aggregate(parts))
                },
                Err(why) => Err(why),
            },
            Rvalue::CopyForDeref(place) => self.load(place),
            Rvalue::Other { text } => Err(described("rvalue not interpreted yet: ", text)),
        }
    }

    /// What operands stand for.
    fn operands(&self, operands: &Vec<Operand>) -> (r: Result<Vec<Value>, String>)
        requires
            self.wf(),
        ensures
            match r {
                Ok(vs) => {
                    &&& operand_results(self@, operands@, operands@.len()) == Ok::<
                        Seq<Val>,
                        Seq<char>,
                    >(value::all_views(vs@))
                    &&& forall|i: int|
                        0 <= i < vs@.len() ==> value::well_formed((#[trigger] vs@[i])@)
                },
                Err(why) => operand_results(self@, operands@, operands@.len()) == Err::<
                    Seq<Val>,
                    Seq<char>,
                >(why@),
            },
    {
        let mut out: Vec<Value> = Vec::new();
        let n: usize = operands.len();
        let mut i: usize = 0;
        assert(value::all_views(out@) =~= Seq::empty());
        while i < n
            invariant
                i <= n,
                n == operands@.len(),
                self.wf(),
                operand_results(self@, operands@, i as nat) == Ok::<Seq<Val>, Seq<char>>(
                    value::all_views(out@),
                ),
                forall|j: int| 0 <= j < out@.len() ==> value::well_formed((#[trigger] out@[j])@),
            decreases n - i,
        {
            let r = self.operand(&operands[i]);
            i = i + 1;
            match r {
                Ok(v) => {
                    let ghost shorter = out@;
                    out.push(v);
                    proof {
                        value::lemma_views(shorter, shorter.len());
                        value::lemma_views(out@, out@.len());
                        assert(value::all_views(out@) =~= value::all_views(shorter).push(v@));
                    }
                },
                Err(why) => {
                    proof {
                        lemma_fails_early(self@, operands@, i as nat, n as nat);
                    }
                    return Err(why);
                },
            }
        }
        Ok(out)
    }

    fn operand(&self, operand: &Operand) -> (r: Result<Value, String>)
        requires
            self.wf(),
        ensures
            value::outcome(r) == operand_result(self@, *operand),
            r matches Ok(v) ==> value::well_formed(v@),
    {
        match operand {
            Operand::Copy(place) => self.load(place),
            Operand::Move(place) => self.load(place),
            Operand::Constant(c) => constant(c),
            Operand::RuntimeChecks { overflow } => Ok(Value::Bool(*overflow)),
        }
    }

    fn load(&self, place: &Place) -> (r: Result<Value, String>)
        requires
            self.wf(),
        ensures
            value::outcome(r) == loaded(self@, *place),
            r matches Ok(v) ==> value::well_formed(v@),
    {
        proof {
            value::lemma_views(self.locals@, self.locals@.len());
        }
        if place.local >= self.locals.len() {
            return Err(numbered("no local _", place.local));
        }
        assert(value::well_formed(self@[place.local as int]));
        let mut v: &Value = &self.locals[place.local];
        let n: usize = place.projection.len();
        let mut i: usize = 0;
        while i < n
            invariant
                i <= n,
                n == place.projection@.len(),
                place.local < self@.len(),
                value::well_formed(v@),
                projected(v@, place.projection@, i as nat) == projected(
                    self@[place.local as int],
                    place.projection@,
                    0,
                ),
            decreases n - i,
        {
            match &place.projection[i] {
                Projection::Field { index, .. } => match v {
                    Value::Aggregate(parts) => {
                        proof {
                            value::lemma_views(parts@, parts@.len());
                            let vs = value::all_views(parts@);
                            value::lemma_well_formed_parts(vs, vs.len());
                        }
                        if *index >= parts.len() {
                            return Err(numbered("no field ", *index));
                        }
                        proof {
                            assert(value::well_formed(value::all_views(parts@)[*index as int]));
                        }
                        v = &parts[*index];
                    },
                    other => return Err(about("cannot take a field of ", other)),
                },
                Projection::Other { text } => {
                    return Err(described("projection not interpreted yet: ", text));
                },
            }
            i = i + 1;
        }
        if v.is_uninit() {
            return Err(numbered("read of uninitialised _", place.local));
        }
        Ok(v.clone())
    }

    fn store(&mut self, place: &Place, v: Value) -> (r: Result<(), String>)
        requires
            old(self).wf(),
            value::well_formed(v@),
        ensures
            unit_outcome(r, final(self)@) == stored(old(self)@, *place, v@),
            r is Err ==> final(self)@ == old(self)@,
            final(self).wf(),
            final(self)@.len() == old(self)@.len(),
            final(self).steps == old(self).steps,
    {
        let ghost before = self.locals@;
        proof {
            value::lemma_views(before, before.len());
        }
        if place.local >= self.locals.len() {
            return Err(numbered("no local _", place.local));
        }
        if place.projection.len() == 0 {
            let ghost put = v@;
            self.locals.set(place.local, v);
            proof {
                value::lemma_views(self.locals@, self.locals@.len());
                assert(self@ =~= value::all_views(before).update(place.local as int, put));
            }
            return Ok(());
        }
        // Only one level of field projection is supported, which is all the
        // bodies reached so far need.
        if place.projection.len() > 1 {
            return Err(refused_path(&place.projection));
        }
        let index: usize = match &place.projection[0] {
            Projection::Field { index, .. } => *index,
            Projection::Other { .. } => return Err(refused_path(&place.projection)),
        };
        let ghost whole = self@[place.local as int];
        match &self.locals[place.local] {
            Value::Aggregate(parts) => {
                if index >= parts.len() {
                    proof {
                        value::lemma_views(parts@, parts@.len());
                    }
                    return Err(numbered("no field ", index));
                }
            },
            other => return Err(about("cannot assign a field of ", other)),
        }
        let mut slot = Value::Uninit;
        std::mem::swap(&mut slot, &mut self.locals[place.local]);
        if let Value::Aggregate(mut parts) = slot {
            let ghost inner = parts@;
            let ghost put = v@;
            parts.set(index, v);
            let ghost changed = parts@;
            self.locals.set(place.local, Value::Aggregate(parts));
            proof {
                value::lemma_views(inner, inner.len());
                value::lemma_views(changed, changed.len());
                value::lemma_views(self.locals@, self.locals@.len());
                let vs = value::all_views(inner);
                let ws = value::all_views(changed);
                assert(ws =~= vs.update(index as int, put));
                assert(value::well_formed(whole));
                value::lemma_well_formed_parts(vs, vs.len());
                value::lemma_well_formed_parts(ws, ws.len());
                assert(self@ =~= value::all_views(before).update(
                    place.local as int,
                    Val::Aggregate(ws),
                ));
            }
        }
        Ok(())
    }
}

/// The target a switch takes for a value.
fn switch(branches: &Vec<(u128, usize)>, otherwise: usize, v: u128) -> (r: usize)
    ensures
        r == switched(branches@, otherwise, v, 0),
{
    let mut i: usize = 0;
    while i < branches.len()
        invariant
            i <= branches@.len(),
            switched(branches@, otherwise, v, 0) == switched(branches@, otherwise, v, i as nat),
        decreases branches@.len() - i,
    {
        if branches[i].0 == v {
            return branches[i].1;
        }
        i = i + 1;
    }
    otherwise
}

/// Once a statement stopped the run, the statements after it do not matter.
proof fn lemma_stops_early(locals: Seq<Val>, ss: Seq<Statement>, i: nat, n: nat)
    requires
        i <= n,
        after_statements(locals, ss, i) is Err,
    ensures
        after_statements(locals, ss, n) == after_statements(locals, ss, i),
    decreases n,
{
    if i < n {
        lemma_stops_early(locals, ss, i, (n - 1) as nat);
    }
}

/// Once an operand stands for nothing, the operands after it do not matter.
proof fn lemma_fails_early(locals: Seq<Val>, os: Seq<Operand>, i: nat, n: nat)
    requires
        i <= n,
        operand_results(locals, os, i) is Err,
    ensures
        operand_results(locals, os, n) == operand_results(locals, os, i),
    decreases n,
{
    if i < n {
        lemma_fails_early(locals, os, i, (n - 1) as nat);
    }
}

// ------------------------------------------------------------------ laws ---

/// What was assigned to a place is what the place then holds, and no other
/// local changes.
pub proof fn a_load_gives_back_the_store(locals: Seq<Val>, place: Place, v: Val)
    requires
        stored(locals, place, v) is Ok,
        v !is Uninit,
    ensures
        ({
            let after = stored(locals, place, v)->Ok_0;
            &&& loaded(after, place) == Ok::<Val, Seq<char>>(v)
            &&& after.len() == locals.len()
            &&& forall|i: int|
                0 <= i < locals.len() && i != place.local ==> #[trigger] after[i] == locals[i]
        }),
{
    reveal_with_fuel(projected, 2);
}

/// A local that was never assigned cannot be read.
pub proof fn unassigned_locals_cannot_be_read(locals: Seq<Val>, place: Place)
    requires
        place.local < locals.len(),
        locals[place.local as int] is Uninit,
    ensures
        loaded(locals, place) is Err,
{
}

/// A run that returns within so many steps returns the same with more: the
/// limit only ever cuts off.
pub proof fn the_limit_only_cuts_off(
    body: Body,
    locals: Seq<Val>,
    block: usize,
    left: nat,
    more: nat,
)
    requires
        left <= more,
        executed(body, locals, block, left) is Ok,
    ensures
        executed(body, locals, block, more) == executed(body, locals, block, left),
    decreases left,
{
    let b = body.blocks@[block as int];
    let now = after_statements(locals, b.statements@, b.statements@.len())->Ok_0;
    if let Next::Block(target) = after_block(now, b.terminator) {
        the_limit_only_cuts_off(body, now, target, (left - 1) as nat, (more - 1) as nat);
    }
}

/// Marking statements change nothing.
proof fn lemma_markers(locals: Seq<Val>, ss: Seq<Statement>, n: nat)
    requires
        n <= ss.len(),
        forall|i: int| 0 <= i < n ==> #[trigger] ss[i] is Marker,
    ensures
        after_statements(locals, ss, n) == Ok::<Seq<Val>, Seq<char>>(locals),
    decreases n,
{
    if n > 0 {
        lemma_markers(locals, ss, (n - 1) as nat);
    }
}

/// A body whose blocks only lead on to each other does not hang the
/// interpreter: it is given up.
pub proof fn a_body_that_never_ends_is_given_up(
    body: Body,
    locals: Seq<Val>,
    block: usize,
    left: nat,
)
    requires
        block < body.blocks@.len(),
        forall|i: int|
            0 <= i < body.blocks@.len() ==> {
                &&& (#[trigger] body.blocks@[i]).terminator is Goto
                &&& body.blocks@[i].terminator->Goto_target < body.blocks@.len()
                &&& forall|j: int|
                    0 <= j < body.blocks@[i].statements@.len()
                        ==> #[trigger] body.blocks@[i].statements@[j] is Marker
            },
    ensures
        executed(body, locals, block, left) == Err::<Val, Seq<char>>(
            "gave up after 1000000 steps"@,
        ),
    decreases left,
{
    if left > 0 {
        let b = body.blocks@[block as int];
        lemma_markers(locals, b.statements@, b.statements@.len());
        a_body_that_never_ends_is_given_up(
            body,
            locals,
            b.terminator->Goto_target,
            (left - 1) as nat,
        );
    }
}

/// Checked arithmetic and the assertion on its flag stop with the assertion's
/// message exactly when the exact result does not fit, and go on with the
/// exact result otherwise.
pub proof fn overflow_is_caught(
    locals: Seq<Val>,
    op: ops::BinOp,
    lhs: Operand,
    rhs: Operand,
    pair: Place,
    flag: Place,
    kind: IntKind,
    left: u128,
    right: u128,
    target: usize,
    message: String,
)
    requires
        kind.wf(),
        left < kind.size(),
        right < kind.size(),
        op == ops::BinOp::Add || op == ops::BinOp::Sub || op == ops::BinOp::Mul,
        operand_result(locals, lhs) == Ok::<Val, Seq<char>>(Val::Int { raw: left, kind }),
        operand_result(locals, rhs) == Ok::<Val, Seq<char>>(Val::Int { raw: right, kind }),
        pair.local < locals.len(),
        pair.projection@.len() == 0,
        flag.local == pair.local,
        flag.projection@.len() == 1,
        flag.projection@[0] is Field,
        flag.projection@[0]->index == 1,
    ensures
        ({
            let n = match op {
                ops::BinOp::Add => kind.value(left) + kind.value(right),
                ops::BinOp::Sub => kind.value(left) - kind.value(right),
                _ => kind.value(left) * kind.value(right),
            };
            let assigned = after_statement(
                locals,
                Statement::Assign(pair, Rvalue::CheckedBinaryOp(op, lhs, rhs)),
            );
            &&& assigned matches Ok(after)
            &&& after_block(
                after,
                Terminator::Assert { cond: Operand::Move(flag), expected: false, target, message },
            ) == if kind.in_range(n) {
                Next::Block(target)
            } else {
                Next::Done(Err(message@))
            }
            &&& kind.in_range(n) ==> (after[pair.local as int] matches Val::Aggregate(parts)
                && parts[0] matches Val::Int { raw, kind: k } && k == kind && kind.value(raw) == n)
        }),
{
    reveal_with_fuel(projected, 2);
    ops::arithmetic_without_overflow_is_exact(op, kind, left, right);
}

/// A switch leads to the first branch whose arm is the value, and where there
/// is none to the target for every other value.
pub proof fn switches_take_the_first_matching_branch(
    branches: Seq<(u128, usize)>,
    otherwise: usize,
    v: u128,
    from: nat,
)
    ensures
        forall|j: int|
            from <= j < branches.len() && (#[trigger] branches[j]).0 == v && (forall|i: int|
                from <= i < j ==> (#[trigger] branches[i]).0 != v) ==> switched(
                branches,
                otherwise,
                v,
                from,
            ) == branches[j].1,
        (forall|i: int| from <= i < branches.len() ==> (#[trigger] branches[i]).0 != v) ==> switched(
            branches,
            otherwise,
            v,
            from,
        ) == otherwise,
    decreases branches.len() - from,
{
    if from < branches.len() {
        switches_take_the_first_matching_branch(branches, otherwise, v, from + 1);
    }
}

/// Where a block's end leads: a jump to its target, a switch by the truth value
/// or the bits it looks at, an assertion to its target if the condition is as
/// expected and else to its message, and a return to what the first local
/// holds.
pub proof fn blocks_end_as_they_say(
    locals: Seq<Val>,
    o: Operand,
    target: usize,
    branches: Vec<(u128, usize)>,
    otherwise: usize,
    expected: bool,
    message: String,
)
    ensures
        after_block(locals, Terminator::Goto { target }) == Next::Block(target),
        after_block(locals, Terminator::Return) == Next::Done(Ok::<Val, Seq<char>>(locals[0])),
        after_block(locals, Terminator::Unreachable) matches Next::Done(r) && r is Err,
        operand_result(locals, o) matches Ok(Val::Bool(b)) ==> {
            &&& after_block(locals, Terminator::Assert { cond: o, expected, target, message })
                == if b == expected {
                Next::Block(target)
            } else {
                Next::Done(Err::<Val, Seq<char>>(message@))
            }
            &&& after_block(locals, Terminator::SwitchInt { discr: o, branches, otherwise })
                == Next::Block(
                switched(
                    branches@,
                    otherwise,
                    if b {
                        1
                    } else {
                        0
                    },
                    0,
                ),
            )
        },
        operand_result(locals, o) matches Ok(Val::Int { raw, .. }) ==> {
            &&& after_block(locals, Terminator::SwitchInt { discr: o, branches, otherwise })
                == Next::Block(switched(branches@, otherwise, raw, 0))
            &&& after_block(locals, Terminator::Assert { cond: o, expected, target, message })
                matches Next::Done(r) && r is Err
        },
        operand_result(locals, o) is Err ==> {
            &&& after_block(locals, Terminator::SwitchInt { discr: o, branches, otherwise })
                matches Next::Done(r) && r is Err
            &&& after_block(locals, Terminator::Assert { cond: o, expected, target, message })
                matches Next::Done(r) && r is Err
        },
{
}

/// The statements of a block run one after the other: running some and then the
/// rest is running all, and the first that stops, stops the block.
pub proof fn statements_run_in_order(locals: Seq<Val>, ss: Seq<Statement>, k: nat, n: nat)
    requires
        k <= n <= ss.len(),
    ensures
        after_statements(locals, ss, k) matches Err(why) ==> after_statements(locals, ss, n)
            == Err::<Seq<Val>, Seq<char>>(why),
        after_statements(locals, ss, k) matches Ok(now) ==> after_statements(locals, ss, n)
            == after_statements(now, ss.skip(k as int), (n - k) as nat),
        n > 0 ==> after_statements(locals, ss.take(1), 1) == after_statement(locals, ss[0]),
    decreases n - k,
{
    reveal_with_fuel(after_statements, 2);
    if n > k {
        statements_run_in_order(locals, ss, k, (n - 1) as nat);
        assert(ss.skip(k as int)[n - k - 1] == ss[n - 1]);
    }
    if n > 0 {
        assert(ss.take(1)[0] == ss[0]);
    }
}

/// Checked arithmetic gives the pair of what the plain operator gives and the
/// flag, and both stop for the same reasons.
pub proof fn checked_operators_give_value_and_flag(
    locals: Seq<Val>,
    op: ops::BinOp,
    lhs: Operand,
    rhs: Operand,
    a: Val,
    b: Val,
)
    requires
        operand_result(locals, lhs) == Ok::<Val, Seq<char>>(a),
        operand_result(locals, rhs) == Ok::<Val, Seq<char>>(b),
    ensures
        match ops::binary_result(op, a, b) {
            Ok((v, flag)) => {
                &&& rvalue_result(locals, Rvalue::BinaryOp(op, lhs, rhs)) == Ok::<Val, Seq<char>>(v)
                &&& rvalue_result(locals, Rvalue::CheckedBinaryOp(op, lhs, rhs)) matches Ok(
                    Val::Aggregate(pair),
                )
                &&& pair.len() == 2
                &&& pair[0] == v
                &&& pair[1] == Val::Bool(flag)
            },
            Err(why) => {
                &&& rvalue_result(locals, Rvalue::BinaryOp(op, lhs, rhs)) == Err::<Val, Seq<char>>(
                    why,
                )
                &&& rvalue_result(locals, Rvalue::CheckedBinaryOp(op, lhs, rhs)) == Err::<
                    Val,
                    Seq<char>,
                >(why)
            },
        },
{
}

/// Copying and moving read a place alike, and a check on the build holds if it
/// is the one for overflow.
pub proof fn operands_read_what_is_there(locals: Seq<Val>, place: Place, i: usize, v: Val)
    requires
        place.local == i,
        place.projection@.len() == 0,
        i < locals.len(),
        locals[i as int] == v,
        v !is Uninit,
    ensures
        operand_result(locals, Operand::Copy(place)) == Ok::<Val, Seq<char>>(v),
        operand_result(locals, Operand::Move(place)) == Ok::<Val, Seq<char>>(v),
        rvalue_result(locals, Rvalue::Use(Operand::Copy(place))) == Ok::<Val, Seq<char>>(v),
        rvalue_result(locals, Rvalue::CopyForDeref(place)) == Ok::<Val, Seq<char>>(v),
        operand_result(locals, Operand::RuntimeChecks { overflow: true }) == Ok::<Val, Seq<char>>(
            Val::Bool(true),
        ),
        operand_result(locals, Operand::RuntimeChecks { overflow: false }) == Ok::<Val, Seq<char>>(
            Val::Bool(false),
        ),
{
}

/// A field of an aggregate is the part in its place, and assigning one leaves
/// the other parts as they were.
pub proof fn fields_are_parts(locals: Seq<Val>, place: Place, parts: Seq<Val>, v: Val)
    requires
        place.local < locals.len(),
        place.projection@.len() == 1,
        place.projection@[0] is Field,
        locals[place.local as int] == Val::Aggregate(parts),
    ensures
        ({
            let k = place.projection@[0]->index;
            &&& k < parts.len() && parts[k as int] !is Uninit ==> loaded(locals, place) == Ok::<
                Val,
                Seq<char>,
            >(parts[k as int])
            &&& k >= parts.len() ==> loaded(locals, place) is Err && stored(locals, place, v) is Err
            &&& k < parts.len() ==> {
                &&& stored(locals, place, v) matches Ok(after)
                &&& after[place.local as int] matches Val::Aggregate(now)
                &&& now.len() == parts.len()
                &&& now[k as int] == v
                &&& forall|j: int|
                    0 <= j < parts.len() && j != k ==> #[trigger] now[j] == parts[j]
            }
        }),
{
    reveal_with_fuel(projected, 2);
}

/// An aggregate holds what its operands stand for, in order.
pub proof fn aggregates_hold_their_operands(locals: Seq<Val>, os: Seq<Operand>, n: nat)
    requires
        n <= os.len(),
    ensures
        operand_results(locals, os, n) matches Ok(vs) ==> vs.len() == n && forall|i: int|
            0 <= i < n ==> operand_result(locals, os[i]) == Ok::<Val, Seq<char>>(#[trigger] vs[i]),
        operand_results(locals, os, n) is Ok <==> forall|i: int|
            0 <= i < n ==> operand_result(locals, #[trigger] os[i]) is Ok,
    decreases n,
{
    if n > 0 {
        aggregates_hold_their_operands(locals, os, (n - 1) as nat);
        if forall|i: int| 0 <= i < n ==> operand_result(locals, #[trigger] os[i]) is Ok {
            assert(operand_result(locals, os[n - 1]) is Ok);
        }
    }
}

/// A constant of an integer type stands for its bits modulo what the type
/// holds, and one of truth type holds unless all its bits are zero.
pub proof fn constants_stand_for_their_bits(ty: Ty, raw: u128)
    ensures
        syntax::kind_of(ty.shape) matches Some(kind) ==> {
            &&& constant_result(Constant::Allocated { ty, bits: Ok(raw) }) matches Ok(
                Val::Int { raw: bits, kind: k },
            )
            &&& k == kind
            &&& bits == raw as int % kind.size()
        },
        ty.shape is Bool ==> constant_result(Constant::Allocated { ty, bits: Ok(raw) }) == Ok::<
            Val,
            Seq<char>,
        >(Val::Bool(raw != 0)),
        ty.shape is Other ==> constant_result(Constant::Allocated { ty, bits: Ok(raw) }) is Err,
{
    if let Some(kind) = syntax::kind_of(ty.shape) {
        crate::mir::kinds::truncating_twice_is_truncating_once(kind, raw);
        crate::mir::kinds::lemma_sizes(kind);
    }
}

/// A body starts at its first block with nothing assigned, may enter a million
/// blocks, and gives back its first local when a block returns.
pub proof fn bodies_run_from_their_first_block(body: Body)
    requires
        body.blocks@.len() > 0,
        body.blocks@[0].statements@.len() == 0,
        body.locals > 0,
    ensures
        body.blocks@[0].terminator is Return ==> run_result(body) == Ok::<Val, Seq<char>>(
            Val::Uninit,
        ),
        body.blocks@[0].terminator matches Terminator::Goto { target } ==> run_result(body)
            == executed(
            body,
            Seq::new(body.locals as nat, |i: int| Val::Uninit),
            target,
            999_999,
        ),
{
}

/// A computation on one operand applies its operator to what the operand stands
/// for, and an aggregate has a part for each of its operands.
pub proof fn computations_apply_their_operator(
    locals: Seq<Val>,
    o: Operand,
    v: Val,
    op: ops::UnOp,
    ty: Ty,
    os: Vec<Operand>,
)
    requires
        operand_result(locals, o) == Ok::<Val, Seq<char>>(v),
    ensures
        rvalue_result(locals, Rvalue::Use(o)) == Ok::<Val, Seq<char>>(v),
        rvalue_result(locals, Rvalue::UnaryOp(op, o)) == ops::unary_result(op, v),
        syntax::kind_of(ty.shape) matches Some(kind) ==> rvalue_result(locals, Rvalue::Cast(o, ty))
            == ops::cast_result(v, kind),
        syntax::kind_of(ty.shape) is None ==> rvalue_result(locals, Rvalue::Cast(o, ty)) is Err,
        rvalue_result(locals, Rvalue::Aggregate(os)) is Ok <==> forall|i: int|
            0 <= i < os@.len() ==> operand_result(locals, #[trigger] os@[i]) is Ok,
        rvalue_result(locals, Rvalue::Aggregate(os)) matches Ok(x) ==> {
            &&& x matches Val::Aggregate(parts)
            &&& parts.len() == os@.len()
            &&& forall|i: int|
                0 <= i < parts.len() ==> operand_result(locals, os@[i]) == Ok::<Val, Seq<char>>(
                    #[trigger] parts[i],
                )
        },
{
    aggregates_hold_their_operands(locals, os@, os@.len());
}

/// An operand that stands for nothing stops every computation on it, and the
/// first such operand says why.
pub proof fn the_first_failure_stops(
    locals: Seq<Val>,
    o: Operand,
    other: Operand,
    v: Val,
    fine: Operand,
    why: Seq<char>,
    bin: ops::BinOp,
    un: ops::UnOp,
    ty: Ty,
    place: Place,
)
    requires
        operand_result(locals, o) == Err::<Val, Seq<char>>(why),
        operand_result(locals, fine) == Ok::<Val, Seq<char>>(v),
    ensures
        forall|r: Rvalue|
            r == Rvalue::Use(o) || r == Rvalue::BinaryOp(bin, o, other) || r
                == Rvalue::BinaryOp(bin, fine, o) || r == Rvalue::CheckedBinaryOp(bin, o, other)
                || r == Rvalue::CheckedBinaryOp(bin, fine, o) || r == Rvalue::UnaryOp(un, o) || r
                == Rvalue::Cast(o, ty) ==> #[trigger] rvalue_result(locals, r) == Err::<
                Val,
                Seq<char>,
            >(why) && after_statement(locals, Statement::Assign(place, r)) == Err::<
                Seq<Val>,
                Seq<char>,
            >(why),
{
}

/// An assignment to a local changes that local alone, to what was computed, and
/// a marker changes nothing.
pub proof fn assignments_change_one_local(locals: Seq<Val>, place: Place, r: Rvalue, v: Val)
    requires
        place.projection@.len() == 0,
        rvalue_result(locals, r) == Ok::<Val, Seq<char>>(v),
    ensures
        after_statement(locals, Statement::Marker) == Ok::<Seq<Val>, Seq<char>>(locals),
        place.local >= locals.len() ==> after_statement(locals, Statement::Assign(place, r)) is Err,
        place.local < locals.len() ==> {
            &&& after_statement(locals, Statement::Assign(place, r)) matches Ok(after)
            &&& after.len() == locals.len()
            &&& after[place.local as int] == v
            &&& forall|i: int|
                0 <= i < locals.len() && i != place.local ==> #[trigger] after[i] == locals[i]
        },
{
}

/// What the interpreter does not know it refuses: it never makes up a value.
pub proof fn the_unknown_is_refused(locals: Seq<Val>, what: String, place: Place)
    ensures
        rvalue_result(locals, Rvalue::Other { text: what }) is Err,
        after_statement(locals, Statement::Other { text: what }) is Err,
        constant_result(Constant::Other { text: what }) is Err,
        after_block(locals, Terminator::Call { func: what }) matches Next::Done(r) && r is Err,
        after_block(locals, Terminator::Other { text: what }) matches Next::Done(r) && r is Err,
        place.local >= locals.len() ==> loaded(locals, place) is Err,
{
}

/// A path of fields is followed one after the other: the last field is taken of
/// what the rest of the path leads to.
pub proof fn paths_are_followed_step_by_step(v: Val, path: Seq<Projection>, i: nat)
    requires
        i < path.len(),
        path.last() is Field,
    ensures
        projected(v, path, i) == match projected(v, path.drop_last(), i) {
            Ok(Val::Aggregate(parts)) => if path.last()->index < parts.len() {
                Ok::<Val, Seq<char>>(parts[path.last()->index as int])
            } else {
                Err("no field "@ + text::decimal(path.last()->index as nat))
            },
            Ok(other) => Err("cannot take a field of "@ + value::debug_text(other)),
            Err(why) => Err(why),
        },
    decreases path.len() - i,
{
    let shorter = path.drop_last();
    if i + 1 < path.len() {
        assert(shorter[i as int] == path[i as int]);
        match (path[i as int], v) {
            (Projection::Field { index, .. }, Val::Aggregate(parts)) => {
                if index < parts.len() {
                    paths_are_followed_step_by_step(parts[index as int], path, i + 1);
                }
            },
            _ => {},
        }
    } else {
        reveal_with_fuel(projected, 2);
    }
}

/// A body goes on from block to block: what a block leads to is run with the
/// locals as the block leaves them and one block less to go, and a block that
/// does not exist, or one too many, is refused.
pub proof fn blocks_follow_one_another(
    body: Body,
    locals: Seq<Val>,
    now: Seq<Val>,
    block: usize,
    target: usize,
    left: nat,
)
    requires
        block < body.blocks@.len(),
        after_statements(
            locals,
            body.blocks@[block as int].statements@,
            body.blocks@[block as int].statements@.len(),
        ) == Ok::<Seq<Val>, Seq<char>>(now),
    ensures
        executed(body, locals, block, 0) is Err,
        body.blocks@[block as int].terminator == (Terminator::Goto { target }) ==> executed(
            body,
            locals,
            block,
            left + 1,
        ) == executed(body, now, target, left),
        body.blocks@[block as int].terminator is Return ==> executed(body, locals, block, left + 1)
            == Ok::<Val, Seq<char>>(now[0]),
        target >= body.blocks@.len() ==> executed(body, now, target, left + 1) is Err,
{
}

} // verus!

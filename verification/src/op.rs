//! Computational operators: atoms whose truth is computed rather than stored.
//!
//! An operator is a partial function with a fixed direction: its first `input_arity()`
//! variables are inputs and, if it `has_output()`, its last variable is the single output,
//! uniquely determined by the inputs. An operator without output only checks its inputs.
use vstd::prelude::*;
use std::rc::Rc;

use crate::value::Value;

verus! {

/// Number of variables of an operator atom: its inputs, plus one if it has an output.
pub open spec fn op_arity<Op: Operator + ?Sized>(op: &Op) -> nat {
    op.spec_input_arity() + if op.spec_has_output() { 1nat } else { 0nat }
}

/// An operator. Its meaning is given by four spec functions, which a verified implementation
/// defines; an implementation written outside verified code leaves them unspecified, and
/// nothing is then known of its results.
pub trait Operator {
    /// The number of input variables.
    closed spec fn spec_input_arity(&self) -> nat {
        arbitrary()
    }

    /// Whether the operator has an output variable.
    closed spec fn spec_has_output(&self) -> bool {
        arbitrary()
    }

    /// Whether `args` (inputs, then the output if any) satisfy the operator.
    closed spec fn spec_check(&self, args: Seq<Value>) -> bool {
        arbitrary()
    }

    /// The output determined by `inputs`, if there is one.
    closed spec fn spec_compute(&self, inputs: Seq<Value>) -> Option<Value> {
        arbitrary()
    }

    fn input_arity(&self) -> (n: usize)
        ensures
            n == self.spec_input_arity(),
            n < usize::MAX,
    ;

    fn has_output(&self) -> (b: bool)
        ensures
            b == self.spec_has_output(),
    ;

    fn arity(&self) -> (n: usize)
        ensures
            n == self.spec_input_arity() + if self.spec_has_output() { 1nat } else { 0nat },
    {
        let k = self.input_arity();
        if self.has_output() {
            k + 1
        } else {
            k
        }
    }

    fn check(&self, args: &[Value]) -> (b: bool)
        requires
            args@.len() == self.spec_input_arity() + if self.spec_has_output() { 1nat } else { 0nat },
        ensures
            b == self.spec_check(args@),
    ;

    fn compute(&self, inputs: &[Value]) -> (r: Option<Value>)
        requires
            self.spec_has_output(),
            inputs@.len() == self.spec_input_arity(),
        ensures
            r == self.spec_compute(inputs@),
    ;
}

impl<T: Operator> Operator for &T {
    open spec fn spec_input_arity(&self) -> nat {
        (**self).spec_input_arity()
    }

    open spec fn spec_has_output(&self) -> bool {
        (**self).spec_has_output()
    }

    open spec fn spec_check(&self, args: Seq<Value>) -> bool {
        (**self).spec_check(args)
    }

    open spec fn spec_compute(&self, inputs: Seq<Value>) -> Option<Value> {
        (**self).spec_compute(inputs)
    }

    fn input_arity(&self) -> (n: usize) {
        (**self).input_arity()
    }

    fn has_output(&self) -> (b: bool) {
        (**self).has_output()
    }

    fn arity(&self) -> (n: usize) {
        (**self).arity()
    }

    fn check(&self, args: &[Value]) -> (b: bool) {
        (**self).check(args)
    }

    fn compute(&self, inputs: &[Value]) -> (r: Option<Value>) {
        (**self).compute(inputs)
    }

}

/// An operator with an output computes exactly the outputs that it checks, and only
/// those: `compute(inputs) == Some(out)` exactly when `check(inputs ++ [out])`.
pub open spec fn op_coherent<Op: Operator + ?Sized>(op: &Op) -> bool {
    op.spec_has_output() ==> forall|inputs: Seq<Value>, out: Value|
        #![trigger op.spec_check(inputs.push(out))]
        inputs.len() == op.spec_input_arity() ==> (op.spec_compute(inputs) == Some(out)
            <==> op.spec_check(inputs.push(out)))
}

/// Operators behind a shared pointer, dispatched dynamically.
impl Operator for Rc<dyn Operator> {
    open spec fn spec_input_arity(&self) -> nat {
        (**self).spec_input_arity()
    }

    open spec fn spec_has_output(&self) -> bool {
        (**self).spec_has_output()
    }

    open spec fn spec_check(&self, args: Seq<Value>) -> bool {
        (**self).spec_check(args)
    }

    open spec fn spec_compute(&self, inputs: Seq<Value>) -> Option<Value> {
        (**self).spec_compute(inputs)
    }

    fn input_arity(&self) -> (n: usize) {
        (**self).input_arity()
    }

    fn has_output(&self) -> (b: bool) {
        (**self).has_output()
    }

    fn arity(&self) -> (n: usize) {
        (**self).arity()
    }

    fn check(&self, args: &[Value]) -> (b: bool) {
        (**self).check(args)
    }

    fn compute(&self, inputs: &[Value]) -> (r: Option<Value>) {
        (**self).compute(inputs)
    }

}

/// Addition `x + y = z`: inputs `x`, `y`; output `z`. A sum that does not fit in a
/// `Value` has no output, and no `z` checks against it.
#[derive(Clone, Copy, Debug)]
pub struct Add;

impl Operator for Add {
    open spec fn spec_input_arity(&self) -> nat {
        2
    }

    open spec fn spec_has_output(&self) -> bool {
        true
    }

    open spec fn spec_check(&self, args: Seq<Value>) -> bool {
        args[0] + args[1] == args[2]
    }

    open spec fn spec_compute(&self, inputs: Seq<Value>) -> Option<Value> {
        if inputs[0] + inputs[1] <= usize::MAX {
            Some((inputs[0] + inputs[1]) as usize)
        } else {
            None
        }
    }

    fn input_arity(&self) -> (n: usize) {
        2
    }

    fn has_output(&self) -> (b: bool) {
        true
    }

    fn check(&self, args: &[Value]) -> (b: bool) {
        match args[0].checked_add(args[1]) {
            Some(s) => s == args[2],
            None => false,
        }
    }

    fn compute(&self, inputs: &[Value]) -> (r: Option<Value>) {
        inputs[0].checked_add(inputs[1])
    }

}

/// Addition computes exactly the sums it checks.
pub proof fn lemma_add_coherent()
    ensures
        op_coherent(&Add),
{
    assert forall|inputs: Seq<Value>, out: Value|
        #![trigger Add.spec_check(inputs.push(out))]
        inputs.len() == 2 implies (Add.spec_compute(inputs) == Some(out)
            <==> Add.spec_check(inputs.push(out))) by {
        assert(inputs.push(out)[0] == inputs[0]);
        assert(inputs.push(out)[1] == inputs[1]);
        assert(inputs.push(out)[2] == out);
    }
}

/// Inequality has no output, so it is trivially coherent.
pub proof fn lemma_le_coherent()
    ensures
        op_coherent(&Le),
{
}

/// Inequality `x <= y`: inputs `x`, `y`; no output, so it only ever checks.
#[derive(Clone, Copy, Debug)]
pub struct Le;

impl Operator for Le {
    open spec fn spec_input_arity(&self) -> nat {
        2
    }

    open spec fn spec_has_output(&self) -> bool {
        false
    }

    open spec fn spec_check(&self, args: Seq<Value>) -> bool {
        args[0] <= args[1]
    }

    open spec fn spec_compute(&self, inputs: Seq<Value>) -> Option<Value> {
        None
    }

    fn input_arity(&self) -> (n: usize) {
        2
    }

    fn has_output(&self) -> (b: bool) {
        false
    }

    fn check(&self, args: &[Value]) -> (b: bool) {
        args[0] <= args[1]
    }

    fn compute(&self, inputs: &[Value]) -> (r: Option<Value>) {
        None
    }

}

} // verus!

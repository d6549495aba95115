use vstd::prelude::*;

verus! {

/// A value is a machine word. Values that do not fit in one are meant to be interned.
pub type Value = usize;

/// Tag errors of this representation. None is ever produced: every value converts.
#[derive(PartialEq, Eq, Clone, Copy, Debug)]
pub struct TagError;

/// A type that can be converted to a `Value`, and out of one by tag checking.
pub trait ValueType: Sized {
    spec fn spec_to_value(self) -> Value;

    spec fn spec_from_value(value: Value) -> Self;

    fn to_value(self) -> (v: Value)
        ensures
            v == self.spec_to_value(),
    ;

    fn from_value(value: &Value) -> (r: Result<Self, TagError>)
        ensures
            r == Ok::<Self, TagError>(Self::spec_from_value(*value)),
    ;
}

impl ValueType for usize {
    open spec fn spec_to_value(self) -> Value {
        self
    }

    open spec fn spec_from_value(value: Value) -> usize {
        value
    }

    fn to_value(self) -> (v: Value) {
        self
    }

    fn from_value(value: &Value) -> (r: Result<usize, TagError>) {
        Ok(*value)
    }
}

/// Tag-checking and unwrapping of a value.
pub trait Untag {
    fn untag<X: ValueType>(&self) -> (x: X)
        ensures
            x == X::spec_from_value(self.untag_source()),
    ;

    spec fn untag_source(&self) -> Value;
}

impl Untag for Value {
    open spec fn untag_source(&self) -> Value {
        *self
    }

    fn untag<X: ValueType>(&self) -> (x: X) {
        X::from_value(self).unwrap()
    }
}

} // verus!

use vstd::prelude::*;
use std::rc::Rc;

verus! {

/// A value tagged with its kind.
#[derive(Clone, Hash, PartialOrd, Ord, PartialEq, Eq, Debug)]
pub enum Value {
    Int(usize),
    Str(Rc<String>),
}

/// The kinds of values.
#[derive(PartialEq, Eq, PartialOrd, Ord, Clone, Copy, Debug)]
pub enum Tag {
    Int,
    Str,
}

/// A value had another kind than the one asked for.
#[derive(PartialEq, Eq, PartialOrd, Ord, Clone, Copy, Debug)]
pub struct TagError {
    expected: Tag,
    actual: Tag,
}

impl TagError {
    pub closed spec fn spec_new(expected: Tag, actual: Tag) -> TagError {
        TagError { expected, actual }
    }

    pub closed spec fn spec_expected(self) -> Tag {
        self.expected
    }

    pub closed spec fn spec_actual(self) -> Tag {
        self.actual
    }
}

impl Value {
    pub open spec fn spec_tag(&self) -> Tag {
        match self {
            Value::Int(_) => Tag::Int,
            Value::Str(_) => Tag::Str,
        }
    }

    pub fn tag(&self) -> (t: Tag)
        ensures
            t == self.spec_tag(),
    {
        match self {
            Value::Int(_) => Tag::Int,
            Value::Str(_) => Tag::Str,
        }
    }

    /// Converts to `X`; the value must have `X`'s tag.
    pub fn untag<X: ValueType>(&self) -> (x: X)
        requires
            X::spec_from_value(*self) is Ok,
        ensures
            X::spec_from_value(*self) == Ok::<X, TagError>(x),
    {
        X::from_value(self).unwrap()
    }
}

/// A type that can be converted to a tagged `Value`, and out of one by tag checking.
pub trait ValueType: Sized {
    spec fn spec_tag() -> Tag;

    spec fn spec_to_value(self) -> Value;

    spec fn spec_from_value(value: Value) -> Result<Self, TagError>;

    fn tag() -> (t: Tag)
        ensures
            t == Self::spec_tag(),
    ;

    fn to_value(self) -> (v: Value)
        ensures
            v == self.spec_to_value(),
    ;

    fn from_value(value: &Value) -> (r: Result<Self, TagError>)
        ensures
            r == Self::spec_from_value(*value),
    ;
}

impl ValueType for usize {
    open spec fn spec_tag() -> Tag {
        Tag::Int
    }

    open spec fn spec_to_value(self) -> Value {
        Value::Int(self)
    }

    open spec fn spec_from_value(value: Value) -> Result<usize, TagError> {
        match value {
            Value::Int(n) => Ok(n),
            _ => Err(TagError::spec_new(Tag::Int, value.spec_tag())),
        }
    }

    fn tag() -> (t: Tag) {
        Tag::Int
    }

    fn to_value(self) -> (v: Value) {
        Value::Int(self)
    }

    fn from_value(value: &Value) -> (r: Result<usize, TagError>) {
        match value {
            Value::Int(n) => Ok(*n),
            _ => Err(TagError { expected: Tag::Int, actual: value.tag() }),
        }
    }
}

impl From<usize> for Value {
    fn from(x: usize) -> (v: Value) {
        Value::Int(x)
    }
}

impl vstd::std_specs::convert::FromSpecImpl<usize> for Value {
    open spec fn obeys_from_spec() -> bool {
        true
    }

    open spec fn from_spec(x: usize) -> Value {
        Value::Int(x)
    }
}

impl From<Rc<String>> for Value {
    fn from(x: Rc<String>) -> (v: Value) {
        Value::Str(x)
    }
}

impl vstd::std_specs::convert::FromSpecImpl<Rc<String>> for Value {
    open spec fn obeys_from_spec() -> bool {
        true
    }

    open spec fn from_spec(x: Rc<String>) -> Value {
        Value::Str(x)
    }
}

} // verus!

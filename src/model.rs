use vstd::prelude::*;

verus! {

/// A decoded protocol value.
#[derive(Debug, PartialEq, Eq)]
pub enum Value {
    Integer(i64),
    Status(String),
    Error(String),
    BulkString(Vec<u8>),
    Array(Vec<Value>),
    Nil,
}

/// The mathematical model of a [`Value`].
pub enum ValueModel {
    Integer(int),
    Status(Seq<char>),
    Error(Seq<char>),
    BulkString(Seq<u8>),
    Array(Seq<ValueModel>),
    Nil,
}

impl View for Value {
    type V = ValueModel;

    open spec fn view(&self) -> ValueModel
        decreases self,
    {
        match self {
            Value::Integer(i) => ValueModel::Integer(*i as int),
            Value::Status(t) => ValueModel::Status(t@),
            Value::Error(t) => ValueModel::Error(t@),
            Value::BulkString(b) => ValueModel::BulkString(b@),
            Value::Array(items) => ValueModel::Array(
                Seq::new(
                    items.len() as nat,
                    |i: int|
                        if 0 <= i < items.len() {
                            items[i].view()
                        } else {
                            ValueModel::Nil
                        },
                ),
            ),
            Value::Nil => ValueModel::Nil,
        }
    }
}

/// The outcome of one decode call on a byte buffer.
///
/// `Done` carries the unread suffix of the input first, then the value.
#[derive(Debug, PartialEq, Eq)]
pub enum Decoded<'a> {
    Done(&'a [u8], Value),
    Incomplete,
    Malformed,
}

/// The mathematical model of a [`Decoded`]: the value's model and the
/// unread bytes, or one of the two failure states.
pub enum Outcome {
    Done(ValueModel, Seq<u8>),
    Incomplete,
    Malformed,
}

impl<'a> View for Decoded<'a> {
    type V = Outcome;

    open spec fn view(&self) -> Outcome {
        match self {
            Decoded::Done(rest, v) => Outcome::Done(v@, rest@),
            Decoded::Incomplete => Outcome::Incomplete,
            Decoded::Malformed => Outcome::Malformed,
        }
    }
}

impl<'a> Decoded<'a> {
    /// True when a value was decoded.
    pub fn is_done(&self) -> (r: bool)
        ensures
            r == (self@ is Done),
    {
        match self {
            Decoded::Done(_, _) => true,
            _ => false,
        }
    }

    /// True when more input is needed.
    pub fn is_incomplete(&self) -> (r: bool)
        ensures
            r == (self@ is Incomplete),
    {
        match self {
            Decoded::Incomplete => true,
            _ => false,
        }
    }

    /// True when the input can never decode.
    pub fn is_err(&self) -> (r: bool)
        ensures
            r == (self@ is Malformed),
    {
        match self {
            Decoded::Malformed => true,
            _ => false,
        }
    }
}

} // verus!

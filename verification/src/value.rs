use vstd::prelude::*;

use crate::inline_table::InlineTable;
use crate::repr::Decor;
use crate::table::item_copy;
use crate::wf::{entries_within, item_within};

verus! {

/// The whitespace given to a value that another follows in an inline table.
pub(crate) const DEFAULT_VALUE_DECOR: (&'static str, &'static str) = (" ", "");

/// The whitespace given to the last value of an inline table.
pub(crate) const DEFAULT_TRAILING_VALUE_DECOR: (&'static str, &'static str) = (" ", " ");

/// A scalar together with the whitespace around it.
#[derive(Debug)]
pub struct Formatted<T> {
    value: T,
    pub(crate) decor: Decor,
}

impl<T> Formatted<T> {
    /// The scalar.
    pub closed spec fn spec_value(&self) -> T {
        self.value
    }

    /// The whitespace around the scalar.
    pub closed spec fn spec_decor(&self) -> Decor {
        self.decor
    }

    /// The same scalar with other whitespace around it.
    pub closed spec fn spec_with_decor(self, decor: Decor) -> Formatted<T> {
        Formatted { decor, ..self }
    }

    /// Other whitespace around a scalar keeps the scalar, and is the
    /// whitespace given.
    pub broadcast proof fn lemma_with_decor(self, decor: Decor)
        ensures
            (#[trigger] self.spec_with_decor(decor)).spec_value() == self.spec_value(),
            self.spec_with_decor(decor).spec_decor() == decor,
    {
    }

    /// Wraps a scalar, with no whitespace around it.
    pub fn new(value: T) -> (r: Formatted<T>)
        ensures
            r.spec_value() == value,
            r.spec_decor()@ == (Seq::<char>::empty(), Seq::<char>::empty()),
    {
        Formatted { value, decor: Decor::default() }
    }

    /// The scalar.
    pub fn value(&self) -> (r: &T)
        ensures
            *r == self.spec_value(),
    {
        &self.value
    }

    /// The whitespace around the scalar.
    pub fn decor(&self) -> (r: &Decor)
        ensures
            *r == self.spec_decor(),
    {
        &self.decor
    }

    /// Mutable access to the whitespace around the scalar.
    pub fn decor_mut(&mut self) -> (r: &mut Decor)
        ensures
            *r == old(self).spec_decor(),
            *final(self) == old(self).spec_with_decor(*final(r)),
            final(self).spec_decor() == *final(r),
    {
        &mut self.decor
    }
}

impl<T: Clone> Clone for Formatted<T> {
    /// A copy: the same whitespace, and a clone of the scalar.
    fn clone(&self) -> (r: Formatted<T>)
        ensures
            r.spec_decor() == self.spec_decor(),
            cloned(self.spec_value(), r.spec_value()),
    {
        Formatted { value: self.value.clone(), decor: self.decor.clone() }
    }
}

/// A TOML value that can stand after `=` in an inline table.
#[derive(Debug)]
pub enum Value {
    /// A string.
    String(Formatted<String>),
    /// An integer.
    Integer(Formatted<i64>),
    /// A boolean.
    Boolean(Formatted<bool>),
    /// An inline table.
    InlineTable(InlineTable),
}

impl Value {
    /// The whitespace around the value.
    pub open spec fn spec_decor(&self) -> Decor {
        match self {
            Value::String(f) => f.spec_decor(),
            Value::Integer(f) => f.spec_decor(),
            Value::Boolean(f) => f.spec_decor(),
            Value::InlineTable(t) => t.spec_decor(),
        }
    }

    /// The same value with other whitespace around it.
    pub open spec fn spec_with_decor(self, decor: Decor) -> Value {
        match self {
            Value::String(f) => Value::String(f.spec_with_decor(decor)),
            Value::Integer(f) => Value::Integer(f.spec_with_decor(decor)),
            Value::Boolean(f) => Value::Boolean(f.spec_with_decor(decor)),
            Value::InlineTable(t) => Value::InlineTable(t.spec_with_decor(decor)),
        }
    }

    /// Other whitespace around a value keeps its kind and its scalar, or,
    /// for an inline table, its entries, dotted flag and preamble; and is
    /// the whitespace given.
    pub broadcast proof fn lemma_with_decor(self, decor: Decor)
        ensures
            (#[trigger] self.spec_with_decor(decor)).spec_decor() == decor,
            match self {
                Value::String(f) => self.spec_with_decor(decor) matches Value::String(g)
                    && g.spec_value() == f.spec_value(),
                Value::Integer(f) => self.spec_with_decor(decor) matches Value::Integer(g)
                    && g.spec_value() == f.spec_value(),
                Value::Boolean(f) => self.spec_with_decor(decor) matches Value::Boolean(g)
                    && g.spec_value() == f.spec_value(),
                Value::InlineTable(t) => self.spec_with_decor(decor) matches Value::InlineTable(u)
                    && u@ == t@ && u.spec_dotted() == t.spec_dotted() && u.spec_preamble()
                    == t.spec_preamble(),
            },
    {
        match self {
            Value::String(f) => f.lemma_with_decor(decor),
            Value::Integer(f) => f.lemma_with_decor(decor),
            Value::Boolean(f) => f.lemma_with_decor(decor),
            Value::InlineTable(t) => t.lemma_with_decor(decor),
        }
    }

    /// The whitespace around the value.
    pub fn decor(&self) -> (r: &Decor)
        ensures
            *r == self.spec_decor(),
    {
        match self {
            Value::String(f) => f.decor(),
            Value::Integer(f) => f.decor(),
            Value::Boolean(f) => f.decor(),
            Value::InlineTable(t) => t.table_decor(),
        }
    }

    /// Mutable access to the whitespace around the value.
    pub fn decor_mut(&mut self) -> (r: &mut Decor)
        ensures
            *r == old(self).spec_decor(),
            *final(self) == old(self).spec_with_decor(*final(r)),
            final(self).spec_decor() == *final(r),
    {
        match self {
            Value::String(f) => f.decor_mut(),
            Value::Integer(f) => f.decor_mut(),
            Value::Boolean(f) => f.decor_mut(),
            Value::InlineTable(t) => t.table_decor_mut(),
        }
    }

    /// Replaces the whitespace around the value.
    pub fn decorate(&mut self, prefix: &str, suffix: &str)
        ensures
            final(self).spec_decor()@ == (prefix@, suffix@),
            *final(self) == old(self).spec_with_decor(final(self).spec_decor()),
    {
        let decor = self.decor_mut();
        *decor = Decor::new(prefix, suffix);
    }

    /// The value is an inline table of dotted keys.
    pub open spec fn is_dotted_table(&self) -> bool {
        match self {
            Value::InlineTable(t) => t.spec_dotted(),
            _ => false,
        }
    }

    /// Whether the value is an inline table.
    pub fn is_inline_table(&self) -> (r: bool)
        ensures
            r == (self is InlineTable),
    {
        match self {
            Value::InlineTable(_) => true,
            _ => false,
        }
    }

    /// The inline table, if the value is one.
    pub fn as_inline_table(&self) -> (r: Option<&InlineTable>)
        ensures
            match *self {
                Value::InlineTable(t) => r == Some(&t),
                _ => r is None,
            },
    {
        match self {
            Value::InlineTable(t) => Some(t),
            _ => None,
        }
    }

    /// The integer, if the value is one.
    pub fn as_integer(&self) -> (r: Option<i64>)
        ensures
            match *self {
                Value::Integer(f) => r == Some(f.spec_value()),
                _ => r is None,
            },
    {
        match self {
            Value::Integer(f) => Some(*f.value()),
            _ => None,
        }
    }

    /// The boolean, if the value is one.
    pub fn as_bool(&self) -> (r: Option<bool>)
        ensures
            match *self {
                Value::Boolean(f) => r == Some(f.spec_value()),
                _ => r is None,
            },
    {
        match self {
            Value::Boolean(f) => Some(*f.value()),
            _ => None,
        }
    }

    /// The string, if the value is one.
    pub fn as_str(&self) -> (r: Option<&str>)
        ensures
            match *self {
                Value::String(f) => r is Some && r->0@ == f.spec_value()@,
                _ => r is None,
            },
    {
        match self {
            Value::String(f) => Some(f.value().as_str()),
            _ => None,
        }
    }
}

impl Clone for Value {
    /// A copy: the same scalar with the same whitespace, or a copy of the
    /// inline table.
    fn clone(&self) -> (r: Value)
        ensures
            forall|d: nat|
                item_within(Item::Value(*self), d) ==> item_copy(
                    Item::Value(*self),
                    Item::Value(r),
                    d,
                ),
    {
        match self {
            Value::String(f) => Value::String(
                Formatted { value: f.value.clone(), decor: f.decor.clone() },
            ),
            Value::Integer(f) => Value::Integer(Formatted { value: f.value, decor: f.decor.clone() }),
            Value::Boolean(f) => Value::Boolean(Formatted { value: f.value, decor: f.decor.clone() }),
            Value::InlineTable(t) => {
                let r = Value::InlineTable(t.clone());
                assert forall|d: nat| item_within(Item::Value(*self), d) implies item_copy(
                    Item::Value(*self),
                    Item::Value(r),
                    d,
                ) by {
                    assert(entries_within(t@, (d - 1) as nat));
                }
                r
            },
        }
    }
}

/// What a table holds under a key: nothing yet, or a value.
#[derive(Debug)]
pub enum Item {
    /// No value.
    Empty,
    /// A value.
    Value(Value),
}

/// The value that an item holds, if any.
pub open spec fn value_of(item: Item) -> Option<Value> {
    match item {
        Item::Value(v) => Some(v),
        Item::Empty => None,
    }
}

impl Clone for Item {
    /// A copy: nothing, or a copy of the value.
    fn clone(&self) -> (r: Item)
        ensures
            forall|d: nat| item_within(*self, d) ==> item_copy(*self, r, d),
    {
        match self {
            Item::Empty => Item::Empty,
            Item::Value(v) => Item::Value(v.clone()),
        }
    }
}

impl Item {
    /// Whether the item holds nothing.
    pub fn is_none(&self) -> (r: bool)
        ensures
            r == (*self is Empty),
    {
        match self {
            Item::Empty => true,
            Item::Value(_) => false,
        }
    }

    /// Whether the item holds a value.
    pub fn is_value(&self) -> (r: bool)
        ensures
            r == (*self is Value),
    {
        match self {
            Item::Empty => false,
            Item::Value(_) => true,
        }
    }

    /// The value that the item holds, if any.
    pub fn as_value(&self) -> (r: Option<&Value>)
        ensures
            match *self {
                Item::Value(v) => r == Some(&v),
                Item::Empty => r is None,
            },
    {
        match self {
            Item::Value(v) => Some(v),
            Item::Empty => None,
        }
    }

    /// Mutable access to the value that the item holds, if any.
    pub fn as_value_mut(&mut self) -> (r: Option<&mut Value>)
        ensures
            match r {
                Some(v) => *old(self) == Item::Value(*v) && *final(self) == Item::Value(*final(v)),
                None => *old(self) is Empty && *final(self) is Empty,
            },
    {
        match self {
            Item::Value(v) => Some(v),
            Item::Empty => None,
        }
    }

    /// The value that the item holds, or the item itself when it holds none.
    pub fn into_value(self) -> (r: Result<Value, Item>)
        ensures
            match self {
                Item::Value(v) => r == Ok::<Value, Item>(v),
                Item::Empty => r == Err::<Value, Item>(Item::Empty),
            },
    {
        match self {
            Item::Value(v) => Ok(v),
            Item::Empty => Err(self),
        }
    }
}

} // verus!

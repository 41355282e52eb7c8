//! Documents as they are handed to the index, and what is kept of them.

use vstd::prelude::*;

verus! {

/// A raw field value.
#[derive(Debug, PartialEq, Eq)]
pub enum Value {
    /// A text.
    Text(String),
    /// A whole number.
    Integer(i64),
}

/// The mathematical value of a [`Value`].
pub enum ValueView {
    Text(Seq<char>),
    Integer(i64),
}

impl View for Value {
    type V = ValueView;

    open spec fn view(&self) -> ValueView {
        match self {
            Value::Text(text) => ValueView::Text(text@),
            Value::Integer(number) => ValueView::Integer(*number),
        }
    }
}

/// One entry of a document: a field name and a value for it.
#[derive(Debug, PartialEq, Eq)]
pub struct FieldValue {
    pub name: String,
    pub value: Value,
}

/// The mathematical value of a [`FieldValue`].
pub struct EntryView {
    pub name: Seq<char>,
    pub value: ValueView,
}

impl View for FieldValue {
    type V = EntryView;

    open spec fn view(&self) -> EntryView {
        EntryView { name: self.name@, value: self.value@ }
    }
}

/// A document: field names with their raw values, in the order given. A
/// field may occur more than once.
#[derive(Debug, PartialEq, Eq)]
pub struct Document {
    pub entries: Vec<FieldValue>,
}

impl View for Document {
    type V = Seq<EntryView>;

    open spec fn view(&self) -> Seq<EntryView> {
        Seq::new(self.entries@.len(), |i: int| self.entries@[i]@)
    }
}

impl Document {
    /// A document without entries.
    pub fn new() -> (doc: Self)
        ensures
            doc@ == Seq::<EntryView>::empty(),
    {
        let doc = Document { entries: Vec::new() };
        doc
    }

    /// Appends a text value for the field `name`.
    pub fn add_text(&mut self, name: &str, text: &str)
        ensures
            final(self)@ == old(self)@.push(
                EntryView { name: name@, value: ValueView::Text(text@) },
            ),
    {
        self.entries.push(FieldValue { name: name.to_owned(), value: Value::Text(text.to_owned()) });
    }

    /// Appends a number for the field `name`.
    pub fn add_integer(&mut self, name: &str, number: i64)
        ensures
            final(self)@ == old(self)@.push(
                EntryView { name: name@, value: ValueView::Integer(number) },
            ),
    {
        self.entries.push(FieldValue { name: name.to_owned(), value: Value::Integer(number) });
    }
}

/// A stored field value of an indexed document.
#[derive(Debug, PartialEq, Eq)]
pub struct StoredValue {
    pub field: usize,
    pub value: String,
}

/// The mathematical value of a [`StoredValue`].
pub struct StoredView {
    pub field: int,
    pub value: Seq<char>,
}

impl View for StoredValue {
    type V = StoredView;

    open spec fn view(&self) -> StoredView {
        StoredView { field: self.field as int, value: self.value@ }
    }
}

/// The values of a list of stored fields.
pub open spec fn stored_views(stored: Seq<StoredValue>) -> Seq<StoredView> {
    Seq::new(stored.len(), |i: int| stored[i]@)
}

} // verus!

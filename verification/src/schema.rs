//! The schema registry: the fields of an index, their options, and the
//! tokenizer each one uses. A schema is frozen once it is built.

use crate::tokenizer::TokenizerKind;
use vstd::prelude::*;
use vstd::string::*;
use vstd::utf8::*;

verus! {

/// The type of a field's values.
#[derive(Clone, Copy, PartialEq, Eq, Debug, Structural)]
pub enum FieldType {
    /// Text, cut into terms by the field's tokenizer.
    Text,
}

/// How a field is kept in the index.
#[derive(Clone, Copy, PartialEq, Eq, Debug, Structural)]
pub struct FieldOptions {
    /// The raw value is kept and returned with search results.
    pub stored: bool,
    /// The value is tokenized and its terms are searchable.
    pub indexed: bool,
    /// The tokenizer of the field.
    pub tokenizer: TokenizerKind,
}

/// Why a schema or a document was refused.
#[derive(Clone, Copy, PartialEq, Eq, Debug, Structural)]
pub enum SchemaError {
    /// A field of that name is already defined.
    DuplicateField,
    /// The schema has no field of that name.
    UnknownField,
    /// The value does not have the field's type.
    TypeMismatch,
}

/// One field of a schema.
#[derive(Debug, PartialEq, Eq)]
pub struct FieldEntry {
    pub name: String,
    pub field_type: FieldType,
    pub options: FieldOptions,
}

/// The mathematical value of a [`FieldEntry`].
pub struct FieldView {
    pub name: Seq<char>,
    pub field_type: FieldType,
    pub options: FieldOptions,
}

impl View for FieldEntry {
    type V = FieldView;

    open spec fn view(&self) -> FieldView {
        FieldView { name: self.name@, field_type: self.field_type, options: self.options }
    }
}

/// The values of a list of fields.
pub open spec fn field_views(fields: Seq<FieldEntry>) -> Seq<FieldView> {
    Seq::new(fields.len(), |i: int| fields[i]@)
}

/// No two fields share a name.
pub open spec fn names_unique(fields: Seq<FieldView>) -> bool {
    forall|i: int, j: int|
        0 <= i < j < fields.len() ==> (#[trigger] fields[i]).name != (#[trigger] fields[j]).name
}

/// Some field is called `name`.
pub open spec fn has_name(fields: Seq<FieldView>, name: Seq<char>) -> bool {
    exists|i: int| 0 <= i < fields.len() && (#[trigger] fields[i]).name == name
}

/// Two texts are equal exactly when their UTF-8 encodings are.
pub proof fn lemma_encoding_injective(a: Seq<char>, b: Seq<char>)
    ensures
        (encode_utf8(a) == encode_utf8(b)) == (a == b),
{
    encode_utf8_decode_utf8(a);
    encode_utf8_decode_utf8(b);
}

/// Compares two byte strings.
pub fn bytes_equal(a: &[u8], b: &[u8]) -> (same: bool)
    ensures
        same == (a@ == b@),
{
    if a.len() != b.len() {
        return false;
    }
    let mut i: usize = 0;
    while i < a.len()
        invariant
            a.len() == b.len(),
            i <= a.len(),
            forall|k: int| 0 <= k < i ==> a@[k] == b@[k],
        decreases a.len() - i,
    {
        if a[i] != b[i] {
            return false;
        }
        i = i + 1;
    }
    assert(a@ =~= b@);
    true
}

/// Compares two texts.
pub fn text_equal(a: &str, b: &str) -> (same: bool)
    ensures
        same == (a@ == b@),
{
    proof {
        lemma_encoding_injective(a@, b@);
    }
    bytes_equal(a.as_bytes(), b.as_bytes())
}

fn find_field(fields: &Vec<FieldEntry>, name: &str) -> (found: Option<usize>)
    ensures
        match found {
            Some(i) => i < fields.len() && fields[i as int].name@ == name@ && forall|k: int|
                0 <= k < i ==> (#[trigger] fields[k]).name@ != name@,
            None => forall|k: int| 0 <= k < fields.len() ==> (#[trigger] fields[k]).name@ != name@,
        },
{
    let mut i: usize = 0;
    while i < fields.len()
        invariant
            i <= fields.len(),
            forall|k: int| 0 <= k < i ==> (#[trigger] fields[k]).name@ != name@,
        decreases fields.len() - i,
    {
        if text_equal(fields[i].name.as_str(), name) {
            return Some(i);
        }
        i = i + 1;
    }
    None
}

/// Collects field definitions for a new schema.
pub struct SchemaBuilder {
    fields: Vec<FieldEntry>,
}

/// The frozen field list of an index. Fields are numbered in the order of
/// their definition.
pub struct Schema {
    fields: Vec<FieldEntry>,
}

impl View for SchemaBuilder {
    type V = Seq<FieldView>;

    closed spec fn view(&self) -> Seq<FieldView> {
        field_views(self.fields@)
    }
}

impl View for Schema {
    type V = Seq<FieldView>;

    closed spec fn view(&self) -> Seq<FieldView> {
        field_views(self.fields@)
    }
}

impl SchemaBuilder {
    /// No two fields defined so far share a name.
    pub open spec fn wf(&self) -> bool {
        names_unique(self@)
    }

    /// A builder without fields.
    pub fn new() -> (builder: Self)
        ensures
            builder.wf(),
            builder@ == Seq::<FieldView>::empty(),
    {
        let builder = SchemaBuilder { fields: Vec::new() };
        builder
    }

    /// Defines a field and returns its number. A name that is already
    /// defined is refused and the builder is left as it was.
    pub fn define_field(&mut self, name: &str, field_type: FieldType, options: FieldOptions) -> (r:
        Result<usize, SchemaError>)
        requires
            old(self).wf(),
        ensures
            final(self).wf(),
            match r {
                Ok(id) => {
                    &&& !has_name(old(self)@, name@)
                    &&& id == old(self)@.len()
                    &&& final(self)@ == old(self)@.push(
                        FieldView { name: name@, field_type, options },
                    )
                },
                Err(e) => {
                    &&& e == SchemaError::DuplicateField
                    &&& has_name(old(self)@, name@)
                    &&& final(self)@ == old(self)@
                },
            },
    {
        match find_field(&self.fields, name) {
            Some(i) => {
                assert(self@[i as int].name == name@);
                Err(SchemaError::DuplicateField)
            },
            None => {
                let id = self.fields.len();
                self.fields.push(FieldEntry { name: name.to_owned(), field_type, options });
                assert(self@ =~= old(self)@.push(FieldView { name: name@, field_type, options }));
                Ok(id)
            },
        }
    }

    /// Freezes the field list.
    pub fn build(self) -> (schema: Schema)
        requires
            self.wf(),
        ensures
            schema.wf(),
            schema@ == self@,
    {
        Schema { fields: self.fields }
    }
}

impl Schema {
    /// No two fields share a name.
    pub open spec fn wf(&self) -> bool {
        names_unique(self@)
    }

    /// The number of fields fits a machine word.
    pub proof fn lemma_len_fits(&self)
        ensures
            self@.len() <= usize::MAX,
    {
        vstd::std_specs::vec::axiom_spec_len(&self.fields);
    }

    /// The number of fields.
    pub fn len(&self) -> (n: usize)
        ensures
            n == self@.len(),
    {
        self.fields.len()
    }

    /// The number of the field called `name`, if there is one.
    pub fn get_field(&self, name: &str) -> (found: Option<usize>)
        ensures
            match found {
                Some(i) => i < self@.len() && self@[i as int].name == name@,
                None => !has_name(self@, name@),
            },
    {
        let found = find_field(&self.fields, name);
        found
    }

    /// Tells whether two schemas define the same fields in the same order.
    pub fn same_fields(&self, other: &Schema) -> (same: bool)
        ensures
            same == (self@ == other@),
    {
        if self.fields.len() != other.fields.len() {
            assert(self@.len() != other@.len());
            return false;
        }
        let mut i: usize = 0;
        while i < self.fields.len()
            invariant
                self.fields.len() == other.fields.len(),
                i <= self.fields.len(),
                forall|k: int| 0 <= k < i ==> self@[k] == other@[k],
            decreases self.fields.len() - i,
        {
            let a = &self.fields[i];
            let b = &other.fields[i];
            assert(self@[i as int] == a@);
            let equal = text_equal(a.name.as_str(), b.name.as_str()) && a.field_type == b.field_type
                && a.options == b.options;
            if !equal {
                return false;
            }
            i = i + 1;
        }
        assert(self@ =~= other@);
        true
    }

    /// The field with number `id`.
    pub fn field(&self, id: usize) -> (entry: &FieldEntry)
        requires
            id < self@.len(),
        ensures
            entry@ == self@[id as int],
    {
        &self.fields[id]
    }
}

} // verus!

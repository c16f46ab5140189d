//! The descriptor registry interface the decoder consumes.
//!
//! Schema metadata is held as plain data: messages and enums live in the
//! registry's vectors and refer to each other by index. A field whose type
//! could not be linked yet stays `UnresolvedMessage` / `UnresolvedEnum` and
//! fails decoding when referenced.

use vstd::prelude::*;

verus! {

/// Cardinality and presence of a field.
#[derive(Clone, Copy, PartialEq, Eq, Structural, Debug)]
pub enum FieldLabel {
    Required,
    Optional,
    Repeated,
}

/// The resolved (or not yet resolved) type of a field.
///
/// `Message` and `Enum` carry the index of the referenced type inside the
/// [`Descriptors`] registry.
#[derive(Clone, Debug)]
pub enum FieldType {
    Double,
    Float,
    Int64,
    UInt64,
    Int32,
    Fixed64,
    Fixed32,
    Bool,
    Str,
    Group,
    Bytes,
    UInt32,
    Enum(usize),
    SFixed32,
    SFixed64,
    SInt32,
    SInt64,
    Message(usize),
    UnresolvedMessage(String),
    UnresolvedEnum(String),
}

/// A precomputed default value owned by the descriptor registry.
///
/// Floating-point defaults are kept as their IEEE-754 bit patterns.
#[derive(Clone, Debug)]
pub enum DefaultValue {
    Bool(bool),
    I32(i32),
    I64(i64),
    U32(u32),
    U64(u64),
    F32(u32),
    F64(u64),
    Bytes(Vec<u8>),
    Str(String),
    Enum(i32),
}

/// Schema metadata for one field of a message.
pub struct FieldDescriptor {
    /// The wire field number (tag).
    pub number: u32,
    /// The declared field name, used as the traversal key.
    pub name: String,
    pub label: FieldLabel,
    pub field_type: FieldType,
    /// The explicit default recorded in the schema, if any.
    pub default_value: Option<DefaultValue>,
}

/// Schema metadata for one message type: its fields, looked up by number
/// during decoding.
pub struct MessageDescriptor {
    /// The fully qualified message type name.
    pub name: String,
    pub fields: Vec<FieldDescriptor>,
}

/// One symbol of an enum type.
pub struct EnumValueDescriptor {
    pub number: i32,
    pub name: String,
}

/// Schema metadata for one enum type.
pub struct EnumDescriptor {
    pub name: String,
    pub values: Vec<EnumValueDescriptor>,
}

/// A loaded registry of message and enum descriptors.
pub struct Descriptors {
    pub messages: Vec<MessageDescriptor>,
    pub enums: Vec<EnumDescriptor>,
}

impl FieldDescriptor {
    /// Every type reference points inside the registry.
    pub open spec fn wf(self, d: Descriptors) -> bool {
        match self.field_type {
            FieldType::Message(m) => m < d.messages@.len(),
            FieldType::Enum(e) => e < d.enums@.len(),
            _ => true,
        }
    }

    pub open spec fn spec_is_repeated(&self) -> bool {
        self.label is Repeated
    }

    #[verifier::when_used_as_spec(spec_is_repeated)]
    pub fn is_repeated(&self) -> (r: bool)
        ensures
            r == self.spec_is_repeated(),
    {
        self.label == FieldLabel::Repeated
    }
}

impl MessageDescriptor {
    /// Fields are well formed and field numbers are unique within the message.
    pub open spec fn wf(self, d: Descriptors) -> bool {
        &&& forall|i: int| #![auto] 0 <= i < self.fields@.len() ==> self.fields@[i].wf(d)
        &&& forall|i: int, j: int|
            0 <= i < j < self.fields@.len() ==> self.fields@[i].number != self.fields@[j].number
    }
}

/// The index of the first field at or after position `i` whose number is `num`.
pub open spec fn find_field_from(fields: Seq<FieldDescriptor>, num: u32, i: int) -> Option<int>
    decreases fields.len() - i,
{
    if i < 0 || i >= fields.len() {
        None
    } else if fields[i].number == num {
        Some(i)
    } else {
        find_field_from(fields, num, i + 1)
    }
}

/// The index of the first field of `md` whose number is `num`.
pub open spec fn spec_find_field(md: MessageDescriptor, num: u32) -> Option<int> {
    find_field_from(md.fields@, num, 0)
}

impl Descriptors {
    /// Every message in the registry is well formed.
    pub open spec fn wf(self) -> bool {
        forall|m: int| #![auto] 0 <= m < self.messages@.len() ==> self.messages@[m].wf(self)
    }

    /// Looks a message type up by its fully qualified name; first match wins.
    pub fn message_by_name(&self, name: &String) -> (r: Option<usize>)
        ensures
            match r {
                Some(m) => m < self.messages@.len() && self.messages@[m as int].name@ == name@
                    && forall|j: int| #![auto] 0 <= j < m ==> self.messages@[j].name@ != name@,
                None => forall|j: int|
                    #![auto] 0 <= j < self.messages@.len() ==> self.messages@[j].name@ != name@,
            },
    {
        let mut i: usize = 0;
        while i < self.messages.len()
            invariant
                i <= self.messages@.len(),
                forall|j: int| #![auto] 0 <= j < i ==> self.messages@[j].name@ != name@,
            decreases self.messages@.len() - i,
        {
            if self.messages[i].name == *name {
                return Some(i);
            }
            i = i + 1;
        }
        None
    }
}

/// Looks a field of `md` up by wire number; first match wins.
pub fn find_field(md: &MessageDescriptor, num: u32) -> (r: Option<usize>)
    ensures
        match r {
            Some(i) => i < md.fields@.len() && spec_find_field(*md, num) == Some(i as int),
            None => spec_find_field(*md, num) is None,
        },
{
    let mut i: usize = 0;
    while i < md.fields.len()
        invariant
            i <= md.fields@.len(),
            find_field_from(md.fields@, num, 0) == find_field_from(md.fields@, num, i as int),
        decreases md.fields@.len() - i,
    {
        if md.fields[i].number == num {
            return Some(i);
        }
        i = i + 1;
    }
    None
}

/// The index of the first value of `ed` whose number is `num`.
pub open spec fn find_enum_value_from(values: Seq<EnumValueDescriptor>, num: i32, i: int) -> Option<
    int,
>
    decreases values.len() - i,
{
    if i < 0 || i >= values.len() {
        None
    } else if values[i].number == num {
        Some(i)
    } else {
        find_enum_value_from(values, num, i + 1)
    }
}

/// The index of the first value of `ed` whose number is `num`.
pub open spec fn spec_enum_value_by_number(ed: EnumDescriptor, num: i32) -> Option<int> {
    find_enum_value_from(ed.values@, num, 0)
}

/// Looks an enum symbol up by number; first match wins.
pub fn enum_value_by_number(ed: &EnumDescriptor, num: i32) -> (r: Option<usize>)
    ensures
        match r {
            Some(i) => spec_enum_value_by_number(*ed, num) == Some(i as int),
            None => spec_enum_value_by_number(*ed, num) is None,
        },
{
    let mut i: usize = 0;
    while i < ed.values.len()
        invariant
            i <= ed.values@.len(),
            find_enum_value_from(ed.values@, num, 0) == find_enum_value_from(
                ed.values@,
                num,
                i as int,
            ),
        decreases ed.values@.len() - i,
    {
        if ed.values[i].number == num {
            return Some(i);
        }
        i = i + 1;
    }
    None
}

} // verus!

use vstd::prelude::*;

verus! {

/// The kinds of data a value can hold.
#[derive(Debug, Clone, Copy, PartialEq, Eq, Structural)]
pub enum TypeTag {
    I64,
    U64,
    I32,
    U32,
    Bool,
    Str,
}

/// The name a type goes by, as Rust spells it.
pub open spec fn tag_name(t: TypeTag) -> Seq<char> {
    match t {
        TypeTag::I64 => "i64"@,
        TypeTag::U64 => "u64"@,
        TypeTag::I32 => "i32"@,
        TypeTag::U32 => "u32"@,
        TypeTag::Bool => "bool"@,
        TypeTag::Str => "alloc::string::String"@,
    }
}

impl TypeTag {
    /// The name of the type.
    pub fn name(&self) -> (s: &'static str)
        ensures
            s@ == tag_name(*self),
    {
        match self {
            TypeTag::I64 => "i64",
            TypeTag::U64 => "u64",
            TypeTag::I32 => "i32",
            TypeTag::U32 => "u32",
            TypeTag::Bool => "bool",
            TypeTag::Str => "alloc::string::String",
        }
    }
}

/// The abstract content of a value.
pub enum ValueView {
    I64(i64),
    U64(u64),
    I32(i32),
    U32(u32),
    Bool(bool),
    Str(Seq<char>),
}

impl ValueView {
    pub open spec fn tag(&self) -> TypeTag {
        match self {
            ValueView::I64(_) => TypeTag::I64,
            ValueView::U64(_) => TypeTag::U64,
            ValueView::I32(_) => TypeTag::I32,
            ValueView::U32(_) => TypeTag::U32,
            ValueView::Bool(_) => TypeTag::Bool,
            ValueView::Str(_) => TypeTag::Str,
        }
    }
}

/// Data that component values can carry.
#[derive(Debug, Clone)]
pub enum Value {
    I64(i64),
    U64(u64),
    I32(i32),
    U32(u32),
    Bool(bool),
    Str(String),
}

impl View for Value {
    type V = ValueView;

    open spec fn view(&self) -> ValueView {
        match self {
            Value::I64(x) => ValueView::I64(*x),
            Value::U64(x) => ValueView::U64(*x),
            Value::I32(x) => ValueView::I32(*x),
            Value::U32(x) => ValueView::U32(*x),
            Value::Bool(x) => ValueView::Bool(*x),
            Value::Str(s) => ValueView::Str(s@),
        }
    }
}

impl Value {
    /// A copy of the value.
    pub fn duplicate(&self) -> (r: Value)
        ensures
            r@ == self@,
    {
        match self {
            Value::I64(x) => Value::I64(*x),
            Value::U64(x) => Value::U64(*x),
            Value::I32(x) => Value::I32(*x),
            Value::U32(x) => Value::U32(*x),
            Value::Bool(x) => Value::Bool(*x),
            Value::Str(s) => Value::Str(s.clone()),
        }
    }

    /// The kind of data held.
    pub fn tag(&self) -> (t: TypeTag)
        ensures
            t == self@.tag(),
    {
        match self {
            Value::I64(_) => TypeTag::I64,
            Value::U64(_) => TypeTag::U64,
            Value::I32(_) => TypeTag::I32,
            Value::U32(_) => TypeTag::U32,
            Value::Bool(_) => TypeTag::Bool,
            Value::Str(_) => TypeTag::Str,
        }
    }
}

/// Types that can be used in the typed value system.
pub trait TypedData: Sized {
    /// The kind of data of this type.
    spec fn data_tag() -> TypeTag;

    /// The value a datum becomes.
    spec fn data_view(&self) -> ValueView;

    /// A datum's value is of the type's kind.
    proof fn lemma_view_tag(&self)
        ensures
            self.data_view().tag() == Self::data_tag(),
    ;

    /// The kind of data of this type.
    fn tag() -> (t: TypeTag)
        ensures
            t == Self::data_tag(),
    ;

    /// The name of this type, as Rust spells it.
    fn kind_name() -> (s: &'static str)
        ensures
            s@ == tag_name(Self::data_tag()),
    ;

    /// Wraps a datum into a value.
    fn into_value(self) -> (v: Value)
        ensures
            v@ == self.data_view(),
            v@.tag() == Self::data_tag(),
    ;

    /// The datum held by a value of this type's kind.
    fn peek(v: &Value) -> (r: Option<&Self>)
        ensures
            match r {
                Some(x) => v@.tag() == Self::data_tag() && x.data_view() == v@,
                None => v@.tag() != Self::data_tag(),
            },
    ;

    /// A copy of a datum.
    fn duplicate(&self) -> (r: Self)
        ensures
            r.data_view() == self.data_view(),
    ;
}

impl TypedData for i64 {
    open spec fn data_tag() -> TypeTag { TypeTag::I64 }
    open spec fn data_view(&self) -> ValueView { ValueView::I64(*self) }
    proof fn lemma_view_tag(&self) {}
    fn tag() -> TypeTag { TypeTag::I64 }
    fn kind_name() -> &'static str { "i64" }
    fn into_value(self) -> Value { Value::I64(self) }
    fn peek(v: &Value) -> Option<&Self> {
        match v {
            Value::I64(x) => Some(x),
            _ => None,
        }
    }
    fn duplicate(&self) -> Self { *self }
}

impl TypedData for u64 {
    open spec fn data_tag() -> TypeTag { TypeTag::U64 }
    open spec fn data_view(&self) -> ValueView { ValueView::U64(*self) }
    proof fn lemma_view_tag(&self) {}
    fn tag() -> TypeTag { TypeTag::U64 }
    fn kind_name() -> &'static str { "u64" }
    fn into_value(self) -> Value { Value::U64(self) }
    fn peek(v: &Value) -> Option<&Self> {
        match v {
            Value::U64(x) => Some(x),
            _ => None,
        }
    }
    fn duplicate(&self) -> Self { *self }
}

impl TypedData for i32 {
    open spec fn data_tag() -> TypeTag { TypeTag::I32 }
    open spec fn data_view(&self) -> ValueView { ValueView::I32(*self) }
    proof fn lemma_view_tag(&self) {}
    fn tag() -> TypeTag { TypeTag::I32 }
    fn kind_name() -> &'static str { "i32" }
    fn into_value(self) -> Value { Value::I32(self) }
    fn peek(v: &Value) -> Option<&Self> {
        match v {
            Value::I32(x) => Some(x),
            _ => None,
        }
    }
    fn duplicate(&self) -> Self { *self }
}

impl TypedData for u32 {
    open spec fn data_tag() -> TypeTag { TypeTag::U32 }
    open spec fn data_view(&self) -> ValueView { ValueView::U32(*self) }
    proof fn lemma_view_tag(&self) {}
    fn tag() -> TypeTag { TypeTag::U32 }
    fn kind_name() -> &'static str { "u32" }
    fn into_value(self) -> Value { Value::U32(self) }
    fn peek(v: &Value) -> Option<&Self> {
        match v {
            Value::U32(x) => Some(x),
            _ => None,
        }
    }
    fn duplicate(&self) -> Self { *self }
}

impl TypedData for bool {
    open spec fn data_tag() -> TypeTag { TypeTag::Bool }
    open spec fn data_view(&self) -> ValueView { ValueView::Bool(*self) }
    proof fn lemma_view_tag(&self) {}
    fn tag() -> TypeTag { TypeTag::Bool }
    fn kind_name() -> &'static str { "bool" }
    fn into_value(self) -> Value { Value::Bool(self) }
    fn peek(v: &Value) -> Option<&Self> {
        match v {
            Value::Bool(x) => Some(x),
            _ => None,
        }
    }
    fn duplicate(&self) -> Self { *self }
}

impl TypedData for String {
    open spec fn data_tag() -> TypeTag { TypeTag::Str }
    open spec fn data_view(&self) -> ValueView { ValueView::Str(self@) }
    proof fn lemma_view_tag(&self) {}
    fn tag() -> TypeTag { TypeTag::Str }
    fn kind_name() -> &'static str { "alloc::string::String" }
    fn into_value(self) -> Value { Value::Str(self) }
    fn peek(v: &Value) -> Option<&Self> {
        match v {
            Value::Str(x) => Some(x),
            _ => None,
        }
    }
    fn duplicate(&self) -> Self { self.clone() }
}

/// The message for asking a value of one kind for data of another.
pub open spec fn mismatch_message(expected: TypeTag, found: TypeTag) -> Seq<char> {
    "Type mismatch: expected "@ + tag_name(expected) + ", found "@ + tag_name(found)
}

/// Type-erased but type-safe container for component values.
#[derive(Debug, Clone)]
pub struct TypedValue {
    data: Value,
}

impl View for TypedValue {
    type V = ValueView;

    closed spec fn view(&self) -> ValueView {
        self.data@
    }
}

impl TypedValue {
    /// Create a new typed value
    pub fn new<T: TypedData>(value: T) -> (r: Self)
        ensures
            r@ == value.data_view(),
            r@.tag() == T::data_tag(),
    {
        TypedValue { data: value.into_value() }
    }

    /// A typed value holding the given data.
    pub fn from_value(data: Value) -> (r: Self)
        ensures
            r@ == data@,
    {
        TypedValue { data }
    }

    /// The data held.
    pub fn value(&self) -> (r: &Value)
        ensures
            r@ == self@,
    {
        &self.data
    }

    /// A copy of this value.
    pub fn duplicate(&self) -> (r: Self)
        ensures
            r@ == self@,
    {
        TypedValue { data: self.data.duplicate() }
    }

    /// Get a reference to the contained value
    pub fn get<T: TypedData>(&self) -> (r: Result<&T, String>)
        ensures
            match r {
                Ok(x) => self@.tag() == T::data_tag() && x.data_view() == self@,
                Err(e) => self@.tag() != T::data_tag() && e@ == mismatch_message(T::data_tag(), self@.tag()),
            },
    {
        match T::peek(&self.data) {
            Some(x) => {
                assert(x.data_view() == self.data@);
                Ok(x)
            },
            None => {
                let mut e = crate::strings::join3("Type mismatch: expected ", T::kind_name(), ", found ");
                e.append(self.data.tag().name());
                Err(e)
            },
        }
    }

    /// Consume the typed value and return the contained value
    pub fn into_inner<T: TypedData>(self) -> (r: Result<T, String>)
        ensures
            match r {
                Ok(x) => self@.tag() == T::data_tag() && x.data_view() == self@,
                Err(e) => self@.tag() != T::data_tag() && e@ == mismatch_message(T::data_tag(), self@.tag()),
            },
    {
        match self.get::<T>() {
            Ok(x) => Ok(x.duplicate()),
            Err(e) => Err(e),
        }
    }

    /// Get the type name of the contained value
    pub fn kind_name(&self) -> (s: &'static str)
        ensures
            s@ == tag_name(self@.tag()),
    {
        self.data.tag().name()
    }

    /// Get the kind of the contained value
    pub fn type_id(&self) -> (t: TypeTag)
        ensures
            t == self@.tag(),
    {
        self.data.tag()
    }

    /// Check if the contained value is of type T
    pub fn is_type<T: TypedData>(&self) -> (b: bool)
        ensures
            b == (self@.tag() == T::data_tag()),
    {
        self.data.tag() == T::tag()
    }
}

/// Issues event identifiers, one after another.
#[derive(Debug, Clone)]
pub struct EventIds {
    next: u64,
}

impl EventIds {
    /// A source whose first identifier is 1.
    pub fn new() -> (r: Self)
        ensures
            r.next_id() == 1,
    {
        EventIds { next: 1 }
    }

    /// The identifier the next call of `fresh` hands out.
    pub closed spec fn next_id(&self) -> u64 {
        self.next
    }

    /// Hands out an identifier; the next one differs from it.
    pub fn fresh(&mut self) -> (id: u64)
        ensures
            id == old(self).next_id(),
            final(self).next_id() == old(self).next_id().wrapping_add(1),
            final(self).next_id() != id,
    {
        let id = self.next;
        self.next = self.next.wrapping_add(1);
        id
    }
}

/// Event wrapper containing timestamp, an ID unique among those of its
/// counter, and typed payload
#[derive(Debug, Clone)]
pub struct Event {
    pub event_id: u64,
    pub timestamp: u64,
    pub payload: TypedValue,
}

impl Event {
    /// Create a new event with an identifier from `ids`
    pub fn new<T: TypedData>(ids: &mut EventIds, timestamp: u64, payload: T) -> (r: Self)
        ensures
            r.event_id == old(ids).next_id(),
            final(ids).next_id() == old(ids).next_id().wrapping_add(1),
            r.timestamp == timestamp,
            r.payload@ == payload.data_view(),
    {
        Event { event_id: ids.fresh(), timestamp, payload: TypedValue::new(payload) }
    }

    /// Create event from existing TypedValue
    pub fn from_typed_value(ids: &mut EventIds, timestamp: u64, payload: TypedValue) -> (r: Self)
        ensures
            r.event_id == old(ids).next_id(),
            final(ids).next_id() == old(ids).next_id().wrapping_add(1),
            r.timestamp == timestamp,
            r.payload@ == payload@,
    {
        Event { event_id: ids.fresh(), timestamp, payload }
    }

    /// Get the payload as a specific type
    pub fn get_payload<T: TypedData>(&self) -> (r: Result<&T, String>)
        ensures
            match r {
                Ok(x) => self.payload@.tag() == T::data_tag() && x.data_view() == self.payload@,
                Err(e) => self.payload@.tag() != T::data_tag()
                    && e@ == mismatch_message(T::data_tag(), self.payload@.tag()),
            },
    {
        self.payload.get::<T>()
    }

    /// Extract the payload as a specific type
    pub fn into_payload<T: TypedData>(self) -> (r: Result<T, String>)
        ensures
            match r {
                Ok(x) => self.payload@.tag() == T::data_tag() && x.data_view() == self.payload@,
                Err(e) => self.payload@.tag() != T::data_tag()
                    && e@ == mismatch_message(T::data_tag(), self.payload@.tag()),
            },
    {
        self.payload.into_inner::<T>()
    }

    /// A copy of the event, with the same identifier.
    pub fn duplicate(&self) -> (r: Self)
        ensures
            r.event_id == self.event_id,
            r.timestamp == self.timestamp,
            r.payload@ == self.payload@,
    {
        Event { event_id: self.event_id, timestamp: self.timestamp, payload: self.payload.duplicate() }
    }
}

} // verus!

//! The values that a document holds.
use std::collections::HashMap;
use std::sync::Arc;
use vstd::prelude::*;

use crate::container::{ContainerID, ContainerType};

verus! {

/// `Arc::clone`: another handle on the same value.
#[verifier::external_body]
pub(crate) fn arc_clone<T>(a: &Arc<T>) -> (r: Arc<T>)
    ensures
        r == *a,
{
    a.clone()
}

/// A value stored in a container.
#[derive(Debug, PartialEq)]
pub enum LoroValue {
    Null,
    Bool(bool),
    /// A double-precision number, held as its IEEE 754 bit pattern.
    Double(u64),
    I32(i32),
    String(Arc<String>),
    List(Arc<Vec<LoroValue>>),
    Mapping(Arc<HashMap<String, LoroValue>>),
    Container(ContainerID),
}

impl LoroValue {
    /// A copy of the value; strings, lists and maps are shared, not copied.
    pub fn clone_value(&self) -> (r: Self)
        ensures
            r == *self,
    {
        match self {
            LoroValue::Null => LoroValue::Null,
            LoroValue::Bool(b) => LoroValue::Bool(*b),
            LoroValue::Double(d) => LoroValue::Double(*d),
            LoroValue::I32(i) => LoroValue::I32(*i),
            LoroValue::String(s) => LoroValue::String(arc_clone(s)),
            LoroValue::List(l) => LoroValue::List(arc_clone(l)),
            LoroValue::Mapping(m) => LoroValue::Mapping(arc_clone(m)),
            LoroValue::Container(c) => LoroValue::Container(c.clone_id()),
        }
    }

    /// Whether the value is the empty value of the kind of container.
    pub open spec fn is_empty_of(&self, t: ContainerType) -> bool {
        match t {
            ContainerType::Mapping => self is Mapping && self->Mapping_0@ == Map::<
                String,
                LoroValue,
            >::empty(),
            ContainerType::List => self is List && self->List_0@ == Seq::<LoroValue>::empty(),
            ContainerType::Text => self is String && self->String_0@ == Seq::<char>::empty(),
        }
    }
}

impl ContainerType {
    /// The value of a container of this kind that holds nothing yet.
    pub fn default_value(&self) -> (r: LoroValue)
        ensures
            r.is_empty_of(*self),
    {
        match self {
            ContainerType::Mapping => LoroValue::Mapping(Arc::new(HashMap::new())),
            ContainerType::List => LoroValue::List(Arc::new(Vec::new())),
            ContainerType::Text => LoroValue::String(Arc::new(String::new())),
        }
    }
}

impl From<ContainerType> for LoroValue {
    fn from(value: ContainerType) -> (r: Self) {
        LoroValue::Container(ContainerID::Normal { peer: 0, counter: 0, container_type: value })
    }
}

impl vstd::std_specs::convert::FromSpecImpl<ContainerType> for LoroValue {
    open spec fn obeys_from_spec() -> bool {
        true
    }

    open spec fn from_spec(value: ContainerType) -> Self {
        LoroValue::Container(ContainerID::Normal { peer: 0, counter: 0, container_type: value })
    }
}

} // verus!

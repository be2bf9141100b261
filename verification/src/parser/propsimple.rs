use super::position::Position;
use super::proptypesimple::{PropTypeSimple, PropTypeSimpleView};
use crate::leaptypes::{Name, NameView};
use vstd::prelude::*;

verus! {

/// A property as it was written: its name, its type expression, and the
/// span of both.
#[derive(Debug)]
pub struct PropSimple {
    pub name: Name,
    pub prop_type_simple: PropTypeSimple,
    pub position: Position,
}

/// A written property as a value.
pub struct PropSimpleView {
    pub name: NameView,
    pub prop_type_simple: PropTypeSimpleView,
    pub position: Position,
}

impl View for PropSimple {
    type V = PropSimpleView;

    open spec fn view(&self) -> PropSimpleView {
        PropSimpleView {
            name: self.name@,
            prop_type_simple: self.prop_type_simple@,
            position: self.position,
        }
    }
}

} // verus!

//! The values that a parser is built from.

use vstd::prelude::*;

verus! {

/// A way to write a value, and the value that it resolves to.
#[derive(Debug, PartialEq, Eq)]
pub struct EntityValue {
    pub resolved_value: String,
    pub raw_value: String,
}

/// The contents of an [`EntityValue`].
pub struct EntityView {
    pub resolved_value: Seq<char>,
    pub raw_value: Seq<char>,
}

impl View for EntityValue {
    type V = EntityView;

    open spec fn view(&self) -> EntityView {
        EntityView { resolved_value: self.resolved_value@, raw_value: self.raw_value@ }
    }
}

/// An ordered list of entity values, from the most to the least important one.
#[derive(Debug, PartialEq, Eq)]
pub struct Gazetteer {
    pub data: Vec<EntityValue>,
}

impl View for Gazetteer {
    type V = Seq<EntityView>;

    open spec fn view(&self) -> Seq<EntityView> {
        self.data@.map_values(|value: EntityValue| value@)
    }
}

impl Gazetteer {
    pub fn new() -> (gazetteer: Gazetteer)
        ensures
            gazetteer@ == Seq::<EntityView>::empty(),
    {
        let gazetteer = Gazetteer { data: Vec::new() };
        assert(gazetteer@ =~= Seq::<EntityView>::empty());
        gazetteer
    }

    /// Adds a value behind those that are there.
    pub fn add(&mut self, value: EntityValue)
        ensures
            final(self)@ == old(self)@.push(value@),
    {
        self.data.push(value);
        assert(self@ =~= old(self)@.push(value@));
    }
}

} // verus!

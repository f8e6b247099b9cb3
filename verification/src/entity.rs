//! Entity ids.

use vstd::prelude::*;

verus! {

pub type EntityId = u32;

/// The id of an entity that has none yet.
pub const NO_ID: EntityId = 0;

/// Something that carries an entity id.
pub trait HasId {
    fn id(&self) -> EntityId;

    fn set_id(&mut self, id: EntityId);
}

/// A bullet's request to damage its target.
#[derive(Clone, Copy, Debug, PartialEq, Eq, Structural)]
pub struct HitRequest {
    pub target: EntityId,
    pub damage: u32,
}

} // verus!

//! The characters that are on screen, each with its slot in the buffer of
//! drawn instances.

use vstd::prelude::*;
use std::collections::HashMap;

verus! {

broadcast use vstd::std_specs::hash::group_hash_axioms;

/// Most characters that a set takes.
pub const MAX_INSTANCES: usize = 256;

/// A character on screen.
#[derive(Clone, Copy, Debug, PartialEq, Eq, Structural)]
pub struct Character {
    /// Slot of the character in the buffer of drawn instances.
    pub instance_id: usize,
}

/// The characters on screen by their id, and the number of instances that
/// have been handed out.
pub struct CharacterSet {
    characters: HashMap<u32, Character>,
    instances: usize,
}

impl CharacterSet {
    /// The characters by their id.
    pub closed spec fn characters(&self) -> Map<u32, Character> {
        self.characters@
    }

    /// Number of instance slots handed out so far.
    pub closed spec fn instance_count(&self) -> nat {
        self.instances as nat
    }

    /// A set without characters.
    pub fn new() -> (r: CharacterSet)
        ensures
            r.characters() == Map::<u32, Character>::empty(),
            r.instance_count() == 0,
    {
        CharacterSet { characters: HashMap::new(), instances: 0 }
    }

    /// Number of characters in the set.
    pub fn len(&self) -> (r: usize)
        ensures
            r == self.characters().len(),
    {
        self.characters.len()
    }

    /// Number of instance slots handed out so far.
    pub fn instances(&self) -> (r: usize)
        ensures
            r == self.instance_count(),
    {
        self.instances
    }

    /// The character with the given id, if the set has one.
    pub fn get(&self, id: u32) -> (r: Option<Character>)
        ensures
            r == if self.characters().contains_key(id) {
                Some(self.characters()[id])
            } else {
                None
            },
    {
        match self.characters.get(&id) {
            Some(character) => Some(*character),
            None => None,
        }
    }

    /// Adds the character `id` and gives it the next free instance slot. A
    /// character that is added again gets a new slot. A full set takes no
    /// further character.
    pub fn add(&mut self, id: u32) -> (character: Character)
        requires
            old(self).characters().len() < MAX_INSTANCES,
            old(self).instance_count() < usize::MAX,
        ensures
            character.instance_id == old(self).instance_count(),
            final(self).characters() == old(self).characters().insert(id, character),
            final(self).instance_count() == old(self).instance_count() + 1,
    {
        let character = Character { instance_id: self.instances };
        self.instances = self.instances + 1;
        self.characters.insert(id, character);
        character
    }
}

} // verus!

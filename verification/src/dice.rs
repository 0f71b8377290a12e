//! A die identified by its face count, and a cache that hands out one die
//! per distinct face count, created lazily and reused thereafter.

use vstd::prelude::*;
use std::collections::HashMap;
use crate::random;

verus! {

broadcast use vstd::std_specs::hash::group_hash_axioms;

/// A single die. Rolling it draws a fresh value in `[1, faces]`.
#[derive(Clone, Copy)]
pub struct Dice {
    pub faces: u32,
}

impl Dice {
    /// Roll the die once: a value between 1 and `faces`, inclusive.
    pub fn roll(&self) -> (r: u32)
        requires
            self.faces >= 1,
        ensures
            1 <= r <= self.faces,
    {
        random::from_to(1, self.faces)
    }
}

/// Maps a face count to the die for that face count. A die is inserted on
/// first use and never evicted, so asking twice for the same face count
/// yields the one stored die rather than a fresh allocation.
pub struct DiceCache {
    dice: HashMap<u32, Dice>,
}

impl View for DiceCache {
    type V = Map<u32, Dice>;

    closed spec fn view(&self) -> Map<u32, Dice> {
        self.dice@
    }
}

impl DiceCache {
    /// Every stored die has the face count it is keyed by.
    pub open spec fn wf(&self) -> bool {
        forall|k: u32| self@.contains_key(k) ==> (#[trigger] self@[k]).faces == k
    }

    /// An empty cache.
    pub fn new() -> (c: Self)
        ensures
            c@ == Map::<u32, Dice>::empty(),
            c.wf(),
    {
        Self { dice: HashMap::new() }
    }

    /// The die for `faces`, created and stored now if absent. A face count
    /// already present leaves the cache exactly as it was.
    pub fn get(&mut self, faces: u32) -> (d: &Dice)
        requires
            old(self).wf(),
        ensures
            d.faces == faces,
            old(self)@.contains_key(faces) ==> final(self)@ == old(self)@ && *d == old(self)@[faces],
            !old(self)@.contains_key(faces) ==> final(self)@ == old(self)@.insert(
                faces,
                (Dice { faces }),
            ),
            final(self)@.contains_key(faces),
            final(self).wf(),
    {
        if !self.dice.contains_key(&faces) {
            self.dice.insert(faces, Dice { faces });
        }
        assert(self@.contains_key(faces));
        assert(self@[faces].faces == faces);
        let d = self.dice.get(&faces).unwrap();
        assert(*d == self@[faces]);
        d
    }
}

} // verus!

//! The primary-key index: where the row with a given key lives.

use crate::strmap::StringMap;
use vstd::prelude::*;
use vstd::string::StringExecFns;

verus! {

/// The error text for an insert of a key that the index already holds.
pub open spec fn duplicate_key_message(key: Seq<char>) -> Seq<char> {
    "Duplicate key violation: '"@ + key + "' already exists"@
}

/// A map from the primary key, as a string, to the page and slot of its row.
pub struct PrimaryIndex {
    pub map: StringMap<(usize, usize)>,
}

impl View for PrimaryIndex {
    type V = Map<Seq<char>, (usize, usize)>;

    open spec fn view(&self) -> Map<Seq<char>, (usize, usize)> {
        self.map@
    }
}

impl PrimaryIndex {
    /// Whether the index is well formed.
    pub open spec fn wf(&self) -> bool {
        self.map.wf()
    }

    /// An index without keys.
    pub fn new() -> (index: Self)
        ensures
            index.wf(),
            index@ == Map::<Seq<char>, (usize, usize)>::empty(),
    {
        Self { map: StringMap::new() }
    }

    /// Records that the row with key `key` lives in slot `slot_idx` of page
    /// `page_idx`. A key that is already present is refused, and the index
    /// stays as it was.
    pub fn insert(&mut self, key: String, page_idx: usize, slot_idx: usize) -> (result: Result<
        (),
        String,
    >)
        requires
            old(self).wf(),
        ensures
            final(self).wf(),
            old(self)@.contains_key(key@) ==> final(self)@ == old(self)@ && (result matches Err(
                message,
            ) && message@ == duplicate_key_message(key@)),
            !old(self)@.contains_key(key@) ==> result is Ok && final(self)@ == old(self)@.insert(
                key@,
                (page_idx, slot_idx),
            ),
    {
        if self.map.contains_key(&key) {
            let mut message = String::from_str("Duplicate key violation: '");
            message.append(key.as_str());
            message.append("' already exists");
            return Err(message);
        }
        self.map.insert(key, (page_idx, slot_idx));
        Ok(())
    }

    /// The page and slot of the row with key `key`, if the index holds the key.
    pub fn get(&self, key: &String) -> (found: Option<(usize, usize)>)
        requires
            self.wf(),
        ensures
            found == (if self@.contains_key(key@) {
                Some(self@[key@])
            } else {
                None
            }),
    {
        match self.map.get(key) {
            Some(place) => Some(*place),
            None => None,
        }
    }

    /// Forgets key `key`, if the index holds it.
    pub fn remove(&mut self, key: &String)
        requires
            old(self).wf(),
        ensures
            final(self).wf(),
            final(self)@ == old(self)@.remove(key@),
    {
        let _ = self.map.remove(key);
    }
}

} // verus!

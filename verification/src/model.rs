//! The records exchanged between the server and its clients.
use vstd::prelude::*;

verus! {

/// A place that the participants may travel to.
#[derive(Debug, Clone, PartialEq, Eq)]
pub struct Destination {
    pub name: String,
    pub description: String,
    pub id: i64,
}

/// How much one participant likes one destination.
#[derive(Debug, Clone, PartialEq, Eq)]
pub struct Score {
    pub username: String,
    pub dest_id: i64,
    pub score: i64,
}

impl Destination {
    /// A field-by-field copy.
    pub fn duplicate(&self) -> (r: Destination)
        ensures
            r == *self,
    {
        Destination { name: self.name.clone(), description: self.description.clone(), id: self.id }
    }
}

impl Default for Destination {
    /// A destination with no name, no description and id 0.
    fn default() -> (d: Destination)
        ensures
            d.name@ == Seq::<char>::empty(),
            d.description@ == Seq::<char>::empty(),
            d.id == 0,
    {
        Destination { name: String::new(), description: String::new(), id: 0 }
    }
}

impl Score {
    /// A field-by-field copy.
    pub fn duplicate(&self) -> (r: Score)
        ensures
            r == *self,
    {
        Score { username: self.username.clone(), dest_id: self.dest_id, score: self.score }
    }
}

} // verus!

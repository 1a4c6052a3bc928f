//! Negotiating a shared travel destination: the data model, the Borda-count
//! negotiation over the participants' scores, drag-and-drop reordering of the
//! destination list, and the client-side score bookkeeping.
pub mod model;
pub mod argsort;
pub mod scores;
pub mod negotiate;
pub mod dragrank;
pub mod text;
pub mod store;

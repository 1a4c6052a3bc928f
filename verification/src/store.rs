//! The client's state, and the changes that the user's actions make to it.
use vstd::prelude::*;

use crate::dragrank::{has_id, move_before, moved_before};
use crate::model::{Destination, Score};
use crate::scores::{
    has_scored, known_usernames, last_score, names_contain, record_score_input, recorded,
    score_of, scores_for, strictly_sorted,
};
use crate::text::parsed_i64;

verus! {

/// The name shown until the participant enters their own.
pub const DEFAULT_USERNAME: &'static str = "edit me";

/// The destination being dragged, `-1` when none is.
#[derive(Debug, Clone, PartialEq, Eq)]
pub struct SelectedDestinationId {
    pub value: i64,
}

impl SelectedDestinationId {
    /// The user starts dragging destination `dest_id`.
    pub fn drag_start(&mut self, dest_id: i64)
        ensures
            final(self).value == dest_id,
    {
        self.value = dest_id;
    }

    /// The drag has ended: nothing is being dragged.
    pub fn drag_end(&mut self)
        ensures
            final(self).value == -1,
    {
        self.value = -1;
    }
}

impl Default for SelectedDestinationId {
    /// Nothing is being dragged.
    fn default() -> (r: SelectedDestinationId)
        ensures
            r.value == -1,
    {
        SelectedDestinationId { value: -1 }
    }
}

/// The destination that the dragged one was last dragged over, `-1` when none.
#[derive(Debug, Clone, PartialEq, Eq)]
pub struct OverDestinationId {
    pub value: i64,
}

impl Default for OverDestinationId {
    /// Nothing has been dragged over.
    fn default() -> (r: OverDestinationId)
        ensures
            r.value == -1,
    {
        OverDestinationId { value: -1 }
    }
}

impl OverDestinationId {
    /// A drag passes over destination `dest_id`: it is remembered when a
    /// destination is being dragged.
    pub fn drag_over(&mut self, selected: &SelectedDestinationId, dest_id: i64)
        ensures
            final(self).value == (if selected.value != -1 {
                dest_id
            } else {
                old(self).value
            }),
    {
        if selected.value != -1 {
            self.value = dest_id;
        }
    }
}

/// The address of the server that serves the client.
#[derive(Debug, Clone, PartialEq, Eq)]
pub struct BaseUrl {
    pub value: String,
}

/// The outcome of the last negotiation, while it is shown.
#[derive(Debug, Clone, PartialEq, Eq, Default)]
pub struct NegotiationResults {
    pub value: Option<Vec<Destination>>,
}

impl NegotiationResults {
    /// The user dismisses the outcome.
    pub fn dismiss(&mut self)
        ensures
            final(self).value is None,
    {
        self.value = None;
    }
}

/// The destination being edited, if any.
#[derive(Debug, Clone, PartialEq, Eq, Default)]
pub struct DestBeingEdited {
    pub value: Option<Destination>,
}

impl DestBeingEdited {
    /// The user starts editing destination `dest`.
    pub fn begin(&mut self, dest: Destination)
        ensures
            final(self).value == Some(dest),
    {
        self.value = Some(dest);
    }

    /// The user cancels or submits the edit: nothing is being edited.
    pub fn finish(&mut self)
        ensures
            final(self).value is None,
    {
        self.value = None;
    }

    /// The user types a new name for the destination being edited.
    pub fn set_name(&mut self, name: String)
        requires
            old(self).value is Some,
        ensures
            final(self).value == Some(
                Destination { name, ..old(self).value->0 },
            ),
    {
        let current = self.value.as_ref().unwrap();
        let edited = Destination {
            name,
            description: current.description.clone(),
            id: current.id,
        };
        self.value = Some(edited);
    }

    /// The user types a new description for the destination being edited.
    pub fn set_description(&mut self, description: String)
        requires
            old(self).value is Some,
        ensures
            final(self).value == Some(
                Destination { description, ..old(self).value->0 },
            ),
    {
        let current = self.value.as_ref().unwrap();
        let edited = Destination {
            name: current.name.clone(),
            description,
            id: current.id,
        };
        self.value = Some(edited);
    }
}

/// The names in a list of participants.
pub open spec fn names_of(users: Seq<(String, bool)>) -> Seq<String> {
    users.map_values(|u: (String, bool)| u.0)
}

/// `users` with participant `i` ticked if it was not, and unticked if it was.
pub open spec fn toggled(users: Seq<(String, bool)>, i: int) -> Seq<(String, bool)> {
    users.update(i, (users[i].0, !users[i].1))
}

/// Ticking participant `i` flips that participant's tick and keeps their
/// name, and leaves every other participant as they were.
pub proof fn lemma_toggle_flips_one(users: Seq<(String, bool)>, i: int)
    requires
        0 <= i < users.len(),
    ensures
        toggled(users, i).len() == users.len(),
        toggled(users, i)[i].0 == users[i].0,
        toggled(users, i)[i].1 == !users[i].1,
        forall|j: int| 0 <= j < users.len() && j != i ==> #[trigger] toggled(users, i)[j] == users[j],
{
}

/// Ticking a participant twice leaves the list as it was.
pub proof fn lemma_toggle_twice(users: Seq<(String, bool)>, i: int)
    requires
        0 <= i < users.len(),
    ensures
        toggled(toggled(users, i), i) == users,
{
    assert(toggled(toggled(users, i), i) =~= users);
}

/// The participants known to the client, and whether each takes part in the
/// next negotiation.
#[derive(Debug, Clone, PartialEq, Eq, Default)]
pub struct CheckedUsernames {
    pub value: Vec<(String, bool)>,
}

impl CheckedUsernames {
    /// Everybody who gave a score, each once, in name order, none checked.
    pub fn from_scores(scores: &Vec<Score>) -> (users: CheckedUsernames)
        ensures
            strictly_sorted(names_of(users.value@)),
            forall|x: Seq<char>|
                #![trigger names_contain(names_of(users.value@), x)]
                #![trigger has_scored(scores@, x)]
                names_contain(names_of(users.value@), x) <==> has_scored(
                    scores@,
                    x,
                ),
            forall|p: int| 0 <= p < users.value.len() ==> !(#[trigger] users.value@[p]).1,
    {
        let names = known_usernames(scores);
        let n = names.len();
        let mut value: Vec<(String, bool)> = Vec::new();
        let mut i: usize = 0;
        while i < n
            invariant
                n == names@.len(),
                i <= n,
                value@.len() == i,
                forall|p: int| 0 <= p < i ==> #[trigger] value@[p] == (names@[p], false),
            decreases n - i,
        {
            value.push((names[i].clone(), false));
            i = i + 1;
        }
        assert(names_of(value@) =~= names@);
        CheckedUsernames { value }
    }

    /// The user ticks or unticks participant `i`.
    pub fn toggle(&mut self, i: usize)
        requires
            i < old(self).value.len(),
        ensures
            final(self).value@ == toggled(old(self).value@, i as int),
            final(self).value@.len() == old(self).value@.len(),
            final(self).value@[i as int].0 == old(self).value@[i as int].0,
            final(self).value@[i as int].1 == !old(self).value@[i as int].1,
            forall|j: int|
                0 <= j < old(self).value@.len() && j != i ==> #[trigger] final(self).value@[j]
                    == old(self).value@[j],
    {
        let name = self.value[i].0.clone();
        let checked = self.value[i].1;
        self.value.set(i, (name, !checked));
    }
}

/// A destination being entered by the user.
#[derive(Debug, Clone, PartialEq, Eq)]
pub struct NewDestination {
    pub value: Destination,
}

impl Default for NewDestination {
    /// Nothing entered yet.
    fn default() -> (r: NewDestination)
        ensures
            r.value.name@ == Seq::<char>::empty(),
            r.value.description@ == Seq::<char>::empty(),
            r.value.id == 0,
    {
        NewDestination { value: Destination::default() }
    }
}

impl NewDestination {
    /// The user types the new destination's name; it has no id yet.
    pub fn set_name(&mut self, name: String)
        ensures
            final(self).value == (Destination { name, description: old(self).value.description, id: -1i64 }),
    {
        self.value.name = name;
        self.value.id = -1;
    }

    /// The user types the new destination's description; it has no id yet.
    pub fn set_description(&mut self, description: String)
        ensures
            final(self).value == (Destination { name: old(self).value.name, description, id: -1i64 }),
    {
        self.value.description = description;
        self.value.id = -1;
    }
}

/// The destinations, in the order the user has arranged them.
#[derive(Debug, Clone, PartialEq, Eq, Default)]
pub struct Destinations {
    pub value: Vec<Destination>,
}

impl Destinations {
    /// The drag of `selected` ends over `over`: the list is rearranged as
    /// `move_before` says.
    pub fn drop_dragged(&mut self, selected: &SelectedDestinationId, over: &OverDestinationId)
        requires
            selected.value != -1 && over.value != -1 && selected.value != over.value ==> has_id(
                old(self).value@,
                selected.value,
            ) && has_id(old(self).value@, over.value),
        ensures
            final(self).value@ == moved_before(old(self).value@, selected.value, over.value),
    {
        self.value = move_before(&self.value, selected.value, over.value);
    }
}

/// Every participant's scores.
#[derive(Debug, Clone, PartialEq, Eq, Default)]
pub struct Scores {
    pub value: Vec<Score>,
}

impl Scores {
    /// The score that `username` gives destination `dest_id` (0 if none).
    pub fn score_for(&self, dest_id: i64, username: &String) -> (value: i64)
        ensures
            value == last_score(self.value@, dest_id, username@),
    {
        score_of(&self.value, dest_id, username)
    }

    /// The user types a score for destination `dest_id`; returns the scores
    /// to send to the server.
    pub fn enter(&mut self, username: &String, dest_id: i64, text: &str) -> (posted: Vec<Score>)
        ensures
            match parsed_i64(text@) {
                Some(num) => final(self).value@ == recorded(old(self).value@, *username, dest_id, num)
                    && posted@ == scores_for(final(self).value@, dest_id, username@),
                None => final(self).value@ == old(self).value@ && posted@.len() == 0,
            },
    {
        record_score_input(&mut self.value, username, dest_id, text)
    }
}

/// The participant's name.
#[derive(Debug, Clone, PartialEq, Eq)]
pub struct Username {
    pub value: String,
}

impl Default for Username {
    /// The placeholder name.
    fn default() -> (r: Username)
        ensures
            r.value@ == DEFAULT_USERNAME@,
    {
        Username { value: String::from_str(DEFAULT_USERNAME) }
    }
}

impl Username {
    /// The user types their name.
    pub fn set(&mut self, name: String)
        ensures
            final(self).value == name,
    {
        self.value = name;
    }

    /// The participant has entered a name of their own; only then may they
    /// score destinations.
    pub fn is_set(&self) -> (set: bool)
        ensures
            set == (self.value@ != DEFAULT_USERNAME@),
    {
        let placeholder = String::from_str(DEFAULT_USERNAME);
        !(self.value == placeholder)
    }
}

/// What the client shows below the name field.
#[derive(Debug, Clone, Copy, PartialEq, Eq)]
pub enum Screen {
    /// The participants, and the destination being edited.
    EditingDestination,
    /// The outcome of a negotiation.
    NegotiationOutcome,
    /// The participants, and the destinations with their scores.
    Scoring,
}

/// What the client shows: the destination being edited while there is one,
/// else the outcome of a negotiation while there is one, else the scores.
pub fn current_view(editing: &DestBeingEdited, results: &NegotiationResults) -> (screen: Screen)
    ensures
        screen == (if editing.value is Some {
            Screen::EditingDestination
        } else if results.value is Some {
            Screen::NegotiationOutcome
        } else {
            Screen::Scoring
        }),
{
    if editing.value.is_some() {
        Screen::EditingDestination
    } else if results.value.is_some() {
        Screen::NegotiationOutcome
    } else {
        Screen::Scoring
    }
}

} // verus!

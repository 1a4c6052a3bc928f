//! Reordering the destination list by dragging one destination over another.
use vstd::prelude::*;

use crate::model::Destination;

verus! {

/// `ds` holds a destination with this `id`.
pub open spec fn has_id(ds: Seq<Destination>, id: i64) -> bool {
    exists|i: int| 0 <= i < ds.len() && #[trigger] ds[i].id == id
}

/// `i` is the first position in `ds` of a destination with this `id`.
pub open spec fn is_first_with_id(ds: Seq<Destination>, id: i64, i: int) -> bool {
    &&& 0 <= i < ds.len()
    &&& ds[i].id == id
    &&& forall|j: int| 0 <= j < i ==> #[trigger] ds[j].id != id
}

/// The first position in `ds` of a destination with this `id`.
pub open spec fn first_with_id(ds: Seq<Destination>, id: i64) -> int {
    choose|i: int| is_first_with_id(ds, id, i)
}

/// A drag actually moves something: both ends are set and differ.
pub open spec fn drag_moves(selected_id: i64, over_id: i64) -> bool {
    selected_id != -1 && over_id != -1 && selected_id != over_id
}

/// The list after the destination `selected_id` was dropped on `over_id`:
/// the dragged destination is taken out and put back just before the
/// destination it was dropped on. Where nothing is dragged, or it is dropped
/// on itself, the list is unchanged.
pub open spec fn moved_before(ds: Seq<Destination>, selected_id: i64, over_id: i64) -> Seq<Destination> {
    if !drag_moves(selected_id, over_id) {
        ds
    } else {
        let s = first_with_id(ds, selected_id);
        let rest = ds.remove(s);
        rest.insert(first_with_id(rest, over_id), ds[s])
    }
}

proof fn lemma_first_with_id(ds: Seq<Destination>, id: i64, i: int)
    requires
        is_first_with_id(ds, id, i),
    ensures
        first_with_id(ds, id) == i,
{
    let f = first_with_id(ds, id);
    assert(is_first_with_id(ds, id, f));
    if f < i {
        assert(ds[f].id != id);
    } else if f > i {
        assert(ds[i].id != id);
    }
}

proof fn lemma_has_first(ds: Seq<Destination>, id: i64)
    requires
        has_id(ds, id),
    ensures
        is_first_with_id(ds, id, first_with_id(ds, id)),
    decreases ds.len(),
{
    let i = choose|i: int| 0 <= i < ds.len() && #[trigger] ds[i].id == id;
    if ds[0].id == id {
        assert(is_first_with_id(ds, id, 0));
    } else {
        let tail = ds.drop_first();
        assert(tail[i - 1].id == id);
        lemma_has_first(tail, id);
        let f = first_with_id(tail, id);
        assert forall|j: int| 0 <= j < f + 1 implies #[trigger] ds[j].id != id by {
            if j > 0 {
                assert(ds[j] == tail[j - 1]);
            }
        }
        assert(is_first_with_id(ds, id, f + 1));
    }
}

/// The first position of a destination with this `id`, if there is one.
pub fn position_of(ds: &Vec<Destination>, id: i64) -> (pos: Option<usize>)
    ensures
        match pos {
            Some(i) => is_first_with_id(ds@, id, i as int) && i as int == first_with_id(ds@, id),
            None => !has_id(ds@, id),
        },
{
    let n = ds.len();
    let mut i: usize = 0;
    while i < n
        invariant
            n == ds@.len(),
            i <= n,
            forall|j: int| 0 <= j < i ==> #[trigger] ds@[j].id != id,
        decreases n - i,
    {
        if ds[i].id == id {
            proof {
                lemma_first_with_id(ds@, id, i as int);
            }
            return Some(i);
        }
        i = i + 1;
    }
    None
}

/// A copy of the whole list.
pub fn copy_destinations(ds: &Vec<Destination>) -> (copy: Vec<Destination>)
    ensures
        copy@ == ds@,
{
    let n = ds.len();
    let mut copy: Vec<Destination> = Vec::new();
    let mut i: usize = 0;
    while i < n
        invariant
            n == ds@.len(),
            i <= n,
            copy@ == ds@.take(i as int),
        decreases n - i,
    {
        copy.push(ds[i].duplicate());
        assert(ds@.take(i + 1) =~= ds@.take(i as int).push(ds@[i as int]));
        i = i + 1;
    }
    assert(ds@.take(n as int) =~= ds@);
    copy
}

/// The list after dragging destination `selected_id` onto destination
/// `over_id` (`-1` standing for none): the dragged destination moves to just
/// before the one it was dropped on.
pub fn move_before(dests: &Vec<Destination>, selected_id: i64, over_id: i64) -> (moved: Vec<Destination>)
    requires
        drag_moves(selected_id, over_id) ==> has_id(dests@, selected_id) && has_id(
            dests@,
            over_id,
        ),
    ensures
        moved@ == moved_before(dests@, selected_id, over_id),
        selected_id == -1 || over_id == -1 || selected_id == over_id ==> moved@ == dests@,
{
    if selected_id == -1 || over_id == -1 {
        return copy_destinations(dests);
    }
    if selected_id == over_id {
        return copy_destinations(dests);
    }
    proof {
        lemma_has_first(dests@, selected_id);
    }
    let selected_index = match position_of(dests, selected_id) {
        Some(i) => i,
        None => {
            return copy_destinations(dests);
        },
    };
    let selected_dest = dests[selected_index].duplicate();
    let mut new_order = copy_destinations(dests);
    new_order.remove(selected_index);
    proof {
        let j = choose|j: int| 0 <= j < dests@.len() && #[trigger] dests@[j].id == over_id;
        if j < selected_index {
            assert(new_order@[j].id == over_id);
        } else {
            assert(j != selected_index);
            assert(new_order@[j - 1].id == over_id);
        }
        lemma_has_first(new_order@, over_id);
    }
    let over_index = match position_of(&new_order, over_id) {
        Some(i) => i,
        None => {
            return copy_destinations(dests);
        },
    };
    new_order.insert(over_index, selected_dest);
    new_order
}

/// Where nothing is dragged, nothing is dragged over, or a destination is
/// dropped on itself, the list stays as it was.
pub proof fn lemma_no_drag_no_change(ds: Seq<Destination>, selected_id: i64, over_id: i64)
    requires
        selected_id == -1 || over_id == -1 || selected_id == over_id,
    ensures
        moved_before(ds, selected_id, over_id) == ds,
{
}

/// Dropping a dragged destination keeps the list's contents and length, puts
/// the dragged destination just before the one it was dropped on, and keeps
/// every other destination in its order.
pub proof fn lemma_move_before_properties(ds: Seq<Destination>, selected_id: i64, over_id: i64)
    requires
        drag_moves(selected_id, over_id) ==> has_id(ds, selected_id) && has_id(ds, over_id),
    ensures
        !drag_moves(selected_id, over_id) ==> moved_before(ds, selected_id, over_id) == ds,
        moved_before(ds, selected_id, over_id).len() == ds.len(),
        moved_before(ds, selected_id, over_id).to_multiset() == ds.to_multiset(),
        drag_moves(selected_id, over_id) ==> {
            let moved = moved_before(ds, selected_id, over_id);
            let o = first_with_id(ds.remove(first_with_id(ds, selected_id)), over_id);
            &&& 0 <= o && o + 1 < moved.len()
            &&& moved[o] == ds[first_with_id(ds, selected_id)]
            &&& moved[o].id == selected_id
            &&& moved[o + 1].id == over_id
            &&& moved.remove(o) == ds.remove(first_with_id(ds, selected_id))
        },
{
    if drag_moves(selected_id, over_id) {
        lemma_has_first(ds, selected_id);
        let s = first_with_id(ds, selected_id);
        let rest = ds.remove(s);
        let j = choose|j: int| 0 <= j < ds.len() && #[trigger] ds[j].id == over_id;
        if j < s {
            assert(rest[j].id == over_id);
        } else {
            assert(rest[j - 1].id == over_id);
        }
        lemma_has_first(rest, over_id);
        let o = first_with_id(rest, over_id);
        let moved = rest.insert(o, ds[s]);
        assert(moved[o + 1] == rest[o]);
        assert(moved.remove(o) =~= rest);
        broadcast use vstd::seq_lib::group_to_multiset_ensures, vstd::multiset::group_multiset_axioms;
        assert(moved.remove(o).to_multiset() == moved.to_multiset().remove(moved[o]));
        assert(rest.to_multiset() == ds.to_multiset().remove(ds[s]));
        assert(ds.to_multiset().count(ds[s]) > 0);
        assert(moved.to_multiset().count(ds[s]) > 0);
        assert(moved.to_multiset() =~= ds.to_multiset());
    }
}

} // verus!

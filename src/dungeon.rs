//! Estimating the number of passages of a dungeon whose map is hidden.
//!
//! The explorer sees, in each room it enters, the room's number and how many
//! passages leave it; from that it keeps a lower and an upper bound on the
//! number of distinct passages and decides whether to teleport or to move.

use vstd::prelude::*;
use std::collections::HashSet;

verus! {

/// A room of the dungeon: its number (from 1) and the passages seen in it.
pub struct Room {
    pub idx: usize,
    pub passages: usize,
}

impl Room {
    /// Creates a new room.
    pub fn new(idx: usize, passages: usize) -> (r: Room)
        ensures
            r.idx == idx,
            r.passages == passages,
    {
        Room { idx, passages }
    }
}

/// What the explorer does next.
#[derive(Debug, PartialEq, Eq, Structural, Copy, Clone)]
pub enum Action {
    Teleport,
    Move,
}

/// The fewest passages that `n` rooms, each with at least one passage, can
/// have: `ceil(n / 2)`.
pub open spec fn fewest_passages(n: int) -> int {
    (n + 1) / 2
}

/// The most passages that `n` rooms can have: one between each pair.
pub open spec fn most_passages(n: int) -> int {
    n * (n - 1) / 2
}

/// The fewest passages that `n` rooms can have.
pub fn get_lower_bound(n: usize) -> (r: usize)
    requires
        n >= 2,
    ensures
        r == fewest_passages(n as int),
{
    let value = n / 2;
    let remainder = n % 2;
    if remainder > 0 {
        return value + 1;
    }
    value
}

/// The most passages that `n` rooms can have.
pub fn get_upper_bound(n: usize) -> (r: usize)
    requires
        n >= 2,
        most_passages(n as int) <= usize::MAX,
    ensures
        r == most_passages(n as int),
{
    let mut buf: usize = 1;
    let mut i: usize = 3;
    while i <= n
        invariant
            3 <= i <= n + 1,
            most_passages(n as int) <= usize::MAX,
            buf == most_passages(i - 1),
        decreases n + 1 - i,
    {
        assert(most_passages(i as int) == most_passages(i - 1) + (i - 1)) by (nonlinear_arith);
        assert(most_passages(i as int) <= most_passages(n as int)) by (nonlinear_arith)
            requires
                3 <= i <= n,
        ;
        if n >= 4 {
            assert(n < most_passages(n as int)) by (nonlinear_arith)
                requires
                    4 <= n,
            ;
        }
        buf = buf + (i - 1);
        i = i + 1;
    }
    buf
}

/// The explorer's bounds on the number of passages, the rooms it has seen
/// and its last action.
pub struct Explorer {
    pub number_of_rooms: usize,
    pub lower_bound: usize,
    pub upper_bound: usize,
    pub visited_rooms: HashSet<usize>,
    pub last_action: Action,
}

/// `room` is the first of the rooms `1..=n` that `visited` does not hold.
pub open spec fn is_first_unvisited(visited: Set<usize>, n: int, room: usize) -> bool {
    &&& 1 <= room <= n
    &&& !visited.contains(room)
    &&& forall|j: usize| 1 <= j < room ==> visited.contains(j)
}

/// `visited` holds all of the rooms `1..=n`.
pub open spec fn all_visited(visited: Set<usize>, n: int) -> bool {
    forall|j: usize| 1 <= j <= n ==> visited.contains(j)
}

/// The explorer leaves `room` by teleporting when it had seen the room
/// before or when it came there by a move.
pub open spec fn leaves_by_teleport(e: Explorer, room: Room) -> bool {
    e.visited_rooms@.contains(room.idx) || e.last_action == Action::Move
}

impl Explorer {
    /// An explorer of `number_of_rooms` rooms that has seen none.
    pub fn new(number_of_rooms: usize) -> (r: Explorer)
        requires
            number_of_rooms >= 2,
            most_passages(number_of_rooms as int) <= usize::MAX,
        ensures
            r.number_of_rooms == number_of_rooms,
            r.lower_bound == 0,
            r.upper_bound == most_passages(number_of_rooms as int),
            r.visited_rooms@ == Set::<usize>::empty(),
            r.last_action == Action::Teleport,
    {
        Explorer {
            number_of_rooms,
            lower_bound: 0,
            upper_bound: get_upper_bound(number_of_rooms),
            visited_rooms: HashSet::new(),
            last_action: Action::Teleport,
        }
    }

    /// The estimate of the number of passages: the larger bound.
    pub fn get_estimate(&self) -> (r: usize)
        ensures
            r == if self.lower_bound >= self.upper_bound {
                self.lower_bound
            } else {
                self.upper_bound
            },
    {
        if self.lower_bound >= self.upper_bound {
            self.lower_bound
        } else {
            self.upper_bound
        }
    }

    fn next_unvisited(&self) -> (r: Option<usize>)
        ensures
            r matches Some(room) ==> is_first_unvisited(
                self.visited_rooms@,
                self.number_of_rooms as int,
                room,
            ),
            r is None ==> all_visited(self.visited_rooms@, self.number_of_rooms as int),
    {
        broadcast use vstd::std_specs::hash::group_hash_axioms;

        let n = self.number_of_rooms;
        let mut i: usize = 0;
        while i < n
            invariant
                n == self.number_of_rooms,
                i <= n,
                forall|j: usize| 1 <= j <= i ==> self.visited_rooms@.contains(j),
            decreases n - i,
        {
            let room = i + 1;
            if !self.visited_rooms.contains(&room) {
                return Some(room);
            }
            i = i + 1;
        }
        None
    }

    /// Takes in the room the explorer stands in and returns the next action,
    /// with the room to teleport to.
    pub fn observe(&mut self, room: &Room) -> (r: (Action, Option<usize>))
        requires
            old(self).visited_rooms@.contains(room.idx) ==> old(self).upper_bound >= 1,
            !old(self).visited_rooms@.contains(room.idx) ==> {
                &&& room.passages < old(self).number_of_rooms
                &&& old(self).number_of_rooms - 1 - room.passages <= old(self).upper_bound
                &&& old(self).lower_bound + room.passages <= usize::MAX
                &&& old(self).last_action == Action::Move ==> room.passages >= 1
            },
        ensures
            final(self).number_of_rooms == old(self).number_of_rooms,
            old(self).visited_rooms@.contains(room.idx) ==> {
                &&& final(self).visited_rooms@ == old(self).visited_rooms@
                &&& final(self).upper_bound == old(self).upper_bound - 1
                &&& final(self).lower_bound == old(self).lower_bound
            },
            !old(self).visited_rooms@.contains(room.idx) ==> {
                &&& final(self).visited_rooms@ == old(self).visited_rooms@.insert(room.idx)
                &&& final(self).upper_bound == old(self).upper_bound - (old(self).number_of_rooms
                    - 1 - room.passages)
                &&& final(self).lower_bound == old(self).lower_bound + room.passages - (if old(
                    self,
                ).last_action == Action::Move {
                    1int
                } else {
                    0int
                })
            },
            leaves_by_teleport(*old(self), *room) ==> {
                ||| r.1 matches Some(next) && r.0 == Action::Teleport && is_first_unvisited(
                    final(self).visited_rooms@,
                    final(self).number_of_rooms as int,
                    next,
                )
                ||| r.1 is None && r.0 == Action::Move && all_visited(
                    final(self).visited_rooms@,
                    final(self).number_of_rooms as int,
                )
            },
            !leaves_by_teleport(*old(self), *room) ==> r == (Action::Move, None::<usize>),
            final(self).last_action == r.0,
    {
        broadcast use vstd::std_specs::hash::group_hash_axioms;

        let already_visited = self.visited_rooms.contains(&room.idx);
        if already_visited {
            // one passage found twice
            self.upper_bound = self.upper_bound - 1;
            self.last_action = Action::Teleport;
            if let Some(next) = self.next_unvisited() {
                return (self.last_action, Some(next));
            }
        } else if self.last_action == Action::Move {
            self.visited_rooms.insert(room.idx);
            self.upper_bound = self.upper_bound - (self.number_of_rooms - 1 - room.passages);
            // the passage just come through is already counted
            self.lower_bound = self.lower_bound + (room.passages - 1);
            self.last_action = Action::Teleport;
            if let Some(next) = self.next_unvisited() {
                return (self.last_action, Some(next));
            }
        } else {
            self.visited_rooms.insert(room.idx);
            self.upper_bound = self.upper_bound - (self.number_of_rooms - 1 - room.passages);
            self.lower_bound = self.lower_bound + room.passages;
        }
        self.last_action = Action::Move;
        (self.last_action, None)
    }
}

} // verus!

//! The entity catalog: users, satellites, interferers, beams and bands,
//! plus the visibility index (which satellites each user can see).

use vstd::prelude::*;

use crate::position::{spec_can_see, Position};

verus! {

/// One of the four frequency channels; serialized as a single letter.
#[derive(Clone, Copy, PartialEq, Eq, Structural, Debug)]
pub enum Band {
    A,
    B,
    C,
    D,
}

impl Band {
    /// Bands in their fixed enumeration order, as a spec value.
    pub open spec fn spec_from_index(i: int) -> Band {
        if i == 0 {
            Band::A
        } else if i == 1 {
            Band::B
        } else if i == 2 {
            Band::C
        } else {
            Band::D
        }
    }

    /// Bands in their fixed enumeration order A, B, C, D.
    pub fn from_index(i: usize) -> (r: Band)
        requires
            i < 4,
        ensures
            r == Band::spec_from_index(i as int),
    {
        if i == 0 {
            Band::A
        } else if i == 1 {
            Band::B
        } else if i == 2 {
            Band::C
        } else {
            Band::D
        }
    }

    /// The single serialization letter of the band.
    pub open spec fn spec_letter(self) -> u8 {
        match self {
            Band::A => 65,
            Band::B => 66,
            Band::C => 67,
            Band::D => 68,
        }
    }

    /// The single serialization letter of the band.
    pub fn letter(self) -> (r: u8)
        ensures
            r == self.spec_letter(),
    {
        match self {
            Band::A => 65,
            Band::B => 66,
            Band::C => 67,
            Band::D => 68,
        }
    }
}

/// A user, satellite, or interferer: an id and a position. The role is
/// determined by which collection of the scenario holds the entity.
#[derive(Clone, Copy, PartialEq, Eq, Structural, Debug)]
pub struct Entity {
    pub id: i32,
    pub position: Position,
}

impl Entity {
    /// Builds an entity from its id and position.
    pub fn new(id: i32, position: Position) -> (r: Entity)
        ensures
            r == (Entity { id, position }),
    {
        Entity { id, position }
    }

    /// The entity's id.
    pub fn id(&self) -> (r: i32)
        ensures
            r == self.id,
    {
        self.id
    }

    /// The entity's position.
    pub fn position(&self) -> (r: &Position)
        ensures
            r == self.position,
    {
        &self.position
    }

    /// Whether this entity, taken as a ground point, sees the target
    /// within 45 degrees of its local vertical.
    pub fn can_see(&self, target: &Entity) -> (r: bool)
        requires
            self.position.in_range(),
            target.position.in_range(),
        ensures
            r == spec_can_see(self.position.vec3(), target.position.vec3()),
    {
        self.position.can_see(&target.position)
    }
}

/// A granted assignment: a user served on a band. Owned by the granting
/// satellite and never mutated after creation.
#[derive(Clone, Copy, PartialEq, Eq, Structural, Debug)]
pub struct Beam {
    pub user: Entity,
    pub band: Band,
}

impl Beam {
    /// Builds a beam serving `user` on `band`.
    pub fn new(user: Entity, band: Band) -> (r: Beam)
        ensures
            r == (Beam { user, band }),
    {
        Beam { user, band }
    }

    /// The served user.
    pub fn user(&self) -> (r: &Entity)
        ensures
            r == self.user,
    {
        &self.user
    }

    /// The band the beam transmits on.
    pub fn band(&self) -> (r: Band)
        ensures
            r == self.band,
    {
        self.band
    }
}

/// Per-satellite beam budget: no satellite ever carries more beams.
pub const MAX_BEAMS: usize = 32;

/// A satellite: its entity plus the beams granted so far, in grant
/// order, and the users found visible by the visibility index.
pub struct Satellite {
    pub entity: Entity,
    pub beams: Vec<Beam>,
    pub visible: Vec<Entity>,
}

/// The mathematical value of a satellite.
pub struct SatState {
    pub entity: Entity,
    pub beams: Seq<Beam>,
    pub visible: Seq<Entity>,
}

impl View for Satellite {
    type V = SatState;

    open spec fn view(&self) -> SatState {
        SatState { entity: self.entity, beams: self.beams@, visible: self.visible@ }
    }
}

impl Satellite {
    /// A satellite with no beams granted and an empty visibility list.
    pub fn from_entity(entity: Entity) -> (r: Satellite)
        ensures
            r@ == (SatState { entity, beams: Seq::<Beam>::empty(), visible: Seq::<Entity>::empty() }),
    {
        Satellite { entity, beams: Vec::new(), visible: Vec::new() }
    }

    /// All positions the satellite refers to are in coordinate range.
    pub open spec fn positions_in_range(self) -> bool {
        &&& self.entity.position.in_range()
        &&& forall|i: int|
            0 <= i < self.beams@.len() ==> (#[trigger] self.beams@[i]).user.position.in_range()
    }

    /// The satellite's own entity.
    pub fn entity(&self) -> (r: &Entity)
        ensures
            r == self.entity,
    {
        &self.entity
    }

    /// The granted beams, in grant order.
    pub fn beams(&self) -> (r: &Vec<Beam>)
        ensures
            r == self.beams,
    {
        &self.beams
    }

    /// The users the visibility index found visible to this satellite.
    pub fn visible(&self) -> (r: &Vec<Entity>)
        ensures
            r == self.visible,
    {
        &self.visible
    }

    /// Grants one more beam; the budget must not be exhausted.
    pub fn push_beam(&mut self, beam: Beam)
        requires
            old(self).beams@.len() < MAX_BEAMS,
        ensures
            final(self)@ == (SatState { beams: old(self)@.beams.push(beam), ..old(self)@ }),
    {
        self.beams.push(beam);
    }

    /// Appends `user` to the visibility list if it can see this
    /// satellite within 45 degrees.
    pub fn maybe_see_next_user(&mut self, user: &Entity)
        requires
            old(self).entity.position.in_range(),
            user.position.in_range(),
        ensures
            final(self)@ == (SatState {
                visible: if spec_can_see(user.position.vec3(), old(self).entity.position.vec3()) {
                    old(self)@.visible.push(*user)
                } else {
                    old(self)@.visible
                },
                ..old(self)@
            }),
    {
        if user.can_see(&self.entity) {
            self.visible.push(*user);
        }
    }
}

/// The users, in index order, that can see `sat` within 45 degrees.
pub open spec fn spec_visible_users(users: Seq<Entity>, sat: Entity) -> Seq<Entity>
    decreases users.len(),
{
    if users.len() == 0 {
        Seq::empty()
    } else {
        let rest = spec_visible_users(users.drop_last(), sat);
        if spec_can_see(users.last().position.vec3(), sat.position.vec3()) {
            rest.push(users.last())
        } else {
            rest
        }
    }
}

/// The ids of the satellites, in index order, that `user` can see
/// within 45 degrees.
pub open spec fn spec_visible_sat_ids(sats: Seq<SatState>, user: Entity) -> Seq<i32>
    decreases sats.len(),
{
    if sats.len() == 0 {
        Seq::empty()
    } else {
        let rest = spec_visible_sat_ids(sats.drop_last(), user);
        if spec_can_see(user.position.vec3(), sats.last().entity.position.vec3()) {
            rest.push(sats.last().entity.id)
        } else {
            rest
        }
    }
}

/// The views of a sequence of satellites.
pub open spec fn sat_states(sats: Seq<Satellite>) -> Seq<SatState> {
    sats.map_values(|s: Satellite| s@)
}

/// A full scenario: the raw catalog, mutated in place only by the beam
/// packer (which appends beams to satellites and counts assignments).
pub struct Scenario {
    pub users: Vec<Entity>,
    pub satellites: Vec<Satellite>,
    pub interferers: Vec<Entity>,
    pub assigned: usize,
}

impl Scenario {
    /// An empty scenario.
    pub fn new() -> (r: Scenario)
        ensures
            r.users@ == Seq::<Entity>::empty(),
            r.satellites@ == Seq::<Satellite>::empty(),
            r.interferers@ == Seq::<Entity>::empty(),
            r.assigned == 0,
    {
        Scenario { users: Vec::new(), satellites: Vec::new(), interferers: Vec::new(), assigned: 0 }
    }

    /// Every position the scenario refers to is in coordinate range.
    pub open spec fn positions_in_range(self) -> bool {
        &&& forall|i: int|
            0 <= i < self.users@.len() ==> (#[trigger] self.users@[i]).position.in_range()
        &&& forall|i: int|
            0 <= i < self.satellites@.len() ==> (#[trigger] self.satellites@[i]).positions_in_range()
        &&& forall|i: int|
            0 <= i < self.interferers@.len() ==> (#[trigger] self.interferers@[i]).position.in_range()
    }

    /// The users, in input order.
    pub fn users(&self) -> (r: &Vec<Entity>)
        ensures
            r == self.users,
    {
        &self.users
    }

    /// The satellites, in input order.
    pub fn satellites(&self) -> (r: &Vec<Satellite>)
        ensures
            r == self.satellites,
    {
        &self.satellites
    }

    /// The interferers, in input order.
    pub fn interferers(&self) -> (r: &Vec<Entity>)
        ensures
            r == self.interferers,
    {
        &self.interferers
    }

    /// How many users the last optimization run assigned.
    pub fn assigned(&self) -> (r: usize)
        ensures
            r == self.assigned,
    {
        self.assigned
    }

    /// Fills each satellite's visibility list with the users that can
    /// see it, in user order.
    pub fn build_skymap(&mut self)
        requires
            old(self).positions_in_range(),
        ensures
            final(self).users@ == old(self).users@,
            final(self).interferers@ == old(self).interferers@,
            final(self).assigned == old(self).assigned,
            final(self).satellites@.len() == old(self).satellites@.len(),
            forall|j: int|
                0 <= j < old(self).satellites@.len() ==> (#[trigger] final(self).satellites@[j])@
                    == (SatState {
                    visible: old(self).satellites@[j]@.visible + spec_visible_users(
                        old(self).users@,
                        old(self).satellites@[j].entity,
                    ),
                    ..old(self).satellites@[j]@
                }),
            final(self).positions_in_range(),
    {
        let ghost users0 = self.users@;
        let n_users = self.users.len();
        let n_sats = self.satellites.len();
        let mut i: usize = 0;
        while i < n_users
            invariant
                i <= n_users,
                n_users == self.users@.len(),
                n_sats == self.satellites@.len(),
                n_sats == old(self).satellites@.len(),
                self.users@ == old(self).users@,
                self.interferers@ == old(self).interferers@,
                self.assigned == old(self).assigned,
                old(self).positions_in_range(),
                users0 == old(self).users@,
                forall|j: int|
                    0 <= j < n_sats ==> (#[trigger] self.satellites@[j])@ == (SatState {
                        visible: old(self).satellites@[j]@.visible + spec_visible_users(
                            users0.take(i as int),
                            old(self).satellites@[j].entity,
                        ),
                        ..old(self).satellites@[j]@
                    }),
            decreases n_users - i,
        {
            let user = self.users[i];
            let mut k: usize = 0;
            while k < n_sats
                invariant
                    k <= n_sats,
                    i < n_users,
                    n_users == self.users@.len(),
                    n_sats == self.satellites@.len(),
                    n_sats == old(self).satellites@.len(),
                    self.users@ == old(self).users@,
                    self.interferers@ == old(self).interferers@,
                    self.assigned == old(self).assigned,
                    old(self).positions_in_range(),
                    users0 == old(self).users@,
                    user == users0[i as int],
                    forall|j: int|
                        0 <= j < k ==> (#[trigger] self.satellites@[j])@ == (SatState {
                            visible: old(self).satellites@[j]@.visible + spec_visible_users(
                                users0.take(i as int + 1),
                                old(self).satellites@[j].entity,
                            ),
                            ..old(self).satellites@[j]@
                        }),
                    forall|j: int|
                        k <= j < n_sats ==> (#[trigger] self.satellites@[j])@ == (SatState {
                            visible: old(self).satellites@[j]@.visible + spec_visible_users(
                                users0.take(i as int),
                                old(self).satellites@[j].entity,
                            ),
                            ..old(self).satellites@[j]@
                        }),
                decreases n_sats - k,
            {
                proof {
                    assert(old(self).satellites@[k as int].positions_in_range());
                    assert(users0.take(i as int + 1).drop_last() =~= users0.take(i as int));
                    assert(users0.take(i as int + 1).last() == users0[i as int]);
                }
                let sat = &mut self.satellites[k];
                sat.maybe_see_next_user(&user);
                k = k + 1;
            }
            i = i + 1;
        }
        proof {
            assert(users0.take(n_users as int) =~= users0);
        }
    }

    /// For each user in input order, the pair of its id and the ids of
    /// the satellites it can see within 45 degrees, in satellite order.
    pub fn skymap(&self) -> (r: Vec<(i32, Vec<i32>)>)
        requires
            self.positions_in_range(),
        ensures
            r@.len() == self.users@.len(),
            forall|i: int|
                0 <= i < r@.len() ==> (#[trigger] r@[i]).0 == self.users@[i].id && r@[i].1@
                    == spec_visible_sat_ids(sat_states(self.satellites@), self.users@[i]),
    {
        let n_users = self.users.len();
        let n_sats = self.satellites.len();
        let mut r: Vec<(i32, Vec<i32>)> = Vec::new();
        let mut i: usize = 0;
        while i < n_users
            invariant
                i <= n_users,
                n_users == self.users@.len(),
                n_sats == self.satellites@.len(),
                self.positions_in_range(),
                r@.len() == i,
                forall|t: int|
                    0 <= t < i ==> (#[trigger] r@[t]).0 == self.users@[t].id && r@[t].1@
                        == spec_visible_sat_ids(sat_states(self.satellites@), self.users@[t]),
            decreases n_users - i,
        {
            let user = self.users[i];
            let mut ids: Vec<i32> = Vec::new();
            let mut k: usize = 0;
            while k < n_sats
                invariant
                    k <= n_sats,
                    i < n_users,
                    n_users == self.users@.len(),
                    n_sats == self.satellites@.len(),
                    self.positions_in_range(),
                    user == self.users@[i as int],
                    ids@ == spec_visible_sat_ids(
                        sat_states(self.satellites@).take(k as int),
                        user,
                    ),
                decreases n_sats - k,
            {
                proof {
                    assert(self.satellites@[k as int].positions_in_range());
                    assert(sat_states(self.satellites@).take(k as int + 1).drop_last()
                        =~= sat_states(self.satellites@).take(k as int));
                    assert(sat_states(self.satellites@).take(k as int + 1).last()
                        == self.satellites@[k as int]@);
                }
                let sat = &self.satellites[k];
                if user.can_see(&sat.entity) {
                    ids.push(sat.entity.id);
                }
                k = k + 1;
            }
            proof {
                assert(sat_states(self.satellites@).take(n_sats as int)
                    =~= sat_states(self.satellites@));
            }
            r.push((user.id, ids));
            i = i + 1;
        }
        r
    }
}

} // verus!

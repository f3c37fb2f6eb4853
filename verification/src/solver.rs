//! The beam packer: a deterministic greedy multi-pass allocator. It
//! walks the bands in their fixed order A, B, C, D; within a band it
//! scans the pool of unassigned users from the last index toward the
//! first, granting each user a beam on the first satellite (in input
//! order) that can accept it, and removing granted users from the pool
//! by swap-removal. The whole run is pinned down by the spec functions
//! below: `optimize` is proved to compute exactly `spec_optimize`.

use vstd::prelude::*;

use crate::position::{
    spec_can_see, spec_sep_within, Position, BEAM_SEP_DEN, BEAM_SEP_NUM, INTERFERENCE_DEN,
    INTERFERENCE_NUM,
};
use crate::scenario::{
    sat_states, Band, Beam, Entity, SatState, Satellite, Scenario, MAX_BEAMS,
};

verus! {

/// Some beam already granted by `sat` shares `band`, and its user is
/// within the co-beam separation threshold of `user`, measured at the
/// satellite.
pub open spec fn spec_beam_intersection(sat: SatState, user: Entity, band: Band) -> bool {
    exists|i: int|
        0 <= i < sat.beams.len() && (#[trigger] sat.beams[i]).band == band && spec_sep_within(
            sat.entity.position.vec3(),
            user.position.vec3(),
            sat.beams[i].user.position.vec3(),
            BEAM_SEP_NUM as int,
            BEAM_SEP_DEN as int,
        )
}

/// Some interferer is within the interference threshold of the
/// satellite, measured at the user.
pub open spec fn spec_interference(sat: SatState, user: Entity, interferers: Seq<Entity>) -> bool {
    exists|i: int|
        0 <= i < interferers.len() && spec_sep_within(
            user.position.vec3(),
            sat.entity.position.vec3(),
            (#[trigger] interferers[i]).position.vec3(),
            INTERFERENCE_NUM as int,
            INTERFERENCE_DEN as int,
        )
}

/// The eligibility rule: the satellite has budget left, the user sees
/// it, no co-band beam is angularly close, and no interferer jams the
/// link.
pub open spec fn spec_can_accept(
    sat: SatState,
    user: Entity,
    band: Band,
    interferers: Seq<Entity>,
) -> bool {
    &&& sat.beams.len() < MAX_BEAMS
    &&& spec_can_see(user.position.vec3(), sat.entity.position.vec3())
    &&& !spec_beam_intersection(sat, user, band)
    &&& !spec_interference(sat, user, interferers)
}

/// Index of the first satellite at or after `from` that can accept the
/// user on the band, if any.
pub open spec fn spec_find_best_from(
    sats: Seq<SatState>,
    user: Entity,
    band: Band,
    interferers: Seq<Entity>,
    from: int,
) -> Option<int>
    decreases sats.len() - from,
{
    if from < 0 || from >= sats.len() {
        None
    } else if spec_can_accept(sats[from], user, band, interferers) {
        Some(from)
    } else {
        spec_find_best_from(sats, user, band, interferers, from + 1)
    }
}

/// Index of the first satellite that can accept the user on the band.
pub open spec fn spec_find_best(
    sats: Seq<SatState>,
    user: Entity,
    band: Band,
    interferers: Seq<Entity>,
) -> Option<int> {
    spec_find_best_from(sats, user, band, interferers, 0)
}

/// Satellite `j` granted one more beam serving `user` on `band`.
pub open spec fn spec_grant(sats: Seq<SatState>, j: int, user: Entity, band: Band) -> Seq<
    SatState,
> {
    sats.update(j, SatState { beams: sats[j].beams.push(Beam { user, band }), ..sats[j] })
}

/// One visit of a band pass: the pool user at `index` is granted a beam
/// on the first accepting satellite and swap-removed from the pool, or
/// everything is left unchanged if no satellite accepts.
pub open spec fn spec_visit(
    sats: Seq<SatState>,
    pool: Seq<Entity>,
    band: Band,
    interferers: Seq<Entity>,
    index: int,
) -> (Seq<SatState>, Seq<Entity>) {
    match spec_find_best(sats, pool[index], band, interferers) {
        None => (sats, pool),
        Some(j) => (
            spec_grant(sats, j, pool[index], band),
            pool.update(index, pool.last()).drop_last(),
        ),
    }
}

/// A band pass: visit pool indices `index - 1` down to `0`, in that
/// order.
pub open spec fn spec_band_pass(
    sats: Seq<SatState>,
    pool: Seq<Entity>,
    band: Band,
    interferers: Seq<Entity>,
    index: nat,
) -> (Seq<SatState>, Seq<Entity>)
    decreases index,
{
    if index == 0 {
        (sats, pool)
    } else {
        let next = spec_visit(sats, pool, band, interferers, index - 1);
        spec_band_pass(next.0, next.1, band, interferers, (index - 1) as nat)
    }
}

/// The first `n_bands` band passes, in enumeration order.
pub open spec fn spec_passes(
    sats: Seq<SatState>,
    pool: Seq<Entity>,
    interferers: Seq<Entity>,
    n_bands: nat,
) -> (Seq<SatState>, Seq<Entity>)
    decreases n_bands,
{
    if n_bands == 0 {
        (sats, pool)
    } else {
        let prev = spec_passes(sats, pool, interferers, (n_bands - 1) as nat);
        spec_band_pass(
            prev.0,
            prev.1,
            Band::spec_from_index(n_bands - 1),
            interferers,
            prev.1.len(),
        )
    }
}

/// The whole optimization run: one pass per band over the pool of all
/// users; returns the final satellites and the users left unassigned.
pub open spec fn spec_optimize(
    sats: Seq<SatState>,
    users: Seq<Entity>,
    interferers: Seq<Entity>,
) -> (Seq<SatState>, Seq<Entity>) {
    spec_passes(sats, users, interferers, 4)
}

/// A found index points at an accepting satellite, and every earlier
/// candidate rejects the user.
pub proof fn lemma_find_best_some(
    sats: Seq<SatState>,
    user: Entity,
    band: Band,
    interferers: Seq<Entity>,
    from: int,
    j: int,
)
    requires
        spec_find_best_from(sats, user, band, interferers, from) == Some(j),
        0 <= from,
    ensures
        from <= j < sats.len(),
        spec_can_accept(sats[j], user, band, interferers),
        forall|t: int| from <= t < j ==> !spec_can_accept(#[trigger] sats[t], user, band, interferers),
    decreases sats.len() - from,
{
    if from >= sats.len() {
    } else if spec_can_accept(sats[from], user, band, interferers) {
    } else {
        lemma_find_best_some(sats, user, band, interferers, from + 1, j);
    }
}

/// A failed search means every satellite rejects the user.
pub proof fn lemma_find_best_none(
    sats: Seq<SatState>,
    user: Entity,
    band: Band,
    interferers: Seq<Entity>,
    from: int,
)
    requires
        spec_find_best_from(sats, user, band, interferers, from) is None,
        0 <= from,
    ensures
        forall|t: int|
            from <= t < sats.len() ==> !spec_can_accept(#[trigger] sats[t], user, band, interferers),
    decreases sats.len() - from,
{
    if from >= sats.len() {
    } else {
        lemma_find_best_none(sats, user, band, interferers, from + 1);
    }
}

impl Satellite {
    /// Whether an already-granted beam on `band` would be angularly too
    /// close to `user`, as seen from this satellite.
    pub fn beam_intersection(&self, user: &Entity, band: Band) -> (r: bool)
        requires
            self.positions_in_range(),
            user.position.in_range(),
        ensures
            r == spec_beam_intersection(self@, *user, band),
    {
        let n = self.beams.len();
        let mut k: usize = 0;
        while k < n
            invariant
                k <= n,
                n == self.beams@.len(),
                self.positions_in_range(),
                user.position.in_range(),
                forall|i: int|
                    0 <= i < k ==> !((#[trigger] self.beams@[i]).band == band && spec_sep_within(
                        self.entity.position.vec3(),
                        user.position.vec3(),
                        self.beams@[i].user.position.vec3(),
                        BEAM_SEP_NUM as int,
                        BEAM_SEP_DEN as int,
                    )),
            decreases n - k,
        {
            let beam = &self.beams[k];
            if beam.band == band && self.entity.position.sep_within(
                &user.position,
                &beam.user.position,
                BEAM_SEP_NUM,
                BEAM_SEP_DEN,
            ) {
                return true;
            }
            k = k + 1;
        }
        false
    }

    /// Whether some interferer is within the interference threshold of
    /// this satellite, as seen from `user`.
    pub fn interference(&self, user: &Entity, interferers: &Vec<Entity>) -> (r: bool)
        requires
            self.positions_in_range(),
            user.position.in_range(),
            forall|i: int|
                0 <= i < interferers@.len() ==> (#[trigger] interferers@[i]).position.in_range(),
        ensures
            r == spec_interference(self@, *user, interferers@),
    {
        let n = interferers.len();
        let mut k: usize = 0;
        while k < n
            invariant
                k <= n,
                n == interferers@.len(),
                self.positions_in_range(),
                user.position.in_range(),
                forall|i: int|
                    0 <= i < interferers@.len() ==> (#[trigger] interferers@[i]).position.in_range(),
                forall|i: int|
                    0 <= i < k ==> !spec_sep_within(
                        user.position.vec3(),
                        self.entity.position.vec3(),
                        (#[trigger] interferers@[i]).position.vec3(),
                        INTERFERENCE_NUM as int,
                        INTERFERENCE_DEN as int,
                    ),
            decreases n - k,
        {
            let interferer = &interferers[k];
            if user.position.sep_within(
                &self.entity.position,
                &interferer.position,
                INTERFERENCE_NUM,
                INTERFERENCE_DEN,
            ) {
                return true;
            }
            k = k + 1;
        }
        false
    }

    /// The eligibility rule: capacity, visibility, co-beam separation
    /// and interference, all at once.
    pub fn can_accept(&self, user: &Entity, band: Band, interferers: &Vec<Entity>) -> (r: bool)
        requires
            self.positions_in_range(),
            user.position.in_range(),
            forall|i: int|
                0 <= i < interferers@.len() ==> (#[trigger] interferers@[i]).position.in_range(),
        ensures
            r == spec_can_accept(self@, *user, band, interferers@),
    {
        if self.beams.len() >= MAX_BEAMS {
            false
        } else if !user.position.can_see(&self.entity.position) {
            false
        } else if self.beam_intersection(user, band) {
            false
        } else if self.interference(user, interferers) {
            false
        } else {
            true
        }
    }
}

/// Mapping the satellite view over an updated sequence updates the
/// mapped view.
proof fn lemma_sat_states_update(sats: Seq<Satellite>, j: int, s: Satellite)
    requires
        0 <= j < sats.len(),
    ensures
        sat_states(sats.update(j, s)) == sat_states(sats).update(j, s@),
{
    assert(sat_states(sats.update(j, s)) =~= sat_states(sats).update(j, s@));
}

/// An exact copy of a vector of entities.
fn copy_entities(v: &Vec<Entity>) -> (r: Vec<Entity>)
    ensures
        r@ == v@,
{
    let n = v.len();
    let mut r: Vec<Entity> = Vec::new();
    let mut k: usize = 0;
    while k < n
        invariant
            k <= n,
            n == v@.len(),
            r@ == v@.take(k as int),
        decreases n - k,
    {
        r.push(v[k]);
        proof {
            assert(r@ =~= v@.take(k as int + 1));
        }
        k = k + 1;
    }
    proof {
        assert(v@.take(n as int) =~= v@);
    }
    r
}

impl Scenario {
    /// The first satellite, in input order, that can accept `user` on
    /// `band`, if any.
    pub fn find_best(&self, user: &Entity, band: Band, interferers: &Vec<Entity>) -> (r: Option<
        usize,
    >)
        requires
            forall|i: int|
                0 <= i < self.satellites@.len() ==> (#[trigger] self.satellites@[i]).positions_in_range(),
            user.position.in_range(),
            forall|i: int|
                0 <= i < interferers@.len() ==> (#[trigger] interferers@[i]).position.in_range(),
        ensures
            match r {
                Some(j) => spec_find_best(sat_states(self.satellites@), *user, band, interferers@)
                    == Some(j as int),
                None => spec_find_best(sat_states(self.satellites@), *user, band, interferers@)
                    is None,
            },
    {
        let ghost sats = sat_states(self.satellites@);
        let n = self.satellites.len();
        let mut k: usize = 0;
        while k < n
            invariant
                k <= n,
                n == self.satellites@.len(),
                sats == sat_states(self.satellites@),
                forall|i: int|
                    0 <= i < self.satellites@.len() ==> (#[trigger] self.satellites@[i]).positions_in_range(),
                user.position.in_range(),
                forall|i: int|
                    0 <= i < interferers@.len() ==> (#[trigger] interferers@[i]).position.in_range(),
                spec_find_best(sats, *user, band, interferers@) == spec_find_best_from(
                    sats,
                    *user,
                    band,
                    interferers@,
                    k as int,
                ),
            decreases n - k,
        {
            let sat = &self.satellites[k];
            proof {
                assert(sats[k as int] == self.satellites@[k as int]@);
            }
            if sat.can_accept(user, band, interferers) {
                return Some(k);
            }
            k = k + 1;
        }
        None
    }

    /// One band pass over the pool: scan from the last index toward the
    /// first, granting each user to the first accepting satellite and
    /// swap-removing granted users.
    fn run_band(&mut self, pool: &mut Vec<Entity>, band: Band, interferers: &Vec<Entity>)
        requires
            forall|i: int|
                0 <= i < old(self).satellites@.len()
                    ==> (#[trigger] old(self).satellites@[i]).positions_in_range(),
            forall|i: int|
                0 <= i < old(pool)@.len() ==> (#[trigger] old(pool)@[i]).position.in_range(),
            forall|i: int|
                0 <= i < interferers@.len() ==> (#[trigger] interferers@[i]).position.in_range(),
        ensures
            final(self).users@ == old(self).users@,
            final(self).interferers@ == old(self).interferers@,
            final(self).assigned == old(self).assigned,
            sat_states(final(self).satellites@) == spec_band_pass(
                sat_states(old(self).satellites@),
                old(pool)@,
                band,
                interferers@,
                old(pool)@.len() as nat,
            ).0,
            final(pool)@ == spec_band_pass(
                sat_states(old(self).satellites@),
                old(pool)@,
                band,
                interferers@,
                old(pool)@.len() as nat,
            ).1,
            final(pool)@.len() <= old(pool)@.len(),
            forall|i: int|
                0 <= i < final(self).satellites@.len()
                    ==> (#[trigger] final(self).satellites@[i]).positions_in_range(),
            forall|i: int|
                0 <= i < final(pool)@.len() ==> (#[trigger] final(pool)@[i]).position.in_range(),
    {
        let ghost sats0 = sat_states(old(self).satellites@);
        let ghost pool0 = old(pool)@;
        let mut index = pool.len();
        while index > 0
            invariant
                index <= pool@.len(),
                pool@.len() <= pool0.len(),
                self.users@ == old(self).users@,
                self.interferers@ == old(self).interferers@,
                self.assigned == old(self).assigned,
                forall|i: int|
                    0 <= i < self.satellites@.len() ==> (#[trigger] self.satellites@[i]).positions_in_range(),
                forall|i: int|
                    0 <= i < pool@.len() ==> (#[trigger] pool@[i]).position.in_range(),
                forall|i: int|
                    0 <= i < interferers@.len() ==> (#[trigger] interferers@[i]).position.in_range(),
                spec_band_pass(
                    sat_states(self.satellites@),
                    pool@,
                    band,
                    interferers@,
                    index as nat,
                ) == spec_band_pass(sats0, pool0, band, interferers@, pool0.len() as nat),
            decreases index,
        {
            index = index - 1;
            let ghost s_pre = sat_states(self.satellites@);
            let ghost p_pre = pool@;
            let user = pool[index];
            let found = self.find_best(&user, band, interferers);
            match found {
                Some(j) => {
                    proof {
                        lemma_find_best_some(s_pre, user, band, interferers@, 0, j as int);
                        assert(s_pre[j as int] == self.satellites@[j as int]@);
                    }
                    pool.swap_remove(index);
                    let beam = Beam::new(user, band);
                    let ghost vec_pre = self.satellites@;
                    let sat = &mut self.satellites[j];
                    sat.push_beam(beam);
                    proof {
                        let newsat = self.satellites@[j as int];
                        assert(self.satellites@ == vec_pre.update(j as int, newsat));
                        lemma_sat_states_update(vec_pre, j as int, newsat);
                        assert(sat_states(self.satellites@) == spec_grant(
                            s_pre,
                            j as int,
                            user,
                            band,
                        ));
                        assert(pool@ == p_pre.update(index as int, p_pre.last()).drop_last());
                        assert(spec_visit(s_pre, p_pre, band, interferers@, index as int) == (
                            sat_states(self.satellites@),
                            pool@,
                        ));
                        assert forall|i: int|
                            0 <= i < self.satellites@.len() implies (#[trigger] self.satellites@[i]).positions_in_range() by {
                            if i == j as int {
                                assert forall|t: int|
                                    0 <= t < newsat.beams@.len() implies (#[trigger] newsat.beams@[t]).user.position.in_range() by {
                                    if t < newsat.beams@.len() - 1 {
                                        assert(newsat.beams@[t] == vec_pre[j as int].beams@[t]);
                                    }
                                }
                            } else {
                                assert(self.satellites@[i] == vec_pre[i]);
                            }
                        }
                        assert forall|i: int|
                            0 <= i < pool@.len() implies (#[trigger] pool@[i]).position.in_range() by {
                            if i == index as int {
                                assert(pool@[i] == p_pre.last());
                            } else {
                                assert(pool@[i] == p_pre[i]);
                            }
                        }
                    }
                }
                None => {
                    proof {
                        assert(spec_visit(s_pre, p_pre, band, interferers@, index as int) == (
                            s_pre,
                            p_pre,
                        ));
                    }
                }
            }
            proof {
                assert(spec_band_pass(s_pre, p_pre, band, interferers@, (index + 1) as nat)
                    == spec_band_pass(
                    sat_states(self.satellites@),
                    pool@,
                    band,
                    interferers@,
                    index as nat,
                ));
            }
        }
    }

    /// The optimization run: one greedy pass per band, in band order,
    /// over the shared pool of unassigned users. Satellites accumulate
    /// beams in grant order; `assigned` counts the users served. The
    /// result is exactly `spec_optimize` applied to the starting state.
    pub fn optimize(&mut self)
        requires
            old(self).positions_in_range(),
        ensures
            final(self).users@ == old(self).users@,
            final(self).interferers@ == old(self).interferers@,
            sat_states(final(self).satellites@) == spec_optimize(
                sat_states(old(self).satellites@),
                old(self).users@,
                old(self).interferers@,
            ).0,
            final(self).assigned == old(self).users@.len() - spec_optimize(
                sat_states(old(self).satellites@),
                old(self).users@,
                old(self).interferers@,
            ).1.len(),
            final(self).positions_in_range(),
    {
        let ghost sats0 = sat_states(old(self).satellites@);
        let ghost users0 = old(self).users@;
        let ghost intf0 = old(self).interferers@;
        let interferers = copy_entities(&self.interferers);
        let mut pool = copy_entities(&self.users);
        let start = pool.len();
        proof {
            assert(spec_passes(sats0, users0, intf0, 0) == (sats0, users0));
        }
        self.run_band(&mut pool, Band::A, &interferers);
        proof {
            assert(spec_passes(sats0, users0, intf0, 1) == (sat_states(self.satellites@), pool@));
        }
        self.run_band(&mut pool, Band::B, &interferers);
        proof {
            assert(spec_passes(sats0, users0, intf0, 2) == (sat_states(self.satellites@), pool@));
        }
        self.run_band(&mut pool, Band::C, &interferers);
        proof {
            assert(spec_passes(sats0, users0, intf0, 3) == (sat_states(self.satellites@), pool@));
        }
        self.run_band(&mut pool, Band::D, &interferers);
        proof {
            assert(spec_passes(sats0, users0, intf0, 4) == (sat_states(self.satellites@), pool@));
        }
        self.assigned = start - pool.len();
    }
}

} // verus!

//! The library's laws: invariants of every optimization run, stated
//! over the spec model that `Scenario::optimize` is proved to compute.
//! Each public proof function here is one guarantee of the packer:
//! capacity, user uniqueness, band range, co-beam separation,
//! interference exclusion, visibility, greedy maximality, and the
//! sufficiency of a single round of band passes.

use vstd::prelude::*;

use crate::position::{
    spec_can_see, spec_sep_within, BEAM_SEP_DEN, BEAM_SEP_NUM, INTERFERENCE_DEN, INTERFERENCE_NUM,
};
use crate::scenario::{Band, Entity, SatState, MAX_BEAMS};
use crate::solver::{
    lemma_find_best_none, lemma_find_best_some, spec_band_pass, spec_can_accept, spec_find_best,
    spec_find_best_from, spec_grant, spec_interference, spec_optimize, spec_passes, spec_visit,
};

verus! {

/// The separation predicate does not depend on the order of the two
/// rays.
pub proof fn lemma_sep_symmetric(v: crate::position::Vec3, a: crate::position::Vec3, b: crate::position::Vec3, num: int, den: int)
    ensures
        spec_sep_within(v, a, b, num, den) == spec_sep_within(v, b, a, num, den),
{
    let da = crate::position::v3_sub(a, v);
    let db = crate::position::v3_sub(b, v);
    assert(crate::position::v3_dot(da, db) == crate::position::v3_dot(db, da)) by (nonlinear_arith);
    let d = crate::position::v3_dot(da, db);
    let n1 = crate::position::v3_norm_sq(da);
    let n2 = crate::position::v3_norm_sq(db);
    assert(num * n1 * n2 == num * n2 * n1) by (nonlinear_arith);
}

/// Satellite state `b` is `a` with zero or more beams appended.
pub open spec fn sat_extends(a: SatState, b: SatState) -> bool {
    &&& b.entity == a.entity
    &&& a.beams.len() <= b.beams.len()
    &&& forall|i: int| 0 <= i < a.beams.len() ==> a.beams[i] == #[trigger] b.beams[i]
}

/// Every satellite of `b` extends the corresponding satellite of `a`.
pub open spec fn sats_extend(a: Seq<SatState>, b: Seq<SatState>) -> bool {
    &&& b.len() == a.len()
    &&& forall|j: int| 0 <= j < a.len() ==> sat_extends(#[trigger] a[j], #[trigger] b[j])
}

/// Rejection is stable under granting more beams: once a satellite
/// rejects a user on a band, it still rejects that user after any
/// further grants.
pub proof fn lemma_reject_monotone(
    a: SatState,
    b: SatState,
    user: Entity,
    band: Band,
    interferers: Seq<Entity>,
)
    requires
        sat_extends(a, b),
        !spec_can_accept(a, user, band, interferers),
    ensures
        !spec_can_accept(b, user, band, interferers),
{
    if a.beams.len() >= MAX_BEAMS {
    } else if !spec_can_see(user.position.vec3(), a.entity.position.vec3()) {
    } else if crate::solver::spec_beam_intersection(a, user, band) {
        let i = choose|i: int|
            0 <= i < a.beams.len() && (#[trigger] a.beams[i]).band == band && spec_sep_within(
                a.entity.position.vec3(),
                user.position.vec3(),
                a.beams[i].user.position.vec3(),
                BEAM_SEP_NUM as int,
                BEAM_SEP_DEN as int,
            );
        assert(b.beams[i] == a.beams[i]);
        assert(crate::solver::spec_beam_intersection(b, user, band));
    } else {
        assert(spec_interference(a, user, interferers));
        assert(spec_interference(b, user, interferers));
    }
}

/// A visit leaves every satellite an extension of itself, and keeps
/// only entities that were already in the pool.
pub proof fn lemma_visit_extends(
    sats: Seq<SatState>,
    pool: Seq<Entity>,
    band: Band,
    interferers: Seq<Entity>,
    index: int,
)
    requires
        0 <= index < pool.len(),
    ensures
        sats_extend(sats, spec_visit(sats, pool, band, interferers, index).0),
        forall|q: int|
            0 <= q < spec_visit(sats, pool, band, interferers, index).1.len() ==> pool.contains(
                #[trigger] spec_visit(sats, pool, band, interferers, index).1[q],
            ),
        spec_visit(sats, pool, band, interferers, index).1.len() >= pool.len() - 1,
        spec_visit(sats, pool, band, interferers, index).1.len() <= pool.len(),
    decreases pool.len(),
{
    match spec_find_best(sats, pool[index], band, interferers) {
        None => {
            assert forall|q: int| 0 <= q < pool.len() implies pool.contains(#[trigger] pool[q]) by {}
        }
        Some(j) => {
            lemma_find_best_some(sats, pool[index], band, interferers, 0, j);
            let p2 = pool.update(index, pool.last()).drop_last();
            assert forall|q: int| 0 <= q < p2.len() implies pool.contains(#[trigger] p2[q]) by {
                if q == index {
                    assert(p2[q] == pool[pool.len() - 1]);
                } else {
                    assert(p2[q] == pool[q]);
                }
            }
        }
    }
}

/// Extension of satellite sequences is transitive.
pub proof fn lemma_sats_extend_trans(a: Seq<SatState>, b: Seq<SatState>, c: Seq<SatState>)
    requires
        sats_extend(a, b),
        sats_extend(b, c),
    ensures
        sats_extend(a, c),
{
    assert forall|j: int| 0 <= j < a.len() implies sat_extends(#[trigger] a[j], #[trigger] c[j]) by {
        assert(sat_extends(a[j], b[j]));
        assert(sat_extends(b[j], c[j]));
        assert forall|i: int|
            0 <= i < a[j].beams.len() implies a[j].beams[i] == #[trigger] c[j].beams[i] by {
            assert(a[j].beams[i] == b[j].beams[i]);
        }
    }
}

/// A band pass only extends satellites and only removes pool entries.
pub proof fn lemma_band_pass_extends(
    sats: Seq<SatState>,
    pool: Seq<Entity>,
    band: Band,
    interferers: Seq<Entity>,
    k: nat,
)
    requires
        k <= pool.len(),
    ensures
        sats_extend(sats, spec_band_pass(sats, pool, band, interferers, k).0),
        forall|q: int|
            0 <= q < spec_band_pass(sats, pool, band, interferers, k).1.len() ==> pool.contains(
                #[trigger] spec_band_pass(sats, pool, band, interferers, k).1[q],
            ),
        spec_band_pass(sats, pool, band, interferers, k).1.len() <= pool.len(),
        spec_band_pass(sats, pool, band, interferers, k).1.len() >= pool.len() - k,
    decreases k,
{
    if k == 0 {
        assert forall|q: int| 0 <= q < pool.len() implies pool.contains(#[trigger] pool[q]) by {}
    } else {
        let next = spec_visit(sats, pool, band, interferers, k - 1);
        lemma_visit_extends(sats, pool, band, interferers, k - 1);
        lemma_band_pass_extends(next.0, next.1, band, interferers, (k - 1) as nat);
        lemma_sats_extend_trans(
            sats,
            next.0,
            spec_band_pass(sats, pool, band, interferers, k).0,
        );
        let fin = spec_band_pass(sats, pool, band, interferers, k);
        assert forall|q: int| 0 <= q < fin.1.len() implies pool.contains(#[trigger] fin.1[q]) by {
            assert(next.1.contains(fin.1[q]));
            let t = choose|t: int| 0 <= t < next.1.len() && next.1[t] == fin.1[q];
            assert(pool.contains(next.1[t]));
        }
    }
}

/// The per-satellite output invariants: the beam budget is respected,
/// co-band beams are angularly separated, every served user sees the
/// satellite, and no served user has an interferer angularly close to
/// the satellite.
pub open spec fn spec_sat_ok(s: SatState, interferers: Seq<Entity>) -> bool {
    &&& s.beams.len() <= MAX_BEAMS
    &&& forall|a: int, b: int|
        0 <= a < s.beams.len() && 0 <= b < s.beams.len() && a != b && (#[trigger] s.beams[a]).band
            == (#[trigger] s.beams[b]).band ==> !spec_sep_within(
            s.entity.position.vec3(),
            s.beams[a].user.position.vec3(),
            s.beams[b].user.position.vec3(),
            BEAM_SEP_NUM as int,
            BEAM_SEP_DEN as int,
        )
    &&& forall|a: int|
        0 <= a < s.beams.len() ==> spec_can_see(
            (#[trigger] s.beams[a]).user.position.vec3(),
            s.entity.position.vec3(),
        )
    &&& forall|a: int, k: int|
        0 <= a < s.beams.len() && 0 <= k < interferers.len() ==> !spec_sep_within(
            (#[trigger] s.beams[a]).user.position.vec3(),
            s.entity.position.vec3(),
            (#[trigger] interferers[k]).position.vec3(),
            INTERFERENCE_NUM as int,
            INTERFERENCE_DEN as int,
        )
}

/// All satellites satisfy the output invariants.
pub open spec fn spec_sats_ok(sats: Seq<SatState>, interferers: Seq<Entity>) -> bool {
    forall|j: int| 0 <= j < sats.len() ==> spec_sat_ok(#[trigger] sats[j], interferers)
}

/// User-id uniqueness: no id is served by two beams, the pool holds no
/// duplicate ids, and no pooled id is already served.
pub open spec fn spec_ids_ok(sats: Seq<SatState>, pool: Seq<Entity>) -> bool {
    &&& forall|j1: int, a1: int, j2: int, a2: int|
        #![trigger sats[j1].beams[a1], sats[j2].beams[a2]]
        0 <= j1 < sats.len() && 0 <= a1 < sats[j1].beams.len() && 0 <= j2 < sats.len() && 0 <= a2
            < sats[j2].beams.len() && (j1 != j2 || a1 != a2) ==> sats[j1].beams[a1].user.id
            != sats[j2].beams[a2].user.id
    &&& forall|p1: int, p2: int|
        #![trigger pool[p1], pool[p2]]
        0 <= p1 < p2 < pool.len() ==> pool[p1].id != pool[p2].id
    &&& forall|j: int, a: int, p: int|
        #![trigger sats[j].beams[a], pool[p]]
        0 <= j < sats.len() && 0 <= a < sats[j].beams.len() && 0 <= p < pool.len()
            ==> sats[j].beams[a].user.id != pool[p].id
}

/// One visit preserves the per-satellite output invariants.
pub proof fn lemma_visit_sats_ok(
    sats: Seq<SatState>,
    pool: Seq<Entity>,
    band: Band,
    interferers: Seq<Entity>,
    index: int,
)
    requires
        0 <= index < pool.len(),
        spec_sats_ok(sats, interferers),
    ensures
        spec_sats_ok(spec_visit(sats, pool, band, interferers, index).0, interferers),
{
    let user = pool[index];
    match spec_find_best(sats, user, band, interferers) {
        None => {}
        Some(jstar) => {
            lemma_find_best_some(sats, user, band, interferers, 0, jstar);
            let s2 = spec_grant(sats, jstar, user, band);
            let p2 = pool.update(index, pool.last()).drop_last();
            let sold = sats[jstar];
            let snew = s2[jstar];
            let nb = sold.beams.len() as int;
            assert(snew.beams.len() == nb + 1);
            assert forall|a: int, b: int|
                0 <= a < snew.beams.len() && 0 <= b < snew.beams.len() && a != b
                    && (#[trigger] snew.beams[a]).band == (#[trigger] snew.beams[b]).band
                    implies !spec_sep_within(
                snew.entity.position.vec3(),
                snew.beams[a].user.position.vec3(),
                snew.beams[b].user.position.vec3(),
                BEAM_SEP_NUM as int,
                BEAM_SEP_DEN as int,
            ) by {
                if a < nb && b < nb {
                    assert(snew.beams[a] == sold.beams[a]);
                    assert(snew.beams[b] == sold.beams[b]);
                } else if a == nb {
                    assert(snew.beams[b] == sold.beams[b]);
                    assert(!crate::solver::spec_beam_intersection(sold, user, band));
                    assert(!spec_sep_within(
                        sold.entity.position.vec3(),
                        user.position.vec3(),
                        sold.beams[b].user.position.vec3(),
                        BEAM_SEP_NUM as int,
                        BEAM_SEP_DEN as int,
                    ));
                    lemma_sep_symmetric(
                        sold.entity.position.vec3(),
                        user.position.vec3(),
                        sold.beams[b].user.position.vec3(),
                        BEAM_SEP_NUM as int,
                        BEAM_SEP_DEN as int,
                    );
                } else {
                    assert(b == nb);
                    assert(snew.beams[a] == sold.beams[a]);
                    assert(!crate::solver::spec_beam_intersection(sold, user, band));
                    assert(!spec_sep_within(
                        sold.entity.position.vec3(),
                        user.position.vec3(),
                        sold.beams[a].user.position.vec3(),
                        BEAM_SEP_NUM as int,
                        BEAM_SEP_DEN as int,
                    ));
                    lemma_sep_symmetric(
                        sold.entity.position.vec3(),
                        user.position.vec3(),
                        sold.beams[a].user.position.vec3(),
                        BEAM_SEP_NUM as int,
                        BEAM_SEP_DEN as int,
                    );
                }
            }
            assert forall|a: int|
                0 <= a < snew.beams.len() implies spec_can_see(
                (#[trigger] snew.beams[a]).user.position.vec3(),
                snew.entity.position.vec3(),
            ) by {
                if a < nb {
                    assert(snew.beams[a] == sold.beams[a]);
                }
            }
            assert forall|a: int, k: int|
                0 <= a < snew.beams.len() && 0 <= k < interferers.len() implies !spec_sep_within(
                (#[trigger] snew.beams[a]).user.position.vec3(),
                snew.entity.position.vec3(),
                (#[trigger] interferers[k]).position.vec3(),
                INTERFERENCE_NUM as int,
                INTERFERENCE_DEN as int,
            ) by {
                if a < nb {
                    assert(snew.beams[a] == sold.beams[a]);
                } else {
                    assert(!spec_interference(sold, user, interferers));
                }
            }
            assert(spec_sat_ok(snew, interferers));
            assert forall|j: int| 0 <= j < s2.len() implies spec_sat_ok(
                #[trigger] s2[j],
                interferers,
            ) by {
                if j != jstar {
                    assert(s2[j] == sats[j]);
                }
            }
        }
    }
}

/// One visit preserves user-id uniqueness: every entry of the shrunk
/// pool is a pool entry at an index other than the visited one, and the
/// new beam serves exactly the entity removed there.
pub proof fn lemma_visit_ids_ok(
    sats: Seq<SatState>,
    pool: Seq<Entity>,
    band: Band,
    interferers: Seq<Entity>,
    index: int,
)
    requires
        0 <= index < pool.len(),
        spec_ids_ok(sats, pool),
    ensures
        spec_ids_ok(
            spec_visit(sats, pool, band, interferers, index).0,
            spec_visit(sats, pool, band, interferers, index).1,
        ),
{
    let user = pool[index];
    match spec_find_best(sats, user, band, interferers) {
        None => {}
        Some(jstar) => {
            lemma_find_best_some(sats, user, band, interferers, 0, jstar);
            let s2 = spec_grant(sats, jstar, user, band);
            let p2 = pool.update(index, pool.last()).drop_last();
            let sold = sats[jstar];
            let snew = s2[jstar];
            let nb = sold.beams.len() as int;
            assert(snew.beams.len() == nb + 1);
            // Id uniqueness. Every entry of the shrunk pool is a pool
            // entry at an index other than `index`; the new beam serves
            // the entity removed at `index`.
            assert forall|j1: int, a1: int, j2: int, a2: int|
                #![trigger s2[j1].beams[a1], s2[j2].beams[a2]]
                0 <= j1 < s2.len() && 0 <= a1 < s2[j1].beams.len() && 0 <= j2 < s2.len() && 0 <= a2
                    < s2[j2].beams.len() && (j1 != j2 || a1 != a2) implies s2[j1].beams[a1].user.id
                != s2[j2].beams[a2].user.id by {
                if j1 == jstar && a1 == nb {
                    assert(s2[j2].beams[a2] == sats[j2].beams[a2]);
                    assert(sats[j2].beams[a2].user.id != pool[index].id);
                } else if j2 == jstar && a2 == nb {
                    assert(s2[j1].beams[a1] == sats[j1].beams[a1]);
                    assert(sats[j1].beams[a1].user.id != pool[index].id);
                } else {
                    assert(s2[j1].beams[a1] == sats[j1].beams[a1]);
                    assert(s2[j2].beams[a2] == sats[j2].beams[a2]);
                }
            }
            assert forall|q1: int, q2: int|
                0 <= q1 < q2 < p2.len() implies (#[trigger] p2[q1]).id != (#[trigger] p2[q2]).id by {
                let o1: int = if q1 == index { pool.len() - 1 } else { q1 };
                let o2: int = if q2 == index { pool.len() - 1 } else { q2 };
                assert(p2[q1] == pool[o1]);
                assert(p2[q2] == pool[o2]);
                assert(o1 != o2);
            }
            assert forall|j: int, a: int, q: int|
                #![trigger s2[j].beams[a], p2[q]]
                0 <= j < s2.len() && 0 <= a < s2[j].beams.len() && 0 <= q < p2.len() implies
                s2[j].beams[a].user.id != p2[q].id by {
                let o: int = if q == index { pool.len() - 1 } else { q };
                assert(p2[q] == pool[o]);
                if j == jstar && a == nb {
                    assert(s2[j].beams[a].user == pool[index]);
                    assert(o != index);
                    assert(pool[index].id != pool[o].id);
                } else {
                    assert(s2[j].beams[a] == sats[j].beams[a]);
                }
            }
        }
    }
}

/// A band pass preserves the per-satellite output invariants.
pub proof fn lemma_band_pass_sats_ok(
    sats: Seq<SatState>,
    pool: Seq<Entity>,
    band: Band,
    interferers: Seq<Entity>,
    k: nat,
)
    requires
        k <= pool.len(),
        spec_sats_ok(sats, interferers),
    ensures
        spec_sats_ok(spec_band_pass(sats, pool, band, interferers, k).0, interferers),
    decreases k,
{
    if k == 0 {
    } else {
        let next = spec_visit(sats, pool, band, interferers, k - 1);
        lemma_visit_sats_ok(sats, pool, band, interferers, k - 1);
        lemma_visit_extends(sats, pool, band, interferers, k - 1);
        lemma_band_pass_sats_ok(next.0, next.1, band, interferers, (k - 1) as nat);
    }
}

/// A band pass preserves user-id uniqueness.
pub proof fn lemma_band_pass_ids_ok(
    sats: Seq<SatState>,
    pool: Seq<Entity>,
    band: Band,
    interferers: Seq<Entity>,
    k: nat,
)
    requires
        k <= pool.len(),
        spec_ids_ok(sats, pool),
    ensures
        spec_ids_ok(
            spec_band_pass(sats, pool, band, interferers, k).0,
            spec_band_pass(sats, pool, band, interferers, k).1,
        ),
    decreases k,
{
    if k == 0 {
    } else {
        let next = spec_visit(sats, pool, band, interferers, k - 1);
        lemma_visit_ids_ok(sats, pool, band, interferers, k - 1);
        lemma_visit_extends(sats, pool, band, interferers, k - 1);
        lemma_band_pass_ids_ok(next.0, next.1, band, interferers, (k - 1) as nat);
    }
}

/// The whole run preserves the per-satellite output invariants.
pub proof fn lemma_passes_sats_ok(
    sats: Seq<SatState>,
    pool: Seq<Entity>,
    interferers: Seq<Entity>,
    n: nat,
)
    requires
        spec_sats_ok(sats, interferers),
    ensures
        spec_sats_ok(spec_passes(sats, pool, interferers, n).0, interferers),
    decreases n,
{
    if n == 0 {
    } else {
        let prev = spec_passes(sats, pool, interferers, (n - 1) as nat);
        lemma_passes_sats_ok(sats, pool, interferers, (n - 1) as nat);
        lemma_band_pass_sats_ok(
            prev.0,
            prev.1,
            Band::spec_from_index(n - 1),
            interferers,
            prev.1.len(),
        );
    }
}

/// The whole run preserves user-id uniqueness.
pub proof fn lemma_passes_ids_ok(
    sats: Seq<SatState>,
    pool: Seq<Entity>,
    interferers: Seq<Entity>,
    n: nat,
)
    requires
        spec_ids_ok(sats, pool),
    ensures
        spec_ids_ok(
            spec_passes(sats, pool, interferers, n).0,
            spec_passes(sats, pool, interferers, n).1,
        ),
    decreases n,
{
    if n == 0 {
    } else {
        let prev = spec_passes(sats, pool, interferers, (n - 1) as nat);
        lemma_passes_ids_ok(sats, pool, interferers, (n - 1) as nat);
        lemma_band_pass_ids_ok(
            prev.0,
            prev.1,
            Band::spec_from_index(n - 1),
            interferers,
            prev.1.len(),
        );
    }
}

/// After a band pass, every user left in the pool is rejected by every
/// satellite in the resulting state, provided the positions the pass
/// has not yet visited (indices `k` and above) were already rejected.
/// Each pool slot below `k` is visited exactly once during the pass,
/// and rejection, once observed, persists because beams only grow.
pub proof fn lemma_band_pass_rejects(
    sats: Seq<SatState>,
    pool: Seq<Entity>,
    band: Band,
    interferers: Seq<Entity>,
    k: nat,
)
    requires
        k <= pool.len(),
        forall|q: int, j: int|
            k <= q < pool.len() && 0 <= j < sats.len() ==> !spec_can_accept(
                #[trigger] sats[j],
                #[trigger] pool[q],
                band,
                interferers,
            ),
    ensures
        forall|q: int, j: int|
            0 <= q < spec_band_pass(sats, pool, band, interferers, k).1.len() && 0 <= j
                < spec_band_pass(sats, pool, band, interferers, k).0.len() ==> !spec_can_accept(
                #[trigger] spec_band_pass(sats, pool, band, interferers, k).0[j],
                #[trigger] spec_band_pass(sats, pool, band, interferers, k).1[q],
                band,
                interferers,
            ),
    decreases k,
{
    let fin = spec_band_pass(sats, pool, band, interferers, k);
    if k == 0 {
        assert(fin == (sats, pool));
    } else {
        let index = k - 1;
        let user = pool[index];
        let next = spec_visit(sats, pool, band, interferers, index);
        assert(fin == spec_band_pass(next.0, next.1, band, interferers, index as nat));
        match spec_find_best(sats, user, band, interferers) {
            None => {
                lemma_find_best_none(sats, user, band, interferers, 0);
                assert forall|q: int, j: int|
                    index <= q < next.1.len() && 0 <= j < next.0.len() implies !spec_can_accept(
                    #[trigger] next.0[j],
                    #[trigger] next.1[q],
                    band,
                    interferers,
                ) by {
                    if q == index {
                        assert(!spec_can_accept(sats[j], user, band, interferers));
                    }
                }
                lemma_band_pass_rejects(next.0, next.1, band, interferers, index as nat);
            }
            Some(jstar) => {
                lemma_find_best_some(sats, user, band, interferers, 0, jstar);
                lemma_visit_extends(sats, pool, band, interferers, index as int);
                assert forall|q: int, j: int|
                    index <= q < next.1.len() && 0 <= j < next.0.len() implies !spec_can_accept(
                    #[trigger] next.0[j],
                    #[trigger] next.1[q],
                    band,
                    interferers,
                ) by {
                    let e = next.1[q];
                    if q == index {
                        assert(e == pool[pool.len() - 1]);
                        assert(pool.len() - 1 >= k);
                        assert(!spec_can_accept(sats[j], e, band, interferers));
                    } else {
                        assert(e == pool[q]);
                        assert(!spec_can_accept(sats[j], e, band, interferers));
                    }
                    lemma_reject_monotone(sats[j], next.0[j], e, band, interferers);
                }
                lemma_band_pass_rejects(next.0, next.1, band, interferers, index as nat);
            }
        }
    }
}

/// After the first `n` band passes, every user still in the pool is
/// rejected by every satellite on every band already passed.
pub proof fn lemma_passes_reject(
    sats: Seq<SatState>,
    pool: Seq<Entity>,
    interferers: Seq<Entity>,
    n: nat,
)
    requires
        n <= 4,
    ensures
        forall|m: int, q: int, j: int|
            #![trigger spec_passes(sats, pool, interferers, n).0[j],
                spec_passes(sats, pool, interferers, n).1[q], Band::spec_from_index(m)]
            0 <= m < n && 0 <= q < spec_passes(sats, pool, interferers, n).1.len() && 0 <= j
                < spec_passes(sats, pool, interferers, n).0.len() ==> !spec_can_accept(
                spec_passes(sats, pool, interferers, n).0[j],
                spec_passes(sats, pool, interferers, n).1[q],
                Band::spec_from_index(m),
                interferers,
            ),
    decreases n,
{
    if n == 0 {
    } else {
        let prev = spec_passes(sats, pool, interferers, (n - 1) as nat);
        let band = Band::spec_from_index(n - 1);
        let fin = spec_passes(sats, pool, interferers, n);
        lemma_passes_reject(sats, pool, interferers, (n - 1) as nat);
        lemma_band_pass_extends(prev.0, prev.1, band, interferers, prev.1.len());
        lemma_band_pass_rejects(prev.0, prev.1, band, interferers, prev.1.len());
        assert forall|m: int, q: int, j: int|
            #![trigger fin.0[j], fin.1[q], Band::spec_from_index(m)]
            0 <= m < n && 0 <= q < fin.1.len() && 0 <= j < fin.0.len() implies !spec_can_accept(
            fin.0[j],
            fin.1[q],
            Band::spec_from_index(m),
            interferers,
        ) by {
            if m == n - 1 {
            } else {
                assert(prev.1.contains(fin.1[q]));
                let t = choose|t: int| 0 <= t < prev.1.len() && prev.1[t] == fin.1[q];
                assert(!spec_can_accept(prev.0[j], prev.1[t], Band::spec_from_index(m), interferers));
                lemma_reject_monotone(
                    prev.0[j],
                    fin.0[j],
                    fin.1[q],
                    Band::spec_from_index(m),
                    interferers,
                );
            }
        }
    }
}

/// When every satellite rejects every pool user, the search finds
/// nothing.
proof fn lemma_find_best_rejected(
    sats: Seq<SatState>,
    user: Entity,
    band: Band,
    interferers: Seq<Entity>,
    from: int,
)
    requires
        0 <= from,
        forall|j: int| 0 <= j < sats.len() ==> !spec_can_accept(#[trigger] sats[j], user, band, interferers),
    ensures
        spec_find_best_from(sats, user, band, interferers, from) is None,
    decreases sats.len() - from,
{
    if from < sats.len() {
        lemma_find_best_rejected(sats, user, band, interferers, from + 1);
    }
}

/// A band pass over a fully rejected pool changes nothing.
proof fn lemma_band_pass_stable(
    sats: Seq<SatState>,
    pool: Seq<Entity>,
    band: Band,
    interferers: Seq<Entity>,
    k: nat,
)
    requires
        k <= pool.len(),
        forall|q: int, j: int|
            0 <= q < pool.len() && 0 <= j < sats.len() ==> !spec_can_accept(
                #[trigger] sats[j],
                #[trigger] pool[q],
                band,
                interferers,
            ),
    ensures
        spec_band_pass(sats, pool, band, interferers, k) == (sats, pool),
    decreases k,
{
    if k > 0 {
        lemma_find_best_rejected(sats, pool[k - 1], band, interferers, 0);
        assert(spec_visit(sats, pool, band, interferers, k - 1) == (sats, pool));
        lemma_band_pass_stable(sats, pool, band, interferers, (k - 1) as nat);
    }
}

/// A second optimization round over the remaining pool is the
/// identity: one pass per band is sufficient, because after the first
/// round every satellite rejects every user still in the pool, on
/// every band.
pub proof fn lemma_optimize_idempotent(
    sats: Seq<SatState>,
    users: Seq<Entity>,
    interferers: Seq<Entity>,
)
    ensures
        spec_optimize(
            spec_optimize(sats, users, interferers).0,
            spec_optimize(sats, users, interferers).1,
            interferers,
        ) == spec_optimize(sats, users, interferers),
{
    lemma_optimize_maximal(sats, users, interferers);
    let fin = spec_optimize(sats, users, interferers);
    assert forall|n: nat| n <= 4 implies spec_passes(fin.0, fin.1, interferers, n) == fin by {
        lemma_passes_stable(fin.0, fin.1, interferers, n);
    }
}

/// Any number of further band passes over a maximally packed state
/// changes nothing.
proof fn lemma_passes_stable(sats: Seq<SatState>, pool: Seq<Entity>, interferers: Seq<Entity>, n: nat)
    requires
        forall|band: Band, q: int, j: int|
            0 <= q < pool.len() && 0 <= j < sats.len() ==> !#[trigger] spec_can_accept(
                sats[j],
                pool[q],
                band,
                interferers,
            ),
    ensures
        spec_passes(sats, pool, interferers, n) == (sats, pool),
    decreases n,
{
    if n > 0 {
        lemma_passes_stable(sats, pool, interferers, (n - 1) as nat);
        assert forall|q: int, j: int|
            0 <= q < pool.len() && 0 <= j < sats.len() implies !spec_can_accept(
            #[trigger] sats[j],
            #[trigger] pool[q],
            Band::spec_from_index(n - 1),
            interferers,
        ) by {
            assert(!spec_can_accept(sats[j], pool[q], Band::spec_from_index(n - 1), interferers));
        }
        lemma_band_pass_stable(
            sats,
            pool,
            Band::spec_from_index(n - 1),
            interferers,
            pool.len(),
        );
    }
}

/// Greedy maximality: after an optimization run, no satellite can
/// accept any user left unassigned, on any band. A packer that grants
/// nothing (or stops early) cannot meet this together with the run's
/// other guarantees.
pub proof fn lemma_optimize_maximal(
    sats: Seq<SatState>,
    users: Seq<Entity>,
    interferers: Seq<Entity>,
)
    ensures
        forall|band: Band, q: int, j: int|
            0 <= q < spec_optimize(sats, users, interferers).1.len() && 0 <= j < spec_optimize(
                sats,
                users,
                interferers,
            ).0.len() ==> !#[trigger] spec_can_accept(
                spec_optimize(sats, users, interferers).0[j],
                spec_optimize(sats, users, interferers).1[q],
                band,
                interferers,
            ),
{
    lemma_passes_reject(sats, users, interferers, 4);
    let fin = spec_optimize(sats, users, interferers);
    assert forall|band: Band, q: int, j: int|
        0 <= q < fin.1.len() && 0 <= j < fin.0.len() implies !#[trigger] spec_can_accept(
        fin.0[j],
        fin.1[q],
        band,
        interferers,
    ) by {
        let m: int = match band {
            Band::A => 0,
            Band::B => 1,
            Band::C => 2,
            Band::D => 3,
        };
        assert(band == Band::spec_from_index(m));
        assert(!spec_can_accept(fin.0[j], fin.1[q], Band::spec_from_index(m), interferers));
    }
}

/// No satellite has been granted any beam yet, as in a freshly loaded
/// scenario.
pub open spec fn spec_no_beams(sats: Seq<SatState>) -> bool {
    forall|j: int| 0 <= j < sats.len() ==> (#[trigger] sats[j]).beams.len() == 0
}

/// Every user id in the pool is distinct, as the data model requires of
/// a loaded scenario.
pub open spec fn spec_distinct_ids(users: Seq<Entity>) -> bool {
    forall|p1: int, p2: int|
        0 <= p1 < p2 < users.len() ==> (#[trigger] users[p1]).id != (#[trigger] users[p2]).id
}

/// Band range: a band is one of exactly A, B, C and D.
pub proof fn lemma_band_range(b: Band)
    ensures
        b == Band::A || b == Band::B || b == Band::C || b == Band::D,
{
}

/// Capacity: every satellite of an optimization run's output carries at
/// most 32 beams.
pub proof fn lemma_optimize_capacity(
    sats: Seq<SatState>,
    users: Seq<Entity>,
    interferers: Seq<Entity>,
)
    requires
        spec_no_beams(sats),
    ensures
        forall|j: int|
            0 <= j < spec_optimize(sats, users, interferers).0.len() ==> (#[trigger] spec_optimize(
                sats,
                users,
                interferers,
            ).0[j]).beams.len() <= MAX_BEAMS,
{
    lemma_passes_sats_ok(sats, users, interferers, 4);
}

/// Uniqueness: across the whole output of an optimization run on users
/// with distinct ids, a user id is served by at most one beam.
pub proof fn lemma_optimize_user_uniqueness(
    sats: Seq<SatState>,
    users: Seq<Entity>,
    interferers: Seq<Entity>,
)
    requires
        spec_no_beams(sats),
        spec_distinct_ids(users),
    ensures
        forall|j1: int, a1: int, j2: int, a2: int|
            #![trigger spec_optimize(sats, users, interferers).0[j1].beams[a1],
                spec_optimize(sats, users, interferers).0[j2].beams[a2]]
            {
                let out = spec_optimize(sats, users, interferers).0;
                0 <= j1 < out.len() && 0 <= a1 < out[j1].beams.len() && 0 <= j2 < out.len() && 0
                    <= a2 < out[j2].beams.len() && (j1 != j2 || a1 != a2)
                    ==> out[j1].beams[a1].user.id != out[j2].beams[a2].user.id
            },
{
    lemma_passes_ids_ok(sats, users, interferers, 4);
}

/// Co-beam separation: in the output of an optimization run, two beams
/// of one satellite that share a band are never within the co-beam
/// separation threshold of each other, as seen from the satellite.
pub proof fn lemma_optimize_co_beam_separation(
    sats: Seq<SatState>,
    users: Seq<Entity>,
    interferers: Seq<Entity>,
)
    requires
        spec_no_beams(sats),
    ensures
        forall|j: int, a: int, b: int|
            #![trigger spec_optimize(sats, users, interferers).0[j].beams[a],
                spec_optimize(sats, users, interferers).0[j].beams[b]]
            {
                let out = spec_optimize(sats, users, interferers).0;
                0 <= j < out.len() && 0 <= a < out[j].beams.len() && 0 <= b < out[j].beams.len()
                    && a != b && out[j].beams[a].band == out[j].beams[b].band ==> !spec_sep_within(
                    out[j].entity.position.vec3(),
                    out[j].beams[a].user.position.vec3(),
                    out[j].beams[b].user.position.vec3(),
                    BEAM_SEP_NUM as int,
                    BEAM_SEP_DEN as int,
                )
            },
{
    lemma_passes_sats_ok(sats, users, interferers, 4);
}

/// Interference exclusion: in the output of an optimization run, no
/// interferer lies within the interference threshold of a beam's
/// satellite, as seen from the beam's user.
pub proof fn lemma_optimize_interference_exclusion(
    sats: Seq<SatState>,
    users: Seq<Entity>,
    interferers: Seq<Entity>,
)
    requires
        spec_no_beams(sats),
    ensures
        forall|j: int, a: int, k: int|
            #![trigger spec_optimize(sats, users, interferers).0[j].beams[a], interferers[k]]
            {
                let out = spec_optimize(sats, users, interferers).0;
                0 <= j < out.len() && 0 <= a < out[j].beams.len() && 0 <= k < interferers.len()
                    ==> !spec_sep_within(
                    out[j].beams[a].user.position.vec3(),
                    out[j].entity.position.vec3(),
                    interferers[k].position.vec3(),
                    INTERFERENCE_NUM as int,
                    INTERFERENCE_DEN as int,
                )
            },
{
    lemma_passes_sats_ok(sats, users, interferers, 4);
}

/// Visibility: every beam of an optimization run's output serves a user
/// that can see its satellite within 45 degrees.
pub proof fn lemma_optimize_visibility(
    sats: Seq<SatState>,
    users: Seq<Entity>,
    interferers: Seq<Entity>,
)
    requires
        spec_no_beams(sats),
    ensures
        forall|j: int, a: int|
            #![trigger spec_optimize(sats, users, interferers).0[j].beams[a]]
            {
                let out = spec_optimize(sats, users, interferers).0;
                0 <= j < out.len() && 0 <= a < out[j].beams.len() ==> spec_can_see(
                    out[j].beams[a].user.position.vec3(),
                    out[j].entity.position.vec3(),
                )
            },
{
    lemma_passes_sats_ok(sats, users, interferers, 4);
}

} // verus!

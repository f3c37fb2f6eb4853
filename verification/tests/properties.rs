use beampack::parse::parse_position;
use beampack::position::{BEAM_SEP_DEN, BEAM_SEP_NUM, INTERFERENCE_DEN, INTERFERENCE_NUM};
use beampack::{parse_report, Band, Beam, Entity, Position, Satellite, Scenario};

fn entity(id: i32, x: i64, y: i64, z: i64) -> Entity {
    Entity::new(id, Position::new(x, y, z))
}

#[test]
fn capacity_overflow_rejects_33rd() {
    // A satellite with exactly 32 granted beams rejects any further
    // candidate, whatever the geometry.
    let user = entity(1, 6371 * 50, 0, 0);
    let mut sat = Satellite::from_entity(entity(1, 6921 * 50, 0, 0));
    for k in 0..32 {
        sat.push_beam(Beam::new(entity(100 + k, 6371 * 50, 0, 0), Band::A));
    }
    assert_eq!(sat.beams().len(), 32);
    let no_interferers: Vec<Entity> = Vec::new();
    assert_eq!(sat.can_accept(&user, Band::B, &no_interferers), false);
}

#[test]
fn interference_boundary_is_blocking() {
    // The satellite and the interferer subtend exactly the threshold
    // angle at the user: the boundary counts as blocked.
    let user = entity(1, 318550, 0, 0);
    let sat = Satellite::from_entity(entity(1, 318550 + 41400, 7300, 0));
    let interferers = vec![entity(1, 318550 + 41400, -7300, 0)];
    assert_eq!(sat.interference(&user, &interferers), true);
    // One unit further apart, the pair is just outside the threshold.
    let clear = vec![entity(1, 318550 + 41400, -7301, 0)];
    assert_eq!(sat.interference(&user, &clear), false);
    // And an eligible user is accepted once the interferer is clear.
    assert_eq!(sat.can_accept(&user, Band::A, &interferers), false);
    assert_eq!(sat.can_accept(&user, Band::A, &clear), true);
}

#[test]
fn separation_primitive_is_symmetric_and_exact() {
    let vertex = Position::new(0, 0, 0);
    let a = Position::new(414, 73, 0);
    let b = Position::new(414, -73, 0);
    // Exactly the interference threshold: within.
    assert_eq!(vertex.sep_within(&a, &b, INTERFERENCE_NUM, INTERFERENCE_DEN), true);
    assert_eq!(vertex.sep_within(&b, &a, INTERFERENCE_NUM, INTERFERENCE_DEN), true);
    // Far beyond the 10-degree threshold: not within.
    let c = Position::new(0, 500, 0);
    assert_eq!(vertex.sep_within(&a, &c, BEAM_SEP_NUM, BEAM_SEP_DEN), false);
    // A degenerate ray is never within.
    assert_eq!(vertex.sep_within(&vertex, &a, BEAM_SEP_NUM, BEAM_SEP_DEN), false);
}

#[test]
fn cone_test_agrees_with_origin_test() {
    let x = Position::new(1, 1, 0);
    let points = [
        Position::new(2, 3, 0),
        Position::new(-2, 3, 0),
        Position::new(-2, -3, 0),
        Position::new(3, 3, 1),
        Position::new(1, 1, 5),
    ];
    for p in points.iter() {
        assert_eq!(x.can_see_cone(p), x.can_see_sat(p));
    }
    // The degenerate target (the observer itself) is invisible under
    // both formulations.
    assert_eq!(x.can_see_cone(&x), false);
    assert_eq!(x.can_see_sat(&x), false);
}

#[test]
fn greedy_fills_bands_in_order() {
    // Five users in a tight cluster under one satellite: one lands on
    // each band in enumeration order, scanned from the pool's end, and
    // the fifth stays unassigned.
    let mut scenario = Scenario::from_str(
        "sat 7 6921 0 0
user 1 6371 0 0
user 2 6371 0.02 0
user 3 6371 0.04 0
user 4 6371 0.06 0
user 5 6371 0.08 0
",
    )
    .unwrap();
    scenario.optimize();
    assert_eq!(scenario.assigned(), 4);
    let output = String::from_utf8(scenario.format_report()).unwrap();
    assert_eq!(
        output,
        "sat 7 beam 1 user 5 color A
sat 7 beam 2 user 4 color B
sat 7 beam 3 user 3 color C
sat 7 beam 4 user 2 color D"
    );
}

#[test]
fn optimize_output_respects_all_invariants() {
    // Capacity, uniqueness, co-beam separation, interference exclusion
    // and visibility, checked concretely on an optimized scenario.
    let mut scenario = Scenario::from_str(
        "user 1 6371 0 0
sat 1 6921 0 0
user 2 0 0 6371
user 3 111.189281412 0 6370.02966584
sat 2 0 0 6921
interferer 1 -42164 0 0
",
    )
    .unwrap();
    scenario.optimize();
    let mut served: Vec<i32> = Vec::new();
    for sat in scenario.satellites().iter() {
        assert!(sat.beams().len() <= 32);
        for beam in sat.beams().iter() {
            // Uniqueness across the whole output.
            assert!(!served.contains(&beam.user().id()));
            served.push(beam.user().id());
            // Visibility prerequisite.
            assert!(beam.user().position().can_see(sat.entity().position()));
            // Interference exclusion.
            for interferer in scenario.interferers().iter() {
                assert!(!beam.user().position().sep_within(
                    sat.entity().position(),
                    interferer.position(),
                    INTERFERENCE_NUM,
                    INTERFERENCE_DEN,
                ));
            }
        }
        // Co-beam separation for band-sharing pairs.
        for (i, b1) in sat.beams().iter().enumerate() {
            for b2 in sat.beams().iter().skip(i + 1) {
                if b1.band() == b2.band() {
                    assert!(!sat.entity().position().sep_within(
                        b1.user().position(),
                        b2.user().position(),
                        BEAM_SEP_NUM,
                        BEAM_SEP_DEN,
                    ));
                }
            }
        }
    }
    assert_eq!(scenario.assigned(), 3);
}

#[test]
fn report_round_trip() {
    let mut scenario = Scenario::from_str(
        "user 1 6371 0 0
sat 1 6921 0 0
user 2 0 0 6371
user 3 111.189281412 0 6370.02966584
sat 2 0 0 6921
interferer 1 -42164 0 0
",
    )
    .unwrap();
    scenario.optimize();
    let rendered = scenario.format_report();
    let text = String::from_utf8(rendered.clone()).unwrap();
    let entries = parse_report(&text).unwrap();
    assert_eq!(entries.len(), 3);
    let tuples: Vec<(i32, u64, i32, Band)> =
        entries.iter().map(|e| (e.sat, e.beam, e.user, e.band)).collect();
    assert_eq!(
        tuples,
        vec![(1, 1, 1, Band::A), (2, 1, 3, Band::A), (2, 2, 2, Band::A)]
    );
    // Serializing again yields the identical bytes.
    assert_eq!(scenario.format_report(), rendered);
}

#[test]
fn empty_report_round_trip() {
    let mut scenario = Scenario::from_str("sat 1 6921 0 0\n").unwrap();
    scenario.optimize();
    assert_eq!(scenario.assigned(), 0);
    let rendered = scenario.format_report();
    assert_eq!(rendered.len(), 0);
    let entries = parse_report("").unwrap();
    assert_eq!(entries.len(), 0);
}

#[test]
fn report_rejects_malformed_lines() {
    assert!(parse_report("sat 1 beam 1 user 1 color E").is_none());
    assert!(parse_report("sat x beam 1 user 1 color A").is_none());
    assert!(parse_report("sat 1 beam 1 user 1").is_none());
    assert!(parse_report("nonsense").is_none());
    assert!(parse_report("sat 1 beam 1 user 1 color A\n\n").is_none());
    // Extra whitespace between fields is tolerated.
    let entries = parse_report("sat  1  beam  1  user  -7  color  D").unwrap();
    assert_eq!(entries.len(), 1);
    assert_eq!(entries[0].sat, 1);
    assert_eq!(entries[0].beam, 1);
    assert_eq!(entries[0].user, -7);
    assert_eq!(entries[0].band, Band::D);
}

#[test]
fn scenario_rejects_malformed_lines() {
    assert!(Scenario::from_str("user 1 abc 0 0").is_none());
    assert!(Scenario::from_str("user 1 6371 0").is_none());
    assert!(Scenario::from_str("user 1 6371 0 0 7").is_none());
    assert!(Scenario::from_str("sat 99999999999999999999 0 0 0").is_none());
    // Coordinates beyond the library's range are rejected, not folded.
    assert!(Scenario::from_str("user 1 50000 0 0").is_none());
    assert!(Scenario::from_str("interferer 1 -50000 0 0").is_none());
}

#[test]
fn scenario_ignores_unknown_lines() {
    let scenario = Scenario::from_str(
        "# a comment line
        unknown 1 2 3 4

user 4 6371 0 0
",
    )
    .unwrap();
    assert_eq!(scenario.users().len(), 1);
    assert_eq!(scenario.users()[0].id(), 4);
    assert_eq!(scenario.satellites().len(), 0);
    assert_eq!(scenario.interferers().len(), 0);
}

#[test]
fn coordinates_truncate_toward_zero() {
    let p = parse_position("0.0399 -0.0399 48000").unwrap();
    assert_eq!(p.x, 1);
    assert_eq!(p.y, -1);
    assert_eq!(p.z, 2_400_000);
    // Fraction digits beyond the ninth are ignored.
    let q = parse_position("0.1000000009 0 0").unwrap();
    assert_eq!(q.x, 5);
    // The maximum coordinate is inclusive; one step beyond fails.
    assert!(parse_position("48000.02 0 0").is_none());
}

#[test]
fn bands_enumerate_in_order() {
    assert_eq!(Band::from_index(0), Band::A);
    assert_eq!(Band::from_index(1), Band::B);
    assert_eq!(Band::from_index(2), Band::C);
    assert_eq!(Band::from_index(3), Band::D);
    assert_eq!(Band::A.letter(), b'A');
    assert_eq!(Band::B.letter(), b'B');
    assert_eq!(Band::C.letter(), b'C');
    assert_eq!(Band::D.letter(), b'D');
}

#[test]
fn skymap_lists_visible_satellite_ids() {
    let scenario = Scenario::from_str(
        "user 1 6371 0 0
user 2 0 0 6371
sat 10 6921 0 0
sat 20 0 0 6921
",
    )
    .unwrap();
    let map = scenario.skymap();
    assert_eq!(map.len(), 2);
    assert_eq!(map[0].0, 1);
    assert_eq!(map[0].1, vec![10]);
    assert_eq!(map[1].0, 2);
    assert_eq!(map[1].1, vec![20]);
}

#[test]
fn beam_accessors_report_their_fields() {
    let user = entity(9, 318550, 0, 0);
    let beam = Beam::new(user, Band::C);
    assert_eq!(beam.user().id(), 9);
    assert_eq!(beam.band(), Band::C);
    let sat = Satellite::from_entity(entity(3, 0, 0, 346050));
    assert_eq!(sat.entity().id(), 3);
    assert_eq!(sat.beams().len(), 0);
    assert_eq!(sat.visible().len(), 0);
    let scaled = user.position().scale(2);
    assert_eq!(scaled, Position::new(637100, 0, 0));
    assert_eq!(user.position().len_sq(), 318550i128 * 318550i128);
}

#[test]
fn maybe_see_next_user_appends_only_visible() {
    let mut sat = Satellite::from_entity(entity(1, 6921 * 50, 0, 0));
    let near = entity(1, 6371 * 50, 0, 0);
    let far = entity(2, 0, 0, 6371 * 50);
    sat.maybe_see_next_user(&near);
    sat.maybe_see_next_user(&far);
    assert_eq!(sat.visible().len(), 1);
    assert_eq!(sat.visible()[0].id(), 1);
}

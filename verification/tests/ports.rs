use beampack::parse::{parse_entity, parse_position};
use beampack::{Band, Beam, Position, Scenario};

#[test]
fn test_build_position() {
    let position = String::from("6371 0 0");
    let position: Position = parse_position(&position).unwrap();
    assert_eq!(position.x, 6371 * 50);
    assert_eq!(position.y, 0);
    assert_eq!(position.z, 0);
}

#[test]
fn test_position_arithmetic() {
    let p1 = Position::new(2, 3, 4);
    let p2 = Position::new(3, 4, 6);

    assert_eq!(p2.sub(&p1), Position::new(1, 1, 2));

    assert_eq!(Position::dot(&p1, &p2), 42);
}

#[test]
fn test_can_see() {
    let x = Position::new(1, 1, 0);
    let p1 = Position::new(2, 3, 0);
    let p2 = Position::new(-2, 3, 0);
    let p3 = Position::new(-2, -3, 0);
    let p4 = Position::new(0, 0, 0);

    assert_eq!(x.can_see(&p1), true);
    assert_eq!(x.can_see(&p2), false);
    assert_eq!(x.can_see(&p3), false);
    assert_eq!(x.can_see(&p4), false);
}

#[test]
fn regression_can_see() {
    // Ground points that historically slipped through early drafts of
    // the visibility predicate; none of them may see the satellite.
    let s1 = parse_position("6921 0 0").unwrap();
    let g1 = parse_position("-5324.437140094696 -3507.3891257286095 -170.3720276523595").unwrap();
    assert_eq!(g1.can_see(&s1), false);

    let s3 = Position::new(0, 0, 2);
    let g3 = Position::new(1, 0, 0);
    assert_eq!(g3.can_see(&s3), false);

    let s2 = parse_position("6921 0 0").unwrap();
    let g2 = parse_position("111.189278 0 6370.02978").unwrap();
    assert_eq!(g2.can_see(&s2), false);

    let s4 = parse_position("6921 0 0").unwrap();
    let g4 = parse_position("6350.206256636249 574.1605965872963 -160.24555276741216").unwrap();
    assert_eq!(g4.can_see(&s4), false);
}

#[test]
fn test_build_entity() {
    let entity = String::from("1 6371.1897 22.65 -123");
    let entity = parse_entity(&entity).unwrap();
    let position = entity.position;
    assert_eq!(entity.id, 1);
    assert_eq!(position.x, 318559);
    assert_eq!(position.y, 1132);
    assert_eq!(position.z, -6150);
}

const EXAMPLE_SCENARIO: &str =
    "# User on the equator at the Prime Meridian, satellite 550km overhead
user 1 6371 0 0
sat 1 6921 0 0

# Two users close to the North Pole, satellite 550km overhead
user 2 0 0 6371
user 3 111.189281412 0 6370.02966584
sat 2 0 0 6921

# Interferer satellite in GEO at 180 degrees West (opposite the Prime Meridian)
interferer 1 -42164 0 0
";

#[test]
fn test_build_scenario() {
    let scenario = Scenario::from_str(EXAMPLE_SCENARIO).unwrap();
    assert_eq!(scenario.users.len(), 3);
    assert_eq!(scenario.satellites.len(), 2);
    assert_eq!(scenario.interferers.len(), 1);
}

#[test]
fn test_scenario_skymap() {
    let mut scenario = Scenario::from_str(
        "user 1 6371 0 0
user 2 6371 10 0
user 3 6371 400 400
sat 1 6921 0 0
user 4 0 0 6371
user 5 111.189281412 0 6370.02966584
sat 2 0 0 6921
",
    )
    .unwrap();
    scenario.build_skymap();
    assert_eq!(scenario.satellites()[0].visible().len(), 2);
    assert_eq!(scenario.satellites()[1].visible().len(), 2);
}

#[test]
fn test_beam_intersection() {
    let mut scenario = Scenario::from_str(
        "user 1 6371 0 0
user 2 6371 10 0
user 3 6371 400 400
sat 1 6921 0 0",
    )
    .unwrap();
    let user = scenario.users()[0];
    scenario.satellites[0].push_beam(Beam::new(user, Band::A));
    let satellite = &scenario.satellites()[0];
    assert_eq!(satellite.beam_intersection(&scenario.users()[1], Band::A), true);
    assert_eq!(satellite.beam_intersection(&scenario.users()[2], Band::A), false);
}

#[test]
fn test_optimize() {
    let mut scenario = Scenario::from_str(
        "user 1 6371 0 0
user 2 6371 10 0
user 3 6371 400 400
sat 1 6921 0 0",
    )
    .unwrap();
    scenario.optimize();
    let output = String::from_utf8(scenario.format_report()).unwrap();
    assert_eq!(
        output,
        "sat 1 beam 1 user 2 color A
sat 1 beam 2 user 1 color B"
    );
}

#[test]
fn test_00_example() {
    let mut scenario = Scenario::from_str(
        "user 1 6371 0 0
sat 1 6921 0 0
user 2 0 0 6371
user 3 111.189281412 0 6370.02966584
sat 2 0 0 6921
interferer 1 -42164 0 0
",
    )
    .unwrap();

    scenario.optimize();
    let output = String::from_utf8(scenario.format_report()).unwrap();

    assert_eq!(
        output,
        "sat 1 beam 1 user 1 color A
sat 2 beam 1 user 3 color A
sat 2 beam 2 user 2 color A"
    );
}

#[test]
fn test_11_example_beam_interference() {
    // A pair of ground stations an arcsecond-scale angle apart as seen
    // from the satellite: they must count as intersecting on one band.
    let mut scenario = Scenario::from_str(
        "sat 624 -5111.007144121957 -1334.7360828140702 4471.7252332817225
user 83636 -4462.399898375494 -1507.4791341925356 4286.176851267787
user 21283 -4462.341423785467 -1507.5185635095902 4286.223546883291",
    )
    .unwrap();

    let user = scenario.users()[0];
    scenario.satellites[0].push_beam(Beam::new(user, Band::A));
    let satellite = &scenario.satellites()[0];
    let user = &scenario.users()[1];
    let intersects = satellite.beam_intersection(user, Band::A);
    assert_eq!(intersects, true);
}

use rmr::common::GraphOptions;
use rmr::cube::{
    cube_wireframe, make_cube, rotate_points, rotate_vertex, step_rotation, CubeAction,
    CubeAnimation, CubeEvent, Edge, Rotation, Vertex,
};

const UNIT: i64 = 1_000_000;

fn get_graph_options() -> GraphOptions {
    GraphOptions { y_max: 7 * UNIT, y_min: -7 * UNIT, width: 240, height: 120 }
}

fn at(x: i64, y: i64, z: i64) -> Vertex {
    Vertex { x: x * UNIT, y: y * UNIT, z: z * UNIT }
}

fn still() -> Rotation {
    Rotation { sin_x: 0, cos_x: UNIT, sin_y: 0, cos_y: UNIT, sin_z: 0, cos_z: UNIT }
}

#[test]
fn cube_stands_in_the_picture() {
    let cube = cube_wireframe(&get_graph_options());
    assert_eq!(
        cube.vertices,
        vec![
            at(60, 30, 15),
            at(60, 60, 15),
            at(90, 30, 15),
            at(90, 60, 15),
            at(60, 30, -15),
            at(60, 60, -15),
            at(90, 30, -15),
            at(90, 60, -15),
        ]
    );
    assert_eq!(cube.anchor, at(75, 45, 0));
    assert_eq!(cube.edges.len(), 12);
    assert_eq!(cube.edges[0], Edge { from: 0, to: 1 });
    assert_eq!(cube.edges[7], Edge { from: 6, to: 4 });
    assert_eq!(cube.edges[11], Edge { from: 3, to: 7 });
    let small = cube_wireframe(&GraphOptions { y_min: 0, y_max: 0, width: 6, height: 40 });
    assert_eq!(small.vertices[3], Vertex { x: 2 * UNIT, y: 11 * UNIT, z: 500_000 });
    assert_eq!(small.anchor, Vertex { x: 1_500_000, y: 10_500_000, z: 0 });
}

#[test]
fn rotation_by_nothing_changes_nothing() {
    let v = at(7, -3, 11);
    assert_eq!(rotate_vertex(&v, &at(1, 2, 3), &still()), v);
}

#[test]
fn quarter_turns_about_each_axis() {
    let origin = at(0, 0, 0);
    let about_z = Rotation { sin_z: UNIT, cos_z: 0, ..still() };
    assert_eq!(rotate_vertex(&at(1, 0, 0), &origin, &about_z), at(0, 1, 0));
    assert_eq!(rotate_vertex(&at(0, 1, 5), &origin, &about_z), at(-1, 0, 5));
    let about_x = Rotation { sin_x: UNIT, cos_x: 0, ..still() };
    assert_eq!(rotate_vertex(&at(4, 1, 0), &origin, &about_x), at(4, 0, 1));
    assert_eq!(rotate_vertex(&at(4, 0, 1), &origin, &about_x), at(4, -1, 0));
    let about_y = Rotation { sin_y: UNIT, cos_y: 0, ..still() };
    assert_eq!(rotate_vertex(&at(0, 4, 1), &origin, &about_y), at(1, 4, 0));
    assert_eq!(rotate_vertex(&at(1, 4, 0), &origin, &about_y), at(0, 4, -1));
}

#[test]
fn rotation_turns_about_the_anchor() {
    let about_z = Rotation { sin_z: UNIT, cos_z: 0, ..still() };
    assert_eq!(rotate_vertex(&at(76, 45, 2), &at(75, 45, 0), &about_z), at(75, 46, 2));
    assert_eq!(rotate_vertex(&at(75, 45, 0), &at(75, 45, 0), &step_rotation()), at(75, 45, 0));
}

#[test]
fn turns_are_applied_one_after_another() {
    // A quarter turn about the first axis takes (0, 1, 0) to (0, 0, 1), and a
    // quarter turn about the second takes that to (1, 0, 0).
    let both = Rotation { sin_x: UNIT, cos_x: 0, sin_y: UNIT, cos_y: 0, ..still() };
    assert_eq!(rotate_vertex(&at(0, 1, 0), &at(0, 0, 0), &both), at(1, 0, 0));
}

#[test]
fn step_of_the_animation_is_a_small_turn() {
    let r = step_rotation();
    assert!(r.is_valid());
    for (s, c) in [(r.sin_x, r.cos_x), (r.sin_y, r.cos_y), (r.sin_z, r.cos_z)] {
        let norm = (s as i128 * s as i128 + c as i128 * c as i128) as f64 / 1e12;
        assert!((norm - 1.0).abs() < 2e-6);
    }
    assert_eq!((r.sin_x, r.sin_y, r.sin_z), (20_942, 26_177, -31_411));
    let turned = rotate_vertex(&at(90, 60, 15), &at(75, 45, 0), &r);
    // x = 15, y = 15, z = 15 about the centre: each coordinate moves by less
    // than a cell.
    assert_eq!(turned, Vertex { x: 90_849_252, y: 59_191_754, z: 14_912_938 });
    assert!(!Rotation { sin_x: UNIT + 1, ..still() }.is_valid());
}

#[test]
fn all_points_are_turned() {
    let mut points = vec![at(1, 0, 0), at(0, 1, 0), at(3, 3, 3)];
    let about_z = Rotation { sin_z: UNIT, cos_z: 0, ..still() };
    rotate_points(&mut points, &at(0, 0, 0), &about_z);
    assert_eq!(points, vec![at(0, 1, 0), at(-1, 0, 0), at(-3, 3, 3)]);
    let mut none: Vec<Vertex> = Vec::new();
    rotate_points(&mut none, &at(0, 0, 0), &about_z);
    assert!(none.is_empty());
}

#[test]
fn coordinates_stay_in_range() {
    let far = Vertex { x: i64::MAX, y: i64::MAX, z: i64::MIN };
    let anchor = Vertex { x: i64::MIN, y: i64::MIN, z: i64::MAX };
    let about_z = Rotation { sin_z: UNIT, cos_z: 0, ..still() };
    let turned = rotate_vertex(&far, &anchor, &about_z);
    assert_eq!(turned.x, i64::MIN);
    assert_eq!(turned.y, i64::MAX);
    assert_eq!(turned.z, i64::MIN);
}

#[test]
fn frame_of_a_square() {
    let go = GraphOptions { y_min: 0, y_max: 0, width: 4, height: 4 };
    let p = vec![at(0, 0, 9), at(3, 0, -9), at(3, 3, 0), at(0, 3, 0)];
    let edges = vec![
        Edge { from: 0, to: 1 },
        Edge { from: 1, to: 2 },
        Edge { from: 2, to: 3 },
        Edge { from: 3, to: 0 },
    ];
    // Rows 0 and 3 and columns 0 and 3 of the first four rows are lit.
    assert_eq!(make_cube(&go, &p, &edges), "⣏⣹\n");
    assert_eq!(make_cube(&go, &p, &Vec::new()), "⠀⠀\n");
}

#[test]
fn animation_draws_turns_and_stops() {
    let go = get_graph_options();
    let (mut animation, first) = CubeAnimation::start(&go);
    assert_eq!(first.lines().count(), 30);
    assert_eq!(animation.lines, 31);
    assert!(!animation.stopped);
    let cube = cube_wireframe(&go);
    assert_eq!(animation.cube, cube);
    assert_eq!(first, make_cube(&go, &cube.vertices, &cube.edges));

    assert_eq!(animation.step(&go, CubeEvent::OtherInput), CubeAction::Wait);
    assert_eq!(animation.cube, cube);

    let mut turned = cube.vertices.clone();
    rotate_points(&mut turned, &cube.anchor, &step_rotation());
    let action = animation.step(&go, CubeEvent::Tick);
    assert_eq!(
        action,
        CubeAction::Redraw { move_up: 31, frame: make_cube(&go, &turned, &cube.edges) }
    );
    assert_eq!(animation.cube.vertices, turned);
    assert_ne!(turned, cube.vertices);
    assert_eq!(animation.cube.anchor, cube.anchor);

    assert_eq!(animation.step(&go, CubeEvent::Quit), CubeAction::Stop);
    assert!(animation.stopped);
    assert_eq!(animation.step(&go, CubeEvent::Tick), CubeAction::Stop);
    assert_eq!(animation.cube.vertices, turned);
}

#[test]
fn cube_keeps_its_shape_over_many_turns() {
    let go = get_graph_options();
    let (mut animation, _) = CubeAnimation::start(&go);
    for _ in 0..300 {
        animation.step(&go, CubeEvent::Tick);
    }
    let a = animation.cube.vertices[0];
    let b = animation.cube.vertices[1];
    let d = |p: i64, q: i64| ((p - q) as f64 / UNIT as f64).powi(2);
    let edge = (d(a.x, b.x) + d(a.y, b.y) + d(a.z, b.z)).sqrt();
    assert!((edge - 30.0).abs() < 0.1);
}

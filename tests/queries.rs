use mercator_db::coordinate::Coordinate;
use mercator_db::db_core::Core;
use mercator_db::error::Error;
use mercator_db::position::Position;
use mercator_db::properties::Properties;
use mercator_db::shape::Shape;
use mercator_db::space_db::QueryParameters;
use mercator_db::space_index::SpaceSetObject;

fn pos(v: &[u64]) -> Position {
    Position::from_values(v.to_vec())
}

fn plain() -> QueryParameters {
    QueryParameters {
        volume_shift: None,
        resolution: None,
        view_port: None,
    }
}

fn three_points() -> Core {
    let properties = vec![
        Properties::feature("at0"),
        Properties::feature("at5"),
        Properties::feature("at9"),
    ];
    let objects = vec![
        SpaceSetObject::new("s", pos(&[0, 0, 0]), 0),
        SpaceSetObject::new("s", pos(&[5, 5, 5]), 1),
        SpaceSetObject::new("s", pos(&[9, 9, 9]), 2),
    ];
    Core::new(
        "test",
        "v0.1",
        &vec![("s".to_string(), 3)],
        properties,
        objects,
        None,
        None,
    )
}

#[test]
fn box_query_returns_inner_point() {
    let core = three_points();
    let shape = Shape::BoundingBox(pos(&[1, 1, 1]), pos(&[6, 6, 6]));
    let r = core.get_by_shape(&vec![plain()], &vec![shape]).unwrap();
    assert_eq!(r.len(), 1);
    assert_eq!(r[0].0, "s");
    assert_eq!(r[0].1.len(), 1);
    assert_eq!(r[0].1[0].0, pos(&[5, 5, 5]));
    assert_eq!(core.keys()[r[0].1[0].1].id(), "at5");
}

#[test]
fn sphere_query_returns_center_only() {
    let core = three_points();
    let shape = Shape::HyperSphere(pos(&[5, 5, 5]), Coordinate::from_u64(2));
    let r = core.get_by_shape(&vec![plain()], &vec![shape]).unwrap();
    assert_eq!(r[0].1.len(), 1);
    assert_eq!(r[0].1[0].0, pos(&[5, 5, 5]));
    assert_eq!(core.keys()[r[0].1[0].1].id(), "at5");
}

#[test]
fn sphere_query_drops_corner_of_bounding_box() {
    let properties = vec![Properties::feature("c"), Properties::feature("k")];
    let objects = vec![
        SpaceSetObject::new("s", pos(&[5, 5, 5]), 0),
        SpaceSetObject::new("s", pos(&[7, 7, 7]), 1),
        SpaceSetObject::new("s", pos(&[6, 6, 5]), 1),
    ];
    let core = Core::new("t", "v", &vec![("s".to_string(), 3)], properties, objects, None, None);
    let shape = Shape::HyperSphere(pos(&[5, 5, 5]), Coordinate::from_u64(2));
    let r = core.get_by_shape(&vec![plain()], &vec![shape]).unwrap();
    let found: Vec<Position> = r[0].1.iter().map(|e| e.0.clone()).collect();
    assert_eq!(found.len(), 2);
    assert!(found.contains(&pos(&[5, 5, 5])));
    assert!(found.contains(&pos(&[6, 6, 5])));
    assert!(!found.contains(&pos(&[7, 7, 7])));
}

#[test]
fn sphere_of_radius_zero_is_the_point() {
    let core = three_points();
    let sphere = Shape::HyperSphere(pos(&[9, 9, 9]), Coordinate::from_u64(0));
    let point = Shape::Point(pos(&[9, 9, 9]));
    let a = core.get_by_shape(&vec![plain()], &vec![sphere]).unwrap();
    let b = core.get_by_shape(&vec![plain()], &vec![point]).unwrap();
    assert_eq!(a[0].1, b[0].1);
    assert_eq!(a[0].1.len(), 1);
}

#[test]
fn single_point_box_returns_points_there() {
    let core = three_points();
    let shape = Shape::BoundingBox(pos(&[9, 9, 9]), pos(&[9, 9, 9]));
    let r = core.get_by_shape(&vec![plain()], &vec![shape]).unwrap();
    assert_eq!(r[0].1, vec![(pos(&[9, 9, 9]), 2)]);
}

#[test]
fn label_query_returns_colocated_others() {
    let properties = vec![Properties::feature("A"), Properties::feature("B")];
    let objects = vec![
        SpaceSetObject::new("s", pos(&[0, 0, 0]), 0),
        SpaceSetObject::new("s", pos(&[0, 0, 0]), 1),
        SpaceSetObject::new("s", pos(&[1, 1, 1]), 1),
    ];
    let core = Core::new("t", "v", &vec![("s".to_string(), 3)], properties, objects, None, None);
    let params = vec![plain()];
    let own = core.get_by_id(&params, "A");
    assert_eq!(own.len(), 1);
    assert_eq!(own[0].1, vec![pos(&[0, 0, 0])]);
    let volume = vec![own[0].1.clone()];
    let r = core.get_by_label(&params, "A", &volume);
    assert_eq!(r.len(), 1);
    assert_eq!(r[0].1, vec![(pos(&[0, 0, 0]), 1)]);
    assert_eq!(core.keys()[1].id(), "B");
}

#[test]
fn label_query_never_returns_the_label() {
    let properties = vec![Properties::feature("A"), Properties::feature("B")];
    let objects = vec![
        SpaceSetObject::new("s", pos(&[2, 2, 2]), 0),
        SpaceSetObject::new("s", pos(&[3, 3, 3]), 0),
        SpaceSetObject::new("s", pos(&[3, 3, 3]), 1),
    ];
    let core = Core::new("t", "v", &vec![("s".to_string(), 3)], properties, objects, None, None);
    let volume = vec![vec![pos(&[2, 2, 2]), pos(&[3, 3, 3])]];
    let r = core.get_by_label(&vec![plain()], "A", &volume);
    assert_eq!(r[0].1, vec![(pos(&[3, 3, 3]), 1)]);
    for (_, v) in r[0].1.iter() {
        assert_ne!(*v, 0);
    }
}

#[test]
fn unknown_identifier_gives_empty_results() {
    let core = three_points();
    assert!(core.get_by_id(&vec![plain()], "nope").is_empty());
    assert!(core.get_by_label(&vec![plain()], "nope", &vec![vec![]]).is_empty());
    assert_eq!(core.offset_of("nope"), None);
    assert_eq!(core.offset_of("at9"), Some(2));
}

#[test]
fn get_by_id_respects_view_port() {
    let properties = vec![Properties::feature("A")];
    let objects = vec![
        SpaceSetObject::new("s", pos(&[1, 1, 1]), 0),
        SpaceSetObject::new("s", pos(&[8, 8, 8]), 0),
    ];
    let core = Core::new("t", "v", &vec![("s".to_string(), 3)], properties, objects, None, None);
    let params = vec![QueryParameters {
        volume_shift: None,
        resolution: None,
        view_port: Some(Shape::BoundingBox(pos(&[0, 0, 0]), pos(&[4, 4, 4]))),
    }];
    let r = core.get_by_id(&params, "A");
    assert_eq!(r[0].1, vec![pos(&[1, 1, 1])]);
    let all = core.get_by_id(&vec![plain()], "A");
    assert_eq!(all[0].1.len(), 2);
}

#[test]
fn get_by_positions_follows_input_order() {
    let core = three_points();
    let positions = vec![vec![pos(&[9, 9, 9]), pos(&[1, 2, 3]), pos(&[0, 0, 0])]];
    let r = core.get_by_positions(&vec![plain()], &positions);
    assert_eq!(r[0].1, vec![(pos(&[9, 9, 9]), 2), (pos(&[0, 0, 0]), 0)]);
}

#[test]
fn objects_of_other_spaces_are_left_out() {
    let properties = vec![Properties::feature("A"), Properties::feature("B")];
    let objects = vec![
        SpaceSetObject::new("s", pos(&[1, 1, 1]), 0),
        SpaceSetObject::new("t", pos(&[1, 1, 1]), 1),
    ];
    let core = Core::new("t", "v", &vec![("s".to_string(), 3)], properties, objects, None, None);
    let r = core.get_by_positions(&vec![plain()], &vec![vec![pos(&[1, 1, 1])]]);
    assert_eq!(r[0].1, vec![(pos(&[1, 1, 1]), 0)]);
}

#[test]
fn view_port_errors() {
    let core = three_points();
    let outside = QueryParameters {
        volume_shift: None,
        resolution: None,
        view_port: Some(Shape::BoundingBox(pos(&[0, 0, 0]), pos(&[2, 2, 2]))),
    };
    let r = core.get_by_shape(&vec![outside.clone()], &vec![Shape::Point(pos(&[5, 5, 5]))]);
    assert_eq!(r.unwrap_err(), Error::OutOfViewport);
    let r = core.get_by_shape(
        &vec![outside.clone()],
        &vec![Shape::BoundingBox(pos(&[5, 5, 5]), pos(&[9, 9, 9]))],
    );
    assert_eq!(r.unwrap_err(), Error::EmptyIntersection);
    let not_a_box = QueryParameters {
        volume_shift: None,
        resolution: None,
        view_port: Some(Shape::Point(pos(&[0, 0, 0]))),
    };
    let r = core.get_by_shape(
        &vec![not_a_box],
        &vec![Shape::BoundingBox(pos(&[0, 0, 0]), pos(&[9, 9, 9]))],
    );
    assert_eq!(r.unwrap_err(), Error::InvalidViewport);
    let r = core.get_by_shape(
        &vec![outside],
        &vec![Shape::BoundingBox(pos(&[0, 0]), pos(&[9, 9]))],
    );
    assert_eq!(r.unwrap_err(), Error::DimensionMismatch);
}

#[test]
fn view_port_clips_box_query() {
    let core = three_points();
    let params = QueryParameters {
        volume_shift: None,
        resolution: None,
        view_port: Some(Shape::BoundingBox(pos(&[0, 0, 0]), pos(&[6, 6, 6]))),
    };
    let r = core
        .get_by_shape(&vec![params], &vec![Shape::BoundingBox(pos(&[0, 0, 0]), pos(&[9, 9, 9]))])
        .unwrap();
    assert_eq!(r[0].1, vec![(pos(&[0, 0, 0]), 0), (pos(&[5, 5, 5]), 1)]);
}

use mercator_db::catalog::{check_exactly_one, is_universe};
use mercator_db::coordinate::Coordinate;
use mercator_db::db_core::group_by_identifier;
use mercator_db::error::Error;
use mercator_db::position::Position;
use mercator_db::properties::{index_properties, Properties};
use mercator_db::shape::{lattice_points, Shape};
use mercator_db::space_index::SpaceFields;
use mercator_db::units::{NumberSet, UnitSI};
use std::cmp::Ordering;

fn pos(v: &[u64]) -> Position {
    Position::from_values(v.to_vec())
}

#[test]
fn coordinates_take_narrowest_width() {
    assert!(matches!(Coordinate::from_u64(255), Coordinate::CoordinateU8(255)));
    assert!(matches!(Coordinate::from_u64(256), Coordinate::CoordinateU16(256)));
    assert!(matches!(Coordinate::from_u64(70000), Coordinate::CoordinateU32(70000)));
    assert!(matches!(
        Coordinate::from_u64(1 << 40),
        Coordinate::CoordinateU64(_)
    ));
    let a = Coordinate::from_u64(3);
    let b = Coordinate::from_u64(300);
    assert_eq!(a.sub(b).u64(), 0);
    assert_eq!(b.sub(a).u64(), 297);
    assert_eq!(a.add(b).u64(), 303);
    assert_eq!(a.mul(b).u64(), 900);
    assert!(a.mul(b).same_value(&Coordinate::CoordinateU64(900)));
}

#[test]
fn positions_partial_order() {
    assert_eq!(pos(&[1, 2]).compare(&pos(&[1, 2])), Some(Ordering::Equal));
    assert_eq!(pos(&[1, 2]).compare(&pos(&[1, 3])), Some(Ordering::Less));
    assert_eq!(pos(&[2, 3]).compare(&pos(&[1, 3])), Some(Ordering::Greater));
    assert_eq!(pos(&[2, 1]).compare(&pos(&[1, 3])), None);
    assert_eq!(pos(&[1]).compare(&pos(&[1, 3])), None);
    assert!(pos(&[1, 2]) < pos(&[1, 3]));
    assert!(pos(&[1, 2]) <= pos(&[1, 2]));
    assert!(!(pos(&[2, 1]) < pos(&[1, 3])));
    assert!(!(pos(&[2, 1]) > pos(&[1, 3])));
    assert_eq!(pos(&[2, 1]).partial_cmp(&pos(&[1, 3])), None);
    assert_eq!(pos(&[8, 9, 1023]).reduce_precision(2), pos(&[2, 2, 255]));
    let p = Position::new(vec![Coordinate::from_u64(7), Coordinate::from_u64(70000)]);
    assert_eq!(p, pos(&[7, 70000]));
    assert_eq!(p.get(1).u64(), 70000);
}

#[test]
fn box_lattice_is_odometer_order() {
    let r = Shape::BoundingBox(pos(&[0, 1]), pos(&[2, 3])).rasterise();
    assert_eq!(
        r,
        vec![pos(&[0, 1]), pos(&[0, 2]), pos(&[1, 1]), pos(&[1, 2])]
    );
    let flat = lattice_points(&pos(&[0, 5]), &pos(&[3, 5]));
    assert_eq!(flat, vec![pos(&[0, 5]), pos(&[1, 5]), pos(&[2, 5])]);
    let single = Shape::BoundingBox(pos(&[4, 4, 4]), pos(&[4, 4, 4])).rasterise();
    assert_eq!(single, vec![pos(&[4, 4, 4])]);
    assert_eq!(Shape::Point(pos(&[1, 2])).rasterise(), vec![pos(&[1, 2])]);
}

#[test]
fn rasterised_points_are_contained() {
    let shapes = vec![
        Shape::Point(pos(&[3, 3])),
        Shape::BoundingBox(pos(&[1, 2, 3]), pos(&[4, 4, 5])),
        Shape::HyperSphere(pos(&[5, 5, 5]), Coordinate::from_u64(3)),
    ];
    for s in shapes.iter() {
        let pts = s.rasterise();
        assert!(!pts.is_empty());
        for p in pts.iter() {
            assert!(s.contains(p));
        }
    }
}

#[test]
fn sphere_raster_within_box_raster() {
    let sphere = Shape::HyperSphere(pos(&[2, 3]), Coordinate::from_u64(2));
    let (lo, hi) = sphere.get_mbb();
    assert_eq!(lo, pos(&[0, 1]));
    assert_eq!(hi, pos(&[4, 5]));
    let inner = sphere.rasterise();
    let outer = Shape::BoundingBox(lo, hi).rasterise();
    assert_eq!(outer.len(), 16);
    assert!(inner.len() < outer.len());
    for p in inner.iter() {
        assert!(outer.contains(p));
    }
    assert!(inner.contains(&pos(&[0, 3])));
    assert!(!inner.contains(&pos(&[0, 1])));
}

#[test]
fn sphere_bounding_box_stays_in_range() {
    let sphere = Shape::HyperSphere(pos(&[1, u64::MAX - 1]), Coordinate::from_u64(3));
    let (lo, hi) = sphere.get_mbb();
    assert_eq!(lo, pos(&[0, u64::MAX - 4]));
    assert_eq!(hi, pos(&[4, u64::MAX]));
}

#[test]
fn containment() {
    let sphere = Shape::HyperSphere(pos(&[10, 10]), Coordinate::from_u64(5));
    assert!(sphere.contains(&pos(&[13, 14])));
    assert!(!sphere.contains(&pos(&[14, 14])));
    assert!(sphere.contains(&pos(&[6, 7])));
    assert!(!sphere.contains(&pos(&[10, 10, 10])));
    let b = Shape::BoundingBox(pos(&[1, 1]), pos(&[3, 3]));
    assert!(b.contains(&pos(&[3, 1])));
    assert!(!b.contains(&pos(&[4, 1])));
    assert!(Shape::Point(pos(&[1])).contains(&pos(&[1])));
}

#[test]
fn properties_table_sorted_and_deduplicated() {
    let ids: Vec<String> = vec!["b", "a", "c", "a", "b"].into_iter().map(String::from).collect();
    let (table, offsets) = index_properties(&ids);
    let names: Vec<&str> = table.iter().map(|p| p.id()).collect();
    assert_eq!(names, vec!["a", "b", "c"]);
    assert_eq!(offsets, vec![1, 0, 2, 0, 1]);
    assert_eq!(table[0].kind(), "Feature");
}

#[test]
fn properties_accessors() {
    let f = Properties::feature("x1");
    let u = Properties::unknown("x1", "Region");
    assert_eq!(f.id(), "x1");
    assert_eq!(u.kind(), "Region");
    assert_ne!(f, u);
    assert_eq!(f, Properties::feature("x1"));
    let mut s = SpaceFields::new("space", 4);
    assert_eq!(s.value(), 4);
    s.set_value(9);
    assert_eq!(s.value(), 9);
    assert_eq!(s.space_id(), "space");
    let o = mercator_db::SpaceSetObject::new("w", pos(&[1]), 3);
    let f = o.fields();
    assert_eq!(f.value(), 3);
    assert_eq!(f.space_id(), "w");
}

#[test]
fn number_sets_and_units_by_name() {
    for n in ["N", "Z", "Q", "R"] {
        assert_eq!(NumberSet::parse(n).unwrap().to_str(), n);
    }
    assert_eq!(NumberSet::parse("Z"), Some(NumberSet::Z));
    assert_eq!(NumberSet::parse("X"), None);
    for u in ["m", "dm", "cm", "mm", "um", "nm", "pm"] {
        assert_eq!(UnitSI::parse(u).unwrap().to_str(), u);
    }
    assert_eq!(UnitSI::parse("Mm"), None);
    assert_eq!(UnitSI::parse("um").unwrap().exponent(), 6);
}

#[test]
fn catalog_lookup() {
    let names: Vec<String> = vec!["a", "b", "a"].into_iter().map(String::from).collect();
    assert_eq!(check_exactly_one(&names, "b"), Ok(1));
    assert_eq!(check_exactly_one(&names, "a"), Err(Error::Ambiguous));
    assert_eq!(check_exactly_one(&names, "z"), Err(Error::NotFound));
    assert!(is_universe("Universe"));
    assert!(!is_universe("universe"));
}

#[test]
fn results_grouped_by_identifier() {
    let g = group_by_identifier(&vec![3, 1, 3, 3, 0, 1]);
    assert_eq!(g, vec![(3, vec![0, 2, 3]), (1, vec![1, 5]), (0, vec![4])]);
    assert!(group_by_identifier(&vec![]).is_empty());
}

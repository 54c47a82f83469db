use mercator_db::position::Position;
use mercator_db::space_db::{QueryParameters, SpaceDB};
use mercator_db::space_index::SpaceSetObject;

fn pos(v: &[u64]) -> Position {
    Position::from_values(v.to_vec())
}

fn by_volume(k: u32) -> QueryParameters {
    QueryParameters {
        volume_shift: Some(k),
        resolution: None,
        view_port: None,
    }
}

fn objects(n: u64) -> Vec<SpaceSetObject> {
    let mut v = vec![];
    for i in 0..n {
        v.push(SpaceSetObject::new("s", pos(&[i, 2 * i, 3 * i]), i as usize));
    }
    v
}

#[test]
fn explicit_scales_and_threshold_selection() {
    // Levels at shifts 0, 2 and 4 in a space of volume 1: thresholds 1/16,
    // 1/4 and 1. A query volume of 0.3 is at most 1/2^1 (k = 1); one of 0.2
    // is at most 1/2^2 (k = 2).
    let scales = vec![vec![4, 4, 4], vec![0, 0, 0], vec![2, 2, 2], vec![2, 2, 2]];
    let db = SpaceDB::new("s", 3, objects(40), Some(scales), None);
    let levels = db.resolutions();
    assert_eq!(levels.len(), 3);
    let shifts: Vec<u32> = levels.iter().map(|l| l.shift()).collect();
    assert_eq!(shifts, vec![0, 2, 4]);
    assert_eq!(db.threshold_shift(0), 4);
    assert_eq!(db.threshold_shift(1), 2);
    assert_eq!(db.threshold_shift(2), 0);
    assert_eq!(levels[1].scale(), &vec![2, 2, 2]);
    assert_eq!(db.resolution(&by_volume(1)), 2);
    assert_eq!(db.resolution(&by_volume(2)), 1);
    assert_eq!(db.resolution(&by_volume(u32::MAX)), 0);
    assert_eq!(db.resolution(&by_volume(0)), 2);
}

#[test]
fn scale_selection_and_default_level() {
    let scales = vec![vec![0, 0, 0], vec![3, 3, 3]];
    let db = SpaceDB::new("s", 3, objects(10), Some(scales), None);
    let want = |s: Vec<u32>| QueryParameters {
        volume_shift: None,
        resolution: Some(s),
        view_port: None,
    };
    assert_eq!(db.resolution(&want(vec![0, 0, 0])), 0);
    assert_eq!(db.resolution(&want(vec![1, 1, 1])), 1);
    assert_eq!(db.resolution(&want(vec![5, 5, 5])), 1);
    let none = QueryParameters {
        volume_shift: None,
        resolution: None,
        view_port: None,
    };
    assert_eq!(db.resolution(&none), 1);
}

#[test]
fn reduced_levels_merge_records() {
    let objs = vec![
        SpaceSetObject::new("s", pos(&[4, 4, 4]), 0),
        SpaceSetObject::new("s", pos(&[5, 5, 5]), 0),
        SpaceSetObject::new("s", pos(&[6, 7, 4]), 0),
        SpaceSetObject::new("s", pos(&[5, 5, 5]), 1),
    ];
    let db = SpaceDB::new("s", 3, objs, Some(vec![vec![0, 0, 0], vec![2, 2, 2]]), None);
    let levels = db.resolutions();
    assert_eq!(levels[0].len(), 4);
    assert_eq!(levels[1].len(), 2);
    assert_eq!(levels[1].find(&pos(&[1, 1, 1])), vec![0, 1]);
}

#[test]
fn automatic_levels_halve() {
    let mut objs = vec![];
    for i in 0..64u64 {
        objs.push(SpaceSetObject::new("s", pos(&[i, 2 * i, 3 * i]), 0));
    }
    let db = SpaceDB::new("s", 3, objs, None, Some(4));
    let levels = db.resolutions();
    assert_eq!(levels[0].shift(), 0);
    assert_eq!(levels[0].len(), 64);
    for i in 1..levels.len() {
        assert!(levels[i].shift() > levels[i - 1].shift());
        assert!(2 * levels[i].len() <= levels[i - 1].len());
        assert!(db.threshold_shift(i) < db.threshold_shift(i - 1));
    }
    let shape: Vec<(u32, usize)> = levels.iter().map(|l| (l.shift(), l.len())).collect();
    assert_eq!(shape, vec![(0, 64), (3, 32), (4, 16), (5, 8), (6, 4)]);
    assert_eq!(db.threshold_shift(levels.len() - 1), 0);
    assert_eq!(db.threshold_shift(0), 6);
}

#[test]
fn full_resolution_keeps_every_object() {
    let objs = || {
        vec![
            SpaceSetObject::new("s", pos(&[1, 1, 1]), 0),
            SpaceSetObject::new("s", pos(&[1, 1, 1]), 0),
        ]
    };
    let db = SpaceDB::new("s", 3, objs(), None, None);
    assert_eq!(db.resolutions().len(), 1);
    assert_eq!(db.resolutions()[0].len(), 2);
    let db = SpaceDB::new("s", 3, objs(), None, Some(1));
    assert_eq!(db.resolutions()[0].len(), 2);
    assert_eq!(db.resolutions()[1].len(), 1);
    assert_eq!(db.resolutions()[1].shift(), 1);
    let by_id = QueryParameters {
        volume_shift: None,
        resolution: Some(vec![0, 0, 0]),
        view_port: None,
    };
    assert_eq!(db.get_by_id(0, &by_id), vec![pos(&[1, 1, 1]), pos(&[1, 1, 1])]);
}

#[test]
fn explicit_scales_keep_each_record_once() {
    let objs = vec![
        SpaceSetObject::new("s", pos(&[1, 1, 1]), 0),
        SpaceSetObject::new("s", pos(&[1, 1, 1]), 0),
    ];
    let db = SpaceDB::new("s", 3, objs, Some(vec![vec![0, 0, 0]]), None);
    assert_eq!(db.resolutions().len(), 1);
    assert_eq!(db.resolutions()[0].len(), 1);
}

#[test]
fn empty_space_has_one_level() {
    let db = SpaceDB::new("s", 3, vec![], None, Some(10));
    assert_eq!(db.resolutions().len(), 1);
    assert_eq!(db.resolutions()[0].len(), 0);
    assert_eq!(db.name(), "s");
}

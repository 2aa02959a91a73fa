use online_algorithms::migration::{
    Migration, MoveToMinMigration, PageMigration, PageStructure, RandomFlipMigration,
};

#[test]
fn structure_names() {
    assert_eq!(PageStructure::Hypercube.name(), "hypercube");
    assert_eq!(PageStructure::Torus.name(), "torus");
}

#[test]
fn hypercube_distance_counts_differing_bits() {
    let h = PageStructure::Hypercube;
    assert_eq!(h.distance(1, 1), 0);
    assert_eq!(h.distance(1, 64), 6);
    assert_eq!(h.distance(2, 3), 2);
    assert_eq!(h.distance(5, 1), 1);
}

#[test]
fn torus_distance_wraps_each_coordinate() {
    let t = PageStructure::Torus;
    assert_eq!(t.distance(1, 1), 0);
    assert_eq!(t.distance(1, 64), 3);
    assert_eq!(t.distance(1, 3), 2);
    assert_eq!(t.distance(1, 6), 2);
    assert_eq!(t.distance(1, 4), 1);
    assert_eq!(t.distance(1, 35), 4);
}

#[test]
fn move_to_min_moves_after_d_requests() {
    let h = PageStructure::Hypercube;
    let mut m = MoveToMinMigration::new(2);
    assert_eq!(m.migrate(2, &h), 2);
    assert_eq!(m.current_page(), 1);
    assert_eq!(m.migrate(2, &h), 2);
    assert_eq!(m.current_page(), 2);
    assert_eq!(m.migrate(2, &h), 0);
    assert_eq!(m.migrate(4, &h), 2);
    assert_eq!(m.current_page(), 2);
}

#[test]
fn move_to_min_prefers_lowest_on_tie() {
    let t = PageStructure::Torus;
    let mut m = MoveToMinMigration::new(2);
    m.migrate(2, &t);
    m.migrate(4, &t);
    // nodes 1..4 lie on one ring and all four are at distance 2 in total:
    // the lowest wins
    assert_eq!(m.current_page(), 1);
    m.migrate(3, &t);
    m.migrate(3, &t);
    assert_eq!(m.current_page(), 3);
}

#[test]
fn random_flip_is_reproducible_and_charges_distance() {
    let h = PageStructure::Hypercube;
    let mut a = RandomFlipMigration::with_seed(3, 77);
    let mut b = RandomFlipMigration::with_seed(3, 77);
    assert_eq!(a.migrate(64, &h), 18);
    b.migrate(64, &h);
    for _ in 0..200 {
        assert_eq!(a.migrate(64, &h), b.migrate(64, &h));
    }
    assert_eq!(a.current_page(), 64);
    assert_eq!(a.migrate(64, &h), 0);
    let mut fresh = RandomFlipMigration::new(3);
    assert_eq!(fresh.migrate(1, &h), 0);
}

#[test]
fn migration_dispatch_and_names() {
    let h = PageStructure::Hypercube;
    let mut flip = Migration::RandomFlip(RandomFlipMigration::with_seed(1, 5));
    let mut min = Migration::MoveToMin(MoveToMinMigration::new(1));
    assert_eq!(flip.name(), "random_flip");
    assert_eq!(min.name(), "move_to_min");
    assert_eq!(min.migrate(8, &h), 3);
    assert_eq!(min.migrate(8, &h), 0);
    let mut pm = PageMigration::new(&h, &mut flip);
    assert_eq!(pm.migrate(2), 1);
}

#[test]
fn move_to_min_with_zero_factor_never_moves() {
    let t = PageStructure::Torus;
    let mut m = MoveToMinMigration::new(0);
    for page in 1..=64u8 {
        assert_eq!(m.migrate(page, &t), 0);
    }
    assert_eq!(m.current_page(), 1);
}

use rand::rngs::StdRng;
use rand::SeedableRng;
use rbonsai::bonsai::utility::{
    choose_color, choose_string, color_roll_range, deltas_for_rolls, roll_ranges, set_deltas,
    sprout_for_rolls, style_for_roll, FontStyle,
};
use rbonsai::bonsai::{grow_tree, BranchType, TreeConfig};

fn config(max_x: u16, max_y: u16, life: i32, multiplier: i32) -> TreeConfig {
    TreeConfig { max_x, max_y, life, multiplier }
}

#[test]
fn grown_tree_is_empty_for_default_settings() {
    for seed in 0..50u64 {
        let mut rng = StdRng::seed_from_u64(seed);
        let tree = grow_tree(&config(80, 24, 32, 3), &mut rng);
        assert!(tree.is_empty());
    }
}

#[test]
fn grown_tree_is_empty_for_unusual_settings() {
    let settings = [
        config(0, 0, 32, 3),
        config(1, 1, 0, 0),
        config(u16::MAX, u16::MAX, i32::MAX, i32::MAX),
        config(200, 60, i32::MIN, -5),
        config(10, 10, 1, 0),
    ];
    for (i, c) in settings.iter().enumerate() {
        let mut rng = StdRng::seed_from_u64(i as u64);
        assert!(grow_tree(c, &mut rng).is_empty());
    }
}

#[test]
fn trunk_glyphs() {
    assert_eq!(choose_string(&BranchType::Trunk, 10, 0, 0), "/~");
    assert_eq!(choose_string(&BranchType::Trunk, 10, -1, 0), "\\|");
    assert_eq!(choose_string(&BranchType::Trunk, 10, 0, -1), "/|\\");
    assert_eq!(choose_string(&BranchType::Trunk, 10, 2, -1), "|/");
}

#[test]
fn shoot_glyphs() {
    assert_eq!(choose_string(&BranchType::ShootLeft, 10, -1, 1), "\\");
    assert_eq!(choose_string(&BranchType::ShootLeft, 10, 0, 0), "\\_");
    assert_eq!(choose_string(&BranchType::ShootLeft, 10, -2, 0), "\\|");
    assert_eq!(choose_string(&BranchType::ShootLeft, 10, 0, -1), "/|");
    assert_eq!(choose_string(&BranchType::ShootLeft, 10, 1, -1), "/");
    assert_eq!(choose_string(&BranchType::ShootRight, 10, 1, 1), "/");
    assert_eq!(choose_string(&BranchType::ShootRight, 10, 0, 0), "_/");
    assert_eq!(choose_string(&BranchType::ShootRight, 10, -1, -1), "\\|");
    assert_eq!(choose_string(&BranchType::ShootRight, 10, 0, -1), "/|");
    assert_eq!(choose_string(&BranchType::ShootRight, 10, 2, 0), "/");
}

#[test]
fn late_glyphs_are_leaves() {
    assert_eq!(choose_string(&BranchType::Trunk, 3, 0, 0), "&");
    assert_eq!(choose_string(&BranchType::ShootLeft, 0, 1, 1), "&");
    assert_eq!(choose_string(&BranchType::Dying, 20, 1, 0), "&");
    assert_eq!(choose_string(&BranchType::Dead, 20, -1, -1), "&");
}

#[test]
fn roll_ranges_follow_the_phase() {
    assert_eq!(roll_ranges(&BranchType::Trunk, 10, 2, 3), ((-1, 2), None));
    assert_eq!(roll_ranges(&BranchType::Trunk, 3, 5, 3), ((-1, 2), None));
    assert_eq!(roll_ranges(&BranchType::Trunk, 10, 5, 3), ((0, 10), None));
    assert_eq!(roll_ranges(&BranchType::Trunk, 10, 9, 3), ((0, 10), Some((-1, 2))));
    assert_eq!(roll_ranges(&BranchType::ShootLeft, 10, 9, 3), ((0, 10), Some((0, 10))));
    assert_eq!(roll_ranges(&BranchType::Dying, 10, 9, 3), ((0, 10), Some((0, 15))));
    assert_eq!(roll_ranges(&BranchType::Dead, 1, 9, 3), ((0, 10), Some((-1, 2))));
}

#[test]
fn deltas_for_rolls_tables() {
    // young trunk: the draw is the sideways step
    assert_eq!(deltas_for_rolls(&BranchType::Trunk, 10, 1, 3, -1, 0), (-1, 0));
    // middle trunk, age a multiple of multiplier / 2: climbs
    assert_eq!(deltas_for_rolls(&BranchType::Trunk, 10, 4, 4, 0, 0), (-2, -1));
    assert_eq!(deltas_for_rolls(&BranchType::Trunk, 10, 5, 4, 3, 0), (-1, 0));
    assert_eq!(deltas_for_rolls(&BranchType::Trunk, 10, 5, 4, 9, 0), (2, 0));
    // old trunk
    assert_eq!(deltas_for_rolls(&BranchType::Trunk, 10, 20, 3, 3, 1), (1, -1));
    assert_eq!(deltas_for_rolls(&BranchType::Trunk, 10, 20, 3, 2, -1), (-1, 0));
    assert_eq!(deltas_for_rolls(&BranchType::ShootLeft, 10, 20, 3, 0, 0), (-2, -1));
    assert_eq!(deltas_for_rolls(&BranchType::ShootLeft, 10, 20, 3, 9, 9), (1, 1));
    assert_eq!(deltas_for_rolls(&BranchType::ShootRight, 10, 20, 3, 5, 4), (1, 0));
    assert_eq!(deltas_for_rolls(&BranchType::Dying, 10, 20, 3, 8, 14), (3, 0));
    assert_eq!(deltas_for_rolls(&BranchType::Dying, 10, 20, 3, 1, 0), (-3, -1));
    assert_eq!(deltas_for_rolls(&BranchType::Dead, 10, 20, 3, 7, 0), (0, 1));
}

#[test]
fn set_deltas_stays_in_range() {
    let kinds = [
        BranchType::Trunk,
        BranchType::ShootLeft,
        BranchType::ShootRight,
        BranchType::Dying,
        BranchType::Dead,
    ];
    let mut rng = StdRng::seed_from_u64(7);
    let mut seen_large = false;
    for kind in kinds.iter() {
        for _ in 0..200 {
            let (dx, dy) = set_deltas(kind, 10, 20, 3, &mut rng);
            assert!((-3..=3).contains(&dx));
            assert!((-1..=1).contains(&dy));
            if dx.abs() == 3 {
                seen_large = true;
            }
        }
    }
    assert!(seen_large);
    for _ in 0..100 {
        let (dx, dy) = set_deltas(&BranchType::Trunk, 10, 1, 3, &mut rng);
        assert_eq!(dy, 0);
        assert!((-1..=1).contains(&dx));
    }
}

#[test]
fn styles_for_rolls() {
    let s = style_for_roll(&BranchType::Trunk, 0);
    assert!(matches!(s.attribute, FontStyle::Bold));
    assert_eq!((s.foreground_color, s.background_color), (11, 0));
    let s = style_for_roll(&BranchType::ShootRight, 1);
    assert!(matches!(s.attribute, FontStyle::Reset));
    assert_eq!(s.foreground_color, 3);
    let s = style_for_roll(&BranchType::Dying, 0);
    assert!(matches!(s.attribute, FontStyle::Bold));
    assert_eq!(s.foreground_color, 2);
    let s = style_for_roll(&BranchType::Dead, 2);
    assert!(matches!(s.attribute, FontStyle::Reset));
    assert_eq!(s.foreground_color, 10);
}

#[test]
fn choose_color_never_fails() {
    let mut rng = StdRng::seed_from_u64(3);
    let mut bold_wood = 0;
    for _ in 0..200 {
        let s = choose_color(&BranchType::Trunk, &mut rng).unwrap();
        assert!(s.foreground_color == 3 || s.foreground_color == 11);
        if s.foreground_color == 11 {
            bold_wood += 1;
            assert!(matches!(s.attribute, FontStyle::Bold));
        }
        assert_eq!(choose_color(&BranchType::Dying, &mut rng).unwrap().foreground_color, 2);
        assert_eq!(choose_color(&BranchType::Dead, &mut rng).unwrap().foreground_color, 10);
    }
    assert!(bold_wood > 0 && bold_wood < 200);
}

#[test]
fn color_roll_ranges() {
    assert_eq!(color_roll_range(&BranchType::Trunk), 2);
    assert_eq!(color_roll_range(&BranchType::ShootLeft), 2);
    assert_eq!(color_roll_range(&BranchType::Dying), 10);
    assert_eq!(color_roll_range(&BranchType::Dead), 3);
}

#[test]
fn sprout_decisions() {
    // near the end of its life a branch starts a dead one
    let c = sprout_for_rolls(&BranchType::Dead, 2, 3, 3, 0, 0, 1, 0, 0, 0);
    assert!(!c.stop && c.shoot_cooldown == 3);
    assert!(matches!(c.child, Some((BranchType::Dead, 2))));
    // a trunk below multiplier + 2 starts a dying one
    let c = sprout_for_rolls(&BranchType::Trunk, 4, 3, 3, 0, 0, 1, 0, 0, 0);
    assert!(matches!(c.child, Some((BranchType::Dying, 4))));
    // a sprouting trunk starts another trunk with the extra life
    let c = sprout_for_rolls(&BranchType::Trunk, 10, 3, 3, 0, 0, 1, 0, 0, 2);
    assert!(matches!(c.child, Some((BranchType::Trunk, 12))));
    assert_eq!(c.shoot_cooldown, 6);
    // no sprout: the draw is not 0 and life is no multiple of the multiplier
    let c = sprout_for_rolls(&BranchType::Trunk, 10, 3, 0, 0, 0, 1, 1, 0, 0);
    assert!(c.child.is_none() && c.shoot_cooldown == 0 && !c.stop);
    // cooldown run out: a shoot, to the left for an even counter
    let c = sprout_for_rolls(&BranchType::Trunk, 9, 3, 0, 0, 0, 1, 1, 3, 0);
    assert!(matches!(c.child, Some((BranchType::ShootLeft, 12))));
    assert_eq!(c.shoot_cooldown, 6);
    let c = sprout_for_rolls(&BranchType::Trunk, 9, 3, 0, 0, 0, 2, 1, 3, 0);
    assert!(matches!(c.child, Some((BranchType::ShootRight, 12))));
    // a zero multiplier stops a trunk that did not draw 0
    let c = sprout_for_rolls(&BranchType::Trunk, 9, 0, 0, 0, 0, 1, 1, 0, 0);
    assert!(c.stop && c.child.is_none());
    // shoots start nothing away from their end
    let c = sprout_for_rolls(&BranchType::ShootLeft, 10, 3, 0, 0, 0, 1, 0, 0, 0);
    assert!(c.child.is_none() && !c.stop);
    // no branch is started beyond i32::MAX branches
    let c = sprout_for_rolls(&BranchType::Dead, 1, 3, 3, i32::MAX, 0, 1, 0, 0, 0);
    assert!(c.child.is_none());
}

use rogue_mapgen::dice::Dice;
use rogue_mapgen::map_builders::dla::line_path;

#[test]
fn roll_stays_on_the_die_and_varies() {
    let mut dice = Dice::seeded(7);
    let mut seen = [false; 7];
    for _ in 0..400 {
        let r = dice.roll(6);
        assert!(r >= 1 && r <= 6);
        seen[r as usize] = true;
    }
    for face in 1..=6 {
        assert!(seen[face]);
    }
}

#[test]
fn roll_of_a_one_sided_die_is_one() {
    let mut dice = Dice::seeded(3);
    for _ in 0..20 {
        assert_eq!(dice.roll(1), 1);
    }
}

#[test]
fn range_includes_the_lower_and_excludes_the_upper_end() {
    let mut dice = Dice::seeded(11);
    let mut seen = [false; 10];
    for _ in 0..400 {
        let r = dice.range(6, 10);
        assert!(r >= 6 && r < 10);
        seen[r as usize] = true;
    }
    assert!(seen[6] && seen[7] && seen[8] && seen[9]);
    for _ in 0..20 {
        assert_eq!(dice.range(-3, -2), -3);
    }
}

#[test]
fn seeded_dice_replay_their_stream() {
    let mut a = Dice::seeded(1234);
    let mut b = Dice::seeded(1234);
    let mut c = Dice::seeded(4321);
    let mut differs = false;
    for _ in 0..100 {
        let ra = a.roll(1000);
        let rb = b.roll(1000);
        let rc = c.roll(1000);
        assert_eq!(ra, rb);
        if ra != rc {
            differs = true;
        }
    }
    assert!(differs);
}

#[test]
fn fresh_dice_roll_in_range() {
    let mut dice = Dice::new();
    for _ in 0..100 {
        let r = dice.roll(20);
        assert!(r > 0 && r < 21);
    }
}

#[test]
fn line_path_horizontal() {
    let line = line_path(0, 0, 5, 0).unwrap();
    assert_eq!(line, vec![(0, 0), (1, 0), (2, 0), (3, 0), (4, 0), (5, 0)]);
}

#[test]
fn line_path_vertical_up_and_down() {
    assert_eq!(line_path(0, 0, 0, 5).unwrap(), vec![(0, 0), (0, 1), (0, 2), (0, 3), (0, 4), (0, 5)]);
    assert_eq!(
        line_path(0, 0, 0, -5).unwrap(),
        vec![(0, 0), (0, -1), (0, -2), (0, -3), (0, -4), (0, -5)]
    );
}

#[test]
fn line_path_diagonal_and_single_point() {
    assert_eq!(line_path(1, 1, 4, 4).unwrap(), vec![(1, 1), (2, 2), (3, 3), (4, 4)]);
    assert_eq!(line_path(3, 3, 3, 3).unwrap(), vec![(3, 3)]);
}

#[test]
fn line_path_shallow_slope() {
    let line = line_path(0, 1, 6, 4).unwrap();
    assert_eq!(line, vec![(0, 1), (1, 1), (2, 2), (3, 2), (4, 3), (5, 3), (6, 4)]);
}

#[test]
fn line_path_refuses_far_points() {
    assert!(line_path(0, 0, 0x4001, 0).is_none());
    assert!(line_path(-0x4001, 0, 0, 0).is_none());
    assert!(line_path(0, 0x4000, 0, -0x4000).is_some());
}

#[test]
fn line_path_refuses_points_out_of_limits() {
    assert!(line_path(0, 0, 0x4000, -0x4000).is_some());
    assert!(line_path(0, 0, 0x4001, 0).is_none());
    assert!(line_path(0, -0x4001, 0, 0).is_none());
    assert!(line_path(i32::MIN, 0, i32::MAX, 0).is_none());
}

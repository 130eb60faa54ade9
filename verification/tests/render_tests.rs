use ascii_moon_phase::CalendarDate;
use ascii_moon_phase::moon_phase;
use ascii_moon_phase::render_moon;
use ascii_moon_phase::render_moon_with_phase;

const FULL: i64 = 500_000_000;
const QUARTER: i64 = 250_000_000;
const ONE: i64 = 1_000_000_000;

#[test]
fn full_moon_small_grid_scenario() {
    // At the full moon every cell on the disc is lit; the corners of a 4x8
    // grid sample outside the disc.
    let art = render_moon_with_phase(4, true, FULL, '@', '.', ' ').unwrap();
    assert_eq!(art, " @@@@@@ \n@@@@@@@@\n@@@@@@@@\n @@@@@@ ");
}

#[test]
fn full_moon_has_no_dark_cells() {
    let art = render_moon_with_phase(10, false, FULL, '@', '.', ' ').unwrap();
    assert!(!art.contains('.'));
    assert!(art.contains('@'));
}

#[test]
fn new_moon_small_grid_scenario() {
    let art = render_moon_with_phase(3, true, 0, '@', '.', ' ').unwrap();
    assert_eq!(art, " .... \n......\n .... ");
}

#[test]
fn new_moon_has_no_lit_cells() {
    let art = render_moon_with_phase(12, true, 0, '@', '.', ' ').unwrap();
    assert!(!art.contains('@'));
    assert!(art.contains('.'));
}

#[test]
fn first_quarter_lights_right_half_in_north() {
    let art = render_moon_with_phase(2, true, QUARTER, '@', '.', ' ').unwrap();
    assert_eq!(art, "..@@\n..@@");
}

#[test]
fn first_quarter_lights_left_half_in_south() {
    let art = render_moon_with_phase(2, false, QUARTER, '@', '.', ' ').unwrap();
    assert_eq!(art, "@@..\n@@..");
}

#[test]
fn phase_zero_and_one_render_identically() {
    for northern in [true, false] {
        let at_zero = render_moon_with_phase(6, northern, 0, '@', '.', ' ').unwrap();
        let at_one = render_moon_with_phase(6, northern, ONE, '@', '.', ' ').unwrap();
        assert_eq!(at_zero, at_one);
    }
}

#[test]
fn output_has_size_rows_of_double_width() {
    for size in [2usize, 3, 5, 24] {
        let art = render_moon_with_phase(size, true, 333_000_000, '@', '.', ' ').unwrap();
        let rows: Vec<&str> = art.split('\n').collect();
        assert_eq!(rows.len(), size);
        for row in rows {
            assert_eq!(row.chars().count(), 2 * size);
        }
        assert!(!art.ends_with('\n'));
    }
}

#[test]
fn hemispheres_mirror_each_other() {
    for phase in [130_000_000i64, 300_000_000, 700_000_000] {
        let north = render_moon_with_phase(5, true, phase, '@', '.', ' ').unwrap();
        let south = render_moon_with_phase(5, false, phase, '@', '.', ' ').unwrap();
        let mirrored: Vec<String> =
            north.split('\n').map(|row| row.chars().rev().collect()).collect();
        assert_eq!(mirrored.join("\n"), south);
    }
}

#[test]
fn renderer_rejects_bad_arguments() {
    assert_eq!(
        render_moon_with_phase(1, true, 0, '@', '.', ' ').unwrap_err(),
        "size must be at least 2"
    );
    assert_eq!(
        render_moon_with_phase(0, true, 0, '@', '.', ' ').unwrap_err(),
        "size must be at least 2"
    );
    // One hundredth of a cycle below zero and above one.
    assert_eq!(
        render_moon_with_phase(4, true, -10_000_000, '@', '.', ' ').unwrap_err(),
        "phase must be in [0.0, 1.0]"
    );
    assert_eq!(
        render_moon_with_phase(4, true, ONE + 10_000_000, '@', '.', ' ').unwrap_err(),
        "phase must be in [0.0, 1.0]"
    );
}

#[test]
fn renderer_accepts_boundary_arguments() {
    assert!(render_moon_with_phase(2, true, 0, '@', '.', ' ').is_ok());
    assert!(render_moon_with_phase(2, true, ONE, '@', '.', ' ').is_ok());
}

#[test]
fn renderer_uses_the_given_characters() {
    let art = render_moon_with_phase(3, true, FULL, 'L', 'D', 'E').unwrap();
    assert_eq!(art, "ELLLLE\nLLLLLL\nELLLLE");
}

#[test]
fn render_by_date_matches_render_by_phase() {
    let d = CalendarDate { year: 2024, month: 1, day: 1 };
    let by_date = render_moon(24, true, d, '@', '.', ' ').unwrap();
    let by_phase = render_moon_with_phase(24, true, moon_phase(d), '@', '.', ' ').unwrap();
    assert_eq!(by_date, by_phase);
}

#[test]
fn render_by_date_rejects_small_size() {
    let d = CalendarDate { year: 2024, month: 1, day: 1 };
    assert_eq!(render_moon(1, true, d, '@', '.', ' ').unwrap_err(), "size must be at least 2");
}

#[test]
fn waning_moon_lights_left_in_north() {
    // Past the full moon the lit limb moves to the left for a northern
    // observer.
    let art = render_moon_with_phase(2, true, 750_000_000, '@', '.', ' ').unwrap();
    assert_eq!(art, "@@..\n@@..");
}

#[test]
fn crescent_phases_trace_the_terminator() {
    // An eighth of a cycle after the new moon: a thin waxing crescent on
    // the right for a northern observer, and its waning mirror image an
    // eighth before the next new moon.
    let waxing = render_moon_with_phase(4, true, 125_000_000, '@', '.', ' ').unwrap();
    assert_eq!(waxing, " .....@ \n.......@\n.......@\n .....@ ");
    let waning = render_moon_with_phase(4, true, 875_000_000, '@', '.', ' ').unwrap();
    assert_eq!(waning, " @..... \n@.......\n@.......\n @..... ");
}

#[test]
fn waning_gibbous_by_date_scenario() {
    // 2024-01-01 has a phase fraction of about 0.672: a waning gibbous.
    let d = CalendarDate { year: 2024, month: 1, day: 1 };
    let art = render_moon(6, true, d, '@', '.', ' ').unwrap();
    assert_eq!(
        art,
        "   @@@@@.   \n @@@@@@@... \n@@@@@@@@@...\n@@@@@@@@@...\n @@@@@@@... \n   @@@@@.   "
    );
}

use ascii_moon_phase::CalendarDate;
use ascii_moon_phase::julian_day_noon_utc;
use ascii_moon_phase::moon_phase;
use ascii_moon_phase::phase_from_julian_day;
use ascii_moon_phase::phase::PHASE_ONE;
use ascii_moon_phase::phase::REF_JD_NANODAYS;
use ascii_moon_phase::phase::SYNODIC_NANODAYS;

fn date(year: i32, month: u8, day: u8) -> CalendarDate {
    CalendarDate { year, month, day }
}

#[test]
fn julian_day_of_known_dates() {
    // J2000.0: noon UTC on 2000-01-01 is Julian Day 2451545.0.
    assert_eq!(julian_day_noon_utc(date(2000, 1, 1)), 2_451_545_000_000_000);
    assert_eq!(julian_day_noon_utc(date(2000, 1, 6)), 2_451_550_000_000_000);
    assert_eq!(julian_day_noon_utc(date(1999, 12, 31)), 2_451_544_000_000_000);
    assert_eq!(julian_day_noon_utc(date(2024, 1, 1)), 2_460_311_000_000_000);
    assert_eq!(julian_day_noon_utc(date(2024, 2, 29)), 2_460_370_000_000_000);
    assert_eq!(julian_day_noon_utc(date(1969, 7, 20)), 2_440_423_000_000_000);
    assert_eq!(julian_day_noon_utc(date(-4712, 1, 1)), 38_000_000_000);
}

#[test]
fn phase_is_zero_at_reference_epoch() {
    assert_eq!(phase_from_julian_day(REF_JD_NANODAYS), 0);
}

#[test]
fn phase_of_known_dates() {
    assert_eq!(moon_phase(date(2024, 1, 1)), 672_038_732);
    assert_eq!(moon_phase(date(2024, 6, 1)), 819_243_915);
    assert_eq!(moon_phase(date(1969, 7, 20)), 200_876_372);
    // One tenth of a day before the epoch: just under a full cycle.
    assert_eq!(moon_phase(date(2000, 1, 6)), 996_613_680);
}

#[test]
fn phase_is_periodic_in_the_synodic_month() {
    let jd = julian_day_noon_utc(date(2024, 1, 1));
    assert_eq!(phase_from_julian_day(jd), phase_from_julian_day(jd + SYNODIC_NANODAYS));
    assert_eq!(
        phase_from_julian_day(REF_JD_NANODAYS - SYNODIC_NANODAYS),
        phase_from_julian_day(REF_JD_NANODAYS)
    );
}

#[test]
fn phase_stays_in_range_over_many_dates() {
    for year in [-4000, -1, 0, 1900, 1999, 2024, 9999] {
        for (month, day) in [(1u8, 1u8), (2, 28), (6, 15), (12, 31)] {
            let p = moon_phase(date(year, month, day));
            assert!(0 <= p && p < PHASE_ONE);
        }
    }
}

#[test]
fn phase_before_epoch_wraps_to_positive() {
    // Dates long before the reference epoch still give a phase in range.
    let p = phase_from_julian_day(julian_day_noon_utc(date(-4712, 1, 1)));
    assert!(0 <= p && p < PHASE_ONE);
}

#[test]
fn julian_day_floors_the_century_term_for_negative_years() {
    // The century correction rounds toward negative infinity, so the day
    // count stays continuous across early-century boundaries.
    assert_eq!(julian_day_noon_utc(date(-100, 2, 28)), 1_684_594_000_000_000);
    assert_eq!(julian_day_noon_utc(date(-100, 3, 1)), 1_684_595_000_000_000);
    assert_eq!(julian_day_noon_utc(date(-99, 1, 1)), 1_684_901_000_000_000);
}

#[test]
fn julian_day_counts_consecutive_days_without_gaps() {
    // Walk across every kind of boundary: plain days, month ends, year
    // ends, leap days, and century years on both sides of the era.
    let runs = [
        [date(-101, 12, 30), date(-101, 12, 31), date(-100, 1, 1)],
        [date(-100, 2, 27), date(-100, 2, 28), date(-100, 3, 1)],
        [date(-4, 2, 28), date(-4, 2, 29), date(-4, 3, 1)],
        [date(0, 2, 28), date(0, 2, 29), date(0, 3, 1)],
        [date(100, 2, 27), date(100, 2, 28), date(100, 3, 1)],
        [date(1900, 2, 27), date(1900, 2, 28), date(1900, 3, 1)],
        [date(2000, 2, 28), date(2000, 2, 29), date(2000, 3, 1)],
        [date(1999, 12, 30), date(1999, 12, 31), date(2000, 1, 1)],
        [date(2024, 4, 29), date(2024, 4, 30), date(2024, 5, 1)],
    ];
    for run in runs {
        let step1 = julian_day_noon_utc(run[1]) - julian_day_noon_utc(run[0]);
        let step2 = julian_day_noon_utc(run[2]) - julian_day_noon_utc(run[1]);
        assert_eq!(step1, 1_000_000_000);
        assert_eq!(step2, 1_000_000_000);
    }
}

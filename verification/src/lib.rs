//! Lunar phase computation and ASCII rendering.
//!
//! The crate computes the lunar illumination phase for a calendar date and
//! renders the illuminated disc as a fixed-size grid of characters. All
//! arithmetic is exact fixed-point integer arithmetic: Julian Days are held
//! in nanodays (the mean synodic month is an exact number of nanodays) and
//! phase fractions in billionths of a cycle.

pub mod date;
pub mod phase;
pub mod render;
pub mod trig;

pub use date::CalendarDate;
pub use date::first_char;
pub use date::parse_date_ymd;
pub use phase::julian_day_noon_utc;
pub use phase::moon_phase;
pub use phase::phase_from_julian_day;
pub use render::render_moon;
pub use render::render_moon_with_phase;

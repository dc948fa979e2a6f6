//! Human-readable formatting for durations, numbers and lists.
//!
//! The heart of the crate is the pair of duration formatters in [`time`]:
//! a coarse summarizer (`naturaldelta_td`) that picks a single phrase for a
//! signed duration, and a precise decomposer (`precisedelta_td`) that cascades
//! a duration through eight time units, honours caller-supplied unit
//! suppression, performs rounding-driven carry, and joins the pieces into an
//! Oxford-style phrase.  Every rendering function is specified down to the
//! exact character sequence it returns.
//!
//! Translation lookup is threaded through every call as an explicit
//! [`i18n::Translations`] value, so concurrent callers with different locales
//! cannot interfere with one another.

pub mod i18n;
pub mod lists;
pub mod number;
pub mod precise;
pub mod text;
pub mod time;

pub use i18n::{decimal_separator, gettext, ngettext, pgettext, thousands_separator, Translations};
pub use lists::natural_list;
pub use number::{apnumber, ordinal, ordinal_gendered};
pub use precise::precisedelta_td;
pub use time::{naturaldelta_td, naturaltime_delta, TimeDelta, Unit};

//! Life progress: how much of a statistically expected lifespan has passed since a birthday.

pub mod birthday;
pub mod calendar;
pub mod error;
pub mod lifespan;
pub mod progress;
pub mod search;

pub use birthday::get_birthday_time;
pub use calendar::CivilDate;
pub use error::LifeError;
pub use lifespan::{get_life_time, view_nation, CountryInfo, Gender, LifespanDataset};
pub use progress::{get_progress_info, init, ProgressInfo};
pub use search::{search_nation, select_matches, NationMatch};

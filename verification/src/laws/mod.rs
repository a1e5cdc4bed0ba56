//! What the commands promise their users.

pub mod amending;
pub mod announcing;
pub mod carrying;
pub mod catching_up;
pub mod choosing;
pub mod closing;
pub mod commanding;
pub mod deciding;
pub mod finding;
pub mod finishing;
pub mod following;
pub mod handing_on;
pub mod landing;
pub mod landings;
pub mod listing;
pub mod reading;
pub mod rebuilding;
pub mod refusing;
pub mod repairing;
pub mod replaying;
pub mod saying;
pub mod settling;
pub mod showing;
pub mod submitting;
pub mod tables;
pub mod warning;

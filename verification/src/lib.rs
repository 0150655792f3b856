//! Site-agnostic scanlation reader core.
//!
//! - [`heuristics`]: chapter-number detection in URLs and page titles.
//! - [`extract`]: pulls title / cover / chapter list out of a site's
//!   HTML without any site-specific selectors.
//! - [`db`]: the library (manga list + read state).
//! - [`render_env`]: the render-mode policy of the desktop app.
//!
//! The modules below these are what they are made of: chapter numbers
//! ([`number`]), text ([`text`]), addresses ([`address`]), parsed pages
//! ([`page`]), regular expressions ([`pattern`]) and errors ([`error`]).

pub mod address;
pub mod db;
pub mod error;
pub mod extract;
pub mod heuristics;
pub mod number;
pub mod page;
pub mod pattern;
pub mod render_env;
pub mod text;

pub use db::{Library, Manga};
pub use error::Error;
pub use extract::SiteInfo;
pub use heuristics::ChapterInfo;

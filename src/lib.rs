//! Volumetric spatial index over encoded positions tagged with identifiers.
//!
//! Positions are held as encoded coordinates: discrete ticks on the axes of a
//! reference space. Each dataset is indexed at several resolutions, and
//! queries select one of them by volume or by explicit scale.

use vstd::prelude::*;

pub mod catalog;
pub mod coordinate;
pub mod db_core;
pub mod error;
pub mod position;
pub mod properties;
pub mod shape;
pub mod space_db;
pub mod space_index;
pub mod units;
pub mod xyz;

pub use coordinate::Coordinate;
pub use db_core::Core;
pub use error::Error;
pub use position::Position;
pub use properties::Properties;
pub use shape::Shape;
pub use space_db::{QueryParameters, SpaceDB};
pub use space_index::{SpaceFields, SpaceIndex, SpaceSetObject};
pub use units::{NumberSet, UnitSI};

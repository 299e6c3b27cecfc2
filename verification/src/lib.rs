//! Package delivery over a rail line: trains, stations, packages, the time each
//! train has travelled, and the search that sends trains to pick up and drop off
//! every package.
pub mod text;
pub mod textmap;
pub mod digits;
pub mod package;
pub mod train;
pub mod network;
pub mod routing;
pub mod timeline;
pub mod records;

pub use crate::package::{Logger, Package, PackageCandidates, PackageCollection, PackageName, PackageStatus, PackageTracker};
pub use crate::train::{Train, TrainCollection};
pub use crate::network::{DistanceMap, Edge, EdgeStorage, Graph, StationCollection};
pub use crate::timeline::{Timeline, TrainMovement};
pub use crate::routing::{advance_train, find_best_train, find_nearest_trains, start_searching, try_pick_package, which_direction, RouteError};
pub use crate::textmap::TextMap;

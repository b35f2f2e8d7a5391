//! A dense two-dimensional grid with direction-aware movement, and the
//! searches built on it: turn-weighted cheapest routes, flood-fill regions
//! with their fences, hiking trails on a height map, and the cliques of a
//! network.
pub mod position;
pub mod grid;
pub mod route;
pub mod regions;
pub mod trails;
pub mod network;

pub use grid::{Grid, ParseError};
pub use position::{Direction, Position};
pub use regions::{find_regions, region_perimeter, region_sides, Fence};
pub use network::{cliques_of_size, get_neighbours, is_clique, NetworkMap};
pub use trails::{find_hikes, Trailhead};
pub use route::{collect_best_paths, find_shortest_path, path_cost, PathNode, RouteCosts, SearchError, Tile, MAX_MAZE_CELLS};

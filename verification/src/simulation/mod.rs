//! The simulation: right of way, obstacles, motion and what the front end is told.

pub mod approach;
pub mod bezier_smooth;
pub mod conflict;
pub mod conflict_build;
pub mod crossings;
pub mod congestion;
pub mod direction;
pub mod frame;
pub mod idm;
pub mod lane_change;
pub mod lane_shapes;
pub mod leader;
pub mod obstacle;
pub mod od_model;
pub mod pathfinding;
pub mod physics;
pub mod right_of_way;
pub mod route;
pub mod route_line;
pub mod sim_loop;
pub mod spatial_grid;
pub mod spawn;
pub mod speed_config;
pub mod tram_sim;
pub mod turn_plan;

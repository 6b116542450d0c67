//! Road, lane, building and tram networks.

pub mod building;
pub mod builders;
pub mod building_network;
pub mod city_map;
pub mod curves;
pub mod id_index;
pub mod lane_graph;
pub mod map_data;
pub mod osm;
pub mod polyline;
pub mod road_network;
pub mod topology;
pub mod tram_network;
pub mod world_editor;

//! Decisions, layouts and rules of a multimodal routing engine's front end.

pub mod bytes;
pub mod crc;
pub mod text;
pub mod container;
pub mod street_arrays;
pub mod street_shape;
pub mod street_decode;
pub mod street_laws;
pub mod digest;
pub mod load;
pub mod reduction;
pub mod pareto;
pub mod pareto_rows;
pub mod dates;
pub mod options;
pub mod ids;
pub mod links;
pub mod rows;
pub mod time_rows;
pub mod arrive_by;
pub mod reaches;
pub mod costs;
pub mod fares;
pub mod zone_refine;
pub mod journeys;
pub mod legs;
pub mod dispatch;
pub mod checks;
pub mod installs;
pub mod profiles;
pub mod transfers;
pub mod progress;
pub mod carriage;
pub mod accessibility;
pub mod street_costs;
pub mod street_legs;
pub mod reduction_laws;
pub mod listings;
pub mod plans;
pub mod queries;
pub mod one_to_all;

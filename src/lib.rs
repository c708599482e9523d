//! Multi-robot warehouse routing: grid plans, a time-expanded reservation
//! graph, request assignment, path planning and a validated step kernel.
pub mod assignment;
pub mod demand;
pub mod e_plan;
pub mod greedy_shortest_paths;
pub mod grid;
pub mod ilp_steps;
pub mod instruction;
pub mod middle_terminals;
pub mod multiple_vehicle_ilp;
pub mod one_three_rectangle;
pub mod plan;
pub mod queue;
pub mod seq_facts;
pub mod settings;
pub mod simulation;
pub mod single_vehicle_ilp;
pub mod solver_answer;
pub mod state;
pub mod time_graph;


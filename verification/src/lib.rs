//! Verified core of an RTS game: navigation grid and A* search, spatial
//! hashing, deterministic ordering of lockstep terrain edits, water-body
//! detection, unit task state machine, skirmish teams, and the rules behind
//! the HUD panels.
pub mod action_bar;
pub mod biome;
pub mod build_menu;
pub mod fog;
pub mod group_panel;
pub mod hud;
pub mod labels;
pub mod inventory;
pub mod nav_dirty;
pub mod nav_grid;
pub mod nav_search;
pub mod open_set;
pub mod path_queue;
pub mod production;
pub mod queue_panel;
pub mod selection;
pub mod spatial;
pub mod squad_inventory;
pub mod stable_sort;
pub mod teams;
pub mod terrain_ops;
pub mod unit_ai;
pub mod water;
pub mod water_mesh;

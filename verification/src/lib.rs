//! Density fill: deciding where electrically inert metal goes, apart from any database.
//!
//! Foundries require a minimum metal density per layer; the gaps between real routing are filled
//! with inert shapes to reach it. [`plan_layer`](layer::plan_layer) decides where those shapes go on
//! one layer, [`plan_design`](design::plan_design) on all of them, and a [`Run`](run::Run) carries a
//! whole run of the command, from its arguments to its exit status.
//!
//! A region of the plane is a set of unit cells, and what a function does to it is stated of that
//! set. The modules whose names end in `_laws` hold what is proved of the fill as a whole.

pub mod apart_laws;
pub mod area;
pub mod area_laws;
pub mod cells;
pub mod config;
pub mod course_laws;
pub mod dbu;
pub mod dbu_laws;
pub mod descriptor;
pub mod design;
pub mod design_laws;
pub mod events;
pub mod fill;
pub mod fill_laws;
pub mod geometry;
pub mod json;
pub mod layer;
pub mod layer_laws;
pub mod names;
pub mod options;
pub mod options_laws;
pub mod order_laws;
pub mod outline;
pub mod rects;
pub mod region;
pub mod region_laws;
pub mod report;
pub mod report_laws;
pub mod rules;
pub mod rules_laws;
pub mod run;
pub mod run_laws;
pub mod size_laws;
pub mod text;
pub mod turned_laws;

pub use crate::config::{LayerCfg, ShapeCfg};
pub use crate::fill::{fill_area, prune, spacing, Fill};
pub use crate::options::COPYRIGHT;
pub use crate::report::settle_status;
pub use crate::rules::{parse_rules, Rules};

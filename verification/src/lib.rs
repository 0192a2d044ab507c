//! Post-processing of camera detections: boxes, zones, lines, and objects that keep their ids.
pub mod api;
pub mod cluster;
pub mod embedding;
pub mod engine;
pub mod grouping;
pub mod id_map;
pub mod iou;
pub mod labels;
pub mod line_crossing;
pub mod merge;
pub mod merge_laws;
pub mod merge_order;
pub mod nms;
pub mod polygon;
pub mod reading;
pub mod replay;
pub mod replay_input;
pub mod replay_laws;
pub mod run_laws;
pub mod semantic;
pub mod tick_laws;
pub mod track;
pub mod tracker;
pub mod tracker_laws;
pub mod tracker_model;
pub mod types;
pub mod world;
pub mod world_laws;
pub mod world_model;
pub mod zone_filter;

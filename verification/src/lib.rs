use vstd::prelude::*;

pub mod app_graph;
pub mod boilerplate;
pub mod config;
pub mod dir_manager;
pub mod directories;
pub mod fake_hardware;
pub mod hardware;
pub mod hardware_list;
pub mod id;
pub mod items;
pub mod name_sorter;
pub mod node;
pub mod packet;
pub mod parse;
pub mod settings;
pub mod text;
pub mod update;
pub mod utils;

use crate::app_graph::AppGraph;
use crate::dir_manager::DirManager;
use crate::hardware::HardwareBridge;
use crate::update::Update;

verus! {

/// What the application runs on: its directory, the bridge to the
/// hardware, the graph of nodes and its evaluation.
pub struct AppState<H: HardwareBridge> {
    pub dir_manager: DirManager,
    pub bridge: H,
    pub app_graph: AppGraph,
    pub update: Update,
}

} // verus!

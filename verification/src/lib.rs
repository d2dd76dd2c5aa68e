pub mod analyse;
pub mod bag;
pub mod config;
pub mod detect;
pub mod listing;
pub mod path_order;
pub mod project;
pub mod settings;

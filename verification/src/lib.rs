//! btemp: lm-sensors temperature monitoring logic (parsing, grouping, history, layout decisions).

pub mod text;
pub mod cpu_info;
pub mod storage_names;
pub mod sensors;
pub mod history;
pub mod group;
pub mod group_laws;
pub mod layout;
pub mod ui;

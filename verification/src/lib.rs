//! Scheduling rules, memory and thread tuning, and the web panel of AppOptR.

pub mod api;
pub mod api_laws;
pub mod apply;
pub mod apply_laws;
pub mod cache;
pub mod clone_laws;
pub mod config;
pub mod cpu_laws;
pub mod cpuset;
pub mod delete_laws;
pub mod document_laws;
pub mod edit_laws;
pub mod file_laws;
pub mod json;
pub mod line_laws;
pub mod name_laws;
pub mod panel;
pub mod panel_laws;
pub mod placing_laws;
pub mod plain_laws;
pub mod rename_laws;
pub mod repeat_laws;
pub mod rule_edit;
pub mod rule_laws;
pub mod rules;
pub mod settings;
pub mod suggest;
pub mod suggest_laws;
pub mod text;
pub mod text_laws;
pub mod tuning;
pub mod tuning_clone;
pub mod tuning_laws;
pub mod web;
pub mod web_laws;

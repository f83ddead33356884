//! Power-focused process viewer: the state, arithmetic and formats behind the terminal UI.
pub mod app_laws;
pub mod app_state;
pub mod archive_laws;
pub mod archive_query;
pub mod binary64;
pub mod chips;
pub mod cli;
pub mod codec;
pub mod collector;
pub mod control_laws;
pub mod decimal;
pub mod decoder;
pub mod draw_laws;
pub mod format_laws;
pub mod graph;
pub mod graph_laws;
pub mod history;
pub mod history_laws;
pub mod layout;
pub mod lists;
pub mod panel_laws;
pub mod persistence;
pub mod record_laws;
pub mod screen;
pub mod session_laws;
pub mod settings;
pub mod sort;
pub mod sum_laws;
pub mod table_laws;
pub mod text;
pub mod text_laws;
pub mod top_laws;
pub mod top_parse;
pub mod truncation;
pub mod ui;
pub mod ui_table;

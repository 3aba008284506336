//! Tools around Dandanplay danmaku, ASS subtitles, Markdown meta blocks and JSON paths.
pub mod text;
pub mod num;
pub mod json;
pub mod json_path;
pub mod json_select;
pub mod json_format;
pub mod markdown;
pub mod meta_map;
pub mod md_update;
pub mod md_table;
pub mod path;
pub mod cache;
pub mod config;
pub mod cli;
pub mod url_text;
pub mod prepare;
pub mod media;
pub mod api;
pub mod ass;
pub mod ass_merge;
pub mod sqlite;

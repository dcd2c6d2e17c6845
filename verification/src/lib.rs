use vstd::prelude::*;

pub mod text;
pub mod strmap;
pub mod sync;
pub mod github;
pub mod unicode;
pub mod task;
pub mod note;
pub mod index;
pub mod calendar;
pub mod habit;
pub mod ai;
pub mod search;
pub mod vault;
pub mod config;
pub mod state;
pub mod tree;
pub mod diary;
pub mod report;
pub mod docs;
pub mod habit_list;
pub mod task_laws;
pub mod habit_laws;

//! Layout algorithms and their shared utilities.

pub mod boxed_couples;
pub mod boxes;
pub mod common;
pub mod fancy;
pub mod simple;
pub mod text_chart;

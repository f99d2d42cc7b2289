pub mod api;
pub mod bean;
pub mod context;
pub mod descriptor;
pub mod ptr;
pub mod result;
pub mod service;

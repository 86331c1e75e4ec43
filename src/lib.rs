pub mod access;
pub mod commands;
pub mod config;
pub mod ordering;
pub mod paths;
pub mod repository;
pub mod storage;
pub mod text;

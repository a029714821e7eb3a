//! Collects the translation keys of an Angular application per component
//! and reads which components each route of the application shows.
pub mod component;
pub mod patterns;
pub mod route;
pub mod strings;
pub mod structure;
pub mod utilities;

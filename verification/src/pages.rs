//! What the web pages show, as plain values: the list of projects, the page of one
//! project, and the form that sets a project's source.
pub mod components;
pub mod home;
pub mod project;

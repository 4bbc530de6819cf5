//! The window before a project is open: the projects a person has, and the
//! wizard that makes another.

pub mod home;
pub mod list;
pub mod pages;
pub mod template;
pub mod wizard;

//! The decisions an editor makes: what is picked and what a picture of it
//! does, what can be undone, which projects a person has and how they are
//! read and written, what a panel shows and in which order.
//!
//! Everything here works on plain values. Drawing, files and arithmetic on
//! fractions stand outside, and hand their results in.

pub mod aim;
pub mod bake;
pub mod bar;
pub mod browser;
pub mod catalog;
pub mod change;
pub mod console;
pub mod copy;
pub mod edit;
pub mod editor;
pub mod entities;
pub mod fraction;
pub mod frame;
pub mod gizmo;
pub mod group;
pub mod helper;
pub mod hierarchy;
pub mod history;
pub mod inspector;
pub mod json;
pub mod label;
pub mod launcher;
pub mod loading;
pub mod make;
pub mod order;
pub mod outcomes;
pub mod paint;
pub mod panels;
pub mod paths;
pub mod planted;
pub mod pressing;
pub mod profiler;
pub mod section;
pub mod select;
pub mod session;
pub mod settings;
pub mod table;
pub mod tabs;
pub mod text;
pub mod tree;
pub mod value;
pub mod world;

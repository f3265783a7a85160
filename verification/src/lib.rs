//! A logic-design toolkit: truth tables, Gray codes and Karnaugh maps, with
//! every function carrying a machine-checked contract.

pub mod app;
pub mod logic;
pub mod ui;

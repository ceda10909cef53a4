//! A dataflow graph of nodes and typed ports, with the state machines of a modular
//! synthesizer's user interface built around it.

pub mod flow;
pub mod menu;
pub mod gui;
pub mod connect;
pub mod event;
pub mod button;
pub mod textbox;
pub mod module_gui;
pub mod debug;
pub mod save;
pub mod root;
pub mod round;

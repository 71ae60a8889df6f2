//! Sampling, layout and panel contents of a live system-resource dashboard.
//!
//! The library turns one raw probe reading per tick into a `SysStats`
//! snapshot, splits the terminal into the dashboard's regions and describes
//! what each region shows. Reading the operating system's counters and
//! painting the terminal are left to the program around it.
pub mod layout;
pub mod render;
pub mod sampler;

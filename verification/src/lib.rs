//! Decisions of vkSlang, a Vulkan layer that runs libretro `.slangp` presets
//! on the swapchains of an application, and of the control panel beside it.
//!
//! What the layer and the panel decide stands here, on plain values, with
//! contracts that Verus proves: how settings are read and written, which
//! region of the screen is read and which is drawn into, what a request
//! changes, which commands a frame consists of, what becomes of a swapchain.
//! Talking to Vulkan, to sockets and to the screen is left to the programs
//! around the library.
//!
//! Numbers that shaders and settings have in single precision are values of
//! [`single::Single`], whose arithmetic is stated and proved bit by bit.

pub mod accuracy;
pub mod arranged;
pub mod capture;
pub mod config;
pub mod control;
pub mod decimal;
pub mod device;
pub mod entries;
pub mod frame;
pub mod ipc;
pub mod loader;
pub mod natural;
pub mod notation;
pub mod order;
pub mod panel;
pub mod params;
pub mod path;
pub mod presets;
pub mod profile;
pub mod runtime;
pub mod save;
pub mod saved;
pub mod screen;
pub mod single;
pub mod socket;
pub mod source;
pub mod swapchain;
pub mod text;
pub mod tree;
pub mod vulkan;

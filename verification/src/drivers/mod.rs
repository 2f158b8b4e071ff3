//! Device support: the interrupt controller's register layout.
pub mod plic;

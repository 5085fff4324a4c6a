//! Verified core of a desktop-background system monitor: it reads the
//! kernel's CPU, memory and thermal reports and keeps the bookkeeping of the
//! surfaces it draws on.
pub mod cpu;
pub mod mem;
pub mod sensor;
pub mod shader;
pub mod surfaces;
pub mod text;

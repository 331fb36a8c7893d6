pub mod cpu;
pub mod cpu_temp;
pub mod disk;
pub mod memory;
pub mod network;

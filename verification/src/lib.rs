pub mod accuracy;
pub mod arithmetic;
pub mod bounds;
pub mod busy;
pub mod caption;
pub mod channel;
pub mod cpu;
pub mod cycles;
pub mod estimates;
pub mod formulas;
pub mod grid;
pub mod mean;
pub mod meaning;
pub mod network;
pub mod number;
pub mod pdh;
pub mod perfmon;
pub mod rounding;
pub mod sample;
pub mod screen;
pub mod sensors;
pub mod series;
pub mod smoothing;
pub mod telemetry;
pub mod theme;
pub mod tiles;
pub mod wide;
pub mod worker;

pub mod constants;
pub mod demodulator;
pub mod modulator;
pub mod round_trip;

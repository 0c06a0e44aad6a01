//! The integer core of an OFDM software modem: QAM bit packing and
//! constellation decisions, the subcarrier layout, cyclic-prefix framing and
//! subcarrier placement, each with a verified contract.
pub mod ofdm;
pub mod qam;

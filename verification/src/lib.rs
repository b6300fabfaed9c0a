//! The logic of a HamAlert DX receiver: spot lines read into spots, the band
//! plan, base callsigns and modes, recognising repeated spots, the buffer of
//! recent spots with the count of the day, and QRZ XML answers.

pub mod text;
pub mod format;
pub mod band;
pub mod callsign;
pub mod number;
pub mod clock;
pub mod spot;
pub mod json;
pub mod receiver;
pub mod qrz;

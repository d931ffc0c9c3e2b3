//! A buffered byte reader for audio capture from bursty sources such as Bluetooth.
//!
//! * [`filedevice`]: what a reader is, and the record of a call made to one.
//! * [`filereader_buffered`]: the buffered reader.
//! * [`filedevice_bluez`]: how long to wait for data from BlueZ.
//! * [`laws`]: what holds of every buffered reader.
pub mod filedevice;
pub mod filedevice_bluez;
pub mod filereader_buffered;
pub mod laws;

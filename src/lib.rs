//! Verified core of a real-time audio-processing engine: multichannel audio
//! views, the splitting of an audio block at time-stamped events, polyphonic
//! voice allocation, MIDI note decoding and the parameter model of a kernel.
pub mod midi;
pub mod audio;
pub mod split;
pub mod voices;
pub mod kernel;
pub mod glue;

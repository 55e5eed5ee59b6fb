//! Audio-reactive object tracking: the verified core.
//!
//! Two engines live here. The tracker keeps a small, fixed number of slots,
//! each bound to at most one detected object and to one frequency band, and
//! re-matches them against every new set of detections. The analyzer turns
//! power spectra of the audio stream into one smoothed, adaptively normalized
//! loudness value per band.
//!
//! All quantities are integers. Boxes are whole pixels; loudness values are
//! parts per million of full scale; animation phases are microradians;
//! spectral power is counted in billionths of the power of a full-scale
//! sample.

pub mod entropy;
pub mod geometry;
pub mod index_set;
pub mod music;
pub mod music_laws;
pub mod music_model;
pub mod segmentation;
pub mod track_laws;
pub mod track_model;
pub mod units;

//! The logic of video plugins: lightning flashes, light pulses, segments of a picture, and
//! shaders with masks, computed in binary32.
pub mod cloud_flash;
pub mod cloud_flash_facts;
pub mod color;
pub mod distance;
pub mod distance_facts;
pub mod edt;
pub mod host;
pub mod isf;
pub mod mask;
pub mod mask_facts;
pub mod mqtt;
pub mod pulse_beam;
pub mod pulse_beam_3;
pub mod pulse_beam_3_facts;
pub mod random;
pub mod reals;
pub mod rounding;
pub mod segmenter;
pub mod single;
pub mod single_facts;
pub mod single_order;
pub mod single_roots;
pub mod slices;
pub mod slots;
pub mod values;

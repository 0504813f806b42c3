//! Film grain metadata in HEVC streams.
use vstd::prelude::*;

pub mod afgs1_built;
pub mod afgs1_laws;
pub mod afgs1_places;
pub mod afgs1_read;
pub mod afgs1_read_laws;
pub mod afgs1_spelled;
pub mod afgs1_write;
pub mod bits;
pub mod decode;
pub mod decode_laws;
pub mod edit;
pub mod edit_laws;
pub mod error;
pub mod escape;
pub mod frame;
pub mod grain;
pub mod inspect;
pub mod inspect_laws;
pub mod nal;
pub mod nal_laws;
pub mod packet;
pub mod packet_laws;
pub mod profile;
pub mod reader;
pub mod sei;
pub mod stream;
pub mod stream_laws;
pub mod table;
pub mod timing;
pub mod unit_laws;
pub mod video;

verus! {

} // verus!

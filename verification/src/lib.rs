//! Wire formats and server-side decisions of the Axiom editor protocol.

pub mod annotation_laws;
pub mod annotations;
pub mod buf;
pub mod chunk_laws;
pub mod chunks;
pub mod cut_laws;
pub mod edit_laws;
pub mod edits;
pub mod entities;
pub mod entity_laws;
pub mod fields;
pub mod handler_laws;
pub mod handlers;
pub mod limit_laws;
pub mod nbt;
pub mod nbt_laws;
pub mod palette;
pub mod permissions;
pub mod proto;
pub mod proto_laws;
pub mod text;
pub mod ticking;
pub mod tunnel;
pub mod wire;
pub mod wire_laws;
pub mod zstd;

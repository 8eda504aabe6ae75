//! Frame-guided projection of stored documents: a frame template is walked in
//! lockstep with a document, string leaves are dereferenced through a store
//! where the frame asks for a map, and the rest is copied verbatim.

pub mod value;
pub mod deepcopy;
pub mod store;
pub mod embed;
pub mod laws;
pub mod codec;

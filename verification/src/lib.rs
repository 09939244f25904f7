pub mod text;
pub mod cue;
pub mod parts;
pub mod parse;
pub mod decode;
pub mod paths;
pub mod order;
pub mod media;
pub mod roundtrip;
pub mod laws;

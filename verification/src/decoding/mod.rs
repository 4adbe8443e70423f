pub mod decode;
pub mod grid;
pub mod layout;
pub mod tempo;

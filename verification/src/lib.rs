pub mod document;
pub mod error;
pub mod export;
pub mod hash;
pub mod js;
pub mod num;
pub mod patch;
pub mod sync;
pub mod text;
pub mod value;

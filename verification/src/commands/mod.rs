pub mod add;
pub mod status;

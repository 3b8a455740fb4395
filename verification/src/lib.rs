pub mod text;
pub mod git;
pub mod style;
pub mod input;
pub mod layout;
pub mod clock;

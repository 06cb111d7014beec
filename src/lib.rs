pub mod identifier;
pub mod mode;
pub mod program_id;
pub mod value;
pub mod registers;
pub mod text;
pub mod instruction;
pub mod encoding;
pub mod evaluate;
pub mod integer;

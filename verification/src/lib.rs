pub mod assembler;
pub mod chip;
pub mod chips;
pub mod digits;
pub mod encode;
pub mod field;
pub mod field_convert;
pub mod fixed_point;
pub mod isa;
pub mod layout;
pub mod message_laws;
pub mod plonk;
pub mod prime;
pub mod program_circuit;
pub mod tensor;
pub mod text;

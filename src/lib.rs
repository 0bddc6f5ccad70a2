pub mod stack_arena;
pub mod storage;
pub mod elf;
pub mod scan;
pub mod markup;
pub mod plan;
pub mod exports;

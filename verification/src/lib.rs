pub mod behavior;
pub mod code;
pub mod digest;
pub mod elfview;
pub mod emit;
pub mod ingest;
pub mod mask;
pub mod order;
pub mod plan;
pub mod rarity;
pub mod x86;
pub mod text;

pub mod text;
pub mod ty;
pub mod model;
pub mod eval;
pub mod parser;
pub mod ctx;
pub mod typing;
pub mod normal;
pub mod naming;

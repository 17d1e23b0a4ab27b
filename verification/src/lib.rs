pub mod ast;
pub mod automatan;
pub mod dfa;
pub mod nfa;
pub mod re;
pub mod utils;
pub mod vm;

pub use automatan::RegexError;
pub use dfa::Dfa;
pub use nfa::Nfa;
pub use re::Re;
pub use vm::Vm;

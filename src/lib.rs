//! Parsing of expressions over user-declared operators.
//!
//! The operators' fixity, associativity and relative binding strength are
//! data, not grammar. [`parse`] builds a provisional tree that ignores
//! precedence; [`calculate_poset`] turns the declared, possibly partial, order
//! of the operators into numeric precedences; [`fixup`] re-associates the
//! provisional tree with them.
pub mod expr;
pub mod fixup;
pub mod parse;
pub mod poset;
pub mod registry;

pub use expr::Expr;
pub use expr::OpName;
pub use fixup::fixup;
pub use parse::parse;
pub use parse::parse_classified;
pub use parse::ParseError;
pub use parse::Token;
pub use poset::calculate_poset;
pub use registry::OpAssoc;
pub use registry::OpError;
pub use registry::OpInfo;
pub use registry::OpKind;
pub use registry::OpMap;
pub use registry::Order;

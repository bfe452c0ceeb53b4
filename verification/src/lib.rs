//! An untyped lambda-calculus engine: terms with numeric binder labels,
//! capture-avoiding substitution over positional (de Bruijn style) variable
//! indices, single-step reduction under two strategies, normalization,
//! alpha-equivalence, a recursive-descent parser and a pretty-printer;
//! together with an ordered map and set keyed by a verified total order.

pub mod alpha;
pub mod normalize;
pub mod order;
pub mod parser;
pub mod printer;
pub mod reduce;
pub mod roundtrip;
pub mod subst;
pub mod term;
pub mod tree_map;
pub mod tree_set;

pub use alpha::equals;
pub use normalize::normal_form;
pub use parser::ParseError;
pub use parser::Parser;
pub use term::Strategy;
pub use term::Term;
pub use tree_map::TreeMap;
pub use tree_set::TreeSet;

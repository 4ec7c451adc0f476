//! A verified arithmetic-expression evaluator core.
//!
//! The library turns an infix expression string (`"3 + 4 * 5"`) into a
//! postfix (Reverse Polish Notation) token sequence with the shunting-yard
//! algorithm, and validates that such a sequence can be folded to a single
//! value by a stack evaluator.  Every function carries a contract that pins
//! its result down exactly; the grammar module proves that on well-formed
//! expressions with balanced parentheses parsing never fails and produces
//! precisely the postorder of the expression tree.

pub mod calculate;
pub mod grammar;
pub mod keyboard_event_helper;
pub mod model;
pub mod tokens;

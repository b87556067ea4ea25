// FIRST and FOLLOW sets of the nonterminals of a context-free grammar.
//
// A grammar holds variables, terminals and productions. The text of a
// production is read into symbols with the grammar's vocabulary, and the
// FIRST and FOLLOW sets are worked out as the least sets that the rules of
// `first_rules` and `follow_rules` admit.

pub mod count;
pub mod first;
pub mod first_rules;
pub mod follow;
pub mod follow_rules;
pub mod grammar;
pub mod laws;
pub mod production;
pub mod size;
pub mod text;
pub mod token;
pub mod token_set;

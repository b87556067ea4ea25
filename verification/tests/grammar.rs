use first_follow::grammar::{Grammar, GrammarError};
use first_follow::production::Production;
use first_follow::token::Token;
use first_follow::token_set::TokenSet;

fn small_grammar() -> Grammar {
    Grammar {
        variables: vec!['S', 'A'],
        terminals: vec!["a".to_string(), "id".to_string()],
        productions: vec![],
        initial_symbol: 'S',
    }
}

#[test]
fn add_variable_takes_an_uppercase_letter() {
    let mut grammar = small_grammar();
    assert!(grammar.add_variable('B').is_ok());
    assert_eq!(grammar.variables, vec!['S', 'A', 'B']);
    assert!(grammar.is_variable(&'B'));
}

#[test]
fn add_variable_refuses_other_characters() {
    let mut grammar = small_grammar();
    assert_eq!(grammar.add_variable('b'), Err(GrammarError::InvalidVariable));
    assert_eq!(grammar.add_variable('1'), Err(GrammarError::InvalidVariable));
    assert_eq!(grammar.add_variable('£'), Err(GrammarError::InvalidVariable));
    assert_eq!(grammar.variables, vec!['S', 'A']);
}

#[test]
fn add_terminal_appends() {
    let mut grammar = small_grammar();
    grammar.add_terminal("+".to_string());
    assert_eq!(
        grammar.terminals,
        vec!["a".to_string(), "id".to_string(), "+".to_string()]
    );
    assert!(grammar.is_terminal(&"+".to_string()));
    assert!(grammar.is_terminal(&"id".to_string()));
    assert!(!grammar.is_terminal(&"i".to_string()));
}

#[test]
fn is_variable_looks_at_the_registered_variables() {
    let grammar = small_grammar();
    assert!(grammar.is_variable(&'S'));
    assert!(grammar.is_variable(&'A'));
    assert!(!grammar.is_variable(&'B'));
    assert!(!grammar.is_variable(&'a'));
}

#[test]
fn production_is_initial_compares_with_the_start_symbol() {
    let grammar = small_grammar();
    let s = Production::new('S', "a".to_string()).unwrap();
    let a = Production::new('A', "a".to_string()).unwrap();
    assert!(grammar.production_is_initial(&s));
    assert!(!grammar.production_is_initial(&a));
}

#[test]
fn add_production_skips_an_equal_rule() {
    let mut grammar = small_grammar();
    grammar.add_production(Production::new('S', "aA".to_string()).unwrap());
    grammar.add_production(Production::new('S', "a A".to_string()).unwrap());
    assert_eq!(grammar.productions.len(), 1);
    grammar.add_production(Production::new('S', "a".to_string()).unwrap());
    grammar.add_production(Production::new('A', "aA".to_string()).unwrap());
    assert_eq!(grammar.productions.len(), 3);
    assert!(grammar.holds_production(&Production::new('A', "aA".to_string()).unwrap()));
    assert!(!grammar.holds_production(&Production::new('A', "a".to_string()).unwrap()));
}

#[test]
fn add_production_skips_an_equal_rule_with_other_sets() {
    let mut grammar = small_grammar();
    grammar.add_production(Production::new('S', "a".to_string()).unwrap());
    grammar.compute_firsts();
    grammar.add_production(Production::new('S', "a".to_string()).unwrap());
    assert_eq!(grammar.productions.len(), 1);
}

#[test]
fn get_production_by_var_finds_the_first_with_the_head() {
    let mut grammar = small_grammar();
    grammar.add_production(Production::new('A', "a".to_string()).unwrap());
    grammar.add_production(Production::new('S', "A".to_string()).unwrap());
    grammar.add_production(Production::new('A', "id".to_string()).unwrap());
    let found = grammar.get_production_by_var('A').unwrap();
    assert_eq!(found.derivation, "a");
    assert_eq!(grammar.index_of('A'), Some(0));
    assert_eq!(grammar.index_of('S'), Some(1));
    assert_eq!(grammar.index_of('B'), None);
    assert!(grammar.get_production_by_var('B').is_none());
}

#[test]
fn productions_iter_mut_gives_the_productions_to_change() {
    let mut grammar = small_grammar();
    grammar.add_production(Production::new('S', "a".to_string()).unwrap());
    grammar.add_production(Production::new('A', "id".to_string()).unwrap());
    let mut set = TokenSet::new();
    set.insert(Token::Terminal("a".to_string()));
    for p in grammar.productions_iter_mut().iter_mut() {
        p.set_firsts(set.clone());
    }
    assert_eq!(grammar.productions[0].firsts, set);
    assert_eq!(grammar.productions[1].firsts, set);
    assert_eq!(grammar.variables, vec!['S', 'A']);
}

#[test]
fn grammar_clone_is_equal() {
    let mut grammar = small_grammar();
    grammar.add_production(Production::new('S', "aA | id".to_string()).unwrap());
    grammar.add_production(Production::new('A', "a".to_string()).unwrap());
    grammar.compute_follows();
    let copy = grammar.clone();
    assert!(copy == grammar);
    let mut other = grammar.clone();
    other.add_terminal("b".to_string());
    assert!(other != grammar);
    let mut third = grammar.clone();
    third.initial_symbol = 'A';
    assert!(third != grammar);
    let mut fourth = grammar.clone();
    fourth.productions[1].firsts.insert(Token::Epsilon);
    assert!(fourth != grammar);
}

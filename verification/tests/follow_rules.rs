use first_follow::follow::{Given, Item};
use first_follow::grammar::Grammar;
use first_follow::production::Production;
use first_follow::token::{Token, TokenProcessor};
use first_follow::token_set::TokenSet;

fn grammar_with(
    start: char,
    variables: Vec<char>,
    terminals: Vec<&str>,
    rules: Vec<(char, &str)>,
) -> Grammar {
    let mut grammar = Grammar {
        variables,
        terminals: terminals.iter().map(|t| t.to_string()).collect(),
        productions: vec![],
        initial_symbol: start,
    };
    for (head, text) in rules {
        grammar.add_production(Production::new(head, text.to_string()).unwrap());
    }
    grammar
}

fn follows_of(texts: Vec<&str>) -> TokenSet {
    let mut set = TokenSet::new();
    for t in texts {
        if t == "$" {
            set.insert(Token::DollarSign);
        } else {
            set.insert(Token::Terminal(t.to_string()));
        }
    }
    set
}

fn follow(grammar: &Grammar, variable: char) -> TokenSet {
    grammar.get_production_by_var(variable).unwrap().follows.clone()
}

fn expression_grammar() -> Grammar {
    grammar_with(
        'E',
        vec!['E', 'Z', 'T', 'Y', 'F'],
        vec!["+", "*", "(", "id", ")"],
        vec![
            ('E', "TZ"),
            ('Z', "+TZ | £"),
            ('T', "FY"),
            ('Y', "*FY | £"),
            ('F', "(E) | id"),
        ],
    )
}

#[test]
fn the_start_symbol_is_followed_by_the_end_marker() {
    let mut grammar = grammar_with('S', vec!['S'], vec!["a"], vec![('S', "a")]);
    grammar.compute_follows();
    assert_eq!(follow(&grammar, 'S'), follows_of(vec!["$"]));
    let mut expression = expression_grammar();
    expression.compute_follows();
    assert!(follow(&expression, 'E').contains(&Token::DollarSign));
}

#[test]
fn a_chain_of_tails_is_followed_to_its_end() {
    let mut grammar = grammar_with(
        'S',
        vec!['S', 'A', 'B', 'C'],
        vec!["c"],
        vec![('C', "c"), ('B', "C"), ('A', "B"), ('S', "A")],
    );
    grammar.compute_follows();
    assert_eq!(follow(&grammar, 'S'), follows_of(vec!["$"]));
    assert_eq!(follow(&grammar, 'A'), follows_of(vec!["$"]));
    assert_eq!(follow(&grammar, 'B'), follows_of(vec!["$"]));
    assert_eq!(follow(&grammar, 'C'), follows_of(vec!["$"]));
}

#[test]
fn a_cycle_of_tails_ends() {
    let mut grammar = grammar_with(
        'S',
        vec!['S', 'A', 'B'],
        vec!["a", "b", "c", "d"],
        vec![('S', "Ad"), ('A', "aB"), ('B', "bA | c")],
    );
    grammar.compute_follows();
    assert_eq!(follow(&grammar, 'S'), follows_of(vec!["$"]));
    assert_eq!(follow(&grammar, 'A'), follows_of(vec!["d"]));
    assert_eq!(follow(&grammar, 'B'), follows_of(vec!["d"]));
}

#[test]
fn a_variable_is_followed_by_what_the_next_variable_begins_with() {
    let mut grammar = grammar_with(
        'S',
        vec!['S', 'A', 'B'],
        vec!["a", "b"],
        vec![('S', "AB"), ('A', "a"), ('B', "b | £")],
    );
    grammar.compute_follows();
    assert_eq!(follow(&grammar, 'S'), follows_of(vec!["$"]));
    assert_eq!(follow(&grammar, 'A'), follows_of(vec!["b", "$"]));
    assert_eq!(follow(&grammar, 'B'), follows_of(vec!["$"]));
}

#[test]
fn only_the_next_symbol_is_looked_at() {
    let mut grammar = grammar_with(
        'S',
        vec!['S', 'A', 'B', 'C'],
        vec!["a", "b", "c"],
        vec![('S', "ABC"), ('A', "a"), ('B', "£ | b"), ('C', "c")],
    );
    grammar.compute_follows();
    assert_eq!(follow(&grammar, 'A'), follows_of(vec!["b"]));
    assert_eq!(follow(&grammar, 'B'), follows_of(vec!["c"]));
    assert_eq!(follow(&grammar, 'C'), follows_of(vec!["$"]));
}

#[test]
fn a_variable_without_a_production_is_passed_over() {
    let mut grammar = grammar_with(
        'S',
        vec!['S', 'X', 'A'],
        vec!["a"],
        vec![('S', "XaAX"), ('A', "a")],
    );
    grammar.compute_follows();
    assert_eq!(follow(&grammar, 'S'), follows_of(vec!["$"]));
    assert_eq!(follow(&grammar, 'A'), follows_of(vec![]));
    let mut last = grammar_with(
        'S',
        vec!['S', 'X', 'A'],
        vec!["a"],
        vec![('S', "XaA"), ('A', "a")],
    );
    last.compute_follows();
    assert_eq!(follow(&last, 'S'), follows_of(vec!["$"]));
    assert_eq!(follow(&last, 'A'), follows_of(vec!["$"]));
}

#[test]
fn a_start_symbol_without_a_production_gives_no_end_marker() {
    let mut grammar = grammar_with('Q', vec!['S', 'A'], vec!["a"], vec![('S', "Aa"), ('A', "a")]);
    grammar.compute_follows();
    assert_eq!(follow(&grammar, 'S'), follows_of(vec![]));
    assert_eq!(follow(&grammar, 'A'), follows_of(vec!["a"]));
}

#[test]
fn the_production_that_stands_for_a_variable_keeps_its_follow_set() {
    let mut grammar = grammar_with(
        'S',
        vec!['S', 'A'],
        vec!["a", "b"],
        vec![('S', "Ab"), ('A', "a"), ('S', "Aa"), ('A', "b")],
    );
    grammar.compute_follows();
    assert_eq!(grammar.productions[0].follows, follows_of(vec!["$"]));
    assert_eq!(grammar.productions[1].follows, follows_of(vec!["b", "a"]));
    assert_eq!(grammar.productions[2].follows, follows_of(vec![]));
    assert_eq!(grammar.productions[3].follows, follows_of(vec![]));
}

#[test]
fn follow_sets_hold_terminals_and_the_end_marker_only() {
    let mut grammar = expression_grammar();
    grammar.compute_follows();
    for p in grammar.productions.iter() {
        for token in p.follows.items() {
            match token {
                Token::Terminal(text) => assert!(grammar.is_terminal(text)),
                Token::DollarSign => {}
                other => panic!("{:?} in a FOLLOW set", other),
            }
        }
    }
}

#[test]
fn compute_follows_twice_gives_the_same() {
    let mut grammar = expression_grammar();
    grammar.compute_follows();
    let once = grammar.clone();
    grammar.compute_follows();
    assert!(grammar == once);
}

#[test]
fn compute_follows_starts_from_nothing_and_works_out_the_firsts() {
    let mut grammar = grammar_with(
        'S',
        vec!['S', 'A'],
        vec!["a", "b"],
        vec![('S', "Ab"), ('A', "a")],
    );
    grammar.productions[1].set_follows(follows_of(vec!["a", "$"]));
    grammar.compute_follows();
    assert_eq!(follow(&grammar, 'A'), follows_of(vec!["b"]));
    let mut firsts = TokenSet::new();
    firsts.insert(Token::Terminal("a".to_string()));
    assert_eq!(grammar.productions[0].firsts, firsts);
    assert_eq!(grammar.productions[1].firsts, firsts);
}

#[test]
fn compute_follows_on_no_productions() {
    let mut grammar = grammar_with('S', vec!['S'], vec!["a"], vec![]);
    grammar.compute_follows();
    assert!(grammar.productions.is_empty());
}

#[test]
fn process_follow_rule2_leaves_epsilon_out() {
    let mut grammar = expression_grammar();
    grammar.compute_firsts();
    let mut plus = TokenSet::new();
    plus.insert(Token::Terminal("+".to_string()));
    assert_eq!(Production::process_follow_rule2('Z', &grammar), plus);
    let mut begin = TokenSet::new();
    begin.insert(Token::Terminal("(".to_string()));
    begin.insert(Token::Terminal("id".to_string()));
    assert_eq!(Production::process_follow_rule2('T', &grammar), begin);
    assert_eq!(Production::process_follow_rule2('X', &grammar), TokenSet::new());
}

#[test]
fn process_follow_rule3_asks_for_a_variable_that_can_vanish() {
    let mut grammar = expression_grammar();
    grammar.compute_firsts();
    assert!(Production::process_follow_rule3(Some(&Token::Variable('Z')), &grammar));
    assert!(!Production::process_follow_rule3(Some(&Token::Variable('T')), &grammar));
    assert!(!Production::process_follow_rule3(Some(&Token::Variable('X')), &grammar));
    assert!(!Production::process_follow_rule3(
        Some(&Token::Terminal("+".to_string())),
        &grammar
    ));
    assert!(!Production::process_follow_rule3(Some(&Token::Epsilon), &grammar));
    assert!(!Production::process_follow_rule3(None, &grammar));
}

#[test]
fn process_follow_variable_gives_what_the_next_symbol_offers() {
    let mut grammar = expression_grammar();
    grammar.compute_firsts();
    assert_eq!(
        Production::process_follow_variable('T', &grammar, Some(&Token::Variable('Z'))),
        vec![Item::new('T', Given::Token(Token::Terminal("+".to_string())))]
    );
    assert_eq!(
        Production::process_follow_variable('E', &grammar, Some(&Token::Terminal(")".to_string()))),
        vec![Item::new('E', Given::Token(Token::Terminal(")".to_string())))]
    );
    assert_eq!(
        Production::process_follow_variable('E', &grammar, Some(&Token::Epsilon)),
        vec![]
    );
    assert_eq!(Production::process_follow_variable('E', &grammar, None), vec![]);
    assert_eq!(
        Production::process_follow_variable('E', &grammar, Some(&Token::DollarSign)),
        vec![]
    );
    assert_eq!(
        Production::process_follow_variable('Y', &grammar, Some(&Token::Variable('F'))),
        vec![
            Item::new('Y', Given::Token(Token::Terminal("(".to_string()))),
            Item::new('Y', Given::Token(Token::Terminal("id".to_string()))),
        ]
    );
    assert_eq!(
        Production::process_follow_variable('Y', &grammar, Some(&Token::Variable('X'))),
        vec![]
    );
}

#[test]
fn fetch_follows_gives_an_item_for_each_place() {
    let mut grammar = grammar_with(
        'Q',
        vec!['S', 'A'],
        vec!["a"],
        vec![('S', "AaAa | A"), ('A', "a")],
    );
    grammar.compute_firsts();
    let processor = TokenProcessor::new(&grammar);
    let s = grammar.get_production_by_var('S').unwrap();
    assert_eq!(
        Production::fetch_follows(s, &grammar, &processor),
        vec![
            Item::new('A', Given::Token(Token::Terminal("a".to_string()))),
            Item::new('A', Given::Token(Token::Terminal("a".to_string()))),
            Item::new('A', Given::FollowOf('S')),
        ]
    );
}

#[test]
fn fetch_follows_collects_the_items_of_a_production() {
    let mut grammar = expression_grammar();
    grammar.compute_firsts();
    let processor = TokenProcessor::new(&grammar);
    let e = grammar.get_production_by_var('E').unwrap();
    assert_eq!(
        Production::fetch_follows(e, &grammar, &processor),
        vec![
            Item::new('E', Given::Token(Token::DollarSign)),
            Item::new('T', Given::Token(Token::Terminal("+".to_string()))),
            Item::new('T', Given::FollowOf('E')),
            Item::new('Z', Given::FollowOf('E')),
        ]
    );
    let f = grammar.get_production_by_var('F').unwrap();
    assert_eq!(
        Production::fetch_follows(f, &grammar, &processor),
        vec![Item::new('E', Given::Token(Token::Terminal(")".to_string())))]
    );
}

#[test]
fn fetch_alternative_follows_adds_to_the_items() {
    let mut grammar = expression_grammar();
    grammar.compute_firsts();
    let mut items = vec![Item::new('Q', Given::FollowOf('Q'))];
    let tokens = vec![
        Token::Terminal("*".to_string()),
        Token::Variable('F'),
        Token::Variable('Y'),
    ];
    Production::fetch_alternative_follows(&tokens, 'Y', &grammar, &mut items);
    assert_eq!(
        items,
        vec![
            Item::new('Q', Given::FollowOf('Q')),
            Item::new('F', Given::Token(Token::Terminal("*".to_string()))),
            Item::new('F', Given::FollowOf('Y')),
            Item::new('Y', Given::FollowOf('Y')),
        ]
    );
}

#[test]
fn apply_follow_item_grows_one_follow_set() {
    let mut grammar = grammar_with(
        'S',
        vec!['S', 'A'],
        vec!["a", "b"],
        vec![('S', "Ab"), ('A', "a")],
    );
    let item = Item::new('A', Given::Token(Token::Terminal("b".to_string())));
    assert!(grammar.apply_follow_item(&item));
    assert!(!grammar.apply_follow_item(&item));
    assert_eq!(follow(&grammar, 'A'), follows_of(vec!["b"]));
    assert_eq!(follow(&grammar, 'S'), follows_of(vec![]));
    let inherit = Item::new('S', Given::FollowOf('A'));
    assert!(grammar.apply_follow_item(&inherit));
    assert!(!grammar.apply_follow_item(&inherit));
    assert_eq!(follow(&grammar, 'S'), follows_of(vec!["b"]));
    let nowhere = Item::new('X', Given::Token(Token::DollarSign));
    assert!(!grammar.apply_follow_item(&nowhere));
    let from_nowhere = Item::new('S', Given::FollowOf('X'));
    assert!(!grammar.apply_follow_item(&from_nowhere));
    assert_eq!(follow(&grammar, 'S'), follows_of(vec!["b"]));
    assert_eq!(item.clone(), item);
}

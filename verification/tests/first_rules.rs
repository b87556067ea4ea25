use first_follow::grammar::Grammar;
use first_follow::production::Production;
use first_follow::token::Token;
use first_follow::token_set::TokenSet;

fn grammar_of(variables: Vec<char>, terminals: Vec<&str>, rules: Vec<(char, &str)>) -> Grammar {
    let mut grammar = Grammar {
        variables,
        terminals: terminals.iter().map(|t| t.to_string()).collect(),
        productions: vec![],
        initial_symbol: 'S',
    };
    for (head, text) in rules {
        grammar.add_production(Production::new(head, text.to_string()).unwrap());
    }
    grammar
}

fn firsts_of(texts: Vec<&str>) -> TokenSet {
    let mut set = TokenSet::new();
    for t in texts {
        if t == "£" {
            set.insert(Token::Epsilon);
        } else {
            set.insert(Token::Terminal(t.to_string()));
        }
    }
    set
}

fn first(grammar: &Grammar, variable: char) -> TokenSet {
    grammar.get_production_by_var(variable).unwrap().firsts.clone()
}

#[test]
fn left_recursion_ends() {
    let mut grammar = grammar_of(vec!['A'], vec!["a", "b"], vec![('A', "Aa | b")]);
    grammar.compute_firsts();
    assert_eq!(first(&grammar, 'A'), firsts_of(vec!["b"]));
}

#[test]
fn mutual_recursion_ends() {
    let mut grammar = grammar_of(
        vec!['A', 'B'],
        vec!["a"],
        vec![('A', "B | a"), ('B', "A | £")],
    );
    grammar.compute_firsts();
    assert_eq!(first(&grammar, 'A'), firsts_of(vec!["a", "£"]));
    assert_eq!(first(&grammar, 'B'), firsts_of(vec!["a", "£"]));
}

#[test]
fn a_cycle_without_a_terminal_gives_nothing() {
    let mut grammar = grammar_of(vec!['A', 'B'], vec!["a"], vec![('A', "B"), ('B', "A")]);
    grammar.compute_firsts();
    assert_eq!(first(&grammar, 'A'), firsts_of(vec![]));
    assert_eq!(first(&grammar, 'B'), firsts_of(vec![]));
}

#[test]
fn a_variable_without_a_production_gives_nothing() {
    let mut grammar = grammar_of(
        vec!['S', 'X'],
        vec!["a"],
        vec![('S', "Xa | a")],
    );
    grammar.compute_firsts();
    assert_eq!(first(&grammar, 'S'), firsts_of(vec!["a"]));
    let mut only = grammar_of(vec!['S', 'X'], vec!["a"], vec![('S', "Xa")]);
    only.compute_firsts();
    assert_eq!(first(&only, 'S'), firsts_of(vec![]));
}

#[test]
fn nullability_propagates_through_a_last_variable() {
    let mut grammar = grammar_of(vec!['A', 'B'], vec!["c"], vec![('A', "B"), ('B', "£")]);
    grammar.compute_firsts();
    assert_eq!(first(&grammar, 'A'), firsts_of(vec!["£"]));
    assert_eq!(first(&grammar, 'B'), firsts_of(vec!["£"]));
}

#[test]
fn nullability_stops_at_a_terminal() {
    let mut grammar = grammar_of(vec!['A', 'B'], vec!["c"], vec![('A', "Bc"), ('B', "£")]);
    grammar.compute_firsts();
    assert_eq!(first(&grammar, 'A'), firsts_of(vec!["c"]));
    let mut before = grammar_of(vec!['A', 'B'], vec!["c"], vec![('A', "cB"), ('B', "£")]);
    before.compute_firsts();
    assert_eq!(first(&before, 'A'), firsts_of(vec!["c"]));
}

#[test]
fn a_vanishing_prefix_lets_the_next_symbol_in() {
    let mut grammar = grammar_of(
        vec!['S', 'A', 'B'],
        vec!["a", "b", "c"],
        vec![('S', "ABc"), ('A', "a | £"), ('B', "b | £")],
    );
    grammar.compute_firsts();
    assert_eq!(first(&grammar, 'S'), firsts_of(vec!["a", "b", "c"]));
}

#[test]
fn epsilon_counts_only_as_a_whole_alternative() {
    let mut grammar = grammar_of(vec!['S'], vec!["a"], vec![('S', "£a")]);
    grammar.compute_firsts();
    assert_eq!(first(&grammar, 'S'), firsts_of(vec![]));
    let mut after = grammar_of(vec!['S', 'A'], vec!["a"], vec![('S', "A£"), ('A', "a | £")]);
    after.compute_firsts();
    assert_eq!(first(&after, 'S'), firsts_of(vec!["a"]));
    let mut alone = grammar_of(vec!['S'], vec!["a"], vec![('S', " £ | a")]);
    alone.compute_firsts();
    assert_eq!(first(&alone, 'S'), firsts_of(vec!["a", "£"]));
}

#[test]
fn an_empty_alternative_gives_nothing() {
    let mut grammar = grammar_of(vec!['S'], vec!["a"], vec![('S', "")]);
    grammar.compute_firsts();
    assert_eq!(first(&grammar, 'S'), firsts_of(vec![]));
    let mut bars = grammar_of(vec!['S'], vec!["a"], vec![('S', "|a|")]);
    bars.compute_firsts();
    assert_eq!(first(&bars, 'S'), firsts_of(vec!["a"]));
}

#[test]
fn a_later_production_with_the_same_head_is_not_looked_up() {
    let mut grammar = grammar_of(
        vec!['S', 'A'],
        vec!["a", "b"],
        vec![('A', "a"), ('S', "A"), ('A', "b")],
    );
    grammar.compute_firsts();
    assert_eq!(grammar.productions[0].firsts, firsts_of(vec!["a"]));
    assert_eq!(grammar.productions[1].firsts, firsts_of(vec!["a"]));
    assert_eq!(grammar.productions[2].firsts, firsts_of(vec!["b"]));
}

#[test]
fn first_sets_hold_terminals_and_epsilon_only() {
    let mut grammar = grammar_of(
        vec!['E', 'Z', 'T', 'Y', 'F'],
        vec!["+", "*", "(", "id", ")"],
        vec![
            ('E', "TZ"),
            ('Z', "+TZ | £"),
            ('T', "FY"),
            ('Y', "*FY | £"),
            ('F', "(E) | id"),
        ],
    );
    grammar.compute_firsts();
    for p in grammar.productions.iter() {
        for token in p.firsts.items() {
            match token {
                Token::Terminal(text) => assert!(grammar.is_terminal(text)),
                Token::Epsilon => {}
                other => panic!("{:?} in a FIRST set", other),
            }
        }
    }
}

#[test]
fn compute_firsts_twice_gives_the_same() {
    let mut grammar = grammar_of(
        vec!['S', 'A', 'B'],
        vec!["a", "b", "c"],
        vec![('S', "AB"), ('A', "aA | a | £"), ('B', "bB | c | £")],
    );
    grammar.compute_firsts();
    let once = grammar.clone();
    grammar.compute_firsts();
    assert!(grammar == once);
}

#[test]
fn compute_firsts_starts_from_nothing() {
    let mut grammar = grammar_of(vec!['S'], vec!["a", "b"], vec![('S', "a")]);
    grammar.productions[0].set_firsts(firsts_of(vec!["b", "£"]));
    let mut follows = TokenSet::new();
    follows.insert(Token::DollarSign);
    grammar.productions[0].set_follows(follows.clone());
    grammar.compute_firsts();
    assert_eq!(first(&grammar, 'S'), firsts_of(vec!["a"]));
    assert_eq!(grammar.productions[0].follows, follows);
    assert_eq!(grammar.productions[0].derivation, "a");
}

#[test]
fn compute_firsts_on_no_productions() {
    let mut grammar = grammar_of(vec!['S'], vec!["a"], vec![]);
    grammar.compute_firsts();
    assert!(grammar.productions.is_empty());
}

#[test]
fn process_variable_takes_the_first_set_of_the_variable() {
    let mut grammar = grammar_of(
        vec!['A', 'B'],
        vec!["a", "b"],
        vec![('A', "a | £"), ('B', "b")],
    );
    grammar.compute_firsts();
    let mut firsts = firsts_of(vec!["b"]);
    assert!(Production::process_variable('A', &grammar, &mut firsts, false));
    assert_eq!(firsts, firsts_of(vec!["a", "b"]));
    assert!(Production::process_variable('A', &grammar, &mut firsts, true));
    assert_eq!(firsts, firsts_of(vec!["a", "b", "£"]));
    let mut other = TokenSet::new();
    assert!(!Production::process_variable('B', &grammar, &mut other, true));
    assert_eq!(other, firsts_of(vec!["b"]));
    assert!(!Production::process_variable('X', &grammar, &mut other, true));
    assert_eq!(other, firsts_of(vec!["b"]));
}

#[test]
fn process_variable_works_the_first_set_out() {
    let grammar = grammar_of(vec!['A'], vec!["a"], vec![('A', "£")]);
    let mut firsts = TokenSet::new();
    assert!(Production::process_variable('A', &grammar, &mut firsts, false));
    assert_eq!(firsts, firsts_of(vec![]));
    assert!(Production::process_variable('A', &grammar, &mut firsts, true));
    assert_eq!(firsts, firsts_of(vec!["£"]));
    assert_eq!(grammar.productions[0].firsts, firsts_of(vec![]));
    let chain = grammar_of(
        vec!['S', 'A', 'B'],
        vec!["a", "b"],
        vec![('S', "A"), ('A', "B | a"), ('B', "b | £")],
    );
    let mut firsts = firsts_of(vec!["a"]);
    assert!(Production::process_variable('S', &chain, &mut firsts, false));
    assert_eq!(firsts, firsts_of(vec!["a", "b"]));
    assert!(!Production::process_variable('X', &chain, &mut firsts, true));
    assert_eq!(firsts, firsts_of(vec!["a", "b"]));
}

#[test]
fn refine_variable_reads_the_set_held() {
    let mut grammar = grammar_of(vec!['A'], vec!["a"], vec![('A', "a | £")]);
    let mut firsts = TokenSet::new();
    assert!(!Production::refine_variable('A', &grammar, &mut firsts, true));
    assert_eq!(firsts, firsts_of(vec![]));
    grammar.compute_firsts();
    assert!(Production::refine_variable('A', &grammar, &mut firsts, false));
    assert_eq!(firsts, firsts_of(vec!["a"]));
    assert!(Production::refine_variable('A', &grammar, &mut firsts, true));
    assert_eq!(firsts, firsts_of(vec!["a", "£"]));
}

#[test]
fn fetch_firsts_works_the_nested_sets_out() {
    let grammar = grammar_of(
        vec!['S', 'A', 'B'],
        vec!["a", "b", "c"],
        vec![('S', "AB"), ('A', "aA | a | £"), ('B', "bB | c | £")],
    );
    let s = grammar.get_production_by_var('S').unwrap();
    assert_eq!(
        Production::fetch_firsts(s, &grammar),
        firsts_of(vec!["a", "b", "c", "£"])
    );
    let a = grammar.get_production_by_var('A').unwrap();
    assert_eq!(Production::fetch_firsts(a, &grammar), firsts_of(vec!["a", "£"]));
    assert_eq!(grammar.productions[0].firsts, firsts_of(vec![]));

    let grammar = grammar_of(vec!['S', 'A'], vec!["b", "c"], vec![('S', "Ab | cA"), ('A', "£")]);
    let s = grammar.get_production_by_var('S').unwrap();
    assert_eq!(Production::fetch_firsts(s, &grammar), firsts_of(vec!["b", "c"]));

    let grammar = grammar_of(vec!['S', 'A'], vec!["a"], vec![('S', "A"), ('A', "a")]);
    let s = grammar.get_production_by_var('S').unwrap();
    let a = grammar.get_production_by_var('A').unwrap();
    assert_eq!(Production::fetch_firsts(s, &grammar), firsts_of(vec!["a"]));
    assert_eq!(Production::fetch_firsts(a, &grammar), firsts_of(vec!["a"]));

    let grammar = grammar_of(vec!['S', 'A'], vec!["a"], vec![('S', "A"), ('A', "£")]);
    let s = grammar.get_production_by_var('S').unwrap();
    assert_eq!(Production::fetch_firsts(s, &grammar), firsts_of(vec!["£"]));
}

#[test]
fn fetch_firsts_does_not_read_the_sets_held() {
    let mut grammar = grammar_of(
        vec!['S', 'A'],
        vec!["a", "b"],
        vec![('S', "A | b"), ('A', "a")],
    );
    let built = grammar.clone();
    grammar.compute_firsts();
    let mut stale = grammar.clone();
    stale.productions[1].set_firsts(firsts_of(vec!["b", "£"]));
    for g in [&built, &grammar, &stale] {
        let s = g.get_production_by_var('S').unwrap();
        assert_eq!(Production::fetch_firsts(s, g), firsts_of(vec!["a", "b"]));
    }
    let s = grammar.get_production_by_var('S').unwrap();
    assert_eq!(Production::fetch_firsts(s, &grammar), s.firsts);
    let loose = Production::new('Q', "Ab".to_string()).unwrap();
    assert_eq!(Production::fetch_firsts(&loose, &built), firsts_of(vec!["a"]));
}

#[test]
fn fetch_firsts_ends_on_left_recursion() {
    let grammar = grammar_of(vec!['A'], vec!["a", "b"], vec![('A', "Aa | b")]);
    let a = grammar.get_production_by_var('A').unwrap();
    assert_eq!(Production::fetch_firsts(a, &grammar), firsts_of(vec!["b"]));
}

#[test]
fn refine_firsts_applies_the_rules_once() {
    let grammar = grammar_of(
        vec!['S', 'A'],
        vec!["a", "b"],
        vec![('S', "A | b"), ('A', "a")],
    );
    let s = grammar.get_production_by_var('S').unwrap();
    assert_eq!(Production::refine_firsts(s, &grammar), firsts_of(vec!["b"]));
    let a = grammar.get_production_by_var('A').unwrap();
    assert_eq!(Production::refine_firsts(a, &grammar), firsts_of(vec!["a"]));
}

#[test]
fn refine_alternative_reads_one_alternative() {
    let mut grammar = grammar_of(
        vec!['A', 'B'],
        vec!["a", "b"],
        vec![('A', "a | £"), ('B', "b | £")],
    );
    grammar.compute_firsts();
    let tokens = vec![
        Token::Variable('A'),
        Token::Variable('B'),
        Token::Terminal("a".to_string()),
        Token::Terminal("b".to_string()),
    ];
    let mut firsts = TokenSet::new();
    Production::refine_alternative(&tokens, &grammar, &mut firsts);
    assert_eq!(firsts, firsts_of(vec!["a", "b"]));
    let tokens = vec![Token::Variable('A'), Token::Variable('B')];
    let mut firsts = TokenSet::new();
    Production::refine_alternative(&tokens, &grammar, &mut firsts);
    assert_eq!(firsts, firsts_of(vec!["a", "b", "£"]));
    let tokens = vec![Token::DollarSign, Token::Terminal("a".to_string())];
    let mut firsts = TokenSet::new();
    Production::refine_alternative(&tokens, &grammar, &mut firsts);
    assert_eq!(firsts, firsts_of(vec![]));
}

use first_follow::grammar::Grammar;
use first_follow::production::Production;
use first_follow::token::{Token, DOLLAR_SIGN, EPSILON};
use first_follow::token_set::TokenSet;

fn follow_set_from_vec(vec: Vec<&str>) -> TokenSet {
    let mut set = TokenSet::new();
    for v in vec {
        if v == EPSILON {
            set.insert(Token::Epsilon);
        } else if v == DOLLAR_SIGN {
            set.insert(Token::DollarSign);
        } else {
            set.insert(Token::Terminal(v.to_string()));
        }
    }
    set
}

#[test]
fn test_follow() {
    let mut grammar = Grammar {
        variables: vec!['E', 'Z', 'T', 'Y', 'F'],
        terminals: vec![
            "+".to_string(),
            "*".to_string(),
            "(".to_string(),
            "id".to_string(),
            ")".to_string(),
        ],
        productions: vec![],
        initial_symbol: 'E',
    };

    grammar.add_production(Production::new('E', "TZ".to_string()).unwrap());
    grammar.add_production(Production::new('Z', "+TZ | £".to_string()).unwrap());
    grammar.add_production(Production::new('T', "FY".to_string()).unwrap());
    grammar.add_production(Production::new('Y', "*FY | £".to_string()).unwrap());
    grammar.add_production(Production::new('F', "(E) | id".to_string()).unwrap());

    grammar.compute_follows();

    let e = grammar.get_production_by_var('E').unwrap();
    let z = grammar.get_production_by_var('Z').unwrap();
    let t = grammar.get_production_by_var('T').unwrap();
    let y = grammar.get_production_by_var('Y').unwrap();
    let f = grammar.get_production_by_var('F').unwrap();

    let set_e = follow_set_from_vec(vec![DOLLAR_SIGN, ")"]);
    let set_t = follow_set_from_vec(vec!["+", ")", DOLLAR_SIGN]);
    let set_f = follow_set_from_vec(vec!["*", "+", ")", DOLLAR_SIGN]);

    assert_eq!(e.follows, set_e, "Testing variable E");
    assert_eq!(z.follows, set_e, "Testing variable Z");
    assert_eq!(t.follows, set_t, "Testing variable T");
    assert_eq!(y.follows, set_t, "Testing variable Y");
    assert_eq!(f.follows, set_f, "Testing variable F");
}

#[test]
fn test_follow2() {
    let mut grammar = Grammar {
        variables: vec!['S', 'B', 'C'],
        terminals: vec![
            "a".to_string(),
            "b".to_string(),
            "c".to_string(),
            "d".to_string(),
        ],
        productions: vec![],
        initial_symbol: 'S',
    };

    grammar.add_production(Production::new('S', "Bb | Cd".to_string()).unwrap());
    grammar.add_production(Production::new('B', "aB | £".to_string()).unwrap());
    grammar.add_production(Production::new('C', "cC | £".to_string()).unwrap());

    grammar.compute_follows();

    let s = grammar.get_production_by_var('S').unwrap();
    let b = grammar.get_production_by_var('B').unwrap();
    let c = grammar.get_production_by_var('C').unwrap();

    let set_s = follow_set_from_vec(vec![DOLLAR_SIGN]);
    let set_b = follow_set_from_vec(vec!["b"]);
    let set_c = follow_set_from_vec(vec!["d"]);

    assert_eq!(s.follows, set_s, "Testing variable S");
    assert_eq!(b.follows, set_b, "Testing variable B");
    assert_eq!(c.follows, set_c, "Testing variable C");
}

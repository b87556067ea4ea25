// Tokens, the symbols they stand for, and the scanner that reads the text
// of a derivation into tokens.

use crate::grammar::{Grammar, GrammarView};
use crate::text::{as_char, chars_of, split, split_bounds, trim, trim_bounds};
use vstd::prelude::*;

verus! {

/// The text that stands for the empty derivation.
pub const EPSILON: &'static str = "£";

/// The text that stands for the end of the input.
pub const DOLLAR_SIGN: &'static str = "$";

/// A grammar symbol as a mathematical value: what a [`Token`] stands for.
pub enum Symbol {
    /// A reference to a nonterminal.
    Variable(char),
    /// A terminal, by its text.
    Terminal(Seq<char>),
    /// The empty derivation.
    Epsilon,
    /// The end of the input.
    EndMarker,
}

impl Symbol {
    /// The text that a symbol is written as.
    pub open spec fn text(self) -> Seq<char> {
        match self {
            Symbol::Variable(c) => seq![c],
            Symbol::Terminal(s) => s,
            Symbol::Epsilon => seq!['£'],
            Symbol::EndMarker => seq!['$'],
        }
    }
}

/// The text of the empty derivation, as characters.
pub open spec fn epsilon_text() -> Seq<char> {
    seq!['£']
}

/// One symbol of a derivation.
#[derive(Debug, Eq, Hash)]
pub enum Token {
    Variable(char),
    Terminal(String),
    Epsilon,
    DollarSign,
}

impl View for Token {
    type V = Symbol;

    open spec fn view(&self) -> Symbol {
        match self {
            Token::Variable(c) => Symbol::Variable(*c),
            Token::Terminal(s) => Symbol::Terminal(s@),
            Token::Epsilon => Symbol::Epsilon,
            Token::DollarSign => Symbol::EndMarker,
        }
    }
}

impl PartialEq for Token {
    fn eq(&self, other: &Token) -> (r: bool) {
        match (self, other) {
            (Token::Variable(a), Token::Variable(b)) => *a == *b,
            (Token::Terminal(a), Token::Terminal(b)) => a.eq(b),
            (Token::Epsilon, Token::Epsilon) => true,
            (Token::DollarSign, Token::DollarSign) => true,
            _ => false,
        }
    }
}

impl vstd::std_specs::cmp::PartialEqSpecImpl for Token {
    open spec fn obeys_eq_spec() -> bool {
        true
    }

    open spec fn eq_spec(&self, other: &Token) -> bool {
        self@ == other@
    }
}

impl Clone for Token {
    fn clone(&self) -> (r: Token)
        ensures
            r == *self,
    {
        match self {
            Token::Variable(c) => Token::Variable(*c),
            Token::Terminal(s) => Token::Terminal(s.clone()),
            Token::Epsilon => Token::Epsilon,
            Token::DollarSign => Token::DollarSign,
        }
    }
}

impl Token {
    /// The text that the token is written as.
    pub fn to_string(&self) -> (r: String)
        ensures
            r@ == self@.text(),
    {
        match self {
            Token::Variable(ch) => {
                let mut s = String::new();
                s.push(*ch);
                assert(s@ == seq![*ch]);
                s
            },
            Token::Terminal(s) => s.clone(),
            Token::Epsilon => {
                proof {
                    reveal_strlit("£");
                }
                assert(EPSILON@ == seq!['£']);
                EPSILON.to_owned()
            },
            Token::DollarSign => {
                proof {
                    reveal_strlit("$");
                }
                assert(DOLLAR_SIGN@ == seq!['$']);
                DOLLAR_SIGN.to_owned()
            },
        }
    }
}

/// The symbols that a sequence of tokens stands for.
pub open spec fn symbols_of(tokens: Seq<Token>) -> Seq<Symbol> {
    tokens.map_values(|t: Token| t@)
}

/// The tokens of one alternative of a derivation.
#[derive(Debug, Eq, PartialEq)]
pub struct DerivationTokenSlice {
    pub tokens: Vec<Token>,
}

impl View for DerivationTokenSlice {
    type V = Seq<Symbol>;

    open spec fn view(&self) -> Seq<Symbol> {
        symbols_of(self.tokens@)
    }
}

impl DerivationTokenSlice {
    /// The slice that holds `tokens`.
    pub fn new(tokens: Vec<Token>) -> (r: DerivationTokenSlice)
        ensures
            r.tokens == tokens,
    {
        DerivationTokenSlice { tokens }
    }
}

/// The symbols that a list of token slices stands for.
pub open spec fn slices_of(slices: Seq<DerivationTokenSlice>) -> Seq<Seq<Symbol>> {
    slices.map_values(|s: DerivationTokenSlice| s@)
}

/// Where the scanner stands after some input: the symbols found so far, and
/// the characters read since the last of them.
pub struct ScanState {
    pub symbols: Seq<Symbol>,
    pub pending: Seq<char>,
}

/// The scanner's state after `input`. Each character joins the pending
/// text. If that text is now the epsilon marker, `Epsilon` is found; else if
/// the character is a variable, that variable is found, and what was pending
/// is dropped; else if the pending text is a terminal, that terminal is
/// found. The pending text is empty again after each symbol found.
pub open spec fn scan(variables: Seq<char>, terminals: Seq<Seq<char>>, input: Seq<char>) -> ScanState
    decreases input.len(),
{
    if input.len() == 0 {
        ScanState { symbols: Seq::empty(), pending: Seq::empty() }
    } else {
        let before = scan(variables, terminals, input.drop_last());
        let ch = input.last();
        let text = before.pending.push(ch);
        if text == epsilon_text() {
            ScanState { symbols: before.symbols.push(Symbol::Epsilon), pending: Seq::empty() }
        } else if variables.contains(ch) {
            ScanState { symbols: before.symbols.push(Symbol::Variable(ch)), pending: Seq::empty() }
        } else if terminals.contains(text) {
            ScanState { symbols: before.symbols.push(Symbol::Terminal(text)), pending: Seq::empty() }
        } else {
            ScanState { symbols: before.symbols, pending: text }
        }
    }
}

/// The symbols of one alternative. Characters that complete no symbol are
/// left out.
pub open spec fn tokenize(
    variables: Seq<char>,
    terminals: Seq<Seq<char>>,
    input: Seq<char>,
) -> Seq<Symbol> {
    scan(variables, terminals, input).symbols
}

/// The alternatives of a derivation: its pieces between the bars, each
/// without the white space at its ends.
pub open spec fn alternatives(derivation: Seq<char>) -> Seq<Seq<char>> {
    split(derivation, '|').map_values(|piece: Seq<char>| trim(piece))
}

/// The symbols of each alternative of a derivation.
pub open spec fn derivation_symbols(
    variables: Seq<char>,
    terminals: Seq<Seq<char>>,
    derivation: Seq<char>,
) -> Seq<Seq<Symbol>> {
    alternatives(derivation).map_values(|alt: Seq<char>| tokenize(variables, terminals, alt))
}

/// Whether `symbol` can come out of the scanner: a variable or a terminal
/// of the vocabulary, or epsilon.
pub open spec fn in_vocabulary(
    variables: Seq<char>,
    terminals: Seq<Seq<char>>,
    symbol: Symbol,
) -> bool {
    match symbol {
        Symbol::Variable(v) => variables.contains(v),
        Symbol::Terminal(t) => terminals.contains(t),
        Symbol::Epsilon => true,
        Symbol::EndMarker => false,
    }
}

/// The scanner finds only symbols of the vocabulary.
pub proof fn lemma_scan_vocabulary(
    variables: Seq<char>,
    terminals: Seq<Seq<char>>,
    input: Seq<char>,
)
    ensures
        forall|k: int|
            0 <= k < tokenize(variables, terminals, input).len() ==> in_vocabulary(
                variables,
                terminals,
                #[trigger] tokenize(variables, terminals, input)[k],
            ),
    decreases input.len(),
{
    if input.len() > 0 {
        lemma_scan_vocabulary(variables, terminals, input.drop_last());
        let before = tokenize(variables, terminals, input.drop_last());
        let after = tokenize(variables, terminals, input);
        assert(as_char(input.last()) == input.last());
        assert forall|k: int| 0 <= k < after.len() implies in_vocabulary(
            variables,
            terminals,
            #[trigger] after[k],
        ) by {
            if k < before.len() {
                assert(after[k] == before[k]);
            }
        }
    }
}

/// The symbols of a list of tokens with one more token at its end.
pub proof fn lemma_symbols_push(tokens: Seq<Token>, token: Token)
    ensures
        symbols_of(tokens.push(token)) == symbols_of(tokens).push(token@),
{
    assert(symbols_of(tokens.push(token)) =~= symbols_of(tokens).push(token@));
}

impl GrammarView {
    /// The symbols of each alternative of `derivation`, read with the
    /// grammar's variables and terminals.
    pub open spec fn symbols(self, derivation: Seq<char>) -> Seq<Seq<Symbol>> {
        derivation_symbols(self.variables, self.terminals, derivation)
    }

    /// Every symbol of every alternative is of the grammar's vocabulary.
    pub proof fn lemma_symbols_vocabulary(self, derivation: Seq<char>)
        ensures
            forall|a: int, k: int|
                0 <= a < self.symbols(derivation).len() && 0 <= k < self.symbols(
                    derivation,
                )[a].len() ==> in_vocabulary(
                    self.variables,
                    self.terminals,
                    #[trigger] self.symbols(derivation)[a][k],
                ),
    {
        assert forall|a: int, k: int|
            0 <= a < self.symbols(derivation).len() && 0 <= k < self.symbols(
                derivation,
            )[a].len() implies in_vocabulary(
            self.variables,
            self.terminals,
            #[trigger] self.symbols(derivation)[a][k],
        ) by {
            lemma_scan_vocabulary(self.variables, self.terminals, alternatives(derivation)[a]);
        }
    }
}

/// Reads derivations with the variables and terminals of one grammar.
#[derive(Debug)]
pub struct TokenProcessor<'a> {
    grammar: &'a Grammar,
}

impl<'a> TokenProcessor<'a> {
    /// The grammar whose vocabulary is read with.
    pub closed spec fn grammar(&self) -> GrammarView {
        self.grammar@
    }

    /// A processor that reads with the vocabulary of `grammar`.
    pub fn new(grammar: &'a Grammar) -> (r: TokenProcessor<'a>)
        ensures
            r.grammar() == grammar@,
    {
        TokenProcessor { grammar }
    }

    /// The tokens of each alternative of `derivation`.
    pub fn process_derivation(&self, derivation: &String) -> (r: Vec<DerivationTokenSlice>)
        ensures
            slices_of(r@) == self.grammar().symbols(derivation@),
    {
        let chars = chars_of(derivation.as_str());
        let bounds = split_bounds(&chars, '|');
        let mut slices: Vec<DerivationTokenSlice> = Vec::new();
        let ghost all = self.grammar@.symbols(derivation@);
        let mut i: usize = 0;
        proof {
            assert(all.len() == bounds@.len());
        }
        while i < bounds.len()
            invariant
                i <= bounds.len(),
                chars@ == derivation@,
                all == self.grammar@.symbols(derivation@),
                all.len() == bounds@.len(),
                bounds@.len() == split(chars@, '|').len(),
                forall|j: int|
                    0 <= j < bounds@.len() ==> (#[trigger] bounds@[j]).0 <= bounds@[j].1
                        <= chars@.len() && chars@.subrange(
                        bounds@[j].0 as int,
                        bounds@[j].1 as int,
                    ) == split(chars@, '|')[j],
                slices_of(slices@) == all.take(i as int),
            decreases bounds.len() - i,
        {
            let (lo, hi) = bounds[i];
            let (a, b) = trim_bounds(&chars, lo, hi);
            let tokens = self.tokens_between(&chars, a, b);
            proof {
                let pieces = split(chars@, '|');
                assert(chars@.subrange(lo as int, hi as int) == pieces[i as int]);
                assert(alternatives(derivation@)[i as int] == trim(pieces[i as int]));
                assert(symbols_of(tokens@) == all[i as int]);
                assert(slices_of(slices@.push(DerivationTokenSlice { tokens })) =~= slices_of(
                    slices@,
                ).push(symbols_of(tokens@)));
                assert(all.take(i + 1) =~= all.take(i as int).push(all[i as int]));
            }
            slices.push(DerivationTokenSlice::new(tokens));
            i += 1;
        }
        proof {
            assert(all.take(i as int) =~= all);
        }
        slices
    }

    /// The tokens of one alternative.
    pub fn get_token_vec(&self, input: &str) -> (r: Vec<Token>)
        ensures
            symbols_of(r@) == tokenize(self.grammar().variables, self.grammar().terminals, input@),
    {
        let chars = chars_of(input);
        let tokens = self.tokens_between(&chars, 0, chars.len());
        proof {
            assert(chars@.subrange(0, chars@.len() as int) == chars@);
        }
        tokens
    }

    /// The tokens of the alternative `chars[lo..hi]`.
    fn tokens_between(&self, chars: &Vec<char>, lo: usize, hi: usize) -> (r: Vec<Token>)
        requires
            lo <= hi <= chars.len(),
        ensures
            symbols_of(r@) == tokenize(
                self.grammar@.variables,
                self.grammar@.terminals,
                chars@.subrange(lo as int, hi as int),
            ),
    {
        proof {
            reveal_strlit("£");
        }
        let epsilon = String::from_str(EPSILON);
        let mut tokens: Vec<Token> = Vec::new();
        let mut buffer = String::new();
        let mut i: usize = lo;
        proof {
            assert(symbols_of(tokens@) =~= Seq::<Symbol>::empty());
        }
        while i < hi
            invariant
                lo <= i <= hi <= chars.len(),
                epsilon@ == epsilon_text(),
                scan(
                    self.grammar@.variables,
                    self.grammar@.terminals,
                    chars@.subrange(lo as int, i as int),
                ).symbols == symbols_of(tokens@),
                scan(
                    self.grammar@.variables,
                    self.grammar@.terminals,
                    chars@.subrange(lo as int, i as int),
                ).pending == buffer@,
            decreases hi - i,
        {
            let ch = chars[i];
            proof {
                assert(chars@.subrange(lo as int, i + 1).drop_last() == chars@.subrange(
                    lo as int,
                    i as int,
                ));
            }
            buffer.push(ch);
            if buffer.eq(&epsilon) {
                proof {
                    lemma_symbols_push(tokens@, Token::Epsilon);
                }
                tokens.push(Token::Epsilon);
                buffer = String::new();
            } else if self.grammar.is_variable(&ch) {
                proof {
                    lemma_symbols_push(tokens@, Token::Variable(ch));
                }
                tokens.push(Token::Variable(ch));
                buffer = String::new();
            } else if self.grammar.is_terminal(&buffer) {
                let token = Token::Terminal(buffer);
                proof {
                    lemma_symbols_push(tokens@, token);
                }
                tokens.push(token);
                buffer = String::new();
            }
            i += 1;
        }
        tokens
    }
}

} // verus!

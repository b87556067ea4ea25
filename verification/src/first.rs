// Working out the FIRST sets.

use crate::grammar::{Grammar, GrammarView};
use crate::production::{Production, ProductionView};
use crate::size::{lemma_total_update, total_len};
use crate::token::{slices_of, symbols_of, Symbol, Token, TokenProcessor};
use crate::token_set::TokenSet;
use vstd::prelude::*;

verus! {

impl Production {
    /// One step for a variable, from the FIRST sets that `grammar` holds
    /// now. Takes `variable`, met where a derivation may begin, into
    /// `firsts`: all that the set held for it holds but epsilon, and epsilon
    /// too if the set holds it and the variable is the `last` symbol of its
    /// alternative. Returns whether the set held for it holds epsilon.
    pub fn refine_variable(
        variable: char,
        grammar: &Grammar,
        firsts: &mut TokenSet,
        last: bool,
    ) -> (go_on: bool)
        ensures
            grammar@.takes_variable(variable, last, go_on, old(firsts)@, final(firsts)@),
    {
        match grammar.get_production_by_var(variable) {
            Some(p) => {
                let go_on = p.firsts.contains(&Token::Epsilon);
                if go_on && last {
                    firsts.union_with(&p.firsts);
                } else {
                    let others = p.firsts.without(&Token::Epsilon);
                    firsts.union_with(&others);
                }
                go_on
            },
            None => {
                assert(firsts@.union(Set::<Symbol>::empty().remove(Symbol::Epsilon)) =~= firsts@);
                false
            },
        }
    }

    /// One step for an alternative: takes into `firsts` what the
    /// alternative `tokens` gives, from the FIRST sets that `grammar` holds
    /// now.
    pub fn refine_alternative(tokens: &Vec<Token>, grammar: &Grammar, firsts: &mut TokenSet)
        ensures
            final(firsts)@ == old(firsts)@.union(
                Set::new(|s: Symbol| grammar@.alternative_first(symbols_of(tokens@), s)),
            ),
    {
        let n = tokens.len();
        let ghost alt = symbols_of(tokens@);
        let ghost g = grammar@;
        let mut k: usize = 0;
        let mut go_on = true;
        proof {
            assert(!g.reached_before(alt, 0, Symbol::Epsilon));
            assert(alt.len() == n);
            assert(seq![Symbol::Epsilon].len() == 1);
        }
        while k < n && go_on
            invariant
                k <= n,
                n == tokens.len(),
                n == alt.len(),
                alt == symbols_of(tokens@),
                g == grammar@,
                go_on ==> g.nullable_prefix(alt, k as int),
                !go_on ==> k >= 1 && !g.nullable(alt[k - 1]),
                forall|s: Symbol|
                    firsts@.contains(s) <==> (old(firsts)@.contains(s) || g.reached_before(
                        alt,
                        k as int,
                        s,
                    ) || (s == Symbol::Epsilon && k == n && g.vanishes(alt))),
            decreases n - k,
        {
            let ghost before = firsts@;
            let ghost sym = alt[k as int];
            assert(sym == tokens@[k as int]@);
            match &tokens[k] {
                Token::Variable(v) => {
                    go_on = Production::refine_variable(*v, grammar, firsts, k + 1 == n);
                },
                Token::Terminal(_) => {
                    firsts.insert(tokens[k].clone());
                    go_on = false;
                },
                Token::Epsilon => {
                    if n == 1 {
                        firsts.insert(Token::Epsilon);
                        assert(alt =~= seq![Symbol::Epsilon]);
                    }
                    go_on = false;
                },
                Token::DollarSign => {
                    go_on = false;
                },
            }
            proof {
                assert forall|s: Symbol|
                    g.reached_before(alt, k + 1, s) <==> (g.reached_before(alt, k as int, s)
                        || g.reached(alt, k as int, s)) by {
                    if g.reached_before(alt, k + 1, s) {
                        let j = choose|j: int| 0 <= j < k + 1 && g.reached(alt, j, s);
                        if j < k {
                            assert(g.reached_before(alt, k as int, s));
                        }
                    }
                    if g.reached_before(alt, k as int, s) {
                        let j = choose|j: int| 0 <= j < k && g.reached(alt, j, s);
                        assert(0 <= j < k + 1 && g.reached(alt, j, s));
                    }
                    if g.reached(alt, k as int, s) {
                        assert(0 <= k < k + 1 && g.reached(alt, k as int, s));
                    }
                }
                if go_on {
                    assert(g.nullable(alt[k as int]));
                    assert(g.nullable_prefix(alt, k + 1));
                } else {
                    assert(!g.nullable(alt[k as int]));
                }
                if k + 1 == n && g.vanishes(alt) {
                    if alt != seq![Symbol::Epsilon] {
                        assert(g.nullable(alt[k as int]));
                    } else {
                        assert(alt[0] == Symbol::Epsilon);
                    }
                }
                assert forall|s: Symbol|
                    firsts@.contains(s) <==> (old(firsts)@.contains(s) || g.reached_before(
                        alt,
                        k + 1,
                        s,
                    ) || (s == Symbol::Epsilon && k + 1 == n && g.vanishes(alt))) by {
                    assert(before.contains(s) <==> (old(firsts)@.contains(s) || g.reached_before(
                        alt,
                        k as int,
                        s,
                    )));
                }
            }
            k += 1;
        }
        proof {
            assert forall|s: Symbol|
                g.reached_before(alt, k as int, s) <==> (exists|j: int| g.reached(alt, j, s)) by {
                if exists|j: int| g.reached(alt, j, s) {
                    let j = choose|j: int| g.reached(alt, j, s);
                    if j >= k {
                        assert(!go_on);
                        assert(g.nullable(alt[k - 1]));
                    }
                    assert(0 <= j < k && g.reached(alt, j, s));
                }
                if g.reached_before(alt, k as int, s) {
                    let j = choose|j: int| 0 <= j < k && g.reached(alt, j, s);
                    assert(g.reached(alt, j, s));
                }
            }
            if g.vanishes(alt) && k != n {
                assert(!go_on);
                if alt != seq![Symbol::Epsilon] {
                    assert(g.nullable(alt[k - 1]));
                }
            }
            assert forall|s: Symbol|
                firsts@.contains(s) <==> (old(firsts)@.contains(s) || g.alternative_first(
                    alt,
                    s,
                )) by {
                assert(g.reached_before(alt, k as int, s) <==> (exists|j: int|
                    g.reached(alt, j, s)));
            }
            assert(firsts@ =~= old(firsts)@.union(
                Set::new(|s: Symbol| grammar@.alternative_first(symbols_of(tokens@), s)),
            ));
        }
    }

    /// One step for a production: what the FIRST rules give for
    /// `production`, from the FIRST sets that `grammar` holds now.
    pub fn refine_firsts(production: &Production, grammar: &Grammar) -> (r: TokenSet)
        ensures
            r@ == grammar@.first_rule(production@.derivation),
    {
        let processor = TokenProcessor::new(grammar);
        let slices = processor.process_derivation(&production.derivation);
        let ghost alts = grammar@.symbols(production@.derivation);
        let mut firsts = TokenSet::new();
        let mut a: usize = 0;
        while a < slices.len()
            invariant
                a <= slices.len(),
                alts == slices_of(slices@),
                alts == grammar@.symbols(production@.derivation),
                forall|s: Symbol|
                    firsts@.contains(s) <==> exists|b: int|
                        0 <= b < a && grammar@.alternative_first(#[trigger] alts[b], s),
            decreases slices.len() - a,
        {
            let ghost before = firsts@;
            assert(alts[a as int] == symbols_of(slices@[a as int].tokens@));
            Production::refine_alternative(&slices[a].tokens, grammar, &mut firsts);
            proof {
                assert forall|s: Symbol|
                    firsts@.contains(s) <==> exists|b: int|
                        0 <= b < a + 1 && grammar@.alternative_first(#[trigger] alts[b], s) by {
                    if firsts@.contains(s) {
                        if before.contains(s) {
                            let b = choose|b: int|
                                0 <= b < a && grammar@.alternative_first(#[trigger] alts[b], s);
                            assert(0 <= b < a + 1 && grammar@.alternative_first(alts[b], s));
                        } else {
                            assert(grammar@.alternative_first(alts[a as int], s));
                        }
                    }
                    if exists|b: int|
                        0 <= b < a + 1 && grammar@.alternative_first(#[trigger] alts[b], s) {
                        let b = choose|b: int|
                            0 <= b < a + 1 && grammar@.alternative_first(#[trigger] alts[b], s);
                        if b < a {
                            assert(before.contains(s));
                        }
                    }
                }
            }
            a += 1;
        }
        assert(firsts@ =~= grammar@.first_rule(production@.derivation));
        firsts
    }
    /// The FIRST set of `production` in `grammar`: the least set that the
    /// FIRST rules admit for its derivation. The sets of the variables it
    /// leads to are worked out from the grammar's rules; what the grammar
    /// holds as FIRST sets is not read.
    pub fn fetch_firsts(production: &Production, grammar: &Grammar) -> (r: TokenSet)
        ensures
            grammar@.least_first(production@.derivation, r@),
            forall|s: Symbol| r@.contains(s) ==> grammar@.in_first_alphabet(s),
    {
        let mut solved = grammar.clone();
        solved.compute_firsts();
        let r = Production::refine_firsts(production, &solved);
        proof {
            assert(solved@.same_rules(grammar@) && solved@.firsts_solved());
            assert forall|s: Symbol| r@.contains(s) implies grammar@.in_first_alphabet(s) by {
                solved@.lemma_first_rule_alphabet(production@.derivation, s);
            }
        }
        r
    }

    /// Takes the variable `variable`, met where a derivation may begin,
    /// into `firsts`: all that its FIRST set holds but epsilon, and epsilon
    /// too if the set holds it and the variable is the `last` symbol of its
    /// alternative. Returns whether the variable can vanish, so that the
    /// symbol after it is reached as well. The FIRST set of the variable is
    /// the least one for the production that stands for it, worked out from
    /// the grammar's rules; a variable without a production has the empty
    /// set.
    pub fn process_variable(
        variable: char,
        grammar: &Grammar,
        firsts: &mut TokenSet,
        last: bool,
    ) -> (go_on: bool)
        ensures
            grammar@.least_takes_variable(variable, last, go_on, old(firsts)@, final(firsts)@),
    {
        let mut solved = grammar.clone();
        solved.compute_firsts();
        let go_on = Production::refine_variable(variable, &solved, firsts, last);
        proof {
            assert(solved@.same_rules(grammar@) && solved@.firsts_solved());
        }
        go_on
    }
}

impl Grammar {
    /// Works out the FIRST set of every production, from nothing: the
    /// least sets that hold all that the rules give from them.
    pub fn compute_firsts(&mut self)
        ensures
            final(self)@.same_rules(old(self)@),
            forall|i: int|
                0 <= i < final(self)@.productions.len() ==> (
                #[trigger] final(self)@.productions[i]).follows == old(self)@.productions[i].follows,
            final(self)@.firsts_solved(),
            final(self)@.firsts_in_alphabet(),
            old(self)@.wf() ==> final(self)@.wf(),
    {
        let n = self.productions.len();
        let mut i: usize = 0;
        while i < n
            invariant
                i <= n,
                n == self.productions.len(),
                self@.same_rules(old(self)@),
                forall|j: int|
                    0 <= j < n ==> (#[trigger] self@.productions[j]).follows == old(
                        self,
                    )@.productions[j].follows,
                forall|j: int| 0 <= j < i ==> (#[trigger] self@.productions[j]).firsts.is_empty(),
            decreases n - i,
        {
            let ghost g = self@;
            proof {
                assert(g.productions[i as int] == self.productions[i as int]@);
            }
            self.productions[i].set_firsts(TokenSet::new());
            proof {
                assert(self@.productions =~= g.productions.update(
                    i as int,
                    ProductionView { firsts: Set::empty(), ..g.productions[i as int] },
                ));
            }
            i += 1;
        }
        let ghost bound: int = n * (self.terminals.len() + 1);
        let mut changed = true;
        proof {
            let g = self@;
            assert(g.firsts_founded());
            assert(g.firsts_in_alphabet());
            assert(g.firsts_least()) by {
                assert forall|top: GrammarView|
                    top.same_rules(g) && #[trigger] top.firsts_closed() implies g.firsts_within(
                    top,
                ) by {}
            }
        }
        proof {
            if old(self)@.wf() {
                old(self)@.lemma_same_rules_wf(self@);
            }
        }
        while changed
            invariant
                n == self.productions.len(),
                bound == n * (self.terminals.len() + 1),
                old(self)@.wf() ==> self@.wf(),
                self@.same_rules(old(self)@),
                forall|j: int|
                    0 <= j < n ==> (#[trigger] self@.productions[j]).follows == old(
                        self,
                    )@.productions[j].follows,
                self@.firsts_founded(),
                self@.firsts_least(),
                self@.firsts_in_alphabet(),
                !changed ==> self@.firsts_closed(),
            decreases bound - total_len(self@.first_sets()), if changed { 1int } else { 0int },
        {
            let ghost start = self@;
            proof {
                start.lemma_first_sizes();
            }
            changed = false;
            let mut i: usize = 0;
            while i < n
                invariant
                    i <= n,
                    n == self.productions.len(),
                    bound == n * (self.terminals.len() + 1),
                    old(self)@.wf() ==> self@.wf(),
                    self@.same_rules(old(self)@),
                    forall|j: int|
                        0 <= j < n ==> (#[trigger] self@.productions[j]).follows == old(
                            self,
                        )@.productions[j].follows,
                    self@.firsts_founded(),
                    self@.firsts_least(),
                    self@.firsts_in_alphabet(),
                    total_len(start.first_sets()) <= total_len(self@.first_sets()) <= bound,
                    changed ==> total_len(start.first_sets()) < total_len(self@.first_sets()),
                    !changed ==> forall|j: int|
                        0 <= j < i ==> self@.first_rule(
                            (#[trigger] self@.productions[j]).derivation,
                        ).subset_of(self@.productions[j].firsts),
                decreases n - i,
            {
                let ghost g = self@;
                let given = Production::refine_firsts(&self.productions[i], &*self);
                let held = self.productions[i].firsts.len();
                proof {
                    assert(g.productions[i as int] == self.productions[i as int]@);
                    assert(g.productions[i as int].firsts.subset_of(given@));
                }
                if given.len() != held {
                    self.productions[i].set_firsts(given);
                    changed = true;
                    proof {
                        let h = self@;
                        assert(h.productions =~= g.productions.update(
                            i as int,
                            ProductionView {
                                firsts: g.first_rule(g.productions[i as int].derivation),
                                ..g.productions[i as int]
                            },
                        ));
                        assert(g.first_step(i as int, h));
                        g.lemma_first_step(i as int, h);
                        if g.wf() {
                            g.lemma_same_rules_wf(h);
                        }
                        h.lemma_first_sizes();
                        assert(h.first_sets() =~= g.first_sets().update(
                            i as int,
                            h.productions[i as int].firsts,
                        ));
                        lemma_total_update(
                            g.first_sets(),
                            i as int,
                            h.productions[i as int].firsts,
                        );
                        vstd::set_lib::lemma_len_subset(
                            g.productions[i as int].firsts,
                            h.productions[i as int].firsts,
                        );
                    }
                } else {
                    proof {
                        g.lemma_first_sizes();
                        vstd::set_lib::lemma_subset_equality(
                            g.productions[i as int].firsts,
                            given@,
                        );
                    }
                }
                i += 1;
            }
        }
    }
}

} // verus!

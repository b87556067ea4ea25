// Grammars, and how a production is found for a variable.

use crate::production::{Production, ProductionView};
use crate::text::{is_uppercase, is_uppercase_char};
use vstd::prelude::*;

verus! {

/// Why a change to a grammar was turned down.
#[derive(Debug, PartialEq, Eq, Structural)]
pub enum GrammarError {
    /// The variable is no uppercase letter.
    InvalidVariable,
}

/// A context-free grammar: its nonterminals, its terminals, its productions
/// and the nonterminal it starts from.
#[derive(Debug)]
pub struct Grammar {
    pub variables: Vec<char>,
    pub terminals: Vec<String>,
    pub productions: Vec<Production>,
    pub initial_symbol: char,
}

/// A grammar as a mathematical value.
pub struct GrammarView {
    pub variables: Seq<char>,
    pub terminals: Seq<Seq<char>>,
    pub productions: Seq<ProductionView>,
    pub initial_symbol: char,
}

/// The texts of a list of strings.
pub open spec fn texts_of(strings: Seq<String>) -> Seq<Seq<char>> {
    strings.map_values(|s: String| s@)
}

/// The productions of a list as mathematical values.
pub open spec fn productions_of(productions: Seq<Production>) -> Seq<ProductionView> {
    productions.map_values(|p: Production| p@)
}

impl View for Grammar {
    type V = GrammarView;

    open spec fn view(&self) -> GrammarView {
        GrammarView {
            variables: self.variables@,
            terminals: texts_of(self.terminals@),
            productions: productions_of(self.productions@),
            initial_symbol: self.initial_symbol,
        }
    }
}

impl GrammarView {
    /// Whether production `i` exists and has the head `variable`.
    pub open spec fn has_head(self, i: int, variable: char) -> bool {
        0 <= i < self.productions.len() && self.productions[i].variable == variable
    }

    /// Whether a production with the head and the derivation of `p` is held.
    pub open spec fn holds_rule(self, p: ProductionView) -> bool {
        exists|i: int|
            0 <= i < self.productions.len() && (#[trigger] self.productions[i]).variable
                == p.variable && self.productions[i].derivation == p.derivation
    }

    /// The place of the first production at or after `start` whose head is
    /// `variable`.
    pub open spec fn find_from(self, variable: char, start: int) -> Option<int>
        decreases self.productions.len() - start,
    {
        if start < 0 || start >= self.productions.len() {
            None
        } else if self.productions[start].variable == variable {
            Some(start)
        } else {
            self.find_from(variable, start + 1)
        }
    }

    /// The place of the production that stands for `variable`: the first
    /// one with that head.
    pub open spec fn lookup(self, variable: char) -> Option<int> {
        self.find_from(variable, 0)
    }

    /// `find_from` gives the first production with the head at or after
    /// `start`, and `None` exactly when there is none.
    pub proof fn lemma_find_from(self, variable: char, start: int)
        requires
            0 <= start,
        ensures
            match self.find_from(variable, start) {
                Some(i) => start <= i && self.has_head(i, variable) && forall|j: int|
                    start <= j < i ==> !self.has_head(j, variable),
                None => forall|j: int| start <= j ==> !self.has_head(j, variable),
            },
        decreases self.productions.len() - start,
    {
        if start < self.productions.len() && self.productions[start].variable != variable {
            self.lemma_find_from(variable, start + 1);
        }
    }

    /// `lookup` gives the first production with the head, and `None`
    /// exactly when no production has it.
    pub proof fn lemma_lookup(self, variable: char)
        ensures
            match self.lookup(variable) {
                Some(i) => self.has_head(i, variable) && forall|j: int|
                    0 <= j < i ==> !self.has_head(j, variable),
                None => forall|j: int| !self.has_head(j, variable),
            },
    {
        self.lemma_find_from(variable, 0);
    }

    /// Every variable and every head is an uppercase letter, no derivation
    /// holds white space, and no two productions have the same head and the
    /// same derivation.
    pub open spec fn wf(self) -> bool {
        &&& forall|i: int| 0 <= i < self.variables.len() ==> is_uppercase(self.variables[i])
        &&& forall|i: int| 0 <= i < self.productions.len() ==> (#[trigger] self.productions[i]).wf()
        &&& forall|i: int, j: int|
            0 <= i < j < self.productions.len() ==> !((#[trigger] self.productions[i]).variable
                == (#[trigger] self.productions[j]).variable && self.productions[i].derivation
                == self.productions[j].derivation)
    }

    /// Whether `other` has the same variables, terminals and start symbol,
    /// and production by production the same head and derivation.
    pub open spec fn same_rules(self, other: GrammarView) -> bool {
        &&& self.variables == other.variables
        &&& self.terminals == other.terminals
        &&& self.initial_symbol == other.initial_symbol
        &&& self.productions.len() == other.productions.len()
        &&& forall|i: int|
            0 <= i < self.productions.len() ==> (#[trigger] self.productions[i]).variable
                == other.productions[i].variable && self.productions[i].derivation
                == other.productions[i].derivation
    }

    /// Two grammars with the same rules find a variable's production at the
    /// same place.
    pub proof fn lemma_same_rules_lookup(self, other: GrammarView, variable: char, start: int)
        requires
            self.same_rules(other),
            0 <= start,
        ensures
            self.find_from(variable, start) == other.find_from(variable, start),
        decreases self.productions.len() - start,
    {
        if start < self.productions.len() {
            assert(self.productions[start].variable == other.productions[start].variable);
            if self.productions[start].variable != variable {
                self.lemma_same_rules_lookup(other, variable, start + 1);
            }
        }
    }

    /// A grammar with the same rules as a well-formed one is well-formed.
    pub proof fn lemma_same_rules_wf(self, other: GrammarView)
        requires
            self.same_rules(other),
            self.wf(),
        ensures
            other.wf(),
    {
        assert forall|i: int| 0 <= i < other.productions.len() implies (
        #[trigger] other.productions[i]).wf() by {
            assert(self.productions[i].wf());
        }
        assert forall|i: int, j: int| 0 <= i < j < other.productions.len() implies !((
        #[trigger] other.productions[i]).variable == (#[trigger] other.productions[j]).variable
            && other.productions[i].derivation == other.productions[j].derivation) by {
            assert(self.productions[i].variable == other.productions[i].variable);
            assert(self.productions[j].variable == other.productions[j].variable);
        }
    }
}

impl Grammar {
    /// Whether `production` is one for the start symbol.
    pub fn production_is_initial(&self, production: &Production) -> (r: bool)
        ensures
            r == (self@.initial_symbol == production@.variable),
    {
        self.initial_symbol == production.variable
    }

    /// Whether `ch` is a nonterminal of the grammar.
    pub fn is_variable(&self, ch: &char) -> (r: bool)
        ensures
            r == self@.variables.contains(*ch),
    {
        let mut i: usize = 0;
        while i < self.variables.len()
            invariant
                i <= self.variables.len(),
                forall|j: int| 0 <= j < i ==> self.variables@[j] != *ch,
            decreases self.variables.len() - i,
        {
            if self.variables[i] == *ch {
                return true;
            }
            i += 1;
        }
        false
    }

    /// Whether `value` is a terminal of the grammar.
    pub fn is_terminal(&self, value: &String) -> (r: bool)
        ensures
            r == self@.terminals.contains(value@),
    {
        let mut i: usize = 0;
        while i < self.terminals.len()
            invariant
                i <= self.terminals.len(),
                forall|j: int| 0 <= j < i ==> texts_of(self.terminals@)[j] != value@,
            decreases self.terminals.len() - i,
        {
            if self.terminals[i].eq(value) {
                assert(texts_of(self.terminals@)[i as int] == value@);
                return true;
            }
            i += 1;
        }
        false
    }

    /// Registers a nonterminal. Fails, and changes nothing, when `variable`
    /// is no uppercase letter.
    pub fn add_variable(&mut self, variable: char) -> (r: Result<(), GrammarError>)
        ensures
            is_uppercase(variable) ==> r is Ok && final(self)@ == (GrammarView {
                variables: old(self)@.variables.push(variable),
                ..old(self)@
            }),
            !is_uppercase(variable) ==> r == Err::<(), GrammarError>(GrammarError::InvalidVariable)
                && final(self)@ == old(self)@,
            old(self)@.wf() ==> final(self)@.wf(),
    {
        if !is_uppercase_char(variable) {
            return Err(GrammarError::InvalidVariable);
        }
        self.variables.push(variable);
        proof {
            if old(self)@.wf() {
                assert forall|i: int| 0 <= i < self@.variables.len() implies is_uppercase(
                    self@.variables[i],
                ) by {
                    if i < old(self)@.variables.len() {
                        assert(self@.variables[i] == old(self)@.variables[i]);
                    }
                }
                assert(self@.productions == old(self)@.productions);
                assert(self@.wf());
            }
        }
        Ok(())
    }

    /// Registers a terminal.
    pub fn add_terminal(&mut self, terminal: String)
        ensures
            final(self)@ == (GrammarView {
                terminals: old(self)@.terminals.push(terminal@),
                ..old(self)@
            }),
            old(self)@.wf() ==> final(self)@.wf(),
    {
        proof {
            assert(texts_of(self.terminals@.push(terminal)) =~= texts_of(self.terminals@).push(
                terminal@,
            ));
        }
        self.terminals.push(terminal);
    }

    /// Whether a production with the head and the derivation of
    /// `production` is held already.
    pub fn holds_production(&self, production: &Production) -> (r: bool)
        ensures
            r == self@.holds_rule(production@),
    {
        let mut i: usize = 0;
        while i < self.productions.len()
            invariant
                i <= self.productions.len(),
                forall|j: int|
                    0 <= j < i ==> !((#[trigger] self@.productions[j]).variable
                        == production@.variable && self@.productions[j].derivation
                        == production@.derivation),
            decreases self.productions.len() - i,
        {
            if self.productions[i].variable == production.variable
                && self.productions[i].derivation.eq(&production.derivation) {
                assert(self@.productions[i as int].variable == production@.variable);
                return true;
            }
            i += 1;
        }
        false
    }

    /// Adds `production` at the end, unless a production with the same
    /// head and the same derivation is held already: then nothing changes.
    pub fn add_production(&mut self, production: Production)
        ensures
            old(self)@.holds_rule(production@) ==> final(self)@ == old(self)@,
            !old(self)@.holds_rule(production@) ==> final(self)@ == (GrammarView {
                productions: old(self)@.productions.push(production@),
                ..old(self)@
            }),
            old(self)@.wf() && production@.wf() ==> final(self)@.wf(),
    {
        if !self.holds_production(&production) {
            proof {
                assert(productions_of(self.productions@.push(production)) =~= productions_of(
                    self.productions@,
                ).push(production@));
            }
            self.productions.push(production);
            proof {
                let before = old(self)@;
                let after = self@;
                if before.wf() && production@.wf() {
                    assert forall|i: int, j: int| 0 <= i < j < after.productions.len() implies !((
                    #[trigger] after.productions[i]).variable
                        == (#[trigger] after.productions[j]).variable
                        && after.productions[i].derivation == after.productions[j].derivation) by {
                        assert(after.productions[i] == before.productions[i]);
                        if j < before.productions.len() {
                            assert(after.productions[j] == before.productions[j]);
                        }
                    }
                    assert forall|i: int| 0 <= i < after.productions.len() implies (
                    #[trigger] after.productions[i]).wf() by {
                        if i < before.productions.len() {
                            assert(after.productions[i] == before.productions[i]);
                        }
                    }
                }
            }
        }
    }

    /// The place of the production that stands for `variable`.
    pub fn index_of(&self, variable: char) -> (r: Option<usize>)
        ensures
            match r {
                Some(i) => self@.lookup(variable) == Some(i as int) && i < self.productions.len(),
                None => self@.lookup(variable) is None,
            },
    {
        let mut i: usize = 0;
        while i < self.productions.len()
            invariant
                i <= self.productions.len(),
                self@.lookup(variable) == self@.find_from(variable, i as int),
            decreases self.productions.len() - i,
        {
            if self.productions[i].variable == variable {
                return Some(i);
            }
            i += 1;
        }
        None
    }

    /// The production that stands for `variable`: the first one with that
    /// head, if there is any.
    pub fn get_production_by_var(&self, variable: char) -> (r: Option<&Production>)
        ensures
            match r {
                Some(p) => self@.lookup(variable) is Some && *p == self.productions[self@.lookup(
                    variable,
                )->Some_0] && p@ == self@.productions[self@.lookup(variable)->Some_0],
                None => self@.lookup(variable) is None,
            },
    {
        match self.index_of(variable) {
            Some(i) => {
                assert(self@.productions[i as int] == self.productions[i as int]@);
                Some(&self.productions[i])
            },
            None => None,
        }
    }

    /// The productions, to be changed in place.
    pub fn productions_iter_mut(&mut self) -> (r: &mut Vec<Production>)
        ensures
            *r == old(self).productions,
            final(self).productions == *final(r),
            final(self).variables == old(self).variables,
            final(self).terminals == old(self).terminals,
            final(self).initial_symbol == old(self).initial_symbol,
    {
        &mut self.productions
    }
}

impl Clone for Grammar {
    fn clone(&self) -> (r: Grammar)
        ensures
            r@ == self@,
    {
        let mut variables: Vec<char> = Vec::new();
        let mut i: usize = 0;
        while i < self.variables.len()
            invariant
                i <= self.variables.len(),
                variables@ == self.variables@.take(i as int),
            decreases self.variables.len() - i,
        {
            variables.push(self.variables[i]);
            proof {
                assert(self.variables@.take(i + 1) =~= self.variables@.take(i as int).push(
                    self.variables@[i as int],
                ));
            }
            i += 1;
        }
        let mut terminals: Vec<String> = Vec::new();
        i = 0;
        while i < self.terminals.len()
            invariant
                i <= self.terminals.len(),
                texts_of(terminals@) == texts_of(self.terminals@).take(i as int),
            decreases self.terminals.len() - i,
        {
            let terminal = self.terminals[i].clone();
            proof {
                let all = texts_of(self.terminals@);
                assert(texts_of(terminals@.push(terminal)) =~= texts_of(terminals@).push(
                    terminal@,
                ));
                assert(all[i as int] == terminal@);
                assert(all.take(i + 1) =~= all.take(i as int).push(all[i as int]));
            }
            terminals.push(terminal);
            i += 1;
        }
        let mut productions: Vec<Production> = Vec::new();
        i = 0;
        while i < self.productions.len()
            invariant
                i <= self.productions.len(),
                productions_of(productions@) == productions_of(self.productions@).take(i as int),
            decreases self.productions.len() - i,
        {
            let production = self.productions[i].clone();
            proof {
                let all = productions_of(self.productions@);
                assert(productions_of(productions@.push(production)) =~= productions_of(
                    productions@,
                ).push(production@));
                assert(all[i as int] == production@);
                assert(all.take(i + 1) =~= all.take(i as int).push(all[i as int]));
            }
            productions.push(production);
            i += 1;
        }
        proof {
            assert(self.variables@.take(self.variables@.len() as int) =~= self.variables@);
            assert(texts_of(self.terminals@).take(self.terminals@.len() as int) =~= texts_of(
                self.terminals@,
            ));
            assert(productions_of(self.productions@).take(self.productions@.len() as int)
                =~= productions_of(self.productions@));
        }
        Grammar { variables, terminals, productions, initial_symbol: self.initial_symbol }
    }
}

impl Grammar {
    /// Whether the two lists of variables are the same.
    fn same_variables(&self, other: &Grammar) -> (r: bool)
        ensures
            r == (self@.variables == other@.variables),
    {
        if self.variables.len() != other.variables.len() {
            return false;
        }
        let mut i: usize = 0;
        while i < self.variables.len()
            invariant
                i <= self.variables.len(),
                self.variables.len() == other.variables.len(),
                forall|j: int| 0 <= j < i ==> self.variables@[j] == other.variables@[j],
            decreases self.variables.len() - i,
        {
            if self.variables[i] != other.variables[i] {
                return false;
            }
            i += 1;
        }
        assert(self.variables@ =~= other.variables@);
        true
    }

    /// Whether the two lists of terminals are the same.
    fn same_terminals(&self, other: &Grammar) -> (r: bool)
        ensures
            r == (self@.terminals == other@.terminals),
    {
        if self.terminals.len() != other.terminals.len() {
            assert(self@.terminals.len() != other@.terminals.len());
            return false;
        }
        let mut i: usize = 0;
        while i < self.terminals.len()
            invariant
                i <= self.terminals.len(),
                self.terminals.len() == other.terminals.len(),
                forall|j: int| 0 <= j < i ==> self@.terminals[j] == other@.terminals[j],
            decreases self.terminals.len() - i,
        {
            if !self.terminals[i].eq(&other.terminals[i]) {
                assert(self@.terminals[i as int] != other@.terminals[i as int]);
                return false;
            }
            i += 1;
        }
        assert(self@.terminals =~= other@.terminals);
        true
    }

    /// Whether the two lists of productions are the same.
    fn same_productions(&self, other: &Grammar) -> (r: bool)
        ensures
            r == (self@.productions == other@.productions),
    {
        if self.productions.len() != other.productions.len() {
            assert(self@.productions.len() != other@.productions.len());
            return false;
        }
        let mut i: usize = 0;
        while i < self.productions.len()
            invariant
                i <= self.productions.len(),
                self.productions.len() == other.productions.len(),
                forall|j: int| 0 <= j < i ==> self@.productions[j] == other@.productions[j],
            decreases self.productions.len() - i,
        {
            if self.productions[i] != other.productions[i] {
                assert(self@.productions[i as int] != other@.productions[i as int]);
                return false;
            }
            i += 1;
        }
        assert(self@.productions =~= other@.productions);
        true
    }
}

impl PartialEq for Grammar {
    fn eq(&self, other: &Grammar) -> (r: bool) {
        self.initial_symbol == other.initial_symbol && self.same_variables(other)
            && self.same_terminals(other) && self.same_productions(other)
    }
}

impl vstd::std_specs::cmp::PartialEqSpecImpl for Grammar {
    open spec fn obeys_eq_spec() -> bool {
        true
    }

    open spec fn eq_spec(&self, other: &Grammar) -> bool {
        self@ == other@
    }
}

impl Eq for Grammar {

}

} // verus!

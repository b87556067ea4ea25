// Productions.

use crate::grammar::texts_of;
use crate::text::{
    chars_of, ends_with_chars, is_uppercase, is_uppercase_char, is_whitespace, split, split_bounds,
    string_of,
    strip_whitespace, without_whitespace,
};
use crate::token::{symbols_of, Symbol, Token};
use crate::token_set::TokenSet;
use vstd::prelude::*;

verus! {

/// A rule of the grammar: a nonterminal, the text of its alternatives, and
/// the FIRST and FOLLOW sets worked out for it.
#[derive(Debug)]
pub struct Production {
    pub variable: char,
    pub derivation: String,
    pub firsts: TokenSet,
    pub follows: TokenSet,
}

/// A production as a mathematical value.
pub struct ProductionView {
    pub variable: char,
    pub derivation: Seq<char>,
    pub firsts: Set<Symbol>,
    pub follows: Set<Symbol>,
}

impl View for Production {
    type V = ProductionView;

    open spec fn view(&self) -> ProductionView {
        ProductionView {
            variable: self.variable,
            derivation: self.derivation@,
            firsts: self.firsts@,
            follows: self.follows@,
        }
    }
}

impl ProductionView {
    /// The head is an uppercase letter and the derivation holds no white
    /// space.
    pub open spec fn wf(self) -> bool {
        &&& is_uppercase(self.variable)
        &&& forall|i: int| 0 <= i < self.derivation.len() ==> !is_whitespace(self.derivation[i])
    }
}

/// What `Production::new` answers when the head is no uppercase letter.
pub open spec fn invalid_head_message(variable: char) -> Seq<char> {
    "the variable '"@ + seq![variable] + "' must be a uppercase character."@
}

impl Production {
    /// A production for `variable` with the alternatives that `derivation`
    /// spells, white space left out, and with empty FIRST and FOLLOW sets.
    /// Fails when `variable` is no uppercase letter.
    pub fn new(variable: char, derivation: String) -> (r: Result<Production, String>)
        ensures
            is_uppercase(variable) ==> r is Ok && r->Ok_0@ == (ProductionView {
                variable,
                derivation: without_whitespace(derivation@),
                firsts: Set::empty(),
                follows: Set::empty(),
            }) && r->Ok_0@.wf(),
            !is_uppercase(variable) ==> r is Err && r->Err_0@ == invalid_head_message(variable),
    {
        if is_uppercase_char(variable) {
            let stripped = strip_whitespace(derivation.as_str());
            proof {
                let pred = |c: char| !is_whitespace(c);
                assert forall|i: int| 0 <= i < stripped@.len() implies !is_whitespace(
                    stripped@[i],
                ) by {
                    derivation@.lemma_filter_pred(pred, i);
                }
            }
            return Ok(
                Production {
                    variable,
                    derivation: stripped,
                    firsts: TokenSet::new(),
                    follows: TokenSet::new(),
                },
            );
        }
        let mut message = String::from_str("the variable '");
        message.push(variable);
        message.append("' must be a uppercase character.");
        Err(message)
    }

    /// Replaces the FIRST set.
    pub fn set_firsts(&mut self, firsts: TokenSet)
        ensures
            final(self)@ == (ProductionView { firsts: firsts@, ..old(self)@ }),
            final(self).derivation == old(self).derivation,
    {
        self.firsts = firsts;
    }

    /// Replaces the FOLLOW set.
    pub fn set_follows(&mut self, follows: TokenSet)
        ensures
            final(self)@ == (ProductionView { follows: follows@, ..old(self)@ }),
            final(self).derivation == old(self).derivation,
    {
        self.follows = follows;
    }
}

/// The texts of a list of symbols, with a comma between each two.
pub open spec fn joined(symbols: Seq<Symbol>) -> Seq<char>
    decreases symbols.len(),
{
    if symbols.len() == 0 {
        Seq::empty()
    } else if symbols.len() == 1 {
        symbols[0].text()
    } else {
        joined(symbols.drop_last()) + seq![','] + symbols.last().text()
    }
}

impl Production {
    /// Whether the derivation ends with the character `variable`.
    pub fn ends_with_variable(&self, variable: char) -> (r: bool)
        ensures
            r == seq![variable].is_suffix_of(self@.derivation),
    {
        let chars = chars_of(self.derivation.as_str());
        let n = chars.len();
        proof {
            if n > 0 {
                assert(chars@.subrange(n - 1, n as int) =~= seq![chars@[n - 1]]);
                assert(seq![variable][0] == variable);
            }
        }
        n > 0 && chars[n - 1] == variable
    }

    /// Whether the derivation ends with the text of `token`. Nothing ends
    /// with the end marker.
    pub fn ends_with_token(&self, token: &Token) -> (r: bool)
        ensures
            r == (token@ != Symbol::EndMarker && token@.text().is_suffix_of(self@.derivation)),
    {
        match token {
            Token::DollarSign => false,
            _ => {
                let text = token.to_string();
                let chars = chars_of(self.derivation.as_str());
                let suffix = chars_of(text.as_str());
                ends_with_chars(&chars, &suffix)
            },
        }
    }

    /// The alternatives as they are written: the pieces of the derivation
    /// between the bars.
    pub fn get_derivation_slices(&self) -> (r: Vec<String>)
        ensures
            texts_of(r@) == split(self@.derivation, '|'),
    {
        let chars = chars_of(self.derivation.as_str());
        let bounds = split_bounds(&chars, '|');
        let mut pieces: Vec<String> = Vec::new();
        let mut i: usize = 0;
        while i < bounds.len()
            invariant
                i <= bounds.len(),
                chars@ == self@.derivation,
                bounds@.len() == split(chars@, '|').len(),
                forall|j: int|
                    0 <= j < bounds@.len() ==> (#[trigger] bounds@[j]).0 <= bounds@[j].1
                        <= chars@.len() && chars@.subrange(
                        bounds@[j].0 as int,
                        bounds@[j].1 as int,
                    ) == split(chars@, '|')[j],
                texts_of(pieces@) == split(chars@, '|').take(i as int),
            decreases bounds.len() - i,
        {
            let (lo, hi) = bounds[i];
            let piece = string_of(&chars, lo, hi);
            proof {
                let all = split(chars@, '|');
                assert(piece@ == all[i as int]);
                assert(texts_of(pieces@.push(piece)) =~= texts_of(pieces@).push(piece@));
                assert(all.take(i + 1) =~= all.take(i as int).push(all[i as int]));
            }
            pieces.push(piece);
            i += 1;
        }
        proof {
            let all = split(chars@, '|');
            assert(all.take(i as int) =~= all);
        }
        pieces
    }

    /// The members of `hashset` as text, in the order in which they came
    /// in, with a comma between each two.
    pub fn token_hashset_as_string(hashset: &TokenSet) -> (r: String)
        ensures
            r@ == joined(hashset.members()),
    {
        let tokens = hashset.items();
        let ghost symbols = symbols_of(tokens@);
        let mut result = String::new();
        let mut i: usize = 0;
        while i < tokens.len()
            invariant
                i <= tokens.len(),
                symbols == symbols_of(tokens@),
                result@ == joined(symbols.take(i as int)),
            decreases tokens.len() - i,
        {
            proof {
                assert(symbols.take(i + 1).drop_last() == symbols.take(i as int));
                assert(symbols.take(i + 1).last() == tokens@[i as int]@);
                reveal_strlit(",");
            }
            if i > 0 {
                result.append(",");
            }
            let text = tokens[i].to_string();
            result.append(text.as_str());
            proof {
                if i == 0 {
                    assert(symbols.take(1)[0] == tokens@[0]@);
                    assert(result@ =~= tokens@[0]@.text());
                } else {
                    assert(","@ =~= seq![',']);
                }
            }
            i += 1;
        }
        proof {
            assert(symbols.take(i as int) == symbols);
        }
        result
    }
}

impl Clone for Production {
    fn clone(&self) -> (r: Production)
        ensures
            r@ == self@,
    {
        Production {
            variable: self.variable,
            derivation: self.derivation.clone(),
            firsts: self.firsts.clone(),
            follows: self.follows.clone(),
        }
    }
}

impl PartialEq for Production {
    fn eq(&self, other: &Production) -> (r: bool) {
        self.variable == other.variable && self.derivation.eq(&other.derivation) && self.firsts
            == other.firsts && self.follows == other.follows
    }
}

impl vstd::std_specs::cmp::PartialEqSpecImpl for Production {
    open spec fn obeys_eq_spec() -> bool {
        true
    }

    open spec fn eq_spec(&self, other: &Production) -> bool {
        self@ == other@
    }
}

impl Eq for Production {

}

} // verus!

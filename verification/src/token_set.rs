// Finite sets of tokens.

use crate::token::{symbols_of, Symbol, Token};
use vstd::prelude::*;

verus! {

/// A finite set of tokens. Two tokens that stand for the same symbol are
/// one member. The members are kept in the order in which they came in.
#[derive(Debug)]
pub struct TokenSet {
    items: Vec<Token>,
}

impl View for TokenSet {
    type V = Set<Symbol>;

    closed spec fn view(&self) -> Set<Symbol> {
        symbols_of(self.items@).to_set()
    }
}

impl TokenSet {
    #[verifier::type_invariant]
    spec fn distinct(&self) -> bool {
        symbols_of(self.items@).no_duplicates()
    }

    /// The members, in the order in which they came in.
    pub closed spec fn members(&self) -> Seq<Symbol> {
        symbols_of(self.items@)
    }

    /// The empty set.
    pub fn new() -> (r: TokenSet)
        ensures
            r@ == Set::<Symbol>::empty(),
            r.members() == Seq::<Symbol>::empty(),
    {
        let r = TokenSet { items: Vec::new() };
        assert(symbols_of(r.items@).to_set() =~= Set::<Symbol>::empty());
        assert(symbols_of(r.items@) =~= Seq::<Symbol>::empty());
        r
    }

    /// The number of members.
    pub fn len(&self) -> (n: usize)
        ensures
            self@.finite(),
            n == self@.len(),
    {
        proof {
            use_type_invariant(self);
            self.members().unique_seq_to_set();
            vstd::seq_lib::seq_to_set_is_finite(self.members());
        }
        self.items.len()
    }

    /// The members as a slice of tokens, each symbol once.
    pub fn items(&self) -> (r: &Vec<Token>)
        ensures
            symbols_of(r@) == self.members(),
            symbols_of(r@).no_duplicates(),
            symbols_of(r@).to_set() == self@,
    {
        proof {
            use_type_invariant(self);
        }
        &self.items
    }

    /// Whether `token` is a member.
    pub fn contains(&self, token: &Token) -> (r: bool)
        ensures
            r == self@.contains(token@),
    {
        let mut i: usize = 0;
        while i < self.items.len()
            invariant
                i <= self.items.len(),
                forall|j: int| 0 <= j < i ==> symbols_of(self.items@)[j] != token@,
            decreases self.items.len() - i,
        {
            if self.items[i] == *token {
                assert(symbols_of(self.items@)[i as int] == token@);
                return true;
            }
            i += 1;
        }
        false
    }

    /// Makes `token` a member. Returns whether it was none before.
    pub fn insert(&mut self, token: Token) -> (r: bool)
        ensures
            final(self)@ == old(self)@.insert(token@),
            r == !old(self)@.contains(token@),
            final(self).members() == if r {
                old(self).members().push(token@)
            } else {
                old(self).members()
            },
    {
        if self.contains(&token) {
            assert(self@.insert(token@) =~= self@);
            false
        } else {
            proof {
                use_type_invariant(&*self);
            }
            let ghost before = symbols_of(self.items@);
            let mut taken = TokenSet { items: Vec::new() };
            core::mem::swap(self, &mut taken);
            let mut items = taken.items;
            proof {
                let after = symbols_of(items@.push(token));
                assert(after =~= before.push(token@));
                before.lemma_push_to_set_commute(token@);
            }
            items.push(token);
            *self = TokenSet { items };
            true
        }
    }

    /// Makes every member of `other` a member.
    pub fn union_with(&mut self, other: &TokenSet)
        ensures
            final(self)@ == old(self)@.union(other@),
    {
        let source = other.items();
        let mut i: usize = 0;
        while i < source.len()
            invariant
                i <= source.len(),
                symbols_of(source@).to_set() == other@,
                self@ == old(self)@.union(symbols_of(source@).take(i as int).to_set()),
            decreases source.len() - i,
        {
            proof {
                let syms = symbols_of(source@);
                assert(syms.take(i + 1) =~= syms.take(i as int).push(syms[i as int]));
                syms.take(i as int).lemma_push_to_set_commute(syms[i as int]);
                assert(old(self)@.union(syms.take(i + 1).to_set()) =~= old(self)@.union(
                    syms.take(i as int).to_set(),
                ).insert(source@[i as int]@));
            }
            self.insert(source[i].clone());
            i += 1;
        }
        proof {
            let syms = symbols_of(source@);
            assert(syms.take(i as int) =~= syms);
        }
    }

    /// The set without `token`.
    pub fn without(&self, token: &Token) -> (r: TokenSet)
        ensures
            r@ == self@.remove(token@),
    {
        let mut r = TokenSet::new();
        let mut i: usize = 0;
        while i < self.items.len()
            invariant
                i <= self.items.len(),
                r@ == symbols_of(self.items@).take(i as int).to_set().remove(token@),
            decreases self.items.len() - i,
        {
            proof {
                let syms = symbols_of(self.items@);
                assert(syms.take(i + 1) =~= syms.take(i as int).push(syms[i as int]));
                syms.take(i as int).lemma_push_to_set_commute(syms[i as int]);
            }
            if self.items[i] != *token {
                r.insert(self.items[i].clone());
                assert(r@ =~= symbols_of(self.items@).take(i + 1).to_set().remove(token@));
            } else {
                assert(r@ =~= symbols_of(self.items@).take(i + 1).to_set().remove(token@));
            }
            i += 1;
        }
        proof {
            let syms = symbols_of(self.items@);
            assert(syms.take(i as int) =~= syms);
        }
        r
    }

    /// Whether every member is a member of `other`.
    pub fn is_subset_of(&self, other: &TokenSet) -> (r: bool)
        ensures
            r == self@.subset_of(other@),
    {
        let mut i: usize = 0;
        while i < self.items.len()
            invariant
                i <= self.items.len(),
                forall|j: int| 0 <= j < i ==> other@.contains(symbols_of(self.items@)[j]),
            decreases self.items.len() - i,
        {
            if !other.contains(&self.items[i]) {
                assert(self@.contains(symbols_of(self.items@)[i as int]));
                return false;
            }
            i += 1;
        }
        true
    }
}

impl Clone for TokenSet {
    fn clone(&self) -> (r: TokenSet)
        ensures
            r@ == self@,
            r.members() == self.members(),
    {
        let mut items: Vec<Token> = Vec::new();
        let mut i: usize = 0;
        while i < self.items.len()
            invariant
                i <= self.items.len(),
                symbols_of(items@) == symbols_of(self.items@).take(i as int),
            decreases self.items.len() - i,
        {
            let token = self.items[i].clone();
            proof {
                let all = symbols_of(self.items@);
                assert(symbols_of(items@.push(token)) =~= symbols_of(items@).push(token@));
                assert(all.take(i + 1) =~= all.take(i as int).push(all[i as int]));
            }
            items.push(token);
            i += 1;
        }
        proof {
            use_type_invariant(self);
            let all = symbols_of(self.items@);
            assert(all.take(i as int) =~= all);
        }
        TokenSet { items }
    }
}

impl PartialEq for TokenSet {
    fn eq(&self, other: &TokenSet) -> (r: bool) {
        let r = self.len() == other.len() && self.is_subset_of(other);
        proof {
            if r {
                vstd::set_lib::lemma_subset_equality(self@, other@);
            }
        }
        r
    }
}

impl vstd::std_specs::cmp::PartialEqSpecImpl for TokenSet {
    open spec fn obeys_eq_spec() -> bool {
        true
    }

    open spec fn eq_spec(&self, other: &TokenSet) -> bool {
        self@ == other@
    }
}

impl Eq for TokenSet {
}

} // verus!

use crate::ring::{cell_at, is_binary, shifted_by_one, wrap_index, Ring, ACTIVE, INACTIVE};
use crate::rule::{
    lemma_power_of_two_monotone, lemma_string_value_bound,
    populate_rules, power_of_two, rule_symbol, rule_table, string_value,
};
use vstd::arithmetic::div_mod::{
    lemma_fundamental_div_mod, lemma_fundamental_div_mod_converse, lemma_mod_bound,
};
use vstd::prelude::*;

verus! {

/// Why an automaton could not be built.
#[derive(Debug, Clone, Copy, PartialEq, Eq, Structural)]
pub enum AutomatonError {
    /// The neighborhood size is zero, or its table of `2^k` entries cannot be
    /// indexed by a machine word.
    InvalidNeighborhood,
    /// The initial configuration has no cell.
    EmptyConfiguration,
    /// The rule index has more binary digits than the table has entries.
    InvalidRule,
}

/// A neighborhood size whose table has at least two entries and can be
/// indexed by a machine word.
pub open spec fn valid_neighborhood(k: nat) -> bool {
    k >= 1 && power_of_two(k) <= usize::MAX
}

/// How many cells before the decided cell a neighborhood starts: `k / 2` for
/// odd `k`, one fewer for even `k`.
pub open spec fn window_offset(k: nat) -> int {
    (k as int - 1) / 2
}

/// The neighborhood string that decides cell `i`: the `k` cells from
/// `i - window_offset(k)` on, read with wraparound.
pub open spec fn window(cells: Seq<char>, i: int, k: nat) -> Seq<char> {
    Seq::new(k, |j: int| cell_at(cells, i - window_offset(k) + j))
}

/// The generation that follows `cells` under `rule` with neighborhoods of `k`
/// cells: each cell becomes the table's successor of its neighborhood.
pub open spec fn step(cells: Seq<char>, rule: nat, k: nat) -> Seq<char> {
    Seq::new(cells.len(), |i: int| rule_symbol(rule, string_value(window(cells, i, k))))
}

proof fn lemma_wrap_next(x: int, len: int)
    requires
        len > 0,
    ensures
        wrap_index(x + 1, len) == if wrap_index(x, len) + 1 == len {
            0
        } else {
            wrap_index(x, len) + 1
        },
{
    lemma_fundamental_div_mod(x, len);
    lemma_mod_bound(x, len);
    let q = x / len;
    let m = x % len;
    if m + 1 == len {
        assert(x + 1 == (q + 1) * len + 0) by (nonlinear_arith)
            requires
                x == len * q + m,
                m + 1 == len,
        ;
        lemma_fundamental_div_mod_converse(x + 1, len, q + 1, 0);
    } else {
        assert(x + 1 == q * len + (m + 1)) by (nonlinear_arith)
            requires
                x == len * q + m,
        ;
        lemma_fundamental_div_mod_converse(x + 1, len, q, m + 1);
    }
}

proof fn lemma_wrap_start(i: int, off: int, len: int)
    requires
        len > 0,
        0 <= i < len,
        off >= 0,
    ensures
        wrap_index(i - off, len) == if i >= off % len {
            i - off % len
        } else {
            len - (off % len - i)
        },
{
    lemma_fundamental_div_mod(off, len);
    let q = off / len;
    let m = off % len;
    if i >= m {
        assert(i - off == (-q) * len + (i - m)) by (nonlinear_arith)
            requires
                off == len * q + m,
        ;
        lemma_fundamental_div_mod_converse(i - off, len, -q, i - m);
    } else {
        assert(i - off == (-q - 1) * len + (len - (m - i))) by (nonlinear_arith)
            requires
                off == len * q + m,
        ;
        lemma_fundamental_div_mod_converse(i - off, len, -q - 1, len - (m - i));
    }
}

/// The value of the neighborhood string that decides cell `i` of `ring`.
fn neighborhood_index(ring: &Ring, i: usize, k: usize) -> (r: usize)
    requires
        ring@.len() > 0,
        i < ring@.len(),
        valid_neighborhood(k as nat),
    ensures
        r as nat == string_value(window(ring@, i as int, k as nat)),
{
    let len = ring.len();
    let off = (k - 1) / 2;
    let offm = off % len;
    let mut pos: usize = if i >= offm {
        i - offm
    } else {
        len - (offm - i)
    };
    let ghost w = window(ring@, i as int, k as nat);
    let ghost start = i - window_offset(k as nat);
    proof {
        lemma_wrap_start(i as int, off as int, len as int);
        assert(w.subrange(0, 0) == Seq::<char>::empty());
        assert(power_of_two(0) == 1);
    }
    let mut value: usize = 0;
    for j in 0..k
        invariant
            len == ring@.len(),
            len > 0,
            pos < len,
            pos as int == wrap_index(start + j, len as int),
            value as nat == string_value(w.subrange(0, j as int)),
            value < power_of_two(j as nat),
            valid_neighborhood(k as nat),
            w == window(ring@, i as int, k as nat),
            start == i - window_offset(k as nat),
    {
        let bit: usize = if ring.configuration[pos] == ACTIVE {
            1
        } else {
            0
        };
        proof {
            lemma_power_of_two_monotone((j + 1) as nat, k as nat);
            assert(w.subrange(0, j + 1).drop_last() == w.subrange(0, j as int));
            assert(w.subrange(0, j + 1).last() == cell_at(ring@, start + j));
            lemma_wrap_next(start + j, len as int);
        }
        value = value * 2 + bit;
        pos = if pos + 1 == len {
            0
        } else {
            pos + 1
        };
    }
    assert(w.subrange(0, k as int) == w);
    value
}

/// A one-dimensional cellular automaton: its rule and the generations it has
/// produced so far, the first being the initial configuration.
pub struct Automaton {
    pub generations: Vec<Ring>,
    pub rule: usize,
    pub rules: Vec<char>,
    pub neighborhood: usize,
}

impl Automaton {
    /// The generations, each as its sequence of cells.
    pub open spec fn history(&self) -> Seq<Seq<char>> {
        self.generations@.map_values(|g: Ring| g@)
    }

    /// The generation that advancing appends: the successor of the most
    /// recent one under this automaton's rule.
    pub open spec fn successor(&self) -> Seq<char> {
        step(self.history().last(), self.rule as nat, self.neighborhood as nat)
    }

    /// The automaton's invariant: a valid neighborhood size and rule, the
    /// table built from that rule, and a non-empty history of generations of one
    /// non-zero length, each derived from the one before.
    pub open spec fn wf(&self) -> bool {
        &&& valid_neighborhood(self.neighborhood as nat)
        &&& self.rule < power_of_two(power_of_two(self.neighborhood as nat))
        &&& self.rules@ == rule_table(self.rule as nat, self.neighborhood as nat)
        &&& self.history().len() >= 1
        &&& self.history()[0].len() > 0
        &&& forall|g: int|
            0 <= g < self.history().len() ==> #[trigger] self.history()[g].len()
                == self.history()[0].len()
        &&& forall|g: int|
            0 < g < self.history().len() ==> #[trigger] self.history()[g] == step(
                self.history()[g - 1],
                self.rule as nat,
                self.neighborhood as nat,
            )
    }

    /// An automaton whose only generation is `base`, with the table of `rule`
    /// for neighborhoods of `neighborhood` cells.
    pub fn new(base: &Vec<char>, rule: usize, neighborhood: usize) -> (r: Result<
        Automaton,
        AutomatonError,
    >)
        ensures
            match r {
                Ok(a) => {
                    &&& valid_neighborhood(neighborhood as nat)
                    &&& base@.len() > 0
                    &&& rule < power_of_two(power_of_two(neighborhood as nat))
                    &&& a.wf()
                    &&& a.history() == seq![base@]
                    &&& a.rule == rule
                    &&& a.neighborhood == neighborhood
                },
                Err(AutomatonError::InvalidNeighborhood) => !valid_neighborhood(neighborhood as nat),
                Err(AutomatonError::EmptyConfiguration) => {
                    &&& valid_neighborhood(neighborhood as nat)
                    &&& base@.len() == 0
                },
                Err(AutomatonError::InvalidRule) => {
                    &&& valid_neighborhood(neighborhood as nat)
                    &&& base@.len() > 0
                    &&& rule >= power_of_two(power_of_two(neighborhood as nat))
                },
            },
    {
        if neighborhood == 0 {
            return Err(AutomatonError::InvalidNeighborhood);
        }
        let mut boundary: usize = 1;
        let mut e: usize = 0;
        proof {
            assert(power_of_two(0) == 1);
        }
        while e < neighborhood
            invariant
                e <= neighborhood,
                boundary == power_of_two(e as nat),
            decreases neighborhood - e,
        {
            if boundary > usize::MAX / 2 {
                proof {
                    lemma_power_of_two_monotone((e + 1) as nat, neighborhood as nat);
                }
                return Err(AutomatonError::InvalidNeighborhood);
            }
            boundary = boundary * 2;
            e = e + 1;
        }
        if base.len() == 0 {
            return Err(AutomatonError::EmptyConfiguration);
        }
        match populate_rules(rule, neighborhood, boundary) {
            None => Err(AutomatonError::InvalidRule),
            Some(rules) => {
                let mut generations: Vec<Ring> = Vec::new();
                generations.push(Ring::from(base));
                let a = Automaton { generations, rule, rules, neighborhood };
                assert(a.history() == seq![base@]);
                Ok(a)
            },
        }
    }

    /// The most recent generation.
    pub fn get_last(&self) -> (r: &Ring)
        requires
            self.generations@.len() > 0,
        ensures
            *r == self.generations@.last(),
    {
        let n = self.generations.len();
        &self.generations[n - 1]
    }

    /// Appends the generation that follows the most recent one.
    pub fn next_gen(&mut self)
        requires
            old(self).wf(),
            is_binary(old(self).history().last()),
        ensures
            final(self).wf(),
            final(self).rule == old(self).rule,
            final(self).neighborhood == old(self).neighborhood,
            final(self).history() == old(self).history().push(old(self).successor()),
            is_binary(final(self).history().last()),
    {
        let ghost h = self.history();
        let ghost rule = self.rule as nat;
        let ghost k = self.neighborhood as nat;
        let mut next_gen = Ring::new();
        {
            let last_gen = self.get_last();
            assert(last_gen@ == h.last());
            let ghost target = step(last_gen@, rule, k);
            let n = last_gen.len();
            for i in 0..n
                invariant
                    n == last_gen@.len(),
                    self.wf(),
                    rule == self.rule,
                    k == self.neighborhood,
                    last_gen@ == h.last(),
                    last_gen@.len() > 0,
                    target == step(last_gen@, rule, k),
                    next_gen@ == target.subrange(0, i as int),
            {
                let v = neighborhood_index(last_gen, i, self.neighborhood);
                proof {
                    lemma_string_value_bound(window(last_gen@, i as int, k));
                    assert(next_gen@.push(self.rules@[v as int]) == target.subrange(0, i + 1));
                }
                next_gen.push(&self.rules[v]);
            }
            assert(next_gen@ == target);
        }
        self.generations.push(next_gen);
        proof {
            assert(self.history() == h.push(next_gen@));
            assert forall|j: int| 0 <= j < next_gen@.len() implies (#[trigger] next_gen@[j]
                == ACTIVE || next_gen@[j] == INACTIVE) by {}
        }
    }

    /// Whether the most recent generation equals an earlier one.
    pub fn state_already_generated(&self) -> (r: bool)
        requires
            self.generations@.len() > 0,
        ensures
            r == exists|i: int|
                0 <= i < self.history().len() - 1 && #[trigger] self.history()[i]
                    == self.history().last(),
    {
        let n = self.generations.len();
        let last = self.get_last();
        for i in 0..n - 1
            invariant
                n == self.generations@.len(),
                n > 0,
                *last == self.generations@.last(),
                forall|j: int| 0 <= j < i ==> #[trigger] self.history()[j] != self.history().last(),
        {
            let ring = &self.generations[i];
            if ring.eq(last) {
                assert(self.history()[i as int] == self.history().last());
                return true;
            }
        }
        false
    }

    /// Whether the two most recent generations each hold a single active
    /// cell, the newer one standing one position after the older one.
    pub fn is_00000001(&self) -> (r: bool)
        ensures
            r == (self.history().len() > 1 && shifted_by_one(
                self.history()[self.history().len() - 2],
                self.history().last(),
            )),
    {
        let gens = self.generations.len();
        if gens > 1 {
            let last = self.get_last();
            last.is_00000001_shifting_from(&self.generations[gens - 2])
        } else {
            false
        }
    }
}

/// Advancing is deterministic: two automata with the same rule, the same
/// neighborhood size and the same most recent generation, each advanced once,
/// append the same generation.
pub proof fn lemma_next_gen_deterministic(
    a: Automaton,
    a_next: Automaton,
    b: Automaton,
    b_next: Automaton,
)
    requires
        a.wf(),
        b.wf(),
        a.rule == b.rule,
        a.neighborhood == b.neighborhood,
        a.history().last() == b.history().last(),
        a_next.history() == a.history().push(a.successor()),
        b_next.history() == b.history().push(b.successor()),
    ensures
        a_next.history().last() == b_next.history().last(),
        a_next.history().last().len() == a.history().last().len(),
{
}

} // verus!

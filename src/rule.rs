use crate::ring::{is_binary, ACTIVE, INACTIVE};
use vstd::arithmetic::div_mod::{lemma_div_denominator, lemma_mod_breakdown};
use vstd::prelude::*;

verus! {

/// `2^e`.
pub open spec fn power_of_two(e: nat) -> nat
    decreases e,
{
    if e == 0 {
        1
    } else {
        2 * power_of_two((e - 1) as nat)
    }
}

/// The binary digit that a symbol stands for.
pub open spec fn symbol_bit(c: char) -> nat {
    if c == ACTIVE {
        1
    } else {
        0
    }
}

/// The symbol that a binary digit is written with.
pub open spec fn bit_symbol(b: nat) -> char {
    if b == 1 {
        ACTIVE
    } else {
        INACTIVE
    }
}

/// The value of a neighborhood string read as a binary number, most
/// significant digit first.
pub open spec fn string_value(s: Seq<char>) -> nat
    decreases s.len(),
{
    if s.len() == 0 {
        0
    } else {
        2 * string_value(s.drop_last()) + symbol_bit(s.last())
    }
}

/// `i` written with exactly `k` binary digits, most significant first (the
/// neighborhood string of index `i`).
pub open spec fn neighborhood_string(i: nat, k: nat) -> Seq<char>
    decreases k,
{
    if k == 0 {
        Seq::empty()
    } else {
        neighborhood_string(i / 2, (k - 1) as nat).push(bit_symbol(i % 2))
    }
}

/// Digit `i` of the rule index, counted from the least significant end, as a
/// symbol: the successor of the neighborhood whose value is `i`.
pub open spec fn rule_symbol(rule: nat, i: nat) -> char {
    bit_symbol((rule / power_of_two(i)) % 2)
}

/// The rule table of `rule` for neighborhoods of `k` cells: entry `i` is the
/// successor of the neighborhood whose value is `i`.
pub open spec fn rule_table(rule: nat, k: nat) -> Seq<char> {
    Seq::new(power_of_two(k), |i: int| rule_symbol(rule, i as nat))
}

/// The number that a table denotes when its successors are read in ascending
/// order of neighborhood as binary digits, least significant first.
pub open spec fn table_value(t: Seq<char>) -> nat
    decreases t.len(),
{
    if t.len() == 0 {
        0
    } else {
        table_value(t.drop_last()) + symbol_bit(t.last()) * power_of_two((t.len() - 1) as nat)
    }
}

/// `2^e` is positive.
pub proof fn lemma_power_of_two_positive(e: nat)
    ensures
        power_of_two(e) > 0,
    decreases e,
{
    if e > 0 {
        lemma_power_of_two_positive((e - 1) as nat);
    }
}

/// `2^e` grows with `e`.
pub proof fn lemma_power_of_two_monotone(a: nat, b: nat)
    requires
        a <= b,
    ensures
        power_of_two(a) <= power_of_two(b),
    decreases b,
{
    if a < b {
        lemma_power_of_two_monotone(a, (b - 1) as nat);
        lemma_power_of_two_positive((b - 1) as nat);
    }
}

/// A string of `k` symbols has a value below `2^k`.
pub proof fn lemma_string_value_bound(s: Seq<char>)
    ensures
        string_value(s) < power_of_two(s.len()),
    decreases s.len(),
{
    if s.len() > 0 {
        lemma_string_value_bound(s.drop_last());
    }
}

/// Writing a binary string's value back with as many digits gives the string.
pub proof fn lemma_string_of_value(s: Seq<char>)
    requires
        is_binary(s),
    ensures
        neighborhood_string(string_value(s), s.len()) == s,
    decreases s.len(),
{
    if s.len() > 0 {
        let t = s.drop_last();
        assert(is_binary(t)) by {
            assert forall|i: int| 0 <= i < t.len() implies (#[trigger] t[i] == ACTIVE || t[i]
                == INACTIVE) by {
                assert(t[i] == s[i]);
            }
        }
        lemma_string_of_value(t);
        let v = string_value(s);
        assert(v / 2 == string_value(t));
        assert(v % 2 == symbol_bit(s.last()));
        assert(bit_symbol(symbol_bit(s.last())) == s.last()) by {
            assert(s[s.len() - 1] == ACTIVE || s[s.len() - 1] == INACTIVE);
        }
        assert(neighborhood_string(v, s.len()) == t.push(s.last()));
        assert(t.push(s.last()) == s);
    }
}

/// The neighborhood string of each index below `2^k` is a binary string of `k`
/// symbols whose value is that index.
pub proof fn lemma_value_of_string(i: nat, k: nat)
    requires
        i < power_of_two(k),
    ensures
        neighborhood_string(i, k).len() == k,
        is_binary(neighborhood_string(i, k)),
        string_value(neighborhood_string(i, k)) == i,
    decreases k,
{
    if k > 0 {
        let s = neighborhood_string(i, k);
        lemma_value_of_string(i / 2, (k - 1) as nat);
        let t = neighborhood_string(i / 2, (k - 1) as nat);
        assert(s.drop_last() == t);
        assert(symbol_bit(bit_symbol(i % 2)) == i % 2);
        assert forall|j: int| 0 <= j < s.len() implies (#[trigger] s[j] == ACTIVE || s[j]
            == INACTIVE) by {
            if j < t.len() {
                assert(s[j] == t[j]);
            }
        }
    }
}

/// The table's first `m` successors, read as binary digits, give the rule
/// index modulo `2^m`.
proof fn lemma_table_prefix_value(rule: nat, m: nat)
    ensures
        table_value(Seq::new(m, |i: int| rule_symbol(rule, i as nat))) == rule % power_of_two(m),
    decreases m,
{
    let t = Seq::new(m, |i: int| rule_symbol(rule, i as nat));
    if m > 0 {
        let p = (m - 1) as nat;
        lemma_table_prefix_value(rule, p);
        assert(t.drop_last() == Seq::new(p, |i: int| rule_symbol(rule, i as nat)));
        lemma_power_of_two_positive(p);
        let d = (rule / power_of_two(p)) % 2;
        assert(symbol_bit(bit_symbol(d)) == d);
        lemma_mod_breakdown(rule as int, power_of_two(p) as int, 2);
        assert(power_of_two(p) * 2 == power_of_two(m));
        assert(t.last() == rule_symbol(rule, p));
        assert(symbol_bit(t.last()) * power_of_two(p) == power_of_two(p) * d) by (nonlinear_arith)
            requires
                symbol_bit(t.last()) == d,
        ;
    } else {
        assert(power_of_two(0) == 1);
        vstd::arithmetic::div_mod::lemma_mod_multiples_basic(rule as int, 1);
    }
}

/// Round trip: the table built from a rule index that fits in `2^k` digits,
/// read back in ascending order of neighborhood, gives the rule index again.
pub proof fn lemma_rule_round_trip(rule: nat, k: nat)
    requires
        rule < power_of_two(power_of_two(k)),
    ensures
        table_value(rule_table(rule, k)) == rule,
{
    lemma_table_prefix_value(rule, power_of_two(k));
    vstd::arithmetic::div_mod::lemma_small_mod(rule, power_of_two(power_of_two(k)));
    assert(rule_table(rule, k) == Seq::new(power_of_two(k), |i: int| rule_symbol(rule, i as nat)));
}

/// The rule table is total and without duplicates: it has `2^k` entries; every
/// binary neighborhood string of `k` symbols has its entry, at the index its
/// value gives; and the entry at each index belongs to exactly one such
/// string.
pub proof fn lemma_rule_table_total(rule: nat, k: nat)
    ensures
        rule_table(rule, k).len() == power_of_two(k),
        forall|s: Seq<char>|
            s.len() == k && is_binary(s) ==> {
                &&& #[trigger] string_value(s) < rule_table(rule, k).len()
                &&& neighborhood_string(string_value(s), k) == s
            },
        forall|i: nat|
            i < power_of_two(k) ==> {
                &&& (#[trigger] neighborhood_string(i, k)).len() == k
                &&& is_binary(neighborhood_string(i, k))
                &&& string_value(neighborhood_string(i, k)) == i
            },
{
    assert forall|s: Seq<char>| s.len() == k && is_binary(s) implies {
        &&& #[trigger] string_value(s) < rule_table(rule, k).len()
        &&& neighborhood_string(string_value(s), k) == s
    } by {
        lemma_string_value_bound(s);
        lemma_string_of_value(s);
    }
    assert forall|i: nat| i < power_of_two(k) implies {
        &&& (#[trigger] neighborhood_string(i, k)).len() == k
        &&& is_binary(neighborhood_string(i, k))
        &&& string_value(neighborhood_string(i, k)) == i
    } by {
        lemma_value_of_string(i, k);
    }
}

/// The table of a rule for `boundary` neighborhoods, or `None` where the rule
/// index needs more than `boundary` binary digits.
pub fn populate_rules(rule: usize, neighborhood: usize, boundary: usize) -> (r: Option<Vec<char>>)
    requires
        boundary == power_of_two(neighborhood as nat),
    ensures
        match r {
            Some(t) => rule < power_of_two(boundary as nat) && t@ == rule_table(
                rule as nat,
                neighborhood as nat,
            ),
            None => rule >= power_of_two(boundary as nat),
        },
{
    let mut table: Vec<char> = Vec::new();
    let mut rest: usize = rule;
    proof {
        assert(power_of_two(0) == 1);
        vstd::arithmetic::div_mod::lemma_div_basics(rule as int);
    }
    for i in 0..boundary
        invariant
            boundary == power_of_two(neighborhood as nat),
            rest as nat == rule as nat / power_of_two(i as nat),
            table@ == Seq::new(i as nat, |j: int| rule_symbol(rule as nat, j as nat)),
    {
        let symbol = if rest % 2 == 1 {
            ACTIVE
        } else {
            INACTIVE
        };
        table.push(symbol);
        proof {
            lemma_power_of_two_positive(i as nat);
            lemma_div_denominator(rule as int, power_of_two(i as nat) as int, 2);
            assert(power_of_two(i as nat) * 2 == power_of_two((i + 1) as nat));
            assert(table@ == Seq::new((i + 1) as nat, |j: int| rule_symbol(rule as nat, j as nat)));
        }
        rest = rest / 2;
    }
    proof {
        lemma_power_of_two_positive(boundary as nat);
        assert(table@ == rule_table(rule as nat, neighborhood as nat));
        if rule >= power_of_two(boundary as nat) {
            vstd::arithmetic::div_mod::lemma_div_is_ordered(
                power_of_two(boundary as nat) as int,
                rule as int,
                power_of_two(boundary as nat) as int,
            );
            vstd::arithmetic::div_mod::lemma_div_basics(power_of_two(boundary as nat) as int);
        } else {
            vstd::arithmetic::div_mod::lemma_basic_div(rule as int, power_of_two(boundary as nat) as int);
        }
    }
    if rest == 0 {
        Some(table)
    } else {
        None
    }
}

} // verus!

use crate::automaton::Automaton;
use crate::ring::render_cells;
use crate::rule::{neighborhood_string, power_of_two, rule_symbol};
use vstd::prelude::*;

verus! {

/// The character of the decimal digit `d`.
pub open spec fn digit_symbol(d: nat) -> char {
    ((48 + d) as u8) as char
}

/// `n` in decimal, without leading zeros.
pub open spec fn decimal(n: nat) -> Seq<char>
    decreases n,
{
    if n < 10 {
        seq![digit_symbol(n)]
    } else {
        decimal(n / 10).push(digit_symbol(n % 10))
    }
}

/// `n` spaces.
pub open spec fn spaces(n: nat) -> Seq<char> {
    Seq::new(n, |_i: int| ' ')
}

/// The column separator of the rule table.
pub open spec fn separator() -> Seq<char> {
    seq![' ', '|', ' ']
}

/// The neighborhood strings of values `m - 1` down to `0`, each followed by a
/// separator.
pub open spec fn header_row(k: nat, m: nat) -> Seq<char>
    decreases m,
{
    if m == 0 {
        Seq::empty()
    } else {
        neighborhood_string((m - 1) as nat, k) + separator() + header_row(k, (m - 1) as nat)
    }
}

/// The successor of neighborhood `i`, padded to the width of a neighborhood
/// string of `k` symbols.
pub open spec fn successor_cell(rule: nat, k: nat, i: nat) -> Seq<char> {
    spaces(((k - 1) / 2) as nat) + seq![rule_symbol(rule, i)] + spaces(k / 2)
}

/// The successors of neighborhoods `m - 1` down to `0`, each padded and
/// followed by a separator.
pub open spec fn successor_row(rule: nat, k: nat, m: nat) -> Seq<char>
    decreases m,
{
    if m == 0 {
        Seq::empty()
    } else {
        successor_cell(rule, k, (m - 1) as nat) + separator() + successor_row(
            rule,
            k,
            (m - 1) as nat,
        )
    }
}

/// Each generation rendered on a line of its own.
pub open spec fn render_generations(h: Seq<Seq<char>>) -> Seq<char>
    decreases h.len(),
{
    if h.len() == 0 {
        Seq::empty()
    } else {
        render_generations(h.drop_last()) + render_cells(h.last()) + seq!['\n']
    }
}

/// The text of an automaton: the rule index, the rule table from the highest
/// neighborhood down, and the generations.
pub open spec fn render_automaton(rule: nat, k: nat, h: Seq<Seq<char>>) -> Seq<char> {
    "Rule : "@ + decimal(rule) + "\n | "@ + header_row(k, power_of_two(k)) + "\n | "@
        + successor_row(rule, k, power_of_two(k)) + "\n\ngenerations:\n"@ + render_generations(h)
}

/// Relies on `String::push`: the character is appended at the end.
#[verifier::external_body]
pub(crate) fn push_char(s: &mut String, c: char)
    ensures
        final(s)@ == old(s)@.push(c),
{
    s.push(c);
}

/// Relies on `String::push_str`: the text is appended at the end.
#[verifier::external_body]
fn push_text(s: &mut String, t: &str)
    ensures
        final(s)@ == old(s)@ + t@,
{
    s.push_str(t);
}

fn push_decimal(out: &mut String, n: usize)
    ensures
        final(out)@ == old(out)@ + decimal(n as nat),
    decreases n,
{
    if n >= 10 {
        push_decimal(out, n / 10);
    }
    push_char(out, (48 + (n % 10) as u8) as char);
    assert(final(out)@ == old(out)@ + decimal(n as nat));
}

fn push_neighborhood(out: &mut String, i: usize, k: usize)
    ensures
        final(out)@ == old(out)@ + neighborhood_string(i as nat, k as nat),
    decreases k,
{
    if k > 0 {
        push_neighborhood(out, i / 2, k - 1);
        push_char(
            out,
            if i % 2 == 1 {
                '1'
            } else {
                '0'
            },
        );
    }
    assert(final(out)@ == old(out)@ + neighborhood_string(i as nat, k as nat));
}

fn push_spaces(out: &mut String, n: usize)
    ensures
        final(out)@ == old(out)@ + spaces(n as nat),
{
    let ghost start = out@;
    for j in 0..n
        invariant
            out@ == start + spaces(j as nat),
    {
        push_char(out, ' ');
        assert(out@ == start + spaces((j + 1) as nat));
    }
}

impl Automaton {
    /// The automaton as text: `Rule : N`, the neighborhood strings from the
    /// highest value down, the successor under each, then every generation on
    /// a line of its own.
    pub fn render(&self) -> (r: String)
        requires
            self.wf(),
        ensures
            r@ == render_automaton(self.rule as nat, self.neighborhood as nat, self.history()),
    {
        let k = self.neighborhood;
        let ghost rule = self.rule as nat;
        let boundary = self.rules.len();
        let mut out = String::new();
        push_text(&mut out, "Rule : ");
        push_decimal(&mut out, self.rule);
        push_text(&mut out, "\n | ");
        let ghost before = out@;
        let mut m: usize = boundary;
        while m > 0
            invariant
                m <= boundary,
                out@ + header_row(k as nat, m as nat) == before + header_row(
                    k as nat,
                    boundary as nat,
                ),
            decreases m,
        {
            let ghost prev = out@;
            push_neighborhood(&mut out, m - 1, k);
            push_text(&mut out, " | ");
            proof {
                reveal_strlit(" | ");
                assert(out@ + header_row(k as nat, (m - 1) as nat) == prev + header_row(
                    k as nat,
                    m as nat,
                ));
            }
            m = m - 1;
        }
        push_text(&mut out, "\n | ");
        let ghost middle = out@;
        let mut m: usize = boundary;
        while m > 0
            invariant
                m <= boundary,
                boundary == self.rules@.len(),
                self.wf(),
                rule == self.rule,
                k == self.neighborhood,
                out@ + successor_row(rule, k as nat, m as nat) == middle + successor_row(
                    rule,
                    k as nat,
                    boundary as nat,
                ),
            decreases m,
        {
            let ghost prev = out@;
            push_spaces(&mut out, (k - 1) / 2);
            push_char(&mut out, self.rules[m - 1]);
            push_spaces(&mut out, k / 2);
            push_text(&mut out, " | ");
            proof {
                reveal_strlit(" | ");
                assert(out@ + successor_row(rule, k as nat, (m - 1) as nat) == prev
                    + successor_row(rule, k as nat, m as nat));
            }
            m = m - 1;
        }
        push_text(&mut out, "\n\ngenerations:\n");
        let ghost tail = out@;
        let n = self.generations.len();
        proof {
            assert(self.history().subrange(0, 0) == Seq::<Seq<char>>::empty());
        }
        for g in 0..n
            invariant
                n == self.generations@.len(),
                out@ == tail + render_generations(self.history().subrange(0, g as int)),
        {
            let line = self.generations[g].render();
            push_text(&mut out, line.as_str());
            push_char(&mut out, '\n');
            proof {
                let h = self.history().subrange(0, g + 1);
                assert(h.drop_last() == self.history().subrange(0, g as int));
                assert(h.last() == self.generations@[g as int]@);
            }
        }
        assert(self.history().subrange(0, n as int) == self.history());
        out
    }
}

} // verus!

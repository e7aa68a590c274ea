use vstd::arithmetic::div_mod::{
    lemma_fundamental_div_mod, lemma_fundamental_div_mod_converse, lemma_mod_add_multiples_vanish,
    lemma_mod_sub_multiples_vanish,
};
use crate::render::push_char;
use vstd::prelude::*;

verus! {

/// The symbol of an active cell.
pub const ACTIVE: char = '1';

/// The symbol of an inactive cell.
pub const INACTIVE: char = '0';

/// Position `index mod len`, taken in `[0, len)`.
///
/// Verus's `%` on `int` is Euclidean, so this is `((index mod len) + len) mod len`
/// for every sign of `index`.
pub open spec fn wrap_index(index: int, len: int) -> int {
    index % len
}

/// The symbol seen at `index` on a circular lattice holding `cells`.
pub open spec fn cell_at(cells: Seq<char>, index: int) -> char {
    cells[wrap_index(index, cells.len() as int)]
}

/// Every cell is `'0'` or `'1'`.
pub open spec fn is_binary(cells: Seq<char>) -> bool {
    forall|i: int| 0 <= i < cells.len() ==> (#[trigger] cells[i] == ACTIVE || cells[i] == INACTIVE)
}

/// `p` is the position of the one and only active cell of `cells`.
pub open spec fn is_sole_active(cells: Seq<char>, p: int) -> bool {
    &&& 0 <= p < cells.len()
    &&& cells[p] == ACTIVE
    &&& forall|j: int| 0 <= j < cells.len() && j != p ==> #[trigger] cells[j] != ACTIVE
}

/// Both configurations hold exactly one active cell, and the cell of `later`
/// stands one position after the cell of `earlier`.
pub open spec fn shifted_by_one(earlier: Seq<char>, later: Seq<char>) -> bool {
    exists|p: int| is_sole_active(earlier, p) && #[trigger] is_sole_active(later, p + 1)
}

/// `"| "` followed by `"c | "` for each cell `c`.
pub open spec fn render_cells(cells: Seq<char>) -> Seq<char>
    decreases cells.len(),
{
    if cells.len() == 0 {
        seq!['|', ' ']
    } else {
        render_cells(cells.drop_last()) + seq![cells.last(), ' ', '|', ' ']
    }
}

/// One generation of a one-dimensional automaton: a fixed-length sequence of
/// symbols read on a circular lattice.
pub struct Ring {
    pub configuration: Vec<char>,
}

impl View for Ring {
    type V = Seq<char>;

    open spec fn view(&self) -> Seq<char> {
        self.configuration@
    }
}

impl Ring {
    /// An empty ring, to be filled by `push`.
    pub fn new() -> (r: Ring)
        ensures
            r@ == Seq::<char>::empty(),
    {
        Ring { configuration: Vec::new() }
    }

    /// A ring holding a copy of `base`.
    pub fn from(base: &Vec<char>) -> (r: Ring)
        ensures
            r@ == base@,
    {
        let mut configuration: Vec<char> = Vec::new();
        for i in 0..base.len()
            invariant
                configuration@ == base@.subrange(0, i as int),
        {
            configuration.push(base[i]);
            assert(configuration@ == base@.subrange(0, i + 1));
        }
        assert(configuration@ == base@);
        Ring { configuration }
    }

    /// Appends one symbol.
    pub fn push(&mut self, element: &char)
        ensures
            final(self)@ == old(self)@.push(*element),
    {
        self.configuration.push(*element);
    }

    /// The symbol at `index`, read with wraparound: `-1` is the last cell and
    /// `size()` the first.
    pub fn get(&self, index: i32) -> (r: &char)
        requires
            self@.len() > 0,
        ensures
            *r == cell_at(self@, index as int),
    {
        let p = self.index_correction(index);
        &self.configuration[p]
    }

    /// The position that `index` denotes on the lattice.
    fn index_correction(&self, index: i32) -> (r: usize)
        requires
            self@.len() > 0,
        ensures
            r as int == wrap_index(index as int, self@.len() as int),
    {
        let len = self.configuration.len();
        if index >= 0 {
            let r = (index as usize) % len;
            r
        } else {
            let neg: usize = (0i64 - index as i64) as usize;
            let m = neg % len;
            proof {
                let q = neg as int / len as int;
                let l = len as int;
                lemma_fundamental_div_mod(neg as int, l);
                if m == 0 {
                    assert(index as int == (-q) * l + 0) by (nonlinear_arith)
                        requires
                            neg as int == l * q + m,
                            index as int == -(neg as int),
                            m == 0,
                    ;
                    lemma_fundamental_div_mod_converse(index as int, len as int, -q, 0);
                } else {
                    assert(index as int == (-q - 1) * l + (l - m)) by (nonlinear_arith)
                        requires
                            neg as int == l * q + m,
                            index as int == -(neg as int),
                    ;
                    lemma_fundamental_div_mod_converse(
                        index as int,
                        len as int,
                        -q - 1,
                        len - m,
                    );
                }
            }
            if m == 0 {
                0
            } else {
                len - m
            }
        }
    }

    /// The number of cells.
    pub fn size(&self) -> (r: i32)
        requires
            self@.len() <= i32::MAX,
        ensures
            r as int == self@.len(),
    {
        self.configuration.len() as i32
    }

    /// The number of cells.
    pub fn len(&self) -> (r: usize)
        ensures
            r as int == self@.len(),
    {
        self.configuration.len()
    }

    /// Whether every cell is `'0'` or `'1'`.
    pub fn is_binary(&self) -> (r: bool)
        ensures
            r == is_binary(self@),
    {
        for i in 0..self.configuration.len()
            invariant
                forall|j: int| 0 <= j < i ==> (#[trigger] self@[j] == ACTIVE || self@[j] == INACTIVE),
        {
            let c = self.configuration[i];
            if c != ACTIVE && c != INACTIVE {
                return false;
            }
        }
        true
    }

    /// The position of the only active cell, or `None` where there are none
    /// or several.
    pub fn sole_active_position(&self) -> (r: Option<usize>)
        ensures
            match r {
                Some(p) => is_sole_active(self@, p as int),
                None => forall|p: int| !is_sole_active(self@, p),
            },
    {
        let mut found: Option<usize> = None;
        for i in 0..self.configuration.len()
            invariant
                match found {
                    Some(p) => {
                        &&& p < i
                        &&& self@[p as int] == ACTIVE
                        &&& forall|j: int| 0 <= j < i && j != p ==> #[trigger] self@[j] != ACTIVE
                    },
                    None => forall|j: int| 0 <= j < i ==> #[trigger] self@[j] != ACTIVE,
                },
        {
            if self.configuration[i] == ACTIVE {
                match found {
                    Some(p) => {
                        assert(!is_sole_active(self@, p as int) && self@[i as int] == ACTIVE);
                        assert forall|q: int| !is_sole_active(self@, q) by {
                            if is_sole_active(self@, q) {
                                if q == p {
                                    assert(self@[i as int] != ACTIVE);
                                } else {
                                    assert(self@[p as int] != ACTIVE);
                                }
                            }
                        }
                        return None;
                    },
                    None => {
                        found = Some(i);
                    },
                }
            }
        }
        match found {
            Some(_) => {},
            None => {
                assert forall|q: int| !is_sole_active(self@, q) by {
                    if is_sole_active(self@, q) {
                        assert(self@[q] == ACTIVE);
                    }
                }
            },
        }
        found
    }

    /// Whether this ring and `other`, the generation before it, both hold a
    /// single active cell, this one standing one position after the other's.
    pub fn is_00000001_shifting_from(&self, other: &Ring) -> (r: bool)
        ensures
            r == shifted_by_one(other@, self@),
    {
        let position1 = self.sole_active_position();
        let position2 = other.sole_active_position();
        match (position1, position2) {
            (Some(p1), Some(p2)) => {
                if p1 >= 1 && p2 == p1 - 1 {
                    assert(is_sole_active(other@, p2 as int) && is_sole_active(self@, p2 + 1));
                    true
                } else {
                    assert forall|p: int|
                        !(is_sole_active(other@, p) && #[trigger] is_sole_active(self@, p + 1)) by {
                        if is_sole_active(other@, p) && is_sole_active(self@, p + 1) {
                            if p != p2 {
                                assert(other@[p] != ACTIVE);
                            } else if p + 1 != p1 {
                                assert(self@[p + 1] != ACTIVE);
                            }
                        }
                    }
                    false
                }
            },
            _ => {
                assert forall|p: int|
                    !(is_sole_active(other@, p) && #[trigger] is_sole_active(self@, p + 1)) by {}
                false
            },
        }
    }

    /// The ring as text: `| s0 | s1 | ... | `.
    pub fn render(&self) -> (r: String)
        ensures
            r@ == render_cells(self@),
    {
        let mut out = String::new();
        push_char(&mut out, '|');
        push_char(&mut out, ' ');
        for i in 0..self.configuration.len()
            invariant
                out@ == render_cells(self@.subrange(0, i as int)),
        {
            assert(self@.subrange(0, i + 1).drop_last() == self@.subrange(0, i as int));
            push_char(&mut out, self.configuration[i]);
            push_char(&mut out, ' ');
            push_char(&mut out, '|');
            push_char(&mut out, ' ');
        }
        assert(self@.subrange(0, self@.len() as int) == self@);
        out
    }
}

impl PartialEq for Ring {
    fn eq(&self, other: &Ring) -> (r: bool) {
        if self.configuration.len() != other.configuration.len() {
            return false;
        }
        for i in 0..self.configuration.len()
            invariant
                self@.len() == other@.len(),
                forall|j: int| 0 <= j < i ==> #[trigger] self@[j] == other@[j],
        {
            if self.configuration[i] != other.configuration[i] {
                return false;
            }
        }
        assert(self@ == other@);
        true
    }
}

impl vstd::std_specs::cmp::PartialEqSpecImpl for Ring {
    open spec fn obeys_eq_spec() -> bool {
        true
    }

    open spec fn eq_spec(&self, other: &Ring) -> bool {
        self@ == other@
    }
}

/// Reading a ring is periodic in the ring's length: `index`, `index + len` and
/// `index - len` name the same cell.
pub proof fn lemma_cell_at_periodic(cells: Seq<char>, index: int)
    requires
        cells.len() > 0,
    ensures
        cell_at(cells, index + cells.len()) == cell_at(cells, index),
        cell_at(cells, index - cells.len()) == cell_at(cells, index),
{
    let len = cells.len() as int;
    lemma_mod_add_multiples_vanish(index, len);
    lemma_mod_sub_multiples_vanish(index, len);
    assert(len + index == index + len && -len + index == index - len);
}

} // verus!

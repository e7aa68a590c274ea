use automat_one_d::automaton::{Automaton, AutomatonError};
use automat_one_d::ring::Ring;

fn cells(text: &str) -> Vec<char> {
    text.chars().collect()
}

fn automaton(text: &str, rule: usize, k: usize) -> Automaton {
    Automaton::new(&cells(text), rule, k).unwrap()
}

fn last(a: &Automaton) -> String {
    a.get_last().configuration.iter().collect()
}

fn table_value(a: &Automaton) -> usize {
    let mut value: usize = 0;
    for (i, c) in a.rules.iter().enumerate() {
        if *c == '1' {
            value += 1 << i;
        }
    }
    value
}

#[test]
fn new_keeps_base_as_first_generation() {
    let a = automaton("000001", 30, 3);
    assert_eq!(a.generations.len(), 1);
    assert_eq!(last(&a), "000001");
    assert_eq!(a.rule, 30);
    assert_eq!(a.neighborhood, 3);
}

#[test]
fn new_rejects_zero_neighborhood() {
    assert_eq!(
        Automaton::new(&cells("0001"), 0, 0).err(),
        Some(AutomatonError::InvalidNeighborhood)
    );
}

#[test]
fn new_rejects_neighborhood_beyond_word() {
    let k = usize::BITS as usize;
    assert_eq!(
        Automaton::new(&cells("0001"), 1, k).err(),
        Some(AutomatonError::InvalidNeighborhood)
    );
}

#[test]
fn new_rejects_empty_configuration() {
    assert_eq!(
        Automaton::new(&Vec::new(), 30, 3).err(),
        Some(AutomatonError::EmptyConfiguration)
    );
}

#[test]
fn new_rejects_rule_too_large() {
    assert_eq!(
        Automaton::new(&cells("0001"), 256, 3).err(),
        Some(AutomatonError::InvalidRule)
    );
    assert_eq!(
        Automaton::new(&cells("0001"), 16, 2).err(),
        Some(AutomatonError::InvalidRule)
    );
    assert_eq!(
        Automaton::new(&cells("0001"), 4, 1).err(),
        Some(AutomatonError::InvalidRule)
    );
}

#[test]
fn new_accepts_largest_rule() {
    assert!(Automaton::new(&cells("0001"), 255, 3).is_ok());
    assert!(Automaton::new(&cells("0001"), 15, 2).is_ok());
    assert!(Automaton::new(&cells("0001"), usize::MAX, 7).is_ok());
}

#[test]
fn neighborhood_is_checked_before_configuration() {
    assert_eq!(
        Automaton::new(&Vec::new(), 1000, 0).err(),
        Some(AutomatonError::InvalidNeighborhood)
    );
    assert_eq!(
        Automaton::new(&Vec::new(), 1000, 3).err(),
        Some(AutomatonError::EmptyConfiguration)
    );
}

#[test]
fn rule_30_table() {
    let a = automaton("0", 30, 3);
    assert_eq!(a.rules, cells("01111000"));
}

#[test]
fn rule_table_has_power_of_two_entries() {
    for k in 1..7 {
        let a = automaton("0", 1, k);
        assert_eq!(a.rules.len(), 1 << k);
    }
}

#[test]
fn rule_table_reads_back_to_rule() {
    for rule in 0..256 {
        let a = automaton("0", rule, 3);
        assert_eq!(table_value(&a), rule);
    }
    for rule in 0..16 {
        let a = automaton("0", rule, 2);
        assert_eq!(table_value(&a), rule);
    }
    let a = automaton("0", 0xdead_beef, 5);
    assert_eq!(table_value(&a), 0xdead_beef);
}

#[test]
fn next_gen_rule_30() {
    let mut a = automaton("0001000", 30, 3);
    a.next_gen();
    assert_eq!(a.generations.len(), 2);
    assert_eq!(last(&a), "0011100");
    a.next_gen();
    assert_eq!(last(&a), "0110010");
}

#[test]
fn next_gen_wraps_around() {
    let mut a = automaton("1000000", 30, 3);
    a.next_gen();
    assert_eq!(last(&a), "1100001");
}

#[test]
fn next_gen_even_neighborhood_of_two() {
    // rule 6: the successor is the exclusive or of cells i and i + 1
    let mut a = automaton("0011", 6, 2);
    a.next_gen();
    assert_eq!(last(&a), "0101");
}

#[test]
fn next_gen_even_neighborhood_of_four() {
    // only the neighborhood 0010, cells i - 1 .. i + 2, gives an active cell
    let mut a = automaton("0001000", 4, 4);
    a.next_gen();
    assert_eq!(last(&a), "0010000");
}

#[test]
fn next_gen_neighborhood_of_one() {
    let mut a = automaton("0110", 1, 1);
    a.next_gen();
    assert_eq!(last(&a), "1001");
}

#[test]
fn next_gen_neighborhood_wider_than_ring() {
    // neighborhood of five cells on a ring of two: cells i-2 .. i+2
    let mut a = automaton("10", 1 << 0b01010, 5);
    a.next_gen();
    assert_eq!(last(&a), "01");
}

#[test]
fn next_gen_is_deterministic() {
    let mut a = automaton("0010110", 110, 3);
    let mut b = automaton("0010110", 110, 3);
    for _ in 0..5 {
        a.next_gen();
        b.next_gen();
        assert!(a.get_last() == b.get_last());
    }
}

#[test]
fn state_already_generated_detects_period_two() {
    // rule 1 with neighborhood 1 inverts each cell
    let mut a = automaton("000001", 1, 1);
    assert!(!a.state_already_generated());
    a.next_gen();
    assert_eq!(last(&a), "111110");
    assert!(!a.state_already_generated());
    a.next_gen();
    assert_eq!(last(&a), "000001");
    assert!(a.state_already_generated());
}

#[test]
fn state_already_generated_identity_rule() {
    let mut a = automaton("010011", 204, 3);
    a.next_gen();
    assert!(a.state_already_generated());
}

#[test]
fn is_00000001_single_generation() {
    let a = automaton("000010", 240, 3);
    assert!(!a.is_00000001());
}

#[test]
fn is_00000001_shift_forward() {
    // rule 240: each cell takes the value of its left neighbour
    let mut a = automaton("000010", 240, 3);
    a.next_gen();
    assert_eq!(last(&a), "000001");
    assert!(a.is_00000001());
}

#[test]
fn is_00000001_shift_backward() {
    // rule 170: each cell takes the value of its right neighbour
    let mut a = automaton("000001", 170, 3);
    a.next_gen();
    assert_eq!(last(&a), "000010");
    assert!(!a.is_00000001());
}

#[test]
fn is_00000001_two_active_cells() {
    // rule 252: a cell is active where it or its left neighbour was
    let mut a = automaton("000010", 252, 3);
    a.next_gen();
    assert_eq!(last(&a), "000011");
    assert!(!a.is_00000001());
}

#[test]
fn render_rule_zero() {
    let a = automaton("000001", 0, 3);
    let expected = String::from("Rule : 0\n")
        + " | 111 | 110 | 101 | 100 | 011 | 010 | 001 | 000 | \n"
        + " |  0  |  0  |  0  |  0  |  0  |  0  |  0  |  0  | \n"
        + "\ngenerations:\n"
        + "| 0 | 0 | 0 | 0 | 0 | 1 | \n";
    assert_eq!(a.render(), expected);
}

#[test]
fn render_rule_30_after_one_step() {
    let mut a = automaton("010", 30, 3);
    a.next_gen();
    let expected = String::from("Rule : 30\n")
        + " | 111 | 110 | 101 | 100 | 011 | 010 | 001 | 000 | \n"
        + " |  0  |  0  |  0  |  1  |  1  |  1  |  1  |  0  | \n"
        + "\ngenerations:\n"
        + "| 0 | 1 | 0 | \n"
        + "| 1 | 1 | 1 | \n";
    assert_eq!(a.render(), expected);
}

#[test]
fn render_even_neighborhood() {
    let a = automaton("01", 6, 2);
    let expected = String::from("Rule : 6\n")
        + " | 11 | 10 | 01 | 00 | \n"
        + " | 0  | 1  | 1  | 0  | \n"
        + "\ngenerations:\n"
        + "| 0 | 1 | \n";
    assert_eq!(a.render(), expected);
}

#[test]
fn render_neighborhood_of_one() {
    let a = automaton("1", 2, 1);
    let expected = String::from("Rule : 2\n")
        + " | 1 | 0 | \n"
        + " | 1 | 0 | \n"
        + "\ngenerations:\n"
        + "| 1 | \n";
    assert_eq!(a.render(), expected);
}

#[test]
fn get_last_is_newest_generation() {
    let mut a = automaton("0001000", 30, 3);
    a.next_gen();
    let expected = Ring::from(&cells("0011100"));
    assert!(*a.get_last() == expected);
}

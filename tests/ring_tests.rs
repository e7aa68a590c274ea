use automat_one_d::ring::Ring;

fn ring(text: &str) -> Ring {
    let cells: Vec<char> = text.chars().collect();
    Ring::from(&cells)
}

#[test]
fn new_ring_is_empty() {
    let r = Ring::new();
    assert_eq!(r.len(), 0);
    assert_eq!(r.size(), 0);
}

#[test]
fn from_copies_cells_in_order() {
    let r = ring("0110");
    assert_eq!(r.configuration, vec!['0', '1', '1', '0']);
    assert_eq!(r.size(), 4);
}

#[test]
fn push_appends_at_the_end() {
    let mut r = Ring::new();
    r.push(&'1');
    r.push(&'0');
    assert_eq!(r.configuration, vec!['1', '0']);
}

#[test]
fn get_inside_range() {
    let r = ring("abc");
    assert_eq!(*r.get(0), 'a');
    assert_eq!(*r.get(1), 'b');
    assert_eq!(*r.get(2), 'c');
}

#[test]
fn get_wraps_negative_and_past_end() {
    let r = ring("abc");
    assert_eq!(*r.get(-1), 'c');
    assert_eq!(*r.get(3), 'a');
    assert_eq!(*r.get(-3), 'a');
    assert_eq!(*r.get(-4), 'c');
    assert_eq!(*r.get(7), 'b');
    assert_eq!(*r.get(-8), 'b');
}

#[test]
fn get_at_extreme_indices() {
    let r = ring("abc");
    // -2^31 = -715827883 * 3 + 1
    assert_eq!(*r.get(i32::MIN), 'b');
    // 2^31 - 1 = 715827882 * 3 + 1
    assert_eq!(*r.get(i32::MAX), 'b');
}

#[test]
fn get_is_periodic_in_length() {
    let r = ring("01101");
    let len = r.size();
    for index in -20..20 {
        assert_eq!(r.get(index), r.get(index + len));
        assert_eq!(r.get(index), r.get(index - len));
    }
}

#[test]
fn get_on_single_cell() {
    let r = ring("1");
    assert_eq!(*r.get(-5), '1');
    assert_eq!(*r.get(9), '1');
}

#[test]
fn equality_is_structural() {
    assert!(ring("0101") == ring("0101"));
    assert!(ring("0101") != ring("0110"));
    assert!(ring("010") != ring("0100"));
    assert!(Ring::new() == ring(""));
}

#[test]
fn render_lists_cells() {
    assert_eq!(ring("01").render(), "| 0 | 1 | ");
    assert_eq!(Ring::new().render(), "| ");
}

#[test]
fn is_binary_checks_every_cell() {
    assert!(ring("0110").is_binary());
    assert!(ring("").is_binary());
    assert!(!ring("01x0").is_binary());
}

#[test]
fn sole_active_position_finds_single_cell() {
    assert_eq!(ring("000001").sole_active_position(), Some(5));
    assert_eq!(ring("100000").sole_active_position(), Some(0));
    assert_eq!(ring("000000").sole_active_position(), None);
    assert_eq!(ring("010010").sole_active_position(), None);
}

#[test]
fn shift_detector_moved_one_step_forward() {
    assert!(ring("000001").is_00000001_shifting_from(&ring("000010")));
    assert!(ring("010000").is_00000001_shifting_from(&ring("100000")));
}

#[test]
fn shift_detector_moved_one_step_backward() {
    // seed 000001 followed by 000010: the cell moved from 5 to 4
    assert!(!ring("000010").is_00000001_shifting_from(&ring("000001")));
}

#[test]
fn shift_detector_moved_two_steps() {
    assert!(!ring("000100").is_00000001_shifting_from(&ring("000001")));
    assert!(!ring("000001").is_00000001_shifting_from(&ring("000100")));
}

#[test]
fn shift_detector_two_active_cells() {
    assert!(!ring("000011").is_00000001_shifting_from(&ring("000001")));
    assert!(!ring("000001").is_00000001_shifting_from(&ring("000011")));
}

#[test]
fn shift_detector_no_active_cell() {
    assert!(!ring("000000").is_00000001_shifting_from(&ring("000001")));
    assert!(!ring("000001").is_00000001_shifting_from(&ring("000000")));
}

#[test]
fn shift_detector_does_not_wrap() {
    assert!(!ring("100000").is_00000001_shifting_from(&ring("000001")));
}

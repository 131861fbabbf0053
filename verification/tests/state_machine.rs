use data_link_layer_algos::state_machine::BitSM;
use data_link_layer_algos::{nodes, steps};

#[test]
fn register_starts_all_zero() {
    let bit_sm = BitSM::new();
    assert_eq!(bit_sm.get_register_size(), 6);
    assert_eq!(bit_sm.get_current_state(), "000000");
}

#[test]
fn register_shifts_newest_bit_to_front() {
    let mut bit_sm = BitSM::new();
    bit_sm.shift_register('1');
    assert_eq!(bit_sm.get_current_state(), "100000");
    bit_sm.shift_register('0');
    assert_eq!(bit_sm.get_current_state(), "010000");
    bit_sm.shift_register('1');
    assert_eq!(bit_sm.get_current_state(), "101000");
}

#[test]
fn table_is_deterministic() {
    let table1 = BitSM::new().states_map();
    let table2 = BitSM::new().states_map();
    assert_eq!(table1.transitions.len(), table2.transitions.len());
    for (a, b) in table1.transitions.iter().zip(table2.transitions.iter()) {
        assert_eq!(a.next_if_zero, b.next_if_zero);
        assert_eq!(a.next_if_one, b.next_if_one);
        assert_eq!(a.output_if_zero, b.output_if_zero);
        assert_eq!(a.output_if_one, b.output_if_one);
    }
}

#[test]
fn table_covers_every_state_with_two_distinct_transitions() {
    let table = BitSM::new().states_map();
    assert_eq!(table.transitions.len(), 64);
    for entry in table.transitions.iter() {
        assert_ne!(entry.next_if_zero, entry.next_if_one);
        assert!(entry.next_if_zero < 64);
        assert!(entry.next_if_one < 64);
        assert_eq!(entry.output_if_zero.len(), 2);
        assert_eq!(entry.output_if_one.len(), 2);
    }
}

#[test]
fn zero_state_transitions_emit_expected_outputs() {
    let table = BitSM::new().states_map();
    let zero_entry = &table.transitions[0];
    assert_eq!(zero_entry.next_if_zero, 0);
    assert_eq!(zero_entry.next_if_one, 32);
    assert_eq!(zero_entry.output_if_zero, "00");
    assert_eq!(zero_entry.output_if_one, "11");
}

#[test]
fn path_steps_hold_their_fields() {
    let step = steps::StateStep::new(3, String::from("101000"));
    assert_eq!(step.sum_hd, 3);
    assert_eq!(step.state, "101000");
    let node = nodes::StateStep::new(0, String::from("000000"));
    assert_eq!(node.sum_hd, 0);
    assert_eq!(node.state, "000000");
    assert!(node.next.is_none());
}

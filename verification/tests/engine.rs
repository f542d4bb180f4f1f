//! Behavioural tests of the tag-cycling engine.

use flow::output::Output;

fn output_with(focused_tags: Option<u32>, occupied_tags: Vec<u8>) -> Output {
    Output {
        name: String::from("eDP-1"),
        focused: false,
        urgent_tags: None,
        focused_tags,
        occupied_tags,
    }
}

#[test]
fn next_wraps_highest_bit_to_lowest() {
    let o = output_with(Some(0x100), vec![]);
    assert_eq!(o.cycle_tags("next", &9, false), 0x001);
}

#[test]
fn previous_wraps_lowest_bit_to_highest() {
    let o = output_with(Some(0x001), vec![]);
    assert_eq!(o.cycle_tags("previous", &9, false), 0x100);
}

#[test]
fn plain_next_shifts_up() {
    let o = output_with(Some(0b0010), vec![]);
    assert_eq!(o.cycle_tags("next", &9, false), 0b0100);
}

#[test]
fn plain_previous_shifts_down() {
    let o = output_with(Some(0b0100), vec![]);
    assert_eq!(o.cycle_tags("previous", &9, false), 0b0010);
}

#[test]
fn plain_round_trip_restores_selection() {
    let m: u32 = 0b01011;
    let o = output_with(Some(m), vec![]);
    let forward = o.cycle_tags("next", &5, false);
    let back = output_with(Some(forward), vec![]);
    assert_eq!(back.cycle_tags("previous", &5, false), m);
}

#[test]
fn plain_round_trip_with_full_width() {
    let m: u32 = 0x8000_0001;
    let o = output_with(Some(m), vec![]);
    let forward = o.cycle_tags("next", &32, false);
    assert_eq!(forward, 0b0011);
    let back = output_with(Some(forward), vec![]);
    assert_eq!(back.cycle_tags("previous", &32, false), m);
}

#[test]
fn empty_selection_stays_empty() {
    let o = output_with(Some(0), vec![]);
    assert_eq!(o.cycle_tags("next", &9, false), 0);
    assert_eq!(o.cycle_tags("previous", &9, false), 0);
}

#[test]
fn missing_selection_counts_as_empty() {
    let o = output_with(None, vec![]);
    assert_eq!(o.cycle_tags("next", &9, false), 0);
}

#[test]
fn unknown_direction_yields_empty_selection() {
    let o = output_with(Some(0b0010), vec![]);
    assert_eq!(o.cycle_tags("sideways", &9, false), 0);
    assert_eq!(o.cycle_tags("sideways", &9, true), 0);
}

#[test]
fn single_occupied_tag_falls_back_to_plain_rotation() {
    // Only tag 2 is occupied, so the skip flag has no effect.
    let o = output_with(Some(1 << 2), vec![0b0000_0100]);
    assert_eq!(o.cycle_tags("next", &5, true), 1 << 3);
}

#[test]
fn skip_moves_to_nearest_occupied_above() {
    // Tags 0, 2 and 4 are occupied; the cursor on 2 hops to 4.
    let o = output_with(Some(1 << 2), vec![0b0001_0101]);
    assert_eq!(o.cycle_tags("next", &5, true), 1 << 4);
}

#[test]
fn skip_moves_to_nearest_occupied_below() {
    let o = output_with(Some(1 << 2), vec![0b0001_0101]);
    assert_eq!(o.cycle_tags("previous", &5, true), 1 << 0);
}

#[test]
fn skip_next_wraps_and_hops_to_first_occupied() {
    // Tags 2 and 4 are occupied; from 4 the wrap target 0 is empty, so one
    // more hop lands on 2.
    let o = output_with(Some(1 << 4), vec![0b0001_0100]);
    assert_eq!(o.cycle_tags("next", &5, true), 1 << 2);
}

#[test]
fn skip_previous_wraps_and_hops_to_last_occupied() {
    // Tags 0 and 2 are occupied; from 0 the wrap target 4 is empty, so one
    // more hop lands on 2.
    let o = output_with(Some(1 << 0), vec![0b0000_0101]);
    assert_eq!(o.cycle_tags("previous", &5, true), 1 << 2);
}

#[test]
fn skip_moves_each_set_bit_independently() {
    // Cursors on 0 and 2 hop to 2 and 4; bit 0 is cleared, bit 2 stays as
    // another cursor's destination.
    let o = output_with(Some(0b00101), vec![0b0001_0101]);
    assert_eq!(o.cycle_tags("next", &5, true), 0b10100);
}

#[test]
fn skip_collapses_cursors_sharing_a_destination() {
    // Tags 0 and 3 are occupied; cursors on 0 and 1 both land on 3.
    let o = output_with(Some(0b0011), vec![0b0000_1001]);
    assert_eq!(o.cycle_tags("next", &4, true), 0b1000);
}

#[test]
fn skip_keeps_a_bit_that_becomes_a_destination() {
    // Tags 2 and 3 are occupied; the cursor on 0 lands on 2 while the
    // cursor on 2 moves to 3, so bit 2 survives.
    let o = output_with(Some(0b0101), vec![0b0000_1100]);
    assert_eq!(o.cycle_tags("next", &4, true), 0b1100);
}

#[test]
fn decode_reports_set_bits_below_the_tag_count() {
    let o = output_with(None, vec![0b0000_0101]);
    assert_eq!(o.find_set_bits_positions(8), vec![0, 2]);
    assert_eq!(o.find_set_bits_positions(2), vec![0]);
}

#[test]
fn decode_of_empty_encoding_is_empty() {
    let o = output_with(None, vec![]);
    assert_eq!(o.find_set_bits_positions(9), Vec::<u8>::new());
}

#[test]
fn decode_counts_bits_across_bytes() {
    let o = output_with(None, vec![0x00, 0b0000_0011]);
    assert_eq!(o.find_set_bits_positions(12), vec![8, 9]);
    assert_eq!(o.find_set_bits_positions(9), vec![8]);
}

#[test]
fn decode_is_bounded_by_the_tag_count() {
    let o = output_with(None, vec![0xff]);
    assert_eq!(o.find_set_bits_positions(3), vec![0, 1, 2]);
}

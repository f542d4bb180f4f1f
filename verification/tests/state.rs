//! Tests of the mirrored output state and its queries.

use flow::client::find_output;
use flow::options::Arguments;
use flow::output::Output;

fn plain_output(name: &str) -> Output {
    Output::new(String::from(name))
}

#[test]
fn new_output_starts_unfocused_and_empty() {
    let o = plain_output("HDMI-A-1");
    assert_eq!(o.name, "HDMI-A-1");
    assert!(!o.focused);
    assert!(o.urgent_tags.is_none());
    assert!(o.focused_tags.is_none());
    assert!(o.occupied_tags.is_empty());
}

#[test]
fn toggle_reports_equal_selections() {
    let mut o = plain_output("eDP-1");
    o.focused_tags = Some(0b0110);
    assert!(o.toggle_tags(&0b0110));
}

#[test]
fn toggle_reports_differing_selections() {
    let mut o = plain_output("eDP-1");
    o.focused_tags = Some(0b0110);
    assert!(!o.toggle_tags(&0b0101));
}

#[test]
fn toggle_without_a_reported_selection_is_false() {
    let o = plain_output("eDP-1");
    assert!(!o.toggle_tags(&0));
}

#[test]
fn find_output_picks_the_first_focused() {
    let mut a = plain_output("eDP-1");
    let mut b = plain_output("HDMI-A-1");
    a.focused = false;
    b.focused = true;
    let outputs = vec![a, b];
    assert_eq!(find_output(&outputs, "focused"), Some(1));
}

#[test]
fn find_output_picks_an_urgent_output() {
    let mut a = plain_output("eDP-1");
    a.urgent_tags = Some(0b0100);
    let outputs = vec![a, plain_output("HDMI-A-1")];
    assert_eq!(find_output(&outputs, "urgent"), Some(0));
}

#[test]
fn find_output_rejects_unknown_states() {
    let mut a = plain_output("eDP-1");
    a.focused = true;
    let outputs = vec![a];
    assert_eq!(find_output(&outputs, "sleeping"), None);
}

#[test]
fn find_output_reports_no_match() {
    let outputs = vec![plain_output("eDP-1")];
    assert_eq!(find_output(&outputs, "focused"), None);
}

#[test]
fn arguments_carry_the_cycle_options() {
    let args = Arguments::CycleTags {
        direction: String::from("next"),
        n_tags: Some(9),
        skip_unoccupied: true,
    };
    match args {
        Arguments::CycleTags { direction, n_tags, skip_unoccupied } => {
            assert_eq!(direction, "next");
            assert_eq!(n_tags, Some(9));
            assert!(skip_unoccupied);
        },
        _ => panic!("expected a cycle command"),
    }
}

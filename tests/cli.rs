use sworker::{Action, Cli};

#[test]
fn value_variants_lists_directions_then_positions() {
    let v = Action::value_variants();
    assert_eq!(v.len(), 11);
    assert_eq!(v[0], Action::Next);
    assert_eq!(v[1], Action::Prev);
    for (i, a) in v[2..].iter().enumerate() {
        assert_eq!(*a, Action::Position(i as i32 + 1));
    }
}

#[test]
fn possible_values_name_each_action() {
    assert_eq!(Action::Next.to_possible_value(), Some("next"));
    assert_eq!(Action::Prev.to_possible_value(), Some("prev"));
    assert_eq!(Action::Position(1).to_possible_value(), Some("1"));
    assert_eq!(Action::Position(9).to_possible_value(), Some("9"));
    assert_eq!(Action::Position(0).to_possible_value(), None);
    assert_eq!(Action::Position(10).to_possible_value(), None);
}

#[test]
fn cli_carries_its_action() {
    let c = Cli::Focus { action: Action::Position(3) };
    assert_eq!(c, Cli::Focus { action: Action::Position(3) });
    assert_ne!(c, Cli::Move { action: Action::Position(3) });
}

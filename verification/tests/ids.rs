use boba::id::HandleMapId;

#[test]
fn tags_count_up_and_go_round() {
    let mut ids = HandleMapId::new();
    assert_eq!(ids.generate(), 0);
    assert_eq!(ids.generate(), 1);
    for _ in 2..=u16::MAX {
        ids.generate();
    }
    assert_eq!(ids.generate(), 0);
}

#[test]
fn counter_starts_where_it_is_told() {
    let mut ids = HandleMapId::starting_at(u16::MAX - 1);
    assert_eq!(ids.generate(), u16::MAX - 1);
    assert_eq!(ids.generate(), u16::MAX);
    assert_eq!(ids.generate(), 0);
}

use trantor::interrupt::{Groups, SLOTS};

#[test]
fn a_registered_group_is_running_until_it_is_unregistered() {
    let mut g = Groups::new();
    assert!(g.running().is_empty());
    let a = g.register(41);
    let b = g.register(42);
    assert_eq!((a, b), (Some(0), Some(1)));
    assert_eq!(g.running(), vec![41, 42]);
    g.unregister(a);
    assert_eq!(g.running(), vec![42]);
    assert_eq!(g.register(43), Some(0), "a freed slot is taken again");
    g.unregister(None);
    assert_eq!(g.running(), vec![43, 42]);
}

#[test]
fn a_full_table_registers_nothing() {
    let mut g = Groups::new();
    for i in 0..SLOTS {
        assert_eq!(g.register(100 + i as i32), Some(i));
    }
    assert_eq!(g.register(7), None);
    assert_eq!(g.running().len(), SLOTS);
}

use neat::InnovationCounter;

#[test]
fn counter_test() {
    let mut counter = InnovationCounter::new(0);

    let conn1 = counter.get_connection_innovation(1, 2);
    let conn2 = counter.get_connection_innovation(1, 2);
    let conn3 = counter.get_connection_innovation(2, 3);

    assert_eq!(conn1, conn2);

    assert!(conn1 < conn3);

    let neur1 = counter.get_neuron_innovation();
    let neur2 = counter.get_neuron_innovation();

    assert!(neur1 < neur2);
}

#[test]
fn a_pair_keeps_its_marking_whatever_is_asked_in_between() {
    let mut counter = InnovationCounter::new(10);
    let first = counter.get_connection_innovation(3, 4);
    assert_eq!(first, 10);
    assert_eq!(counter.get_neuron_innovation(), 11);
    assert_eq!(counter.get_connection_innovation(4, 5), 12);
    assert_eq!(counter.get_connection_innovation(3, 4), 10);
    assert_eq!(counter.get_neuron_innovation(), 13);
    assert_eq!(counter.get_connection_innovation(3, 4), 10);
    assert_eq!(counter.get_connection_innovation(4, 5), 12);
}

#[test]
fn the_two_directions_of_a_pair_are_two_pairs() {
    let mut counter = InnovationCounter::new(0);
    let forth = counter.get_connection_innovation(1, 2);
    let back = counter.get_connection_innovation(2, 1);
    assert_eq!(forth, 0);
    assert_eq!(back, 1);
    assert_eq!(counter.get_connection_innovation(1, 2), 0);
    assert_eq!(counter.get_connection_innovation(2, 1), 1);
}

#[test]
fn pairs_that_share_a_neuron_or_a_sum_are_told_apart() {
    let mut counter = InnovationCounter::new(0);
    assert_eq!(counter.get_connection_innovation(0, 1), 0);
    assert_eq!(counter.get_connection_innovation(1, 0), 1);
    assert_eq!(counter.get_connection_innovation(0, u32::MAX), 2);
    assert_eq!(counter.get_connection_innovation(u32::MAX, 0), 3);
    assert_eq!(counter.get_connection_innovation(u32::MAX, u32::MAX), 4);
    assert_eq!(counter.get_connection_innovation(0, 0), 5);
    assert_eq!(counter.get_connection_innovation(0, u32::MAX), 2);
    assert_eq!(counter.get_connection_innovation(u32::MAX, u32::MAX), 4);
}

#[test]
fn neuron_markings_rise_above_all_earlier_markings() {
    let mut counter = InnovationCounter::new(7);
    let mut last = counter.get_connection_innovation(0, 1);
    assert_eq!(last, 7);
    for _ in 0..5 {
        let marking = counter.get_neuron_innovation();
        assert!(marking > last);
        last = marking;
    }
    assert_eq!(last, 12);
    let connection = counter.get_connection_innovation(1, 0);
    assert_eq!(connection, 13);
    assert!(counter.get_neuron_innovation() > connection);
}

#[test]
fn the_authority_tells_what_it_can_still_answer() {
    let mut counter = InnovationCounter::new(u32::MAX - 2);
    assert!(counter.has_room(0));
    assert!(counter.has_room(2));
    assert!(!counter.has_room(3));
    assert!(counter.can_connect(1, 2));
    assert_eq!(counter.get_connection_innovation(1, 2), u32::MAX - 2);
    assert_eq!(counter.get_neuron_innovation(), u32::MAX - 1);
    assert_eq!(counter.next_marking(), u32::MAX);
    assert!(counter.has_room(0));
    assert!(!counter.has_room(1));
    // a pair that has a marking can still be answered, another cannot
    assert!(counter.can_connect(1, 2));
    assert!(!counter.can_connect(2, 1));
    assert_eq!(counter.get_connection_innovation(1, 2), u32::MAX - 2);
    assert_eq!(counter.next_marking(), u32::MAX);
}

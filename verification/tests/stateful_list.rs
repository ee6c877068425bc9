use plc_relay::stateful_list::StatefulList;

#[test]
fn with_items_selects_nothing() {
    let list = StatefulList::with_items(vec![1u8, 2, 3]);
    assert_eq!(list.selected, None);
    assert_eq!(list.items, vec![1, 2, 3]);
}

#[test]
fn next_starts_at_first_and_wraps() {
    let mut list = StatefulList::with_items(vec!['a', 'b', 'c']);
    list.next();
    assert_eq!(list.selected, Some(0));
    list.next();
    list.next();
    assert_eq!(list.selected, Some(2));
    list.next();
    assert_eq!(list.selected, Some(0));
}

#[test]
fn previous_wraps_to_last() {
    let mut list = StatefulList::with_items(vec!['a', 'b', 'c']);
    list.previous();
    assert_eq!(list.selected, Some(0));
    list.previous();
    assert_eq!(list.selected, Some(2));
    list.previous();
    assert_eq!(list.selected, Some(1));
}

#[test]
fn previous_undoes_next_on_every_item() {
    for start in 0..4usize {
        let mut list = StatefulList::with_items(vec![0u8; 4]);
        list.selected = Some(start);
        list.next();
        list.previous();
        assert_eq!(list.selected, Some(start));
        list.previous();
        list.next();
        assert_eq!(list.selected, Some(start));
    }
}

#[test]
fn unselect_clears() {
    let mut list = StatefulList::with_items(vec![5u8]);
    list.next();
    list.unselect();
    assert_eq!(list.selected, None);
}

#[test]
fn push_select_selects_past_the_end() {
    let mut list = StatefulList::with_items(vec![1u8]);
    list.push_select(2);
    assert_eq!(list.items, vec![1, 2]);
    assert_eq!(list.selected, Some(2));
    // From there, forward wraps to the first item and back reaches the last.
    let mut forward = StatefulList { selected: list.selected, items: list.items.clone() };
    forward.next();
    assert_eq!(forward.selected, Some(0));
    list.previous();
    assert_eq!(list.selected, Some(1));
}

#[test]
fn next_on_empty_list_with_nothing_selected() {
    let mut list: StatefulList<u8> = StatefulList::with_items(vec![]);
    list.next();
    assert_eq!(list.selected, Some(0));
}

#[test]
fn previous_on_empty_list_steps_back_from_a_later_position() {
    let mut list: StatefulList<u8> = StatefulList::with_items(vec![]);
    list.selected = Some(2);
    list.previous();
    assert_eq!(list.selected, Some(1));
}

#[test]
fn next_returns_to_the_start_after_as_many_calls_as_items() {
    for start in 0..5usize {
        let mut list = StatefulList::with_items(vec![0u8; 5]);
        list.selected = Some(start);
        for _ in 0..5 {
            list.next();
        }
        assert_eq!(list.selected, Some(start));
    }
}

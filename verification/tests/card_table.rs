use comet::card_table::{card_index, modify_cards, CARD_AGED, CARD_CLEAN, CARD_DIRTY, CARD_SIZE};

#[test]
fn aging_dirty_cards_reports_each_change() {
    let mut cards = vec![CARD_DIRTY, CARD_DIRTY, CARD_CLEAN, CARD_DIRTY, CARD_DIRTY];
    let modified = modify_cards(&mut cards, 1, 4, |c| if c == CARD_DIRTY { CARD_AGED } else { CARD_CLEAN });
    assert_eq!(cards, vec![CARD_DIRTY, CARD_AGED, CARD_CLEAN, CARD_AGED, CARD_DIRTY]);
    assert_eq!(modified, vec![(1, CARD_DIRTY, CARD_AGED), (3, CARD_DIRTY, CARD_AGED)]);
}

#[test]
fn empty_card_range_changes_nothing() {
    let mut cards = vec![CARD_DIRTY; 3];
    let modified = modify_cards(&mut cards, 2, 2, |_| CARD_CLEAN);
    assert_eq!(cards, vec![CARD_DIRTY; 3]);
    assert!(modified.is_empty());
}

#[test]
fn card_of_an_address() {
    let heap = 64 * CARD_SIZE;
    assert_eq!(card_index(heap, heap), 0);
    assert_eq!(card_index(heap, heap + CARD_SIZE - 1), 0);
    assert_eq!(card_index(heap, heap + 2 * CARD_SIZE + 5), 2);
}

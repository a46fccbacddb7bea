//! A card table: one byte per card of the heap, set by the write barrier and
//! aged or cleaned by the collector.
use vstd::prelude::*;

verus! {

/// A card covers `2^CARD_SHIFT` bytes of the heap.
pub const CARD_SHIFT: usize = 10;
/// Bytes of heap covered by one card.
pub const CARD_SIZE: usize = 1024;
/// A card with no recorded write.
pub const CARD_CLEAN: u8 = 0x0;
/// A card with a recorded write.
pub const CARD_DIRTY: u8 = 0x70;
/// A card dirtied before the last collection.
pub const CARD_AGED: u8 = 0x6f;

/// The cards among `begin .. end` whose value changed from `old` to `new`,
/// in increasing order, each with its old and new value.
pub open spec fn changed_cards(old: Seq<u8>, new: Seq<u8>, begin: int, end: int) -> Seq<(usize, u8, u8)>
    decreases end - begin,
{
    if end <= begin {
        Seq::empty()
    } else {
        let rest = changed_cards(old, new, begin, end - 1);
        if old[end - 1] != new[end - 1] {
            rest.push(((end - 1) as usize, old[end - 1], new[end - 1]))
        } else {
            rest
        }
    }
}

/// Index of the card that covers heap address `addr`, for a heap starting at
/// `heap_begin`.
pub fn card_index(heap_begin: usize, addr: usize) -> (r: usize)
    requires
        heap_begin <= addr,
    ensures
        r == (addr as int / CARD_SIZE as int) - (heap_begin as int / CARD_SIZE as int),
{
    let a = addr >> CARD_SHIFT;
    let b = heap_begin >> CARD_SHIFT;
    proof {
        assert(a == addr / 1024) by (bit_vector)
            requires a == addr >> 10usize;
        assert(b == heap_begin / 1024) by (bit_vector)
            requires b == heap_begin >> 10usize;
        vstd::arithmetic::div_mod::lemma_div_is_ordered(heap_begin as int, addr as int, 1024);
    }
    a - b
}

/// Passes each card of `begin .. end` to `visitor` and stores what it
/// returns; returns the cards that changed, in order, each with its old and
/// new value. The other cards are left alone.
pub fn modify_cards<F: FnMut(u8) -> u8>(cards: &mut Vec<u8>, begin: usize, end: usize, mut visitor: F) -> (modified: Vec<(usize, u8, u8)>)
    requires
        begin <= end <= old(cards)@.len(),
        forall|x: u8| #[trigger] visitor.requires((x,)),
    ensures
        final(cards)@.len() == old(cards)@.len(),
        forall|i: int| 0 <= i < old(cards)@.len() && !(begin <= i < end) ==> #[trigger] final(cards)@[i] == old(cards)@[i],
        forall|i: int| begin <= i < end ==> visitor.ensures((old(cards)@[i],), #[trigger] final(cards)@[i]),
        modified@ == changed_cards(old(cards)@, final(cards)@, begin as int, end as int),
{
    let ghost orig = cards@;
    let ghost f0 = visitor;
    let mut modified: Vec<(usize, u8, u8)> = Vec::new();
    let mut i = begin;
    while i < end
        invariant
            begin <= i <= end <= orig.len(),
            cards@.len() == orig.len(),
            visitor == f0,
            forall|x: u8| #[trigger] visitor.requires((x,)),
            forall|j: int| 0 <= j < orig.len() && !(begin <= j < i) ==> #[trigger] cards@[j] == orig[j],
            forall|j: int| begin <= j < i ==> f0.ensures((orig[j],), #[trigger] cards@[j]),
            modified@ == changed_cards(orig, cards@, begin as int, i as int),
        decreases end - i,
    {
        let expected = cards[i];
        let new_value = visitor(expected);
        let ghost before = cards@;
        cards.set(i, new_value);
        proof {
            lemma_changed_cards_frame(orig, before, cards@, begin as int, i as int);
        }
        if expected != new_value {
            modified.push((i, expected, new_value));
        }
        i += 1;
    }
    modified
}

/// Changing cards at or past `end` does not change which cards before it
/// changed.
proof fn lemma_changed_cards_frame(old: Seq<u8>, a: Seq<u8>, b: Seq<u8>, begin: int, end: int)
    requires
        a.len() == b.len(),
        end <= a.len(),
        forall|j: int| begin <= j < end ==> #[trigger] a[j] == b[j],
    ensures
        changed_cards(old, a, begin, end) == changed_cards(old, b, begin, end),
    decreases end - begin,
{
    if begin < end {
        lemma_changed_cards_frame(old, a, b, begin, end - 1);
    }
}

} // verus!

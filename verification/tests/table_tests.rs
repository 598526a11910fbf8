//! Tests of the table, the four move semantics, and rendering.

use roblocks::{Table, TableError};

/// A freshly created table of size 5 renders as five lines, each slot
/// holding exactly its own block.
#[test]
fn new_table_renders_initial_state() {
    let table = Table::new(5);
    assert_eq!(table.render(), "0: 0\n1: 1\n2: 2\n3: 3\n4: 4\n");
}

/// Rendering twice with no intervening mutation produces identical output.
#[test]
fn render_is_idempotent() {
    let mut table = Table::new(5);
    assert_eq!(table.render(), table.render());
    let mv = table.block(2).unwrap();
    mv.onto(&mut table, 0).unwrap();
    assert_eq!(table.render(), table.render());
}

/// Multi-digit identifiers render in full decimal.
#[test]
fn render_multi_digit_identifiers() {
    let table = Table::new(12);
    let text = table.render();
    let lines: Vec<&str> = text.lines().collect();
    assert_eq!(lines.len(), 12);
    assert_eq!(lines[9], "9: 9");
    assert_eq!(lines[10], "10: 10");
    assert_eq!(lines[11], "11: 11");
}

/// Moving block 2 onto block 0 on a fresh table of size 5: block 2 was
/// alone, so slot 0 becomes [0, 2] and slot 2 becomes empty.
#[test]
fn block_onto_simple() {
    let mut table = Table::new(5);
    let mv = table.block(2).unwrap();
    mv.onto(&mut table, 0).unwrap();
    assert_eq!(table.render(), "0: 0 2\n1: 1\n2:\n3: 3\n4: 4\n");
    assert_eq!(table.slot_len(0), 2);
    assert_eq!(table.slot_at(0, 0), 0);
    assert_eq!(table.slot_at(0, 1), 2);
    assert_eq!(table.slot_len(2), 0);
}

/// With slot 0 = [0,1,2] and slot 3 = [3], `pile(1).over(3)` moves the run
/// [1,2] atop slot 3: slot 0 = [0], slot 3 = [3,1,2].
#[test]
fn pile_over_moves_run() {
    let mut table = Table::new(5);
    let mv = table.block(1).unwrap();
    mv.over(&mut table, 0).unwrap();
    let mv = table.block(2).unwrap();
    mv.over(&mut table, 1).unwrap();
    assert_eq!(table.render(), "0: 0 1 2\n1:\n2:\n3: 3\n4: 4\n");
    let mv = table.pile(1).unwrap();
    mv.over(&mut table, 3).unwrap();
    assert_eq!(table.render(), "0: 0\n1:\n2:\n3: 3 1 2\n4: 4\n");
}

/// With slot 0 = [0,1,2] and slot 4 = [4], `block(0).onto(4)` first returns
/// blocks 1 and 2 to their home slots, then moves block 0 atop block 4.
#[test]
fn block_onto_returns_blocks_home() {
    let mut table = Table::new(5);
    let mv = table.block(1).unwrap();
    mv.over(&mut table, 0).unwrap();
    let mv = table.block(2).unwrap();
    mv.over(&mut table, 1).unwrap();
    let mv = table.block(0).unwrap();
    mv.onto(&mut table, 4).unwrap();
    assert_eq!(table.render(), "0:\n1: 1\n2: 2\n3: 3\n4: 4 0\n");
}

/// Moving onto a destination clears the blocks above the destination block
/// first, returning each to its home slot.
#[test]
fn onto_clears_destination() {
    let mut table = Table::new(5);
    let mv = table.block(3).unwrap();
    mv.over(&mut table, 4).unwrap();
    // slot 4 = [4, 3]; moving 1 onto 4 pops 3 back home first.
    let mv = table.block(1).unwrap();
    mv.onto(&mut table, 4).unwrap();
    assert_eq!(table.render(), "0: 0\n1:\n2: 2\n3: 3\n4: 4 1\n");
}

/// A destination that resolves to the source's own slot changes nothing.
#[test]
fn same_slot_move_is_noop() {
    let mut table = Table::new(5);
    let mv = table.block(1).unwrap();
    mv.over(&mut table, 0).unwrap();
    let before = table.render();
    // Block 1 sits in slot 0: every combination aimed back at slot 0 is a no-op.
    let mv = table.pile(1).unwrap();
    assert_eq!(mv.over(&mut table, 0), Ok(()));
    let mv = table.block(1).unwrap();
    assert_eq!(mv.onto(&mut table, 0), Ok(()));
    let mv = table.pile(0).unwrap();
    assert_eq!(mv.onto(&mut table, 1), Ok(()));
    assert_eq!(table.render(), before);
}

/// An unknown source identifier fails with `BlockNotFound` and the table is
/// left unchanged.
#[test]
fn unknown_source_fails() {
    let mut table = Table::new(5);
    let before = table.render();
    assert_eq!(table.pile(99).err(), Some(TableError::BlockNotFound(99)));
    assert_eq!(table.block(99).err(), Some(TableError::BlockNotFound(99)));
    let mv = table.block(1).unwrap();
    assert_eq!(mv.over(&mut table, 7), Err(TableError::BlockNotFound(7)));
    assert_eq!(table.render(), before);
}

/// An unknown destination identifier fails with `BlockNotFound` and the
/// table is left unchanged, even after blocks have been rearranged.
#[test]
fn unknown_destination_fails() {
    let mut table = Table::new(5);
    let mv = table.block(2).unwrap();
    mv.onto(&mut table, 0).unwrap();
    let before = table.render();
    let mv = table.pile(2).unwrap();
    assert_eq!(mv.onto(&mut table, 99), Err(TableError::BlockNotFound(99)));
    let mv = table.block(0).unwrap();
    assert_eq!(mv.over(&mut table, 99), Err(TableError::BlockNotFound(99)));
    assert_eq!(table.render(), before);
}

/// After any sequence of moves, every block identifier appears in exactly
/// one slot exactly once.
#[test]
fn every_block_appears_exactly_once() {
    let mut table = Table::new(6);
    let moves: [(bool, usize, bool, usize); 5] = [
        (false, 1, false, 0),
        (true, 0, true, 2),
        (false, 3, true, 1),
        (true, 2, false, 5),
        (false, 4, true, 0),
    ];
    for &(src_pile, src, dst_block, dst) in moves.iter() {
        let mv = if src_pile { table.pile(src).unwrap() } else { table.block(src).unwrap() };
        if dst_block {
            mv.onto(&mut table, dst).unwrap();
        } else {
            mv.over(&mut table, dst).unwrap();
        }
        let mut counts = [0usize; 6];
        for s in 0..table.num_slots() {
            for i in 0..table.slot_len(s) {
                let b = table.slot_at(s, i);
                assert!(b < 6);
                counts[b] += 1;
            }
        }
        assert_eq!(counts, [1, 1, 1, 1, 1, 1]);
    }
}

/// A `Pile` destination names a block by membership: the run lands on the
/// current top of whatever pile contains that block, whether or not the
/// named block is that pile's bottom.
#[test]
fn pile_destination_resolves_by_membership() {
    let mut table = Table::new(5);
    let mv = table.block(1).unwrap();
    mv.over(&mut table, 0).unwrap();
    // Slot 0 = [0, 1]; block 1 is not the bottom, yet "over 1" targets slot 0.
    let mv = table.block(3).unwrap();
    mv.over(&mut table, 1).unwrap();
    assert_eq!(table.render(), "0: 0 1 3\n1:\n2: 2\n3:\n4: 4\n");
}

/// The smallest table holds a single block; moving it anywhere resolves to
/// its own slot and changes nothing.
#[test]
fn smallest_table() {
    let mut table = Table::new(1);
    assert_eq!(table.render(), "0: 0\n");
    let mv = table.pile(0).unwrap();
    assert_eq!(mv.over(&mut table, 0), Ok(()));
    assert_eq!(table.render(), "0: 0\n");
}

/// `find_pile` reports the current position of a block, and `None` for an
/// identifier the table does not hold.
#[test]
fn find_pile_locates_blocks() {
    let mut table = Table::new(4);
    assert_eq!(table.find_pile(3), Some((3, 0)));
    let mv = table.block(3).unwrap();
    mv.over(&mut table, 1).unwrap();
    assert_eq!(table.find_pile(3), Some((1, 1)));
    assert_eq!(table.find_pile(4), None);
}

//! The pending move: completing a relocation against a destination.

use vstd::prelude::*;

use crate::table::{
    after_detach, lemma_after_detach_facts, lemma_located_num, lemma_onto_sem_wf,
    lemma_over_sem_wf, lemma_return_home_push, lemma_wf_elem_bound, located_at, num_of, on_table,
    onto_sem, over_sem, return_home, run_of, Table, TableError,
};

verus! {

/// A pending move: the contiguous run of blocks being relocated, recorded as
/// the source slot, the height where the run begins, and whether the whole
/// pile from there up moves or just the single block.
#[derive(Clone, Copy, Debug, PartialEq, Eq, Structural)]
pub struct Stack {
    /// The slot the run moves out of.
    pub from_slot: usize,
    /// The height within the source slot where the run begins.
    pub from_idx: usize,
    /// Whether the whole pile from `from_idx` up moves (`true`), or only the
    /// single block there, with everything above it first returned home.
    pub move_pile: bool,
}

impl Stack {
    /// The recorded position exists on the given table.
    pub open spec fn valid_for(self, t: Seq<Seq<usize>>) -> bool {
        (self.from_slot as int) < t.len() && (self.from_idx as int) < t[self.from_slot as int].len()
    }

    /// Move the run to the top of the stack containing block `to`: append it
    /// as-is, disturbing nothing at the destination. A destination in the
    /// source slot is a no-op; an unknown destination fails, the table
    /// unchanged.
    pub fn over(self, table: &mut Table, to: usize) -> (r: Result<(), TableError>)
        requires
            old(table).wf(),
            self.valid_for(old(table)@),
        ensures
            final(table).wf(),
            match r {
                Ok(_) => exists|d: int, j: int|
                    located_at(old(table)@, to, d, j) && final(table)@ == over_sem(
                        old(table)@,
                        self.from_slot as int,
                        self.from_idx as int,
                        self.move_pile,
                        d,
                    ),
                Err(e) => e == TableError::BlockNotFound(to) && !on_table(old(table)@, to)
                    && final(table)@ == old(table)@,
            },
    {
        let ghost t0 = table@;
        let ghost s = self.from_slot as int;
        let ghost i = self.from_idx as int;
        match table.find_pile(to) {
            None => Err(TableError::BlockNotFound(to)),
            Some((to_slot, to_idx)) => {
                if to_slot != self.from_slot {
                    let moving = self.get_moving_pile(table);
                    proof {
                        lemma_after_detach_facts(t0, s, i, self.move_pile);
                    }
                    table.slot_append(to_slot, moving);
                    proof {
                        lemma_over_sem_wf(t0, s, i, self.move_pile, to_slot as int);
                        assert(located_at(t0, to, to_slot as int, to_idx as int) && table@
                            == over_sem(t0, s, i, self.move_pile, to_slot as int));
                    }
                    Ok(())
                } else {
                    proof {
                        assert(located_at(t0, to, to_slot as int, to_idx as int) && table@
                            == over_sem(t0, s, i, self.move_pile, to_slot as int));
                    }
                    Ok(())
                }
            },
        }
    }

    /// Move the run directly onto block `to`: first return home every block
    /// above `to` in its slot, then append the run on top of it. A
    /// destination in the source slot is a no-op; an unknown destination
    /// fails, the table unchanged.
    pub fn onto(self, table: &mut Table, to: usize) -> (r: Result<(), TableError>)
        requires
            old(table).wf(),
            self.valid_for(old(table)@),
        ensures
            final(table).wf(),
            match r {
                Ok(_) => exists|d: int, j: int|
                    located_at(old(table)@, to, d, j) && final(table)@ == onto_sem(
                        old(table)@,
                        self.from_slot as int,
                        self.from_idx as int,
                        self.move_pile,
                        d,
                        j,
                    ),
                Err(e) => e == TableError::BlockNotFound(to) && !on_table(old(table)@, to)
                    && final(table)@ == old(table)@,
            },
    {
        let ghost t0 = table@;
        let ghost s = self.from_slot as int;
        let ghost i = self.from_idx as int;
        match table.find_pile(to) {
            None => Err(TableError::BlockNotFound(to)),
            Some((to_slot, to_idx)) => {
                if to_slot != self.from_slot {
                    let moving = self.get_moving_pile(table);
                    let ghost t1 = table@;
                    proof {
                        lemma_after_detach_facts(t0, s, i, self.move_pile);
                        assert(t1[to_slot as int].len() >= t0[to_slot as int].len());
                    }
                    // Reading the slot height bounds it by usize, so the
                    // index arithmetic below cannot overflow.
                    let _dest_height = table.slot_len(to_slot);
                    let above = table.slot_split_off(to_slot, to_idx + 1);
                    proof {
                        assert(above@ == t1[to_slot as int].skip(to_idx + 1));
                        assert forall|k: int| 0 <= k < above@.len() implies (
                        #[trigger] above@[k] as int) < table@.len() by {
                            assert(above@[k] == t1[to_slot as int][to_idx + 1 + k]);
                            lemma_located_num(t1, above@[k], to_slot as int, to_idx + 1 + k);
                            assert(num_of(t0, above@[k]) >= 1);
                        }
                    }
                    self.return_blocks(table, above);
                    proof {
                        assert(table@ == return_home(
                            t1.update(to_slot as int, t1[to_slot as int].take(to_idx + 1)),
                            t1[to_slot as int].skip(to_idx + 1),
                        ));
                    }
                    table.slot_append(to_slot, moving);
                    proof {
                        lemma_onto_sem_wf(t0, s, i, self.move_pile, to_slot as int, to_idx as int);
                        assert(located_at(t0, to, to_slot as int, to_idx as int) && table@
                            == onto_sem(t0, s, i, self.move_pile, to_slot as int, to_idx as int));
                    }
                    Ok(())
                } else {
                    proof {
                        assert(located_at(t0, to, to_slot as int, to_idx as int) && table@
                            == onto_sem(t0, s, i, self.move_pile, to_slot as int, to_idx as int));
                    }
                    Ok(())
                }
            },
        }
    }

    /// Return each block of `blocks` to its home slot, bottom of the batch
    /// first.
    fn return_blocks(&self, table: &mut Table, blocks: Vec<usize>)
        requires
            forall|k: int|
                0 <= k < blocks@.len() ==> (#[trigger] blocks@[k] as int) < old(table)@.len(),
        ensures
            final(table)@ == return_home(old(table)@, blocks@),
            final(table)@.len() == old(table)@.len(),
    {
        let ghost t0 = table@;
        let n = blocks.len();
        let mut idx: usize = 0;
        while idx < n
            invariant
                n == blocks@.len(),
                idx <= n,
                forall|k: int| 0 <= k < blocks@.len() ==> (#[trigger] blocks@[k] as int) < t0.len(),
                table@ == return_home(t0, blocks@.take(idx as int)),
                table@.len() == t0.len(),
            decreases n - idx,
        {
            let b = blocks[idx];
            proof {
                lemma_return_home_push(t0, blocks@.take(idx as int), b);
                assert(blocks@.take(idx as int).push(b) =~= blocks@.take(idx as int + 1));
            }
            table.slot_push(b, b);
            idx += 1;
        }
        proof {
            assert(blocks@.take(n as int) =~= blocks@);
        }
    }

    /// Detach the moving run from the source slot, handing it back: the
    /// whole pile from the recorded height up for a pile-move; for a
    /// block-move, the blocks above the moved block are first returned home
    /// and the run is the single block.
    fn get_moving_pile(&self, table: &mut Table) -> (run: Vec<usize>)
        requires
            old(table).wf(),
            self.valid_for(old(table)@),
        ensures
            final(table)@ == after_detach(
                old(table)@,
                self.from_slot as int,
                self.from_idx as int,
                self.move_pile,
            ),
            run@ == run_of(
                old(table)@,
                self.from_slot as int,
                self.from_idx as int,
                self.move_pile,
            ),
    {
        let ghost t0 = table@;
        let ghost s = self.from_slot as int;
        let ghost i = self.from_idx as int;
        if self.move_pile {
            table.slot_split_off(self.from_slot, self.from_idx)
        } else {
            // Reading the slot height bounds it by usize, so the index
            // arithmetic below cannot overflow.
            let _height = table.slot_len(self.from_slot);
            let above = table.slot_split_off(self.from_slot, self.from_idx + 1);
            proof {
                assert(above@ == t0[s].skip(i + 1));
                assert forall|k: int| 0 <= k < above@.len() implies (#[trigger] above@[k] as int)
                    < table@.len() by {
                    assert(above@[k] == t0[s][i + 1 + k]);
                    lemma_wf_elem_bound(t0, s, i + 1 + k);
                }
            }
            let run = table.slot_split_off(self.from_slot, self.from_idx);
            proof {
                assert(t0[s].take(i + 1).take(i) =~= t0[s].take(i));
                assert(table@ =~= t0.update(s, t0[s].take(i)));
                assert(run@ =~= seq![t0[s][i]]);
            }
            self.return_blocks(table, above);
            run
        }
    }
}

} // verus!

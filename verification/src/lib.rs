//! A verified Blocks-World simulator.
//!
//! A robotic arm manipulates numbered blocks arranged in stacks on a table of
//! fixed size `n`. Block `b`'s home is slot `b`; a freshly created table has
//! every block alone on its home slot. Blocks are relocated by four move
//! semantics (block/pile source, onto/over destination); blocks displaced by a
//! move are returned to their home slots. The table upholds the invariant that
//! every block identifier in `0..n` appears in exactly one slot, exactly once.

use vstd::prelude::*;

pub mod command;
pub mod table;

pub use command::{Command, CommandError, Target};
pub use table::stack::Stack;
pub use table::{Table, TableError};

verus! {

/// What a move request does to the table, given the resolved positions of
/// its source block (slot `s`, height `i`) and destination block (slot `d`,
/// height `j`): a `Pile` source moves the whole pile from the source block
/// up, a `Block` source just the block; a `Block` destination is handled
/// `onto` (blocks above it first returned home), a `Pile` destination `over`
/// (the run lands on the pile's current top).
pub open spec fn move_sem(
    t: Seq<Seq<usize>>,
    from: Target,
    to: Target,
    s: int,
    i: int,
    d: int,
    j: int,
) -> Seq<Seq<usize>> {
    if to.is_pile() {
        table::over_sem(t, s, i, from.is_pile(), d)
    } else {
        table::onto_sem(t, s, i, from.is_pile(), d, j)
    }
}

/// The robot receives validated move requests and manipulates the blocks on
/// the table. The surrounding driver owns command reading and printing; the
/// robot owns the world state and the move logic.
pub struct Robot {
    table: Table,
}

impl Robot {
    /// The world state: one sequence of block identifiers per slot, bottom to top.
    pub closed spec fn view(&self) -> Seq<Seq<usize>> {
        self.table@
    }

    /// The robot's table satisfies the table invariant.
    pub open spec fn wf(&self) -> bool {
        table::table_wf(self@)
    }

    /// Create a robot whose table has `size` slots, block `i` alone on slot `i`.
    pub fn new(size: usize) -> (r: Robot)
        requires
            size >= 1,
        ensures
            r@ == table::init_table(size as nat),
            r.wf(),
    {
        Robot { table: Table::new(size) }
    }

    /// Render the table as text; see [`Table::render`]. Reads the table
    /// without mutating it.
    pub fn render(&self) -> (out: String)
        ensures
            out@ == table::render_spec(self@),
    {
        self.table.render()
    }

    /// Execute a validated move request: resolve the source into a pending
    /// move, then complete it against the destination.
    ///
    /// Succeeds exactly when both named blocks are on the table; the table
    /// then becomes [`move_sem`] of their resolved positions. Fails with
    /// `BlockNotFound` for the first unresolvable identifier, source checked
    /// first, the table left unchanged.
    pub fn handle_move(&mut self, from: Target, to: Target) -> (r: Result<(), TableError>)
        requires
            old(self).wf(),
        ensures
            final(self).wf(),
            match r {
                Ok(_) => exists|s: int, i: int, d: int, j: int|
                    table::located_at(old(self)@, from.id(), s, i) && table::located_at(
                        old(self)@,
                        to.id(),
                        d,
                        j,
                    ) && final(self)@ == move_sem(old(self)@, from, to, s, i, d, j),
                Err(e) => final(self)@ == old(self)@ && if !table::on_table(
                    old(self)@,
                    from.id(),
                ) {
                    e == TableError::BlockNotFound(from.id())
                } else {
                    !table::on_table(old(self)@, to.id()) && e == TableError::BlockNotFound(
                        to.id(),
                    )
                },
            },
    {
        let ghost t0 = self@;
        let resolved = match from {
            Target::Pile(id) => self.table.pile(id),
            Target::Block(id) => self.table.block(id),
        };
        let mv = match resolved {
            Ok(mv) => mv,
            Err(e) => {
                return Err(e);
            },
        };
        let ghost s = mv.from_slot as int;
        let ghost i = mv.from_idx as int;
        match to {
            Target::Block(id) => {
                let r = mv.onto(&mut self.table, id);
                match r {
                    Ok(_) => {
                        proof {
                            let (d, j): (int, int) = choose|d: int, j: int|
                                table::located_at(t0, to.id(), d, j) && self@ == table::onto_sem(
                                    t0,
                                    s,
                                    i,
                                    from.is_pile(),
                                    d,
                                    j,
                                );
                            assert(table::located_at(t0, from.id(), s, i) && table::located_at(
                                t0,
                                to.id(),
                                d,
                                j,
                            ) && self@ == move_sem(t0, from, to, s, i, d, j));
                        }
                        Ok(())
                    },
                    Err(e) => Err(e),
                }
            },
            Target::Pile(id) => {
                let r = mv.over(&mut self.table, id);
                match r {
                    Ok(_) => {
                        proof {
                            let (d, j): (int, int) = choose|d: int, j: int|
                                table::located_at(t0, to.id(), d, j) && self@ == table::over_sem(
                                    t0,
                                    s,
                                    i,
                                    from.is_pile(),
                                    d,
                                );
                            assert(table::located_at(t0, from.id(), s, i) && table::located_at(
                                t0,
                                to.id(),
                                d,
                                j,
                            ) && self@ == move_sem(t0, from, to, s, i, d, j));
                        }
                        Ok(())
                    },
                    Err(e) => Err(e),
                }
            },
        }
    }
}

} // verus!

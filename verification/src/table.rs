//! The table of blocks: world state, its invariant, and the move semantics.
//!
//! The table is modelled as a sequence of slots, each an ordered stack of
//! block identifiers (bottom to top). The table invariant [`table_wf`] states
//! that every block in `0..n` appears in exactly one slot exactly once, no
//! other value appears at all, and a non-empty slot carries its own block at
//! the bottom. The four move semantics are given as pure functions on the
//! model ([`over_sem`], [`onto_sem`]), which the executable operations in
//! [`stack`] are proved to implement.

use vstd::prelude::*;

pub mod stack;

use self::stack::Stack;

verus! {

/// A move that referenced a block the table does not hold.
#[derive(Clone, Copy, Debug, PartialEq, Eq, Structural)]
pub enum TableError {
    /// The named identifier is outside `0..n` (or, were the invariant ever
    /// violated, absent); the table is left unchanged.
    BlockNotFound(usize),
}

// ---------------------------------------------------------------------------
// The model: counting blocks and the table invariant
// ---------------------------------------------------------------------------

/// How often `b` occurs in one slot's stack.
pub open spec fn seq_count(s: Seq<usize>, b: usize) -> nat
    decreases s.len(),
{
    if s.len() == 0 {
        0
    } else {
        seq_count(s.drop_last(), b) + if s.last() == b {
            1nat
        } else {
            0nat
        }
    }
}

/// How often `b` occurs on the whole table.
pub open spec fn num_of(t: Seq<Seq<usize>>, b: usize) -> nat
    decreases t.len(),
{
    if t.len() == 0 {
        0
    } else {
        num_of(t.drop_last(), b) + seq_count(t.last(), b)
    }
}

/// A non-empty slot carries its own block at the bottom.
///
/// This holds of every table the operations can produce: a block enters a
/// foreign slot only on top of an existing pile, and re-enters its home slot
/// only when displaced, which (by the count invariant) can happen only while
/// its home slot is empty.
pub open spec fn bottoms_ok(t: Seq<Seq<usize>>) -> bool {
    forall|s: int| 0 <= s < t.len() && #[trigger] t[s].len() > 0 ==> t[s][0] as int == s
}

/// The table invariant: `n` slots, every block in `0..n` on the table exactly
/// once, nothing else on it, and every non-empty slot bottomed by its own block.
pub open spec fn table_wf(t: Seq<Seq<usize>>) -> bool {
    &&& t.len() > 0
    &&& forall|b: usize| (b as int) < t.len() ==> #[trigger] num_of(t, b) == 1
    &&& forall|b: usize| (b as int) >= t.len() ==> #[trigger] num_of(t, b) == 0
    &&& bottoms_ok(t)
}

/// Block `b` sits in slot `s` at height `i`.
pub open spec fn located_at(t: Seq<Seq<usize>>, b: usize, s: int, i: int) -> bool {
    0 <= s < t.len() && 0 <= i < t[s].len() && t[s][i] == b
}

/// Block `b` sits somewhere on the table.
pub open spec fn on_table(t: Seq<Seq<usize>>, b: usize) -> bool {
    exists|s: int, i: int| located_at(t, b, s, i)
}

/// The freshly created table: slot `i` holds exactly block `i`.
pub open spec fn init_table(n: nat) -> Seq<Seq<usize>> {
    Seq::new(n, |i: int| seq![i as usize])
}

// ---------------------------------------------------------------------------
// The model: the move semantics
// ---------------------------------------------------------------------------

/// Push block `b` onto its home slot, slot `b`.
pub open spec fn push_home(t: Seq<Seq<usize>>, b: usize) -> Seq<Seq<usize>> {
    t.update(b as int, t[b as int].push(b))
}

/// Return each of `blocks` to its home slot, in order.
pub open spec fn return_home(t: Seq<Seq<usize>>, blocks: Seq<usize>) -> Seq<Seq<usize>>
    decreases blocks.len(),
{
    if blocks.len() == 0 {
        t
    } else {
        return_home(push_home(t, blocks[0]), blocks.drop_first())
    }
}

/// The run of blocks a pending move relocates: the whole pile from height `i`
/// up for a pile-move, the single block at height `i` for a block-move.
pub open spec fn run_of(t: Seq<Seq<usize>>, s: int, i: int, whole_pile: bool) -> Seq<usize> {
    if whole_pile {
        t[s].skip(i)
    } else {
        seq![t[s][i]]
    }
}

/// The table after the moving run has been detached from source slot `s`:
/// the slot is cut down to height `i`; for a block-move the blocks that sat
/// above the moved block are returned home.
pub open spec fn after_detach(t: Seq<Seq<usize>>, s: int, i: int, whole_pile: bool) -> Seq<
    Seq<usize>,
> {
    let trimmed = t.update(s, t[s].take(i));
    if whole_pile {
        trimmed
    } else {
        return_home(trimmed, t[s].skip(i + 1))
    }
}

/// Complete a move `over` destination slot `d`: detach the run and append it
/// atop slot `d`'s current stack. A destination resolving to the source slot
/// leaves the table unchanged.
pub open spec fn over_sem(t: Seq<Seq<usize>>, s: int, i: int, whole_pile: bool, d: int) -> Seq<
    Seq<usize>,
> {
    if d == s {
        t
    } else {
        let t1 = after_detach(t, s, i, whole_pile);
        t1.update(d, t1[d] + run_of(t, s, i, whole_pile))
    }
}

/// Complete a move `onto` the destination block at height `j` of slot `d`:
/// detach the run, return home every block above the destination block, then
/// append the run directly on top of it. A destination resolving to the
/// source slot leaves the table unchanged.
pub open spec fn onto_sem(
    t: Seq<Seq<usize>>,
    s: int,
    i: int,
    whole_pile: bool,
    d: int,
    j: int,
) -> Seq<Seq<usize>> {
    if d == s {
        t
    } else {
        let t1 = after_detach(t, s, i, whole_pile);
        let cleared = return_home(t1.update(d, t1[d].take(j + 1)), t1[d].skip(j + 1));
        cleared.update(d, cleared[d] + run_of(t, s, i, whole_pile))
    }
}

// ---------------------------------------------------------------------------
// Counting lemmas
// ---------------------------------------------------------------------------

pub proof fn lemma_seq_count_concat(a: Seq<usize>, c: Seq<usize>, b: usize)
    ensures
        seq_count(a + c, b) == seq_count(a, b) + seq_count(c, b),
    decreases c.len(),
{
    if c.len() == 0 {
        assert(a + c =~= a);
    } else {
        assert((a + c).drop_last() =~= a + c.drop_last());
        assert((a + c).last() == c.last());
        lemma_seq_count_concat(a, c.drop_last(), b);
    }
}

/// Splitting a stack at any height splits its count.
pub proof fn lemma_seq_count_split(s: Seq<usize>, i: int, b: usize)
    requires
        0 <= i <= s.len(),
    ensures
        seq_count(s, b) == seq_count(s.take(i), b) + seq_count(s.skip(i), b),
{
    assert(s =~= s.take(i) + s.skip(i));
    lemma_seq_count_concat(s.take(i), s.skip(i), b);
}

pub proof fn lemma_seq_count_index(s: Seq<usize>, i: int)
    requires
        0 <= i < s.len(),
    ensures
        seq_count(s, s[i]) >= 1,
    decreases s.len(),
{
    if i == s.len() - 1 {
    } else {
        assert(s.drop_last()[i] == s[i]);
        lemma_seq_count_index(s.drop_last(), i);
    }
}

pub proof fn lemma_seq_count_two(s: Seq<usize>, i1: int, i2: int)
    requires
        0 <= i1 < i2 < s.len(),
        s[i1] == s[i2],
    ensures
        seq_count(s, s[i1]) >= 2,
    decreases s.len(),
{
    if i2 == s.len() - 1 {
        assert(s.drop_last()[i1] == s[i1]);
        lemma_seq_count_index(s.drop_last(), i1);
    } else {
        assert(s.drop_last()[i1] == s[i1]);
        assert(s.drop_last()[i2] == s[i2]);
        lemma_seq_count_two(s.drop_last(), i1, i2);
    }
}

/// Replacing one slot changes the table count by the difference of the slot counts.
pub proof fn lemma_num_update(t: Seq<Seq<usize>>, s: int, v: Seq<usize>, b: usize)
    requires
        0 <= s < t.len(),
    ensures
        num_of(t.update(s, v), b) + seq_count(t[s], b) == num_of(t, b) + seq_count(v, b),
    decreases t.len(),
{
    let u = t.update(s, v);
    if s == t.len() - 1 {
        assert(u.drop_last() =~= t.drop_last());
        assert(u.last() == v);
    } else {
        assert(u.drop_last() =~= t.drop_last().update(s, v));
        assert(u.last() == t.last());
        lemma_num_update(t.drop_last(), s, v, b);
    }
}

/// The table count is at least any one slot's count.
pub proof fn lemma_num_ge_slot(t: Seq<Seq<usize>>, s: int, b: usize)
    requires
        0 <= s < t.len(),
    ensures
        num_of(t, b) >= seq_count(t[s], b),
    decreases t.len(),
{
    if s == t.len() - 1 {
        assert(t.last() == t[s]);
    } else {
        assert(t.drop_last()[s] == t[s]);
        lemma_num_ge_slot(t.drop_last(), s, b);
    }
}

/// The table count is at least the sum of any two distinct slots' counts.
pub proof fn lemma_num_ge_two_slots(t: Seq<Seq<usize>>, s1: int, s2: int, b: usize)
    requires
        0 <= s1 < s2 < t.len(),
    ensures
        num_of(t, b) >= seq_count(t[s1], b) + seq_count(t[s2], b),
    decreases t.len(),
{
    if s2 == t.len() - 1 {
        assert(t.last() == t[s2]);
        assert(t.drop_last()[s1] == t[s1]);
        lemma_num_ge_slot(t.drop_last(), s1, b);
    } else {
        assert(t.drop_last()[s1] == t[s1]);
        assert(t.drop_last()[s2] == t[s2]);
        lemma_num_ge_two_slots(t.drop_last(), s1, s2, b);
    }
}

/// A located block counts at least once.
pub proof fn lemma_located_num(t: Seq<Seq<usize>>, b: usize, s: int, i: int)
    requires
        located_at(t, b, s, i),
    ensures
        num_of(t, b) >= 1,
{
    lemma_seq_count_index(t[s], i);
    lemma_num_ge_slot(t, s, b);
}

/// On a well-formed table every block value on it is a valid identifier.
pub proof fn lemma_wf_elem_bound(t: Seq<Seq<usize>>, s: int, i: int)
    requires
        table_wf(t),
        0 <= s < t.len(),
        0 <= i < t[s].len(),
    ensures
        (t[s][i] as int) < t.len(),
{
    lemma_located_num(t, t[s][i], s, i);
}

/// On a well-formed table a block's location is unique: the count invariant
/// forbids a second occurrence anywhere.
pub proof fn lemma_located_unique(
    t: Seq<Seq<usize>>,
    b: usize,
    s1: int,
    i1: int,
    s2: int,
    i2: int,
)
    requires
        table_wf(t),
        located_at(t, b, s1, i1),
        located_at(t, b, s2, i2),
    ensures
        s1 == s2 && i1 == i2,
{
    lemma_located_num(t, b, s1, i1);
    if s1 == s2 {
        if i1 < i2 {
            lemma_seq_count_two(t[s1], i1, i2);
            lemma_num_ge_slot(t, s1, b);
        } else if i2 < i1 {
            lemma_seq_count_two(t[s1], i2, i1);
            lemma_num_ge_slot(t, s1, b);
        }
    } else {
        lemma_seq_count_index(t[s1], i1);
        lemma_seq_count_index(t[s2], i2);
        if s1 < s2 {
            lemma_num_ge_two_slots(t, s1, s2, b);
        } else {
            lemma_num_ge_two_slots(t, s2, s1, b);
        }
    }
}

pub proof fn lemma_seq_count_singleton(x: usize, b: usize)
    ensures
        seq_count(seq![x], b) == if x == b {
            1nat
        } else {
            0nat
        },
{
    assert(seq![x].drop_last() =~= Seq::<usize>::empty());
    assert(seq_count(Seq::<usize>::empty(), b) == 0);
}

pub proof fn lemma_seq_count_push(s: Seq<usize>, x: usize, b: usize)
    ensures
        seq_count(s.push(x), b) == seq_count(s, b) + if x == b {
            1nat
        } else {
            0nat
        },
{
    assert(s.push(x).drop_last() =~= s);
    assert(s.push(x).last() == x);
}

pub proof fn lemma_seq_count_first(s: Seq<usize>, b: usize)
    requires
        s.len() > 0,
    ensures
        seq_count(s, b) == seq_count(s.drop_first(), b) + if s[0] == b {
            1nat
        } else {
            0nat
        },
{
    assert(s =~= seq![s[0]] + s.drop_first());
    lemma_seq_count_concat(seq![s[0]], s.drop_first(), b);
    lemma_seq_count_singleton(s[0], b);
}

// ---------------------------------------------------------------------------
// Lemmas on returning blocks home
// ---------------------------------------------------------------------------

/// What returning a batch of blocks home does: each block's table count
/// grows by its count in the batch, every slot keeps its old stack as a
/// prefix, and the bottom-block condition is preserved.
pub proof fn lemma_return_home_facts(t: Seq<Seq<usize>>, bs: Seq<usize>)
    requires
        forall|k: int| 0 <= k < bs.len() ==> (#[trigger] bs[k] as int) < t.len(),
    ensures
        return_home(t, bs).len() == t.len(),
        forall|b: usize| #[trigger] num_of(return_home(t, bs), b) == num_of(t, b) + seq_count(bs, b),
        forall|s2: int| 0 <= s2 < t.len() ==> #[trigger] return_home(t, bs)[s2].len() >= t[s2].len(),
        forall|s2: int, k: int|
            0 <= s2 < t.len() && 0 <= k < t[s2].len() ==> #[trigger] return_home(t, bs)[s2][k]
                == t[s2][k],
        bottoms_ok(t) ==> bottoms_ok(return_home(t, bs)),
    decreases bs.len(),
{
    if bs.len() > 0 {
        let x = bs[0];
        let t1 = push_home(t, x);
        let rest = bs.drop_first();
        assert(t1.len() == t.len());
        assert(forall|k: int| 0 <= k < rest.len() ==> (#[trigger] rest[k] as int) < t1.len());
        lemma_return_home_facts(t1, rest);
        let r = return_home(t, bs);
        assert(r == return_home(t1, rest));
        assert forall|b: usize| true implies #[trigger] num_of(r, b) == num_of(t, b) + seq_count(
            bs,
            b,
        ) by {
            lemma_num_update(t, x as int, t[x as int].push(x), b);
            lemma_seq_count_push(t[x as int], x, b);
            lemma_seq_count_first(bs, b);
        }
        assert forall|s2: int, k: int|
            0 <= s2 < t.len() && 0 <= k < t[s2].len() implies #[trigger] r[s2][k] == t[s2][k] by {
            assert(t1[s2][k] == t[s2][k]);
            assert(t1[s2].len() >= t[s2].len());
        }
        assert forall|s2: int| 0 <= s2 < t.len() implies #[trigger] r[s2].len() >= t[s2].len() by {
            assert(t1[s2].len() >= t[s2].len());
        }
        if bottoms_ok(t) {
            assert(bottoms_ok(t1)) by {
                assert forall|s2: int|
                    0 <= s2 < t1.len() && #[trigger] t1[s2].len() > 0 implies t1[s2][0] as int
                    == s2 by {
                    if s2 == x as int {
                        if t[s2].len() > 0 {
                            assert(t1[s2][0] == t[s2][0]);
                        } else {
                            assert(t1[s2] == t[s2].push(x));
                        }
                    }
                }
            }
        }
    }
}

/// Slots that are nobody's home in the batch are untouched.
pub proof fn lemma_return_home_untouched(t: Seq<Seq<usize>>, bs: Seq<usize>, s: int)
    requires
        forall|k: int| 0 <= k < bs.len() ==> (#[trigger] bs[k] as int) < t.len(),
        forall|k: int| 0 <= k < bs.len() ==> (#[trigger] bs[k] as int) != s,
        0 <= s < t.len(),
    ensures
        return_home(t, bs)[s] == t[s],
    decreases bs.len(),
{
    if bs.len() > 0 {
        let t1 = push_home(t, bs[0]);
        lemma_return_home_untouched(t1, bs.drop_first(), s);
        assert(t1[s] == t[s]);
    }
}

/// A block of the batch that goes home to an empty slot, shared with no other
/// batch member, ends up as the sole block of that slot.
pub proof fn lemma_return_home_fresh(t: Seq<Seq<usize>>, bs: Seq<usize>, k0: int)
    requires
        forall|k: int| 0 <= k < bs.len() ==> (#[trigger] bs[k] as int) < t.len(),
        forall|k: int| 0 <= k < bs.len() && k != k0 ==> #[trigger] bs[k] != bs[k0],
        0 <= k0 < bs.len(),
        t[bs[k0] as int].len() == 0,
    ensures
        return_home(t, bs)[bs[k0] as int] == seq![bs[k0]],
    decreases bs.len(),
{
    let x = bs[k0];
    let t1 = push_home(t, bs[0]);
    let rest = bs.drop_first();
    if k0 == 0 {
        assert(t1[x as int] =~= seq![x]);
        assert(forall|k: int| 0 <= k < rest.len() ==> #[trigger] rest[k] != x);
        lemma_return_home_untouched(t1, rest, x as int);
    } else {
        assert(bs[0] != x);
        assert(t1[x as int] == t[x as int]);
        assert(forall|k: int| 0 <= k < rest.len() && k != k0 - 1 ==> #[trigger] rest[k] != rest[
            k0 - 1]);
        lemma_return_home_fresh(t1, rest, k0 - 1);
        assert(rest[k0 - 1] == x);
    }
}

/// Returning one more block home after a batch is one more home-push.
pub proof fn lemma_return_home_push(t: Seq<Seq<usize>>, bs: Seq<usize>, x: usize)
    ensures
        return_home(t, bs.push(x)) == push_home(return_home(t, bs), x),
    decreases bs.len(),
{
    if bs.len() == 0 {
        assert(bs.push(x) =~= seq![x]);
        assert(seq![x][0] == x);
        assert(seq![x].drop_first() =~= Seq::<usize>::empty());
        assert(return_home(t, seq![x]) == return_home(push_home(t, x), Seq::<usize>::empty()));
    } else {
        assert(bs.push(x)[0] == bs[0]);
        assert(bs.push(x).drop_first() =~= bs.drop_first().push(x));
        lemma_return_home_push(push_home(t, bs[0]), bs.drop_first(), x);
    }
}

// ---------------------------------------------------------------------------
// Lemmas on the move semantics
// ---------------------------------------------------------------------------

/// What detaching the moving run does: the table loses exactly the run,
/// every other slot keeps its old stack as a prefix, and the bottom-block
/// condition is preserved.
pub proof fn lemma_after_detach_facts(t: Seq<Seq<usize>>, s: int, i: int, whole_pile: bool)
    requires
        table_wf(t),
        0 <= s < t.len(),
        0 <= i < t[s].len(),
    ensures
        after_detach(t, s, i, whole_pile).len() == t.len(),
        forall|b: usize|
            #[trigger] num_of(after_detach(t, s, i, whole_pile), b) + seq_count(
                run_of(t, s, i, whole_pile),
                b,
            ) == num_of(t, b),
        forall|s2: int|
            0 <= s2 < t.len() && s2 != s ==> #[trigger] after_detach(t, s, i, whole_pile)[s2].len()
                >= t[s2].len(),
        forall|s2: int, k: int|
            0 <= s2 < t.len() && s2 != s && 0 <= k < t[s2].len() ==> #[trigger] after_detach(
                t,
                s,
                i,
                whole_pile,
            )[s2][k] == t[s2][k],
        bottoms_ok(after_detach(t, s, i, whole_pile)),
{
    let trimmed = t.update(s, t[s].take(i));
    assert(bottoms_ok(trimmed)) by {
        assert forall|s2: int|
            0 <= s2 < trimmed.len() && #[trigger] trimmed[s2].len() > 0 implies trimmed[s2][0]
            as int == s2 by {
            if s2 == s {
                assert(trimmed[s2][0] == t[s][0]);
            }
        }
    }
    if whole_pile {
        assert forall|b: usize| true implies #[trigger] num_of(after_detach(t, s, i, whole_pile), b)
            + seq_count(run_of(t, s, i, whole_pile), b) == num_of(t, b) by {
            lemma_num_update(t, s, t[s].take(i), b);
            lemma_seq_count_split(t[s], i, b);
        }
    } else {
        let aboves = t[s].skip(i + 1);
        assert forall|k: int| 0 <= k < aboves.len() implies (#[trigger] aboves[k] as int)
            < trimmed.len() by {
            assert(aboves[k] == t[s][i + 1 + k]);
            lemma_wf_elem_bound(t, s, i + 1 + k);
        }
        lemma_return_home_facts(trimmed, aboves);
        assert forall|b: usize| true implies #[trigger] num_of(after_detach(t, s, i, whole_pile), b)
            + seq_count(run_of(t, s, i, whole_pile), b) == num_of(t, b) by {
            lemma_num_update(t, s, t[s].take(i), b);
            lemma_seq_count_split(t[s], i, b);
            assert(t[s].skip(i) =~= seq![t[s][i]] + aboves);
            lemma_seq_count_concat(seq![t[s][i]], aboves, b);
            lemma_seq_count_singleton(t[s][i], b);
        }
        assert forall|s2: int, k: int|
            0 <= s2 < t.len() && s2 != s && 0 <= k < t[s2].len() implies #[trigger] after_detach(
            t,
            s,
            i,
            whole_pile,
        )[s2][k] == t[s2][k] by {
            assert(trimmed[s2][k] == t[s2][k]);
            assert(trimmed[s2].len() >= t[s2].len());
        }
    }
}

/// Completing a move `over` a destination slot other than the source keeps
/// every block count, and so preserves the table invariant.
pub proof fn lemma_over_sem_wf(t: Seq<Seq<usize>>, s: int, i: int, whole_pile: bool, d: int)
    requires
        table_wf(t),
        0 <= s < t.len(),
        0 <= i < t[s].len(),
        0 <= d < t.len(),
        t[d].len() > 0,
    ensures
        over_sem(t, s, i, whole_pile, d).len() == t.len(),
        forall|b: usize| #[trigger] num_of(over_sem(t, s, i, whole_pile, d), b) == num_of(t, b),
        table_wf(over_sem(t, s, i, whole_pile, d)),
{
    if d != s {
        let t1 = after_detach(t, s, i, whole_pile);
        let run = run_of(t, s, i, whole_pile);
        let r = over_sem(t, s, i, whole_pile, d);
        lemma_after_detach_facts(t, s, i, whole_pile);
        assert forall|b: usize| true implies #[trigger] num_of(r, b) == num_of(t, b) by {
            lemma_num_update(t1, d, t1[d] + run, b);
            lemma_seq_count_concat(t1[d], run, b);
        }
        assert(bottoms_ok(r)) by {
            assert forall|s2: int|
                0 <= s2 < r.len() && #[trigger] r[s2].len() > 0 implies r[s2][0] as int == s2 by {
                if s2 == d {
                    assert(t1[d][0] == t[d][0]);
                    assert(r[d][0] == t1[d][0]);
                }
            }
        }
    }
}

/// Completing a move `onto` a destination block in a slot other than the
/// source keeps every block count, and so preserves the table invariant.
pub proof fn lemma_onto_sem_wf(t: Seq<Seq<usize>>, s: int, i: int, whole_pile: bool, d: int, j: int)
    requires
        table_wf(t),
        0 <= s < t.len(),
        0 <= i < t[s].len(),
        0 <= d < t.len(),
        0 <= j < t[d].len(),
    ensures
        onto_sem(t, s, i, whole_pile, d, j).len() == t.len(),
        forall|b: usize| #[trigger] num_of(onto_sem(t, s, i, whole_pile, d, j), b) == num_of(t, b),
        table_wf(onto_sem(t, s, i, whole_pile, d, j)),
{
    if d != s {
        let t1 = after_detach(t, s, i, whole_pile);
        let run = run_of(t, s, i, whole_pile);
        let r = onto_sem(t, s, i, whole_pile, d, j);
        lemma_after_detach_facts(t, s, i, whole_pile);
        assert(t1[d].len() >= t[d].len());
        let u = t1.update(d, t1[d].take(j + 1));
        let aboves = t1[d].skip(j + 1);
        assert forall|k: int| 0 <= k < aboves.len() implies (#[trigger] aboves[k] as int) < u.len()
            by {
            assert(aboves[k] == t1[d][j + 1 + k]);
            lemma_located_num(t1, t1[d][j + 1 + k], d, j + 1 + k);
            assert(num_of(t1, aboves[k]) >= 1);
            assert(num_of(t, aboves[k]) >= 1);
            assert((aboves[k] as int) < t.len());
        }
        assert(bottoms_ok(u)) by {
            assert forall|s2: int|
                0 <= s2 < u.len() && #[trigger] u[s2].len() > 0 implies u[s2][0] as int == s2 by {
                if s2 == d {
                    assert(u[d][0] == t1[d][0]);
                    assert(t1[d][0] == t[d][0]);
                }
            }
        }
        lemma_return_home_facts(u, aboves);
        let cleared = return_home(u, aboves);
        assert forall|b: usize| true implies #[trigger] num_of(r, b) == num_of(t, b) by {
            lemma_num_update(t1, d, t1[d].take(j + 1), b);
            lemma_seq_count_split(t1[d], j + 1, b);
            lemma_num_update(cleared, d, cleared[d] + run, b);
            lemma_seq_count_concat(cleared[d], run, b);
        }
        assert(bottoms_ok(r)) by {
            assert forall|s2: int|
                0 <= s2 < r.len() && #[trigger] r[s2].len() > 0 implies r[s2][0] as int == s2 by {
                if s2 == d {
                    assert(cleared[d].len() >= u[d].len());
                    assert(cleared[d][0] == u[d][0]);
                    assert(u[d][0] == t1[d][0]);
                    assert(t1[d][0] == t[d][0]);
                    assert(r[d][0] == cleared[d][0]);
                }
            }
        }
    }
}

/// Home-return correctness for a block-move completed `over`: every block
/// that sat above the moved block in its original slot ends as the sole —
/// and so top — block of its own home slot, and (the count staying one)
/// appears nowhere else.
pub proof fn lemma_block_move_over_returns_home(t: Seq<Seq<usize>>, s: int, i: int, d: int, k: int)
    requires
        table_wf(t),
        0 <= s < t.len(),
        0 <= i < t[s].len(),
        0 <= d < t.len(),
        t[d].len() > 0,
        d != s,
        i < k < t[s].len(),
    ensures
        over_sem(t, s, i, false, d)[t[s][k] as int] == seq![t[s][k]],
        num_of(over_sem(t, s, i, false, d), t[s][k]) == 1,
{
    let x = t[s][k];
    lemma_detached_block_goes_home_alone(t, s, i, k);
    let t1 = after_detach(t, s, i, false);
    lemma_after_detach_facts(t, s, i, false);
    lemma_wf_elem_bound(t, s, k);
    assert(over_sem(t, s, i, false, d)[x as int] == t1[x as int]);
    lemma_over_sem_wf(t, s, i, false, d);
}

/// Home-return correctness for a block-move completed `onto`: every block
/// that sat above the moved block in its original slot ends as the sole —
/// and so top — block of its own home slot, and (the count staying one)
/// appears nowhere else.
pub proof fn lemma_block_move_onto_returns_home(
    t: Seq<Seq<usize>>,
    s: int,
    i: int,
    d: int,
    j: int,
    k: int,
)
    requires
        table_wf(t),
        0 <= s < t.len(),
        0 <= i < t[s].len(),
        0 <= d < t.len(),
        0 <= j < t[d].len(),
        d != s,
        i < k < t[s].len(),
    ensures
        onto_sem(t, s, i, false, d, j)[t[s][k] as int] == seq![t[s][k]],
        num_of(onto_sem(t, s, i, false, d, j), t[s][k]) == 1,
{
    let x = t[s][k];
    lemma_detached_block_goes_home_alone(t, s, i, k);
    let t1 = after_detach(t, s, i, false);
    lemma_after_detach_facts(t, s, i, false);
    lemma_wf_elem_bound(t, s, k);
    lemma_wf_elem_bound(t, s, i);
    assert(t[x as int].len() == 0);
    assert(d != x as int);
    let u = t1.update(d, t1[d].take(j + 1));
    let aboves2 = t1[d].skip(j + 1);
    assert(u[x as int] == seq![x]);
    // No block above the destination is `x`: `x` already sits alone in its
    // home slot, and the count of `x` after the detach is still one.
    assert(num_of(t1, x) == 1) by {
        if t[s][i] == x {
            lemma_seq_count_two(t[s], i, k);
            lemma_num_ge_slot(t, s, x);
        }
        lemma_seq_count_singleton(t[s][i], x);
    }
    assert forall|k2: int| 0 <= k2 < aboves2.len() implies #[trigger] aboves2[k2] != x && (
    aboves2[k2] as int) < u.len() by {
        let y = aboves2[k2];
        assert(y == t1[d][j + 1 + k2]);
        lemma_located_num(t1, y, d, j + 1 + k2);
        assert(num_of(t, y) >= 1);
        if y == x {
            lemma_seq_count_index(t1[d], j + 1 + k2);
            lemma_seq_count_index(t1[x as int], 0);
            if d < x as int {
                lemma_num_ge_two_slots(t1, d, x as int, x);
            } else {
                lemma_num_ge_two_slots(t1, x as int, d, x);
            }
        }
    }
    lemma_return_home_facts(u, aboves2);
    lemma_return_home_untouched(u, aboves2, x as int);
    let cleared = return_home(u, aboves2);
    assert(cleared[x as int] == seq![x]);
    assert(onto_sem(t, s, i, false, d, j)[x as int] == cleared[x as int]);
    lemma_onto_sem_wf(t, s, i, false, d, j);
}

/// After a block-move detaches from slot `s` at height `i`, the block that
/// sat at height `k` above it occupies its home slot alone.
proof fn lemma_detached_block_goes_home_alone(t: Seq<Seq<usize>>, s: int, i: int, k: int)
    requires
        table_wf(t),
        0 <= s < t.len(),
        0 <= i < t[s].len(),
        i < k < t[s].len(),
    ensures
        (t[s][k] as int) != s,
        t[t[s][k] as int].len() == 0,
        after_detach(t, s, i, false)[t[s][k] as int] == seq![t[s][k]],
{
    let x = t[s][k];
    lemma_wf_elem_bound(t, s, k);
    assert(num_of(t, x) == 1);
    // `x` cannot be the source slot's own block: that block sits at the
    // bottom, and a second occurrence would make the count two.
    assert((x as int) != s) by {
        if x as int == s {
            assert(t[s].len() > 0);
            assert(t[s][0] as int == s);
            lemma_seq_count_two(t[s], 0, k);
            lemma_num_ge_slot(t, s, x);
        }
    }
    // `x`'s home slot is empty: were it not, its bottom block would be `x`,
    // a second occurrence.
    assert(t[x as int].len() == 0) by {
        if t[x as int].len() > 0 {
            assert(t[x as int][0] == x);
            lemma_seq_count_index(t[x as int], 0);
            lemma_seq_count_index(t[s], k);
            if s < x as int {
                lemma_num_ge_two_slots(t, s, x as int, x);
            } else {
                lemma_num_ge_two_slots(t, x as int, s, x);
            }
        }
    }
    let trimmed = t.update(s, t[s].take(i));
    let aboves = t[s].skip(i + 1);
    let k0 = k - i - 1;
    assert(aboves[k0] == x);
    // The blocks above the moved block are pairwise distinct.
    assert forall|k2: int| 0 <= k2 < aboves.len() && k2 != k0 implies #[trigger] aboves[k2]
        != aboves[k0] by {
        if aboves[k2] == x {
            if k2 < k0 {
                lemma_seq_count_two(t[s], i + 1 + k2, k);
            } else {
                lemma_seq_count_two(t[s], k, i + 1 + k2);
            }
            lemma_num_ge_slot(t, s, x);
        }
    }
    assert forall|k2: int| 0 <= k2 < aboves.len() implies (#[trigger] aboves[k2] as int)
        < trimmed.len() by {
        lemma_wf_elem_bound(t, s, i + 1 + k2);
    }
    assert(trimmed[x as int].len() == 0);
    lemma_return_home_fresh(trimmed, aboves, k0);
}

/// Rendering is deterministic in the table state: with no mutation in
/// between, two renders produce identical text.
pub proof fn lemma_render_deterministic(t: Seq<Seq<usize>>, out1: Seq<char>, out2: Seq<char>)
    requires
        out1 == render_spec(t),
        out2 == render_spec(t),
    ensures
        out1 == out2,
{
}

/// A move whose destination resolves to its own source slot is a no-op.
///
/// Whether the source is a block or a pile and whether the destination is
/// handled `onto` or `over`, a destination in the source slot changes no
/// slot contents.
pub proof fn lemma_same_slot_noop(t: Seq<Seq<usize>>, s: int, i: int, whole_pile: bool, j: int)
    ensures
        over_sem(t, s, i, whole_pile, s) == t,
        onto_sem(t, s, i, whole_pile, s, j) == t,
{
}

/// The freshly created table is well-formed: each block counts exactly once.
pub proof fn lemma_init_wf(n: nat)
    requires
        n <= usize::MAX as nat,
    ensures
        forall|b: usize|
            #[trigger] num_of(init_table(n), b) == if (b as nat) < n {
                1nat
            } else {
                0nat
            },
        n >= 1 ==> table_wf(init_table(n)),
    decreases n,
{
    if n == 0 {
        assert(init_table(0).len() == 0);
    } else {
        lemma_init_wf((n - 1) as nat);
        let t = init_table(n);
        assert(t.drop_last() =~= init_table((n - 1) as nat));
        assert(t.last() =~= seq![(n - 1) as usize]);
        assert forall|b: usize| true implies #[trigger] num_of(t, b) == if (b as nat) < n {
            1nat
        } else {
            0nat
        } by {
            lemma_seq_count_singleton((n - 1) as usize, b);
            assert(num_of(t, b) == num_of(t.drop_last(), b) + seq_count(t.last(), b));
            assert(num_of(t.drop_last(), b) == num_of(init_table((n - 1) as nat), b));
            assert(seq_count(t.last(), b) == seq_count(seq![(n - 1) as usize], b));
        }
        assert(bottoms_ok(t)) by {
            assert forall|s: int| 0 <= s < t.len() && #[trigger] t[s].len() > 0 implies t[s][0]
                as int == s by {
                assert(t[s] == seq![s as usize]);
            }
        }
    }
}

// ---------------------------------------------------------------------------
// The model: rendering
// ---------------------------------------------------------------------------

/// The character for one decimal digit.
pub open spec fn digit_char(d: nat) -> char {
    if d == 0 {
        '0'
    } else if d == 1 {
        '1'
    } else if d == 2 {
        '2'
    } else if d == 3 {
        '3'
    } else if d == 4 {
        '4'
    } else if d == 5 {
        '5'
    } else if d == 6 {
        '6'
    } else if d == 7 {
        '7'
    } else if d == 8 {
        '8'
    } else {
        '9'
    }
}

/// The decimal representation of `n`, most significant digit first, without
/// leading zeroes (`0` itself rendering as one digit).
pub open spec fn dec_rep(n: nat) -> Seq<char>
    decreases n,
{
    if n < 10 {
        seq![digit_char(n)]
    } else {
        dec_rep(n / 10) + seq![digit_char(n % 10)]
    }
}

/// The text for one slot's stack: a space before each block's number,
/// bottom to top.
pub open spec fn blocks_part(blocks: Seq<usize>) -> Seq<char>
    decreases blocks.len(),
{
    if blocks.len() == 0 {
        Seq::empty()
    } else {
        blocks_part(blocks.drop_last()) + seq![' '] + dec_rep(blocks.last() as nat)
    }
}

/// The text for one slot: its index, a colon, its stack, a newline.
pub open spec fn line_of(s: nat, blocks: Seq<usize>) -> Seq<char> {
    dec_rep(s) + seq![':'] + blocks_part(blocks) + seq!['\n']
}

/// The text for the first `m` slots of the table.
pub open spec fn render_upto(t: Seq<Seq<usize>>, m: int) -> Seq<char>
    decreases m,
{
    if m <= 0 {
        Seq::empty()
    } else {
        render_upto(t, m - 1) + line_of((m - 1) as nat, t[m - 1])
    }
}

/// The text of the whole table: one line per slot, in slot order.
pub open spec fn render_spec(t: Seq<Seq<usize>>) -> Seq<char> {
    render_upto(t, t.len() as int)
}

/// The digits collected by repeated division, least significant first, read
/// back most significant first.
spec fn rev_digits(ds: Seq<usize>) -> Seq<char> {
    Seq::new(ds.len(), |k: int| digit_char(ds[ds.len() - 1 - k] as nat))
}

/// Append one decimal digit to the text.
fn append_digit(out: &mut String, d: usize)
    requires
        d < 10,
    ensures
        final(out)@ == old(out)@ + seq![digit_char(d as nat)],
{
    proof {
        reveal_strlit("0");
        reveal_strlit("1");
        reveal_strlit("2");
        reveal_strlit("3");
        reveal_strlit("4");
        reveal_strlit("5");
        reveal_strlit("6");
        reveal_strlit("7");
        reveal_strlit("8");
        reveal_strlit("9");
    }
    if d == 0 {
        out.append("0");
    } else if d == 1 {
        out.append("1");
    } else if d == 2 {
        out.append("2");
    } else if d == 3 {
        out.append("3");
    } else if d == 4 {
        out.append("4");
    } else if d == 5 {
        out.append("5");
    } else if d == 6 {
        out.append("6");
    } else if d == 7 {
        out.append("7");
    } else if d == 8 {
        out.append("8");
    } else {
        out.append("9");
    }
    proof {
        assert(final(out)@ =~= old(out)@ + seq![digit_char(d as nat)]);
    }
}

/// Append the decimal representation of `n` to the text.
fn append_dec(out: &mut String, n: usize)
    ensures
        final(out)@ == old(out)@ + dec_rep(n as nat),
{
    let mut digits: Vec<usize> = Vec::new();
    digits.push(n % 10);
    let mut m = n / 10;
    proof {
        if n < 10 {
            assert(rev_digits(digits@) =~= seq![digit_char(n as nat)]);
        } else {
            assert(rev_digits(digits@) =~= seq![digit_char((n % 10) as nat)]);
            assert(dec_rep(n as nat) == dec_rep((n / 10) as nat) + seq![
                digit_char((n % 10) as nat),
            ]);
        }
    }
    while m > 0
        invariant
            digits@.len() >= 1,
            forall|k: int| 0 <= k < digits@.len() ==> #[trigger] digits@[k] < 10,
            m > 0 ==> dec_rep(n as nat) == dec_rep(m as nat) + rev_digits(digits@),
            m == 0 ==> dec_rep(n as nat) == rev_digits(digits@),
        decreases m,
    {
        let d = m % 10;
        let ghost pre = digits@;
        digits.push(d);
        proof {
            assert(rev_digits(digits@) =~= seq![digit_char(d as nat)] + rev_digits(pre));
            if m < 10 {
                assert(dec_rep(m as nat) == seq![digit_char(m as nat)]);
                assert(dec_rep(n as nat) =~= rev_digits(digits@));
            } else {
                assert(dec_rep(m as nat) == dec_rep((m / 10) as nat) + seq![
                    digit_char((m % 10) as nat),
                ]);
                assert(dec_rep((m / 10) as nat) + rev_digits(digits@) =~= (dec_rep(
                    (m / 10) as nat,
                ) + seq![digit_char(d as nat)]) + rev_digits(pre));
                assert(dec_rep(n as nat) =~= dec_rep((m / 10) as nat) + rev_digits(digits@));
            }
        }
        m = m / 10;
    }
    let len = digits.len();
    let mut k: usize = 0;
    while k < len
        invariant
            len == digits@.len(),
            k <= len,
            forall|k2: int| 0 <= k2 < digits@.len() ==> #[trigger] digits@[k2] < 10,
            dec_rep(n as nat) == rev_digits(digits@),
            out@ == old(out)@ + rev_digits(digits@).take(k as int),
        decreases len - k,
    {
        let d = digits[len - 1 - k];
        append_digit(out, d);
        proof {
            assert(rev_digits(digits@).take(k as int + 1) =~= rev_digits(digits@).take(k as int)
                + seq![digit_char(d as nat)]);
            assert(out@ =~= old(out)@ + rev_digits(digits@).take(k as int + 1));
        }
        k += 1;
    }
    proof {
        assert(rev_digits(digits@).take(len as int) =~= rev_digits(digits@));
    }
}

// ---------------------------------------------------------------------------
// The table
// ---------------------------------------------------------------------------

/// The table of blocks: a fixed number of slots, each an ordered stack of
/// block identifiers, bottom to top.
pub struct Table {
    table: Vec<Vec<usize>>,
}

impl Table {
    /// The model of the table: one sequence of block identifiers per slot.
    pub closed spec fn view(&self) -> Seq<Seq<usize>> {
        self.table@.map_values(|v: Vec<usize>| v@)
    }

    /// The table invariant; see [`table_wf`].
    pub open spec fn wf(&self) -> bool {
        table_wf(self@)
    }

    /// Create a table of `size` slots, block `i` alone on slot `i`.
    pub fn new(size: usize) -> (t: Table)
        requires
            size >= 1,
        ensures
            t@ == init_table(size as nat),
            t.wf(),
    {
        let mut table: Vec<Vec<usize>> = Vec::new();
        let mut i: usize = 0;
        while i < size
            invariant
                i <= size,
                table@.len() == i,
                forall|k: int| 0 <= k < i ==> #[trigger] table@[k]@ == seq![k as usize],
            decreases size - i,
        {
            let mut row: Vec<usize> = Vec::new();
            row.push(i);
            assert(row@ =~= seq![i as usize]);
            table.push(row);
            i += 1;
        }
        let t = Table { table };
        proof {
            assert(t@ =~= init_table(size as nat));
            lemma_init_wf(size as nat);
        }
        t
    }

    /// The number of slots (and of blocks) on the table.
    pub fn num_slots(&self) -> (n: usize)
        ensures
            n == self@.len(),
    {
        self.table.len()
    }

    /// The height of the stack in slot `s`.
    pub fn slot_len(&self, s: usize) -> (n: usize)
        requires
            (s as int) < self@.len(),
        ensures
            n == self@[s as int].len(),
    {
        self.table[s].len()
    }

    /// The block at height `i` of slot `s`.
    pub fn slot_at(&self, s: usize, i: usize) -> (b: usize)
        requires
            (s as int) < self@.len(),
            (i as int) < self@[s as int].len(),
        ensures
            b == self@[s as int][i as int],
    {
        self.table[s][i]
    }

    /// Push block `b` onto the top of slot `s`.
    pub(crate) fn slot_push(&mut self, s: usize, b: usize)
        requires
            (s as int) < old(self)@.len(),
        ensures
            final(self)@ == old(self)@.update(s as int, old(self)@[s as int].push(b)),
    {
        self.table[s].push(b);
        proof {
            assert(self@ =~= old(self)@.update(s as int, old(self)@[s as int].push(b)));
        }
    }

    /// Cut slot `s` down to height `at`, handing back the detached top run.
    pub(crate) fn slot_split_off(&mut self, s: usize, at: usize) -> (r: Vec<usize>)
        requires
            (s as int) < old(self)@.len(),
            (at as int) <= old(self)@[s as int].len(),
        ensures
            final(self)@ == old(self)@.update(s as int, old(self)@[s as int].take(at as int)),
            r@ == old(self)@[s as int].skip(at as int),
    {
        let r = self.table[s].split_off(at);
        proof {
            assert(self@ =~= old(self)@.update(s as int, old(self)@[s as int].take(at as int)));
            assert(r@ =~= old(self)@[s as int].skip(at as int));
        }
        r
    }

    /// Append the run `v` atop slot `s`'s current stack.
    pub(crate) fn slot_append(&mut self, s: usize, v: Vec<usize>)
        requires
            (s as int) < old(self)@.len(),
        ensures
            final(self)@ == old(self)@.update(s as int, old(self)@[s as int] + v@),
    {
        let mut v = v;
        let ghost v0 = v@;
        self.table[s].append(&mut v);
        proof {
            assert(self@ =~= old(self)@.update(s as int, old(self)@[s as int] + v0));
        }
    }

    /// Begin moving the whole pile from block `from` upward: resolve `from`
    /// to its current position and hand back the pending move, or
    /// `BlockNotFound` if the table does not hold `from`.
    pub fn pile(&self, from: usize) -> (r: Result<Stack, TableError>)
        ensures
            match r {
                Ok(mv) => mv.move_pile == true && located_at(
                    self@,
                    from,
                    mv.from_slot as int,
                    mv.from_idx as int,
                ),
                Err(e) => e == TableError::BlockNotFound(from) && !on_table(self@, from),
            },
    {
        match self.find_pile(from) {
            Some((slot, block_idx)) => Ok(
                Stack { from_slot: slot, from_idx: block_idx, move_pile: true },
            ),
            None => Err(TableError::BlockNotFound(from)),
        }
    }

    /// Begin moving the single block `from`: resolve `from` to its current
    /// position and hand back the pending move, or `BlockNotFound` if the
    /// table does not hold `from`.
    pub fn block(&self, from: usize) -> (r: Result<Stack, TableError>)
        ensures
            match r {
                Ok(mv) => mv.move_pile == false && located_at(
                    self@,
                    from,
                    mv.from_slot as int,
                    mv.from_idx as int,
                ),
                Err(e) => e == TableError::BlockNotFound(from) && !on_table(self@, from),
            },
    {
        match self.find_pile(from) {
            Some((slot, block_idx)) => Ok(
                Stack { from_slot: slot, from_idx: block_idx, move_pile: false },
            ),
            None => Err(TableError::BlockNotFound(from)),
        }
    }

    /// Render the table as text, one line per slot: the slot index, a colon,
    /// then each block of its stack bottom to top, a space before each
    /// number. Reads the table without mutating it.
    pub fn render(&self) -> (out: String)
        ensures
            out@ == render_spec(self@),
    {
        proof {
            reveal_strlit(":");
            reveal_strlit(" ");
            reveal_strlit("\n");
        }
        let mut out = String::new();
        let n = self.table.len();
        let mut s: usize = 0;
        while s < n
            invariant
                n == self@.len(),
                s <= n,
                out@ == render_upto(self@, s as int),
            decreases n - s,
        {
            let ghost prefix = out@;
            append_dec(&mut out, s);
            out.append(":");
            proof {
                reveal_strlit(":");
                assert(out@ =~= prefix + dec_rep(s as nat) + seq![':']);
            }
            let m = self.table[s].len();
            let mut k: usize = 0;
            while k < m
                invariant
                    n == self@.len(),
                    s < n,
                    m == self@[s as int].len(),
                    k <= m,
                    out@ == prefix + dec_rep(s as nat) + seq![':'] + blocks_part(
                        self@[s as int].take(k as int),
                    ),
                decreases m - k,
            {
                let ghost mid = out@;
                out.append(" ");
                let b = self.table[s][k];
                append_dec(&mut out, b);
                proof {
                    reveal_strlit(" ");
                    let row = self@[s as int];
                    assert(row.take(k as int + 1).drop_last() =~= row.take(k as int));
                    assert(row.take(k as int + 1).last() == row[k as int]);
                    assert(blocks_part(row.take(k as int + 1)) == blocks_part(row.take(k as int))
                        + seq![' '] + dec_rep(row[k as int] as nat));
                    assert(out@ =~= prefix + dec_rep(s as nat) + seq![':'] + blocks_part(
                        row.take(k as int + 1),
                    ));
                }
                k += 1;
            }
            out.append("\n");
            proof {
                reveal_strlit("\n");
                let row = self@[s as int];
                assert(row.take(m as int) =~= row);
                assert(out@ =~= prefix + line_of(s as nat, row));
                assert(out@ =~= render_upto(self@, s as int + 1));
            }
            s += 1;
        }
        out
    }

    /// Find the slot and height of block `target`: the lookup underlying
    /// every operation. `None` exactly when the table does not hold `target`.
    pub fn find_pile(&self, target: usize) -> (r: Option<(usize, usize)>)
        ensures
            match r {
                Some(p) => located_at(self@, target, p.0 as int, p.1 as int),
                None => !on_table(self@, target),
            },
    {
        let n = self.table.len();
        let mut s: usize = 0;
        while s < n
            invariant
                n == self@.len(),
                s <= n,
                forall|s2: int, i2: int|
                    located_at(self@, target, s2, i2) ==> s2 >= s,
            decreases n - s,
        {
            let m = self.table[s].len();
            let mut i: usize = 0;
            while i < m
                invariant
                    n == self@.len(),
                    s < n,
                    m == self@[s as int].len(),
                    i <= m,
                    forall|i2: int| 0 <= i2 < i ==> self@[s as int][i2] != target,
                decreases m - i,
            {
                if self.table[s][i] == target {
                    return Some((s, i));
                }
                i += 1;
            }
            assert forall|s2: int, i2: int|
                located_at(self@, target, s2, i2) implies s2 >= s + 1 by {
                if s2 == s {
                    assert(self@[s as int][i2] != target);
                }
            }
            s += 1;
        }
        None
    }
}

} // verus!

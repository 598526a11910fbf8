//! Commands: their shape, and parsing a line of text into a move.
//!
//! [`Command::move_command`] turns one line into a validated move request
//! for [`crate::Robot`]. The read loop around it, and the case folding of
//! raw input, live outside the verified core.

use vstd::prelude::*;

pub mod error;

pub use error::CommandError;

verus! {

/// Selects whether a move manipulates a single block or a whole pile.
///
/// The identifier always names a block, never a slot: `Pile(id)` means "the
/// pile currently containing block `id`", wherever that pile sits.
#[derive(Clone, Copy, Debug, PartialEq, Eq, Structural)]
pub enum Target {
    Block(usize),
    Pile(usize),
}

impl Target {
    /// The block identifier this target names.
    pub open spec fn id(self) -> usize {
        match self {
            Target::Block(b) => b,
            Target::Pile(b) => b,
        }
    }

    /// Whether the target names a whole pile.
    pub open spec fn is_pile(self) -> bool {
        match self {
            Target::Block(_) => false,
            Target::Pile(_) => true,
        }
    }
}

/// The operations the robot can be commanded to perform.
#[derive(Clone, Copy, Debug, PartialEq, Eq, Structural)]
pub enum Command {
    /// A no-op.
    Continue,
    /// Print the table and terminate the robot.
    Quit,
    /// Move a target to another target.
    Move(Target, Target),
    /// Print the table.
    PrintTable,
}

// ---------------------------------------------------------------------------
// The model: tokens and identifiers of a move command
// ---------------------------------------------------------------------------

/// A whitespace separator between command tokens.
pub open spec fn is_space(c: char) -> bool {
    c == ' ' || c == '\t' || c == '\r' || c == '\n'
}

/// The tokens of `s`, continuing the partial token `cur`: tokens are the
/// maximal runs of non-whitespace characters, in order.
pub open spec fn tokens_acc(s: Seq<char>, cur: Seq<char>) -> Seq<Seq<char>>
    decreases s.len(),
{
    if s.len() == 0 {
        if cur.len() == 0 {
            Seq::empty()
        } else {
            seq![cur]
        }
    } else if is_space(s[0]) {
        if cur.len() == 0 {
            tokens_acc(s.drop_first(), Seq::empty())
        } else {
            seq![cur] + tokens_acc(s.drop_first(), Seq::empty())
        }
    } else {
        tokens_acc(s.drop_first(), cur.push(s[0]))
    }
}

/// The whitespace-separated tokens of a line.
pub open spec fn spec_tokens(s: Seq<char>) -> Seq<Seq<char>> {
    tokens_acc(s, Seq::empty())
}

/// A decimal digit.
pub open spec fn is_digit(c: char) -> bool {
    48 <= (c as u32) && (c as u32) <= 57
}

/// The value of one decimal digit.
pub open spec fn digit_val(c: char) -> nat {
    ((c as u32) - 48) as nat
}

/// A token made of decimal digits only, at least one.
pub open spec fn is_dec_token(tok: Seq<char>) -> bool {
    tok.len() > 0 && forall|k: int| 0 <= k < tok.len() ==> is_digit(#[trigger] tok[k])
}

/// The value of a token of decimal digits.
pub open spec fn dec_val(tok: Seq<char>) -> nat
    decreases tok.len(),
{
    if tok.len() == 0 {
        0
    } else {
        dec_val(tok.drop_last()) * 10 + digit_val(tok.last())
    }
}

/// A well-formed block identifier: decimal digits whose value fits the
/// machine word.
pub open spec fn valid_id(tok: Seq<char>) -> bool {
    is_dec_token(tok) && dec_val(tok) <= usize::MAX as nat
}

/// The tokens described by a list of index ranges into `s`.
spec fn bounds_tokens(s: Seq<char>, bounds: Seq<(usize, usize)>) -> Seq<Seq<char>> {
    Seq::new(bounds.len(), |k: int| s.subrange(bounds[k].0 as int, bounds[k].1 as int))
}

/// The partial token an in-progress scan is holding: nothing, or the
/// characters from where the current token started up to the scan position.
spec fn cur_of(s: Seq<char>, start: Option<usize>, i: int) -> Seq<char> {
    match start {
        None => Seq::empty(),
        Some(st) => s.subrange(st as int, i),
    }
}

/// Whether `c` separates command tokens.
fn is_space_char(c: char) -> (r: bool)
    ensures
        r == is_space(c),
{
    c == ' ' || c == '\t' || c == '\r' || c == '\n'
}

/// Scan `s` into its whitespace-separated tokens, reported as index ranges,
/// in order.
fn tokenize(s: &str) -> (bounds: Vec<(usize, usize)>)
    ensures
        bounds@.len() == spec_tokens(s@).len(),
        forall|k: int|
            #![trigger bounds@[k]]
            0 <= k < bounds@.len() ==> {
                &&& bounds@[k].0 <= bounds@[k].1
                &&& (bounds@[k].1 as int) <= s@.len()
                &&& s@.subrange(bounds@[k].0 as int, bounds@[k].1 as int) == spec_tokens(s@)[k]
            },
{
    let n = s.unicode_len();
    let mut bounds: Vec<(usize, usize)> = Vec::new();
    let mut start: Option<usize> = None;
    let mut i: usize = 0;
    proof {
        assert(s@.skip(0) =~= s@);
        assert(bounds_tokens(s@, bounds@) =~= Seq::<Seq<char>>::empty());
        assert(bounds_tokens(s@, bounds@) + tokens_acc(s@, Seq::empty()) =~= spec_tokens(s@));
    }
    while i < n
        invariant
            n == s@.len(),
            i <= n,
            match start {
                None => true,
                Some(st) => st < i,
            },
            forall|k: int|
                #![trigger bounds@[k]]
                0 <= k < bounds@.len() ==> bounds@[k].0 <= bounds@[k].1 && bounds@[k].1 <= i,
            bounds_tokens(s@, bounds@) + tokens_acc(s@.skip(i as int), cur_of(s@, start, i as int))
                == spec_tokens(s@),
        decreases n - i,
    {
        let ghost pre_bounds = bounds@;
        let ghost cur = cur_of(s@, start, i as int);
        proof {
            assert(s@.skip(i as int)[0] == s@[i as int]);
            assert(s@.skip(i as int).drop_first() =~= s@.skip(i as int + 1));
        }
        let c = s.get_char(i);
        if is_space_char(c) {
            match start {
                Some(st) => {
                    bounds.push((st, i));
                    start = None;
                    proof {
                        assert(bounds_tokens(s@, bounds@) =~= bounds_tokens(s@, pre_bounds) + seq![
                            cur,
                        ]);
                        assert(tokens_acc(s@.skip(i as int), cur) == seq![cur] + tokens_acc(
                            s@.skip(i as int + 1),
                            Seq::empty(),
                        ));
                        assert(bounds_tokens(s@, bounds@) + tokens_acc(
                            s@.skip(i as int + 1),
                            Seq::empty(),
                        ) =~= bounds_tokens(s@, pre_bounds) + tokens_acc(s@.skip(i as int), cur));
                    }
                },
                None => {
                    proof {
                        assert(tokens_acc(s@.skip(i as int), cur) == tokens_acc(
                            s@.skip(i as int + 1),
                            Seq::empty(),
                        ));
                    }
                },
            }
        } else {
            match start {
                Some(st) => {
                    proof {
                        assert(s@.subrange(st as int, i as int + 1) =~= cur.push(s@[i as int]));
                        assert(tokens_acc(s@.skip(i as int), cur) == tokens_acc(
                            s@.skip(i as int + 1),
                            cur.push(s@[i as int]),
                        ));
                    }
                },
                None => {
                    start = Some(i);
                    proof {
                        assert(s@.subrange(i as int, i as int + 1) =~= Seq::empty().push(
                            s@[i as int],
                        ));
                        assert(tokens_acc(s@.skip(i as int), Seq::empty()) == tokens_acc(
                            s@.skip(i as int + 1),
                            Seq::empty().push(s@[i as int]),
                        ));
                    }
                },
            }
        }
        i += 1;
    }
    proof {
        assert(s@.skip(n as int) =~= Seq::<char>::empty());
    }
    let ghost pre_bounds = bounds@;
    let ghost cur = cur_of(s@, start, n as int);
    match start {
        Some(st) => {
            bounds.push((st, n));
            proof {
                assert(cur.len() > 0);
                assert(tokens_acc(Seq::<char>::empty(), cur) == seq![cur]);
                assert(bounds_tokens(s@, bounds@) =~= bounds_tokens(s@, pre_bounds) + seq![cur]);
                assert(bounds_tokens(s@, bounds@) =~= spec_tokens(s@));
            }
        },
        None => {
            proof {
                assert(tokens_acc(Seq::<char>::empty(), cur) =~= Seq::<Seq<char>>::empty());
                assert(bounds_tokens(s@, bounds@) =~= spec_tokens(s@));
            }
        },
    }
    proof {
        assert forall|k: int| 0 <= k < bounds@.len() implies s@.subrange(
            #[trigger] bounds@[k].0 as int,
            bounds@[k].1 as int,
        ) == spec_tokens(s@)[k] by {
            assert(bounds_tokens(s@, bounds@)[k] == s@.subrange(
                bounds@[k].0 as int,
                bounds@[k].1 as int,
            ));
        }
    }
    bounds
}

/// A token's value is at least the value of any of its prefixes: appending a
/// digit multiplies by ten and adds.
proof fn lemma_dec_val_prefix(tok: Seq<char>, m: int)
    requires
        0 <= m <= tok.len(),
    ensures
        dec_val(tok) >= dec_val(tok.take(m)),
    decreases tok.len() - m,
{
    if m < tok.len() {
        assert(tok.take(m + 1).drop_last() =~= tok.take(m));
        assert(tok.take(m + 1).last() == tok[m]);
        assert(dec_val(tok.take(m + 1)) == dec_val(tok.take(m)) * 10 + digit_val(tok[m]));
        lemma_dec_val_prefix(tok, m + 1);
    } else {
        assert(tok.take(m) =~= tok);
    }
}

/// Parse the characters of `s` from `from` up to `to` as a decimal block
/// identifier: accepted exactly when the range is one or more digits whose
/// value fits `usize`.
fn parse_id(s: &str, from: usize, to: usize) -> (r: Option<usize>)
    requires
        from <= to,
        (to as int) <= s@.len(),
    ensures
        ({
            let tok = s@.subrange(from as int, to as int);
            match r {
                Some(v) => valid_id(tok) && v == dec_val(tok),
                None => !valid_id(tok),
            }
        }),
{
    let ghost tok = s@.subrange(from as int, to as int);
    if from == to {
        return None;
    }
    let mut acc: usize = 0;
    let mut k = from;
    while k < to
        invariant
            from <= k <= to,
            (to as int) <= s@.len(),
            tok == s@.subrange(from as int, to as int),
            forall|m: int| from <= m < k ==> is_digit(#[trigger] s@[m]),
            acc == dec_val(s@.subrange(from as int, k as int)),
        decreases to - k,
    {
        let c = s.get_char(k);
        let u = c as u32;
        if u < 48 || u > 57 {
            proof {
                assert(tok[k - from] == s@[k as int]);
                assert(!is_digit(tok[k - from]));
            }
            return None;
        }
        let d = (u - 48) as usize;
        let ghost prefix = s@.subrange(from as int, k as int);
        proof {
            assert(s@.subrange(from as int, k as int + 1).drop_last() =~= prefix);
            assert(s@.subrange(from as int, k as int + 1).last() == s@[k as int]);
            assert(dec_val(s@.subrange(from as int, k as int + 1)) == acc * 10 + (d as nat));
        }
        if acc > usize::MAX / 10 || (acc == usize::MAX / 10 && d > usize::MAX % 10) {
            // The next value would exceed the machine word, and a longer
            // token can only be larger still.
            proof {
                assert(acc * 10 + (d as nat) > usize::MAX as nat);
                assert(tok.take(k as int + 1 - from) =~= s@.subrange(from as int, k as int + 1));
                lemma_dec_val_prefix(tok, k as int + 1 - from);
            }
            return None;
        }
        proof {
            assert(acc * 10 + (d as nat) <= usize::MAX as nat);
        }
        acc = acc * 10 + d;
        k += 1;
    }
    proof {
        assert(tok =~= s@.subrange(from as int, to as int));
        assert forall|m: int| 0 <= m < tok.len() implies is_digit(#[trigger] tok[m]) by {
            assert(tok[m] == s@[from + m]);
        }
    }
    Some(acc)
}

/// Whether the characters of `s` from `from` up to `to` spell the keyword
/// `kw`.
fn range_matches(s: &str, from: usize, to: usize, kw: &str) -> (r: bool)
    requires
        from <= to,
        (to as int) <= s@.len(),
    ensures
        r <==> s@.subrange(from as int, to as int) == kw@,
{
    let ghost tok = s@.subrange(from as int, to as int);
    let kw_len = kw.unicode_len();
    if to - from != kw_len {
        return false;
    }
    let mut k: usize = 0;
    while k < kw_len
        invariant
            kw_len == kw@.len(),
            tok == s@.subrange(from as int, to as int),
            to - from == kw_len,
            (to as int) <= s@.len(),
            from <= to,
            k <= kw_len,
            forall|m: int| 0 <= m < k ==> #[trigger] tok[m] == kw@[m],
        decreases kw_len - k,
    {
        let a = s.get_char(from + k);
        let b = kw.get_char(k);
        proof {
            assert(tok[k as int] == s@[from + k]);
        }
        if a != b {
            return false;
        }
        k += 1;
    }
    proof {
        assert(tok =~= kw@);
    }
    true
}

/// The line with its leading and trailing whitespace removed.
pub open spec fn trim_spec(s: Seq<char>) -> Seq<char>
    decreases s.len(),
{
    if s.len() == 0 {
        s
    } else if is_space(s[0]) {
        trim_spec(s.drop_first())
    } else if is_space(s.last()) {
        trim_spec(s.drop_last())
    } else {
        s
    }
}

/// A line of nothing but whitespace trims to nothing.
proof fn lemma_trim_all_space(s: Seq<char>)
    requires
        forall|m: int| 0 <= m < s.len() ==> is_space(#[trigger] s[m]),
    ensures
        trim_spec(s) == Seq::<char>::empty(),
    decreases s.len(),
{
    if s.len() == 0 {
        assert(s =~= Seq::<char>::empty());
    } else {
        lemma_trim_all_space(s.drop_first());
    }
}

/// Trimming is cutting at the first and last non-whitespace characters:
/// if everything before `a` and everything from `b` on is whitespace, and
/// the characters at `a` and `b - 1` are not, the trimmed line is the range
/// between them (empty when the whole line is whitespace).
proof fn lemma_trim_range(s: Seq<char>, a: int, b: int)
    requires
        0 <= a <= s.len(),
        0 <= b <= s.len(),
        forall|m: int| 0 <= m < a ==> is_space(#[trigger] s[m]),
        forall|m: int| b <= m < s.len() ==> is_space(#[trigger] s[m]),
        a < b ==> !is_space(s[a]) && !is_space(s[b - 1]),
    ensures
        trim_spec(s) == if a < b {
            s.subrange(a, b)
        } else {
            Seq::<char>::empty()
        },
    decreases s.len(),
{
    if a >= b {
        assert forall|m: int| 0 <= m < s.len() implies is_space(#[trigger] s[m]) by {
            if m >= a {
                assert(m >= b);
            }
        }
        lemma_trim_all_space(s);
    } else if is_space(s[0]) {
        // The first character is whitespace, so the range starts later:
        // trim the rest, with every index shifted down by one.
        assert(a >= 1);
        let d = s.drop_first();
        assert(d[a - 1] == s[a]);
        assert(d[b - 2] == s[b - 1]);
        lemma_trim_range(d, a - 1, b - 1);
        assert(d.subrange(a - 1, b - 1) =~= s.subrange(a, b));
    } else if is_space(s.last()) {
        // The first character starts the range; the last is whitespace, so
        // the range ends before it.
        assert(a == 0);
        assert(b < s.len());
        let d = s.drop_last();
        assert(d[a] == s[a]);
        assert(d[b - 1] == s[b - 1]);
        lemma_trim_range(d, a, b);
        assert(d.subrange(a, b) =~= s.subrange(a, b));
    } else {
        assert(a == 0);
        assert(b == s.len());
        assert(s.subrange(a, b) =~= s);
    }
}

/// The index of the first non-whitespace character, or the length.
fn first_non_space(s: &str) -> (a: usize)
    ensures
        (a as int) <= s@.len(),
        forall|m: int| 0 <= m < a ==> is_space(#[trigger] s@[m]),
        (a as int) < s@.len() ==> !is_space(s@[a as int]),
{
    let n = s.unicode_len();
    let mut a: usize = 0;
    while a < n
        invariant
            n == s@.len(),
            a <= n,
            forall|m: int| 0 <= m < a ==> is_space(#[trigger] s@[m]),
        decreases n - a,
    {
        let c = s.get_char(a);
        if !is_space_char(c) {
            return a;
        }
        a += 1;
    }
    a
}

/// The index just past the last non-whitespace character, or zero.
fn after_last_non_space(s: &str) -> (b: usize)
    ensures
        (b as int) <= s@.len(),
        forall|m: int| b <= m < s@.len() ==> is_space(#[trigger] s@[m]),
        b > 0 ==> !is_space(s@[b - 1]),
{
    let n = s.unicode_len();
    let mut b: usize = n;
    while b > 0
        invariant
            n == s@.len(),
            b <= n,
            forall|m: int| b <= m < s@.len() ==> is_space(#[trigger] s@[m]),
        decreases b,
    {
        let c = s.get_char(b - 1);
        if !is_space_char(c) {
            return b;
        }
        b -= 1;
    }
    b
}

/// What parsing the line `s` as a move command returns.
///
/// The line must hold exactly four tokens `<from_verb> <block> <to_verb>
/// <block>`: `move`/`pile` for the source, `onto`/`over` for the
/// destination, and two distinct block numbers in decimal digits. A line of
/// other than four tokens or with an unknown verb is `BadCommand` (holding
/// the line, or the offending verb); a malformed or oversized block number
/// is `BadBlockId` (holding the offending token; identifiers are checked
/// before the verbs); equal block numbers are `ImpossibleMove`.
pub open spec fn move_parse_result(s: Seq<char>, r: Result<Command, CommandError>) -> bool {
    let toks = spec_tokens(s);
    match r {
        Ok(c) => {
            &&& toks.len() == 4
            &&& valid_id(toks[1])
            &&& valid_id(toks[3])
            &&& dec_val(toks[1]) != dec_val(toks[3])
            &&& (toks[0] == "move"@ || toks[0] == "pile"@)
            &&& (toks[2] == "onto"@ || toks[2] == "over"@)
            &&& c == Command::Move(
                if toks[0] == "move"@ {
                    Target::Block(dec_val(toks[1]) as usize)
                } else {
                    Target::Pile(dec_val(toks[1]) as usize)
                },
                if toks[2] == "onto"@ {
                    Target::Block(dec_val(toks[3]) as usize)
                } else {
                    Target::Pile(dec_val(toks[3]) as usize)
                },
            )
        },
        Err(e) => match e {
            CommandError::BadCommand(w) => {
                ||| (toks.len() != 4 && w@ == s)
                ||| (toks.len() == 4 && valid_id(toks[1]) && valid_id(toks[3]) && dec_val(toks[1])
                    != dec_val(toks[3]) && !(toks[0] == "move"@ || toks[0] == "pile"@) && w@
                    == toks[0])
                ||| (toks.len() == 4 && valid_id(toks[1]) && valid_id(toks[3]) && dec_val(toks[1])
                    != dec_val(toks[3]) && (toks[0] == "move"@ || toks[0] == "pile"@) && !(toks[2]
                    == "onto"@ || toks[2] == "over"@) && w@ == toks[2])
            },
            CommandError::BadBlockId(w) => toks.len() == 4 && ((!valid_id(toks[1]) && w@
                == toks[1]) || (valid_id(toks[1]) && !valid_id(toks[3]) && w@ == toks[3])),
            CommandError::ImpossibleMove => toks.len() == 4 && valid_id(toks[1]) && valid_id(
                toks[3],
            ) && dec_val(toks[1]) == dec_val(toks[3]),
        },
    }
}

impl Command {
    /// Process a line of input into a move command.
    ///
    /// Commands take the form `<from_verb> <block> <to_verb> <block>`, where
    /// `<from_verb>` is `move` for a single block or `pile` for the whole
    /// pile, `<to_verb>` is `onto` for a cleared destination block or `over`
    /// for a destination pile's top, and each `<block>` is a block number
    /// written in decimal digits; see [`move_parse_result`] for what is
    /// returned, for this and every other line.
    pub fn move_command(s: &str) -> (r: Result<Command, CommandError>)
        ensures
            move_parse_result(s@, r),
    {
        // Split the command into individual tokens; valid commands are
        // exactly four words.
        let bounds = tokenize(s);
        if bounds.len() != 4 {
            return Err(CommandError::BadCommand(s.to_owned()));
        }
        // Parse the two block identifiers into integers.
        let t1 = bounds[1];
        let item_id = match parse_id(s, t1.0, t1.1) {
            Some(v) => v,
            None => {
                return Err(CommandError::BadBlockId(s.substring_char(t1.0, t1.1).to_owned()));
            },
        };
        let t3 = bounds[3];
        let dest_id = match parse_id(s, t3.0, t3.1) {
            Some(v) => v,
            None => {
                return Err(CommandError::BadBlockId(s.substring_char(t3.0, t3.1).to_owned()));
            },
        };
        // A block can never move onto or over itself.
        if item_id == dest_id {
            return Err(CommandError::ImpossibleMove);
        }
        // Identify which kind of move to perform.
        let t0 = bounds[0];
        let item = if range_matches(s, t0.0, t0.1, "move") {
            Target::Block(item_id)
        } else if range_matches(s, t0.0, t0.1, "pile") {
            Target::Pile(item_id)
        } else {
            return Err(CommandError::BadCommand(s.substring_char(t0.0, t0.1).to_owned()));
        };
        // Identify how to treat the destination.
        let t2 = bounds[2];
        let dest = if range_matches(s, t2.0, t2.1, "onto") {
            Target::Block(dest_id)
        } else if range_matches(s, t2.0, t2.1, "over") {
            Target::Pile(dest_id)
        } else {
            return Err(CommandError::BadCommand(s.substring_char(t2.0, t2.1).to_owned()));
        };
        Ok(Command::Move(item, dest))
    }

    /// Process one line of input into a command.
    ///
    /// After leading and trailing whitespace is removed, an empty line is a
    /// no-op, `quit` and `print` are themselves, and anything else must be a
    /// move command; see [`Command::move_command`]. Case folding of raw
    /// input is the caller's concern: the keywords are matched exactly.
    pub fn parse_line(s: &str) -> (r: Result<Command, CommandError>)
        ensures
            ({
                let t = trim_spec(s@);
                if t.len() == 0 {
                    r == Ok::<Command, CommandError>(Command::Continue)
                } else if t == "quit"@ {
                    r == Ok::<Command, CommandError>(Command::Quit)
                } else if t == "print"@ {
                    r == Ok::<Command, CommandError>(Command::PrintTable)
                } else {
                    move_parse_result(t, r)
                }
            }),
    {
        let a = first_non_space(s);
        let b = after_last_non_space(s);
        proof {
            lemma_trim_range(s@, a as int, b as int);
        }
        if a >= b {
            return Ok(Command::Continue);
        }
        let trimmed = s.substring_char(a, b);
        let n = trimmed.unicode_len();
        proof {
            assert(trimmed@.subrange(0, n as int) =~= trimmed@);
        }
        if range_matches(trimmed, 0, n, "quit") {
            Ok(Command::Quit)
        } else if range_matches(trimmed, 0, n, "print") {
            Ok(Command::PrintTable)
        } else {
            Command::move_command(trimmed)
        }
    }
}

} // verus!

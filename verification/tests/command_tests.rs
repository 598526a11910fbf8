//! Tests of move-command parsing.

use roblocks::{Command, CommandError, Target};

/// All four verb combinations parse into the matching move request.
#[test]
fn parses_all_four_verb_combinations() {
    assert_eq!(
        Command::move_command("move 1 onto 2"),
        Ok(Command::Move(Target::Block(1), Target::Block(2)))
    );
    assert_eq!(
        Command::move_command("move 1 over 2"),
        Ok(Command::Move(Target::Block(1), Target::Pile(2)))
    );
    assert_eq!(
        Command::move_command("pile 1 onto 2"),
        Ok(Command::Move(Target::Pile(1), Target::Block(2)))
    );
    assert_eq!(
        Command::move_command("pile 1 over 2"),
        Ok(Command::Move(Target::Pile(1), Target::Pile(2)))
    );
}

/// Extra whitespace between tokens is accepted; the token values decide.
#[test]
fn parses_with_extra_whitespace() {
    assert_eq!(
        Command::move_command("  move \t 10   over  3 "),
        Ok(Command::Move(Target::Block(10), Target::Pile(3)))
    );
}

/// A command of other than four tokens is a `BadCommand` holding the line.
#[test]
fn wrong_token_count_is_bad_command() {
    assert!(matches!(
        Command::move_command("move 1 onto"),
        Err(CommandError::BadCommand(_))
    ));
    assert!(matches!(
        Command::move_command("move 1 onto 2 3"),
        Err(CommandError::BadCommand(_))
    ));
    assert!(matches!(
        Command::move_command("hello"),
        Err(CommandError::BadCommand(_))
    ));
}

/// An unknown verb is a `BadCommand` holding the offending token; the first
/// verb is checked before the second.
#[test]
fn unknown_verb_is_bad_command() {
    match Command::move_command("shove 1 onto 2") {
        Err(CommandError::BadCommand(w)) => assert_eq!(w, "shove"),
        other => panic!("expected BadCommand, got {:?}", other),
    }
    match Command::move_command("move 1 atop 2") {
        Err(CommandError::BadCommand(w)) => assert_eq!(w, "atop"),
        other => panic!("expected BadCommand, got {:?}", other),
    }
    match Command::move_command("shove 1 atop 2") {
        Err(CommandError::BadCommand(w)) => assert_eq!(w, "shove"),
        other => panic!("expected BadCommand, got {:?}", other),
    }
}

/// A block number that is not a run of decimal digits, or does not fit the
/// machine word, is a `BadBlockId` holding the offending token; identifiers
/// are checked before the verbs and the self-move rule.
#[test]
fn malformed_identifier_is_bad_block_id() {
    match Command::move_command("move x onto 2") {
        Err(CommandError::BadBlockId(w)) => assert_eq!(w, "x"),
        other => panic!("expected BadBlockId, got {:?}", other),
    }
    match Command::move_command("move 1 onto -2") {
        Err(CommandError::BadBlockId(w)) => assert_eq!(w, "-2"),
        other => panic!("expected BadBlockId, got {:?}", other),
    }
    match Command::move_command("move 99999999999999999999999999 onto 2") {
        Err(CommandError::BadBlockId(w)) => assert_eq!(w, "99999999999999999999999999"),
        other => panic!("expected BadBlockId, got {:?}", other),
    }
    // Identifiers are parsed before the verbs are checked.
    assert!(matches!(
        Command::move_command("shove x atop 2"),
        Err(CommandError::BadBlockId(_))
    ));
}

/// Equal source and destination identifiers are an `ImpossibleMove`, by
/// value: leading zeroes do not disguise a self-move.
#[test]
fn self_move_is_impossible() {
    assert!(matches!(
        Command::move_command("move 3 onto 3"),
        Err(CommandError::ImpossibleMove)
    ));
    assert!(matches!(
        Command::move_command("pile 07 over 7"),
        Err(CommandError::ImpossibleMove)
    ));
}

/// Leading zeroes are accepted and ignored in an identifier's value.
#[test]
fn leading_zeroes_parse_by_value() {
    assert_eq!(
        Command::move_command("move 007 onto 12"),
        Ok(Command::Move(Target::Block(7), Target::Block(12)))
    );
}

/// A full line parses after trimming: blank lines are a no-op, `quit` and
/// `print` are themselves, and a move command passes through.
#[test]
fn parse_line_dispatches() {
    assert_eq!(Command::parse_line(""), Ok(Command::Continue));
    assert_eq!(Command::parse_line(" \t \n"), Ok(Command::Continue));
    assert_eq!(Command::parse_line("quit\n"), Ok(Command::Quit));
    assert_eq!(Command::parse_line("  print  "), Ok(Command::PrintTable));
    assert_eq!(
        Command::parse_line(" pile 4 over 0 \n"),
        Ok(Command::Move(Target::Pile(4), Target::Pile(0)))
    );
    // A line that is neither blank nor a keyword must be a move command.
    assert!(matches!(
        Command::parse_line("quit now"),
        Err(CommandError::BadCommand(_))
    ));
}

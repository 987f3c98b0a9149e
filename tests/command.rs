use coronene::command::{parse_command, Command, CommandError};
use coronene::coord::{Color, Move, Pos};

#[test]
fn commands_without_arguments() {
    assert_eq!(parse_command("undo\n"), Ok(Command::Undo));
    assert_eq!(parse_command("showboard"), Ok(Command::ShowBoard));
    assert_eq!(parse_command("  name  \r\n"), Ok(Command::Name));
    assert_eq!(parse_command("version\n"), Ok(Command::Version));
    assert_eq!(parse_command("hexgui-analyze_commands\n"), Ok(Command::AnalyzeCommands));
    assert_eq!(parse_command("quit\n"), Ok(Command::Quit));
    assert_eq!(parse_command("final_score\n"), Ok(Command::FinalScore));
}

#[test]
fn genmove_reads_a_colour() {
    assert_eq!(parse_command("genmove b\n"), Ok(Command::GenMove(Color::Black)));
    assert_eq!(parse_command("genmove\tWhite\n"), Ok(Command::GenMove(Color::White)));
    assert_eq!(parse_command("genmove x\n"), Err(CommandError::InvalidColor));
}

#[test]
fn play_reads_a_move() {
    assert_eq!(
        parse_command("play w c4\n"),
        Ok(Command::Play(Move::new(Color::White, Pos::new(2, 3))))
    );
    assert_eq!(parse_command("play x resign\n"), Ok(Command::Play(Move::Resign)));
    assert_eq!(parse_command("play x c4\n"), Err(CommandError::InvalidColor));
    assert_eq!(parse_command("play b 4c\n"), Err(CommandError::InvalidMove));
}

#[test]
fn boardsize_reads_two_sizes() {
    assert_eq!(parse_command("boardsize 11 9\n"), Ok(Command::BoardSize(11, 9)));
    assert_eq!(parse_command("boardsize 11 x\n"), Err(CommandError::InvalidSize));
    assert_eq!(parse_command("boardsize -1 9\n"), Err(CommandError::InvalidSize));
    assert_eq!(parse_command("boardsize 200 9\n"), Err(CommandError::InvalidSize));
}

#[test]
fn anything_else_is_a_syntax_error() {
    assert_eq!(parse_command("\n"), Err(CommandError::Syntax));
    assert_eq!(parse_command("undo now\n"), Err(CommandError::Syntax));
    assert_eq!(parse_command("genmove\n"), Err(CommandError::Syntax));
    assert_eq!(parse_command("Undo\n"), Err(CommandError::Syntax));
    assert_eq!(parse_command("fly b c4\n"), Err(CommandError::Syntax));
}

#[test]
fn error_messages() {
    assert_eq!(CommandError::InvalidColor.message(), "invalid color");
    assert_eq!(CommandError::InvalidMove.message(), "invalid move");
    assert_eq!(CommandError::InvalidSize.message(), "invalid size");
    assert_eq!(CommandError::Syntax.message(), "syntax error");
}

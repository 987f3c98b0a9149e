//! The commands of the line protocol a controller speaks to the engine,
//! read from one line of input.
use vstd::prelude::*;
use vstd::string::StringSliceAdditionalSpecFns;
use crate::coord::{color_of_bytes, i8_of_bytes, parse_i8_from, pos_of_bytes, Color, Coord, Move, Pos};

verus! {

/// A command the engine carries out.
#[derive(Copy, Clone, Debug, PartialEq, Eq, Structural)]
pub enum Command {
    GenMove(Color),
    Play(Move),
    Undo,
    ShowBoard,
    Name,
    Version,
    AnalyzeCommands,
    BoardSize(Coord, Coord),
    Quit,
    FinalScore,
}

/// Why a line is not a command.
#[derive(Copy, Clone, Debug, PartialEq, Eq, Structural)]
pub enum CommandError {
    InvalidColor,
    InvalidMove,
    InvalidSize,
    Syntax,
}

impl CommandError {
    /// The message sent back for the error.
    pub fn message(&self) -> (r: &'static str)
        ensures
            r@ == error_text(*self),
    {
        proof {
            reveal_strlit("invalid color");
            reveal_strlit("invalid move");
            reveal_strlit("invalid size");
            reveal_strlit("syntax error");
        }
        match self {
            CommandError::InvalidColor => "invalid color",
            CommandError::InvalidMove => "invalid move",
            CommandError::InvalidSize => "invalid size",
            CommandError::Syntax => "syntax error",
        }
    }
}

pub open spec fn error_text(e: CommandError) -> Seq<char> {
    match e {
        CommandError::InvalidColor => "invalid color"@,
        CommandError::InvalidMove => "invalid move"@,
        CommandError::InvalidSize => "invalid size"@,
        CommandError::Syntax => "syntax error"@,
    }
}

/// Space, tab, line feed, vertical tab, form feed and carriage return.
pub open spec fn is_blank(b: u8) -> bool {
    b == 32 || (9 <= b <= 13)
}

/// The words found in the first `i` bytes, and the word still open.
pub open spec fn words_upto(s: Seq<u8>, i: int) -> (Seq<Seq<u8>>, Seq<u8>)
    decreases i,
{
    if i <= 0 {
        (Seq::empty(), Seq::empty())
    } else {
        let (ws, cur) = words_upto(s, i - 1);
        if is_blank(s[i - 1]) {
            if cur.len() > 0 {
                (ws.push(cur), Seq::empty())
            } else {
                (ws, cur)
            }
        } else {
            (ws, cur.push(s[i - 1]))
        }
    }
}

/// The words of a line: the runs of bytes between blanks.
pub open spec fn words(s: Seq<u8>) -> Seq<Seq<u8>> {
    let (ws, cur) = words_upto(s, s.len() as int);
    if cur.len() > 0 {
        ws.push(cur)
    } else {
        ws
    }
}

/// The bytes of a keyword.
pub open spec fn key(s: &str) -> Seq<u8> {
    s.spec_bytes()
}

/// What a line asks for: the first word names the command and the others
/// are its arguments. A `play` whose cell is `resign` is a resignation
/// whatever its colour; board sizes are read as signed 8-bit numbers and
/// must not be negative.
pub open spec fn command_of(s: Seq<u8>) -> Result<Command, CommandError> {
    let w = words(s);
    if w.len() == 2 && w[0] == key("genmove") {
        match color_of_bytes(w[1]) {
            Some(c) => Ok(Command::GenMove(c)),
            None => Err(CommandError::InvalidColor),
        }
    } else if w.len() == 3 && w[0] == key("play") {
        if w[2] == key("resign") {
            Ok(Command::Play(Move::Resign))
        } else {
            match color_of_bytes(w[1]) {
                None => Err(CommandError::InvalidColor),
                Some(c) => match pos_of_bytes(w[2]) {
                    None => Err(CommandError::InvalidMove),
                    Some(p) => Ok(Command::Play(Move::Play { color: c, pos: p })),
                },
            }
        }
    } else if w.len() == 1 && w[0] == key("undo") {
        Ok(Command::Undo)
    } else if w.len() == 1 && w[0] == key("showboard") {
        Ok(Command::ShowBoard)
    } else if w.len() == 1 && w[0] == key("name") {
        Ok(Command::Name)
    } else if w.len() == 1 && w[0] == key("version") {
        Ok(Command::Version)
    } else if w.len() == 1 && w[0] == key("hexgui-analyze_commands") {
        Ok(Command::AnalyzeCommands)
    } else if w.len() == 3 && w[0] == key("boardsize") {
        match (i8_of_bytes(w[1]), i8_of_bytes(w[2])) {
            (Some(c), Some(r)) => if c >= 0 && r >= 0 {
                Ok(Command::BoardSize(c as i8, r as i8))
            } else {
                Err(CommandError::InvalidSize)
            },
            _ => Err(CommandError::InvalidSize),
        }
    } else if w.len() == 1 && w[0] == key("quit") {
        Ok(Command::Quit)
    } else if w.len() == 1 && w[0] == key("final_score") {
        Ok(Command::FinalScore)
    } else {
        Err(CommandError::Syntax)
    }
}

/// The words of `b`, each as its bytes.
fn split_words(b: &[u8]) -> (r: Vec<Vec<u8>>)
    ensures
        r@.map_values(|v: Vec<u8>| v@) == words(b@),
{
    let mut ws: Vec<Vec<u8>> = Vec::new();
    let mut cur: Vec<u8> = Vec::new();
    let mut i: usize = 0;
    while i < b.len()
        invariant
            i <= b@.len(),
            (ws@.map_values(|v: Vec<u8>| v@), cur@) == words_upto(b@, i as int),
        decreases b@.len() - i,
    {
        let c = b[i];
        if c == 32u8 || (9u8 <= c && c <= 13u8) {
            if cur.len() > 0 {
                let done = cur;
                let ghost before = ws@.map_values(|v: Vec<u8>| v@);
                ws.push(done);
                assert(ws@.map_values(|v: Vec<u8>| v@) =~= before.push(done@));
                cur = Vec::new();
            }
        } else {
            cur.push(c);
        }
        i = i + 1;
    }
    if cur.len() > 0 {
        let ghost before = ws@.map_values(|v: Vec<u8>| v@);
        let last = cur;
        ws.push(last);
        assert(ws@.map_values(|v: Vec<u8>| v@) =~= before.push(last@));
    }
    ws
}

fn is_word(w: &Vec<u8>, k: &str) -> (r: bool)
    ensures
        r == (w@ == key(k)),
{
    let kb = k.as_bytes();
    if w.len() != kb.len() {
        return false;
    }
    let mut i: usize = 0;
    while i < w.len()
        invariant
            w@.len() == kb@.len(),
            kb@ == key(k),
            i <= w@.len(),
            forall|j: int| 0 <= j < i ==> w@[j] == kb@[j],
        decreases w@.len() - i,
    {
        if w[i] != kb[i] {
            return false;
        }
        i = i + 1;
    }
    assert(w@ =~= kb@);
    true
}

fn size_of(w: &Vec<u8>) -> (r: Option<Coord>)
    ensures
        r.is_some() == i8_of_bytes(w@).is_some(),
        r.is_some() ==> i8_of_bytes(w@) == Some(r.unwrap() as int),
{
    let b = w.as_slice();
    assert(b@.subrange(0, b@.len() as int) =~= b@);
    parse_i8_from(b, 0)
}

/// Reads one line of the protocol.
pub fn parse_command(line: &str) -> (r: Result<Command, CommandError>)
    ensures
        r == command_of(line.spec_bytes()),
{
    let w = split_words(line.as_bytes());
    let ghost ws = words(line.spec_bytes());
    assert(w@.len() == ws.len());
    assert(forall|j: int| 0 <= j < w@.len() ==> #[trigger] w@[j]@ == ws[j]);
    let n = w.len();
    if n == 2 && is_word(&w[0], "genmove") {
        match Color::parse_bytes(w[1].as_slice()) {
            Some(c) => Ok(Command::GenMove(c)),
            None => Err(CommandError::InvalidColor),
        }
    } else if n == 3 && is_word(&w[0], "play") {
        if is_word(&w[2], "resign") {
            Ok(Command::Play(Move::Resign))
        } else {
            match Color::parse_bytes(w[1].as_slice()) {
                None => Err(CommandError::InvalidColor),
                Some(c) => match Pos::parse_bytes(w[2].as_slice()) {
                    None => Err(CommandError::InvalidMove),
                    Some(p) => Ok(Command::Play(Move::Play { color: c, pos: p })),
                },
            }
        }
    } else if n == 1 && is_word(&w[0], "undo") {
        Ok(Command::Undo)
    } else if n == 1 && is_word(&w[0], "showboard") {
        Ok(Command::ShowBoard)
    } else if n == 1 && is_word(&w[0], "name") {
        Ok(Command::Name)
    } else if n == 1 && is_word(&w[0], "version") {
        Ok(Command::Version)
    } else if n == 1 && is_word(&w[0], "hexgui-analyze_commands") {
        Ok(Command::AnalyzeCommands)
    } else if n == 3 && is_word(&w[0], "boardsize") {
        match (size_of(&w[1]), size_of(&w[2])) {
            (Some(c), Some(r)) => if c >= 0 && r >= 0 {
                Ok(Command::BoardSize(c, r))
            } else {
                Err(CommandError::InvalidSize)
            },
            _ => Err(CommandError::InvalidSize),
        }
    } else if n == 1 && is_word(&w[0], "quit") {
        Ok(Command::Quit)
    } else if n == 1 && is_word(&w[0], "final_score") {
        Ok(Command::FinalScore)
    } else {
        Err(CommandError::Syntax)
    }
}

} // verus!

use vstd::prelude::*;
use vstd::string::StrSliceExecFns;
use crate::board::{
    Square, Configuration, grid_view, num_rows, num_cols, is_rectangular, board_wf, is_probe_at,
    has_probe, has_two_probes,
};

verus! {

/// Why a board text was refused.
#[derive(Clone, Copy, Debug, PartialEq, Eq, Structural)]
pub enum ParseError {
    /// A token is none of `_`, `*`, `s`, `?` or a digit from 0 to 8.
    InvalidToken,
    /// Rows of different lengths.
    RaggedRows,
    /// No probe cell.
    NoProbe,
    /// More than one probe cell.
    MultipleProbes,
}

/// Separators between tokens of a line: the white space characters but the
/// line feed.
pub open spec fn is_blank(c: char) -> bool {
    ||| c == '\t'
    ||| c == '\u{0B}'
    ||| c == '\u{0C}'
    ||| c == '\r'
    ||| c == ' '
    ||| c == '\u{85}'
    ||| c == '\u{A0}'
    ||| c == '\u{1680}'
    ||| ('\u{2000}' <= c && c <= '\u{200A}')
    ||| c == '\u{2028}'
    ||| c == '\u{2029}'
    ||| c == '\u{202F}'
    ||| c == '\u{205F}'
    ||| c == '\u{3000}'
}

pub open spec fn flush_token(row: Seq<Seq<char>>, tok: Seq<char>) -> Seq<Seq<char>> {
    if tok.len() == 0 {
        row
    } else {
        row.push(tok)
    }
}

pub open spec fn flush_row(rows: Seq<Seq<Seq<char>>>, row: Seq<Seq<char>>) -> Seq<
    Seq<Seq<char>>,
> {
    if row.len() == 0 {
        rows
    } else {
        rows.push(row)
    }
}

/// Reading a text left to right: the finished rows, the tokens of the current
/// row, and the current token.
pub open spec fn scan(s: Seq<char>) -> (Seq<Seq<Seq<char>>>, Seq<Seq<char>>, Seq<char>)
    decreases s.len(),
{
    if s.len() == 0 {
        (seq![], seq![], seq![])
    } else {
        let (rows, row, tok) = scan(s.drop_last());
        let c = s.last();
        if c == '\n' {
            (flush_row(rows, flush_token(row, tok)), seq![], seq![])
        } else if is_blank(c) {
            (rows, flush_token(row, tok), seq![])
        } else {
            (rows, row, tok.push(c))
        }
    }
}

/// The tokens of each non-blank line of a text.
pub open spec fn token_rows(s: Seq<char>) -> Seq<Seq<Seq<char>>> {
    let (rows, row, tok) = scan(s);
    flush_row(rows, flush_token(row, tok))
}

/// The cell that a token stands for.
pub open spec fn token_square(t: Seq<char>) -> Option<Square> {
    if t.len() != 1 {
        None
    } else if t[0] == '_' {
        Some(Square::Empty)
    } else if t[0] == '*' {
        Some(Square::Mine)
    } else if t[0] == 's' {
        Some(Square::Safe)
    } else if t[0] == '?' {
        Some(Square::Probe)
    } else if '0' <= t[0] <= '8' {
        Some(Square::Number((t[0] as u32 - '0' as u32) as usize))
    } else {
        None
    }
}

pub open spec fn tokens_valid(rows: Seq<Seq<Seq<char>>>) -> bool {
    forall|i: int, j: int|
        0 <= i < rows.len() && 0 <= j < rows[i].len() ==> (#[trigger] token_square(
            rows[i][j],
        )) is Some
}

pub open spec fn squares_of(rows: Seq<Seq<Seq<char>>>) -> Seq<Seq<Square>> {
    Seq::new(rows.len() as nat, |i: int| Seq::new(rows[i].len(), |j: int| token_square(rows[i][j])->0))
}

/// The board that a text describes, or why it describes none.
pub open spec fn parse_board(s: Seq<char>) -> Result<Seq<Seq<Square>>, ParseError> {
    let rows = token_rows(s);
    if !tokens_valid(rows) {
        Err(ParseError::InvalidToken)
    } else if !is_rectangular(squares_of(rows)) {
        Err(ParseError::RaggedRows)
    } else if !has_probe(squares_of(rows)) {
        Err(ParseError::NoProbe)
    } else if has_two_probes(squares_of(rows)) {
        Err(ParseError::MultipleProbes)
    } else {
        Ok(squares_of(rows))
    }
}

pub open spec fn rows_view(v: Seq<Vec<Vec<char>>>) -> Seq<Seq<Seq<char>>> {
    v.map_values(|r: Vec<Vec<char>>| grid_view(r@))
}

impl Square {
    /// The cell that a token stands for, if any.
    pub fn from(t: &Vec<char>) -> (r: Option<Square>)
        ensures
            r == token_square(t@),
    {
        if t.len() != 1 {
            return None;
        }
        let ch = t[0];
        if ch == '_' {
            Some(Square::Empty)
        } else if ch == '*' {
            Some(Square::Mine)
        } else if ch == 's' {
            Some(Square::Safe)
        } else if ch == '?' {
            Some(Square::Probe)
        } else if '0' <= ch && ch <= '8' {
            Some(Square::Number((ch as u32 - '0' as u32) as usize))
        } else {
            None
        }
    }
}

/// Splits a text into the tokens of its non-blank lines.
fn split_tokens(text: &str) -> (rows: Vec<Vec<Vec<char>>>)
    ensures
        rows_view(rows@) == token_rows(text@),
{
    let n = text.unicode_len();
    let mut rows: Vec<Vec<Vec<char>>> = Vec::new();
    let mut row: Vec<Vec<char>> = Vec::new();
    let mut tok: Vec<char> = Vec::new();
    let mut i: usize = 0;
    while i < n
        invariant
            n == text@.len(),
            0 <= i <= n,
            (rows_view(rows@), grid_view(row@), tok@) == scan(text@.take(i as int)),
        decreases n - i,
    {
        let ch = text.get_char(i);
        let ghost pre = text@.take(i as int);
        assert(text@.take(i + 1).drop_last() =~= pre);
        assert(text@.take(i + 1).last() == ch);
        if ch == '\n' || is_blank_char(ch) {
            if tok.len() > 0 {
                let ghost g = grid_view(row@);
                row.push(tok);
                assert(grid_view(row@) =~= g.push(tok@));
            }
            tok = Vec::new();
            if ch == '\n' {
                if row.len() > 0 {
                    let ghost rv = rows_view(rows@);
                    let ghost g = grid_view(row@);
                    rows.push(row);
                    assert(rows_view(rows@) =~= rv.push(g));
                }
                row = Vec::new();
                assert(grid_view(row@) =~= seq![]);
            }
        } else {
            tok.push(ch);
        }
        assert(tok@ == scan(text@.take(i + 1)).2);
        i = i + 1;
    }
    assert(text@.take(n as int) =~= text@);
    if tok.len() > 0 {
        let ghost g = grid_view(row@);
        row.push(tok);
        assert(grid_view(row@) =~= g.push(tok@));
    }
    if row.len() > 0 {
        let ghost rv = rows_view(rows@);
        let ghost g = grid_view(row@);
        rows.push(row);
        assert(rows_view(rows@) =~= rv.push(g));
    }
    rows
}

fn is_blank_char(c: char) -> (r: bool)
    ensures
        r == is_blank(c),
{
    c == '\t' || c == '\u{0B}' || c == '\u{0C}' || c == '\r' || c == ' ' || c == '\u{85}'
        || c == '\u{A0}' || c == '\u{1680}' || ('\u{2000}' <= c && c <= '\u{200A}')
        || c == '\u{2028}' || c == '\u{2029}' || c == '\u{202F}' || c == '\u{205F}'
        || c == '\u{3000}'
}

/// The cells of a grid of tokens, or the first invalid token's refusal.
fn squares_from_tokens(rows: &Vec<Vec<Vec<char>>>) -> (res: Option<Vec<Vec<Square>>>)
    ensures
        match res {
            Some(b) => tokens_valid(rows_view(rows@)) && grid_view(b@) == squares_of(
                rows_view(rows@),
            ),
            None => !tokens_valid(rows_view(rows@)),
        },
{
    let ghost rv = rows_view(rows@);
    let mut board: Vec<Vec<Square>> = Vec::new();
    let mut i: usize = 0;
    while i < rows.len()
        invariant
            rv == rows_view(rows@),
            0 <= i <= rows.len(),
            board@.len() == i,
            forall|a: int, j: int|
                0 <= a < i && 0 <= j < rv[a].len() ==> (#[trigger] token_square(rv[a][j])) is Some,
            forall|a: int| 0 <= a < i ==> (#[trigger] board@[a])@ == squares_of(rv)[a],
        decreases rows.len() - i,
    {
        let mut line: Vec<Square> = Vec::new();
        let mut j: usize = 0;
        assert(rv[i as int] == grid_view(rows@[i as int]@));
        while j < rows[i].len()
            invariant
                rv == rows_view(rows@),
                0 <= i < rows.len(),
                rv[i as int] == grid_view(rows@[i as int]@),
                0 <= j <= rows@[i as int].len(),
                line@.len() == j,
                forall|k: int| 0 <= k < j ==> (#[trigger] token_square(rv[i as int][k])) is Some,
                forall|k: int|
                    0 <= k < j ==> #[trigger] line@[k] == token_square(rv[i as int][k])->0,
            decreases rows@[i as int].len() - j,
        {
            match Square::from(&rows[i][j]) {
                Some(sq) => {
                    line.push(sq);
                },
                None => {
                    assert(token_square(rv[i as int][j as int]) is None);
                    return None;
                },
            }
            j = j + 1;
        }
        assert(line@ =~= squares_of(rv)[i as int]);
        board.push(line);
        i = i + 1;
    }
    assert(grid_view(board@) =~= squares_of(rv));
    Some(board)
}

impl Configuration {
    /// Reads a board: one line per row, cells separated by blanks; blank
    /// lines are skipped.
    pub fn from(raw_conf: String) -> (res: Result<Configuration, ParseError>)
        ensures
            match res {
                Ok(conf) => parse_board(raw_conf@) == Ok::<Seq<Seq<Square>>, ParseError>(
                    conf.view(),
                ) && conf.wf(),
                Err(e) => parse_board(raw_conf@) == Err::<Seq<Seq<Square>>, ParseError>(e),
            },
    {
        let rows = split_tokens(raw_conf.as_str());
        let ghost tr = token_rows(raw_conf@);
        let board = match squares_from_tokens(&rows) {
            Some(b) => b,
            None => {
                return Err(ParseError::InvalidToken);
            },
        };
        let ghost b = grid_view(board@);
        assert(b == squares_of(tr));
        assert(tokens_valid(tr));
        if board.len() > 0 {
            let width = board[0].len();
            let mut i: usize = 0;
            while i < board.len()
                invariant
                    b == grid_view(board@),
                    b == squares_of(tr),
                    tr == token_rows(raw_conf@),
                    tokens_valid(tr),
                    board@.len() > 0,
                    width == b[0].len(),
                    0 <= i <= board@.len(),
                    forall|a: int| 0 <= a < i ==> #[trigger] b[a].len() == width,
                decreases board.len() - i,
            {
                if board[i].len() != width {
                    assert(b[i as int].len() != num_cols(b));
                    assert(!is_rectangular(b));
                    return Err(ParseError::RaggedRows);
                }
                i = i + 1;
            }
        }
        assert(is_rectangular(b));
        let mut found: Option<(usize, usize)> = None;
        let mut r: usize = 0;
        while r < board.len()
            invariant
                b == grid_view(board@),
                b == squares_of(tr),
                tr == token_rows(raw_conf@),
                tokens_valid(tr),
                is_rectangular(b),
                0 <= r <= board@.len(),
                match found {
                    None => forall|x: int, y: int| 0 <= x < r ==> !is_probe_at(b, x, y),
                    Some(p) => is_probe_at(b, p.0 as int, p.1 as int) && p.0 < r && forall|
                        x: int,
                        y: int,
                    | 0 <= x < r && is_probe_at(b, x, y) ==> x == p.0 && y == p.1,
                },
            decreases board.len() - r,
        {
            let mut c: usize = 0;
            assert(b[r as int] == board@[r as int]@);
            while c < board[r].len()
                invariant
                    b == grid_view(board@),
                    b == squares_of(tr),
                    tr == token_rows(raw_conf@),
                    tokens_valid(tr),
                    is_rectangular(b),
                    0 <= r < board@.len(),
                    b[r as int] == board@[r as int]@,
                    0 <= c <= b[r as int].len(),
                    match found {
                        None => forall|x: int, y: int|
                            (0 <= x < r || (x == r && y < c)) ==> !is_probe_at(b, x, y),
                        Some(p) => is_probe_at(b, p.0 as int, p.1 as int) && (p.0 < r || (p.0
                            == r && p.1 < c)) && forall|x: int, y: int|
                            (0 <= x < r || (x == r && y < c)) && is_probe_at(b, x, y) ==> x == p.0
                                && y == p.1,
                    },
                decreases b[r as int].len() - c,
            {
                if board[r][c] == Square::Probe {
                    match found {
                        Some(p) => {
                            assert(is_probe_at(b, r as int, c as int));
                            assert(is_probe_at(b, p.0 as int, p.1 as int));
                            assert((p.0 as int, p.1 as int) != (r as int, c as int));
                            assert(has_two_probes(b));
                            assert(has_probe(b));
                            return Err(ParseError::MultipleProbes);
                        },
                        None => {
                            found = Some((r, c));
                        },
                    }
                }
                c = c + 1;
            }
            r = r + 1;
        }
        match found {
            None => {
                assert(!has_probe(b));
                Err(ParseError::NoProbe)
            },
            Some(p) => {
                assert(has_probe(b));
                assert(num_cols(b) > 0) by {
                    assert(b[p.0 as int].len() == num_cols(b));
                }
                assert(board_wf(b));
                Ok(Configuration { board, probe_row: p.0, probe_col: p.1 })
            },
        }
    }
}

} // verus!

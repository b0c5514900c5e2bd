use crate::puzzle::{cleared, in_grid, inserted, reset_cell, Difficulty, Puzzle};
use vstd::prelude::*;
use vstd::string::StringExecFns;

verus! {

/// A key the player pressed, as far as the game tells keys apart.
#[derive(Debug, Clone, Copy, PartialEq, Eq, Structural)]
pub enum Key {
    Quit,
    NewGame,
    Reset,
    Left,
    Right,
    Up,
    Down,
    Digit(u8),
    Erase,
    Other,
}

impl Key {
    /// The key a typed character stands for.
    pub open spec fn spec_from_char(c: char) -> Key {
        if c == 'q' {
            Key::Quit
        } else if c == 'n' || c == 'N' {
            Key::NewGame
        } else if c == 'r' || c == 'R' {
            Key::Reset
        } else if '0' <= c <= '9' {
            Key::Digit((c as u32 - '0' as u32) as u8)
        } else {
            Key::Other
        }
    }

    pub fn from_char(c: char) -> (r: Key)
        ensures
            r == Key::spec_from_char(c),
    {
        if c == 'q' {
            Key::Quit
        } else if c == 'n' || c == 'N' {
            Key::NewGame
        } else if c == 'r' || c == 'R' {
            Key::Reset
        } else if '0' <= c && c <= '9' {
            Key::Digit((c as u32 - '0' as u32) as u8)
        } else {
            Key::Other
        }
    }
}

/// What the loop around the game has to do with its clock after a key.
#[derive(Debug, Clone, Copy, PartialEq, Eq, Structural)]
pub enum Effect {
    /// Nothing.
    Keep,
    /// A new game began: start timing again.
    Restart,
    /// The puzzle is solved: note the time it took.
    Solved,
}

/// The state of a session: the puzzle, the selected cell, the difficulty new
/// games are made at, and whether the player asked to leave.
#[derive(Debug, Clone, Copy, PartialEq, Eq)]
pub struct App {
    exit: bool,
    puzzle: Puzzle,
    selected_row: usize,
    selected_col: usize,
    level: Difficulty,
}

impl App {
    pub closed spec fn spec_exit(&self) -> bool {
        self.exit
    }

    pub closed spec fn spec_puzzle(&self) -> Puzzle {
        self.puzzle
    }

    pub closed spec fn spec_row(&self) -> int {
        self.selected_row as int
    }

    pub closed spec fn spec_col(&self) -> int {
        self.selected_col as int
    }

    pub closed spec fn spec_level(&self) -> Difficulty {
        self.level
    }

    /// The puzzle is well formed and the selection lies on the grid.
    pub open spec fn wf(&self) -> bool {
        self.spec_puzzle().wf() && in_grid(self.spec_row(), self.spec_col())
    }

    /// A session with a new puzzle at `level` and the top-left cell selected.
    pub fn new(level: Difficulty) -> (r: Self)
        ensures
            r.wf(),
            r.spec_puzzle().fresh(level),
            r.spec_level() == level,
            r.spec_row() == 0 && r.spec_col() == 0,
            !r.spec_exit(),
    {
        App { exit: false, puzzle: Puzzle::new(level), selected_row: 0, selected_col: 0, level }
    }

    pub fn puzzle(&self) -> (r: Puzzle)
        ensures
            r == self.spec_puzzle(),
    {
        self.puzzle
    }

    pub fn selected(&self) -> (r: (usize, usize))
        ensures
            r.0 == self.spec_row() && r.1 == self.spec_col(),
    {
        (self.selected_row, self.selected_col)
    }

    pub fn level(&self) -> (r: Difficulty)
        ensures
            r == self.spec_level(),
    {
        self.level
    }

    pub fn should_exit(&self) -> (r: bool)
        ensures
            r == self.spec_exit(),
    {
        self.exit
    }

    /// Replaces the puzzle with a new one at the session's difficulty.
    pub fn new_game(&mut self)
        requires
            old(self).wf(),
        ensures
            final(self).wf(),
            final(self).spec_puzzle().fresh(old(self).spec_level()),
            final(self).spec_level() == old(self).spec_level(),
            final(self).spec_row() == old(self).spec_row(),
            final(self).spec_col() == old(self).spec_col(),
            final(self).spec_exit() == old(self).spec_exit(),
    {
        self.puzzle = Puzzle::new(self.level);
    }

    /// Marks the session as over.
    pub fn exit(&mut self)
        ensures
            final(self).spec_exit(),
            final(self).spec_puzzle() == old(self).spec_puzzle(),
            final(self).spec_level() == old(self).spec_level(),
            final(self).spec_row() == old(self).spec_row(),
            final(self).spec_col() == old(self).spec_col(),
    {
        self.exit = true;
    }

    /// Acts on one key: `q` ends the session; `n` starts a new game; `r`
    /// resets the puzzle; the arrows move the selection and stop at the
    /// edges; a digit from 1 to 9 is written into the selected cell; erasing
    /// clears it. Any other key does nothing.
    pub fn handle_key(&mut self, key: Key) -> (effect: Effect)
        requires
            old(self).wf(),
        ensures
            final(self).wf(),
            final(self).spec_level() == old(self).spec_level(),
            final(self).spec_exit() == (old(self).spec_exit() || key == Key::Quit),
            key != Key::NewGame ==> final(self).spec_puzzle().spec_clues()
                == old(self).spec_puzzle().spec_clues(),
            key == Key::Left ==> final(self).spec_col() == if old(self).spec_col() == 0 {
                0
            } else {
                old(self).spec_col() - 1
            },
            key == Key::Right ==> final(self).spec_col() == if old(self).spec_col() == 8 {
                8
            } else {
                old(self).spec_col() + 1
            },
            key == Key::Up ==> final(self).spec_row() == if old(self).spec_row() == 0 {
                0
            } else {
                old(self).spec_row() - 1
            },
            key == Key::Down ==> final(self).spec_row() == if old(self).spec_row() == 8 {
                8
            } else {
                old(self).spec_row() + 1
            },
            key != Key::Left && key != Key::Right ==> final(self).spec_col() == old(self).spec_col(),
            key != Key::Up && key != Key::Down ==> final(self).spec_row() == old(self).spec_row(),
            key == Key::NewGame ==> final(self).spec_puzzle().fresh(old(self).spec_level()),
            key == Key::Reset ==> forall|r: int, c: int|
                in_grid(r, c) ==> #[trigger] final(self).spec_puzzle().spec_grid()[r][c]
                    == reset_cell(old(self).spec_puzzle().spec_grid()[r][c]),
            key == Key::Erase ==> final(self).spec_puzzle().spec_grid() == cleared(
                old(self).spec_puzzle().spec_grid(),
                old(self).spec_row(),
                old(self).spec_col(),
            ),
            forall|d: u8|
                key == Key::Digit(d) && 1 <= d <= 9 ==> final(self).spec_puzzle().spec_grid()
                    == #[trigger] inserted(
                    old(self).spec_puzzle().spec_grid(),
                    old(self).spec_row(),
                    old(self).spec_col(),
                    d,
                ),
            key != Key::NewGame && key != Key::Reset && key != Key::Erase && !(exists|d: u8|
                key == Key::Digit(d) && 1 <= d <= 9) ==> final(self).spec_puzzle()
                == old(self).spec_puzzle(),
            effect == Effect::Restart <==> key == Key::NewGame,
            effect == Effect::Solved <==> (exists|d: u8| key == Key::Digit(d) && 1 <= d <= 9)
                && final(self).spec_puzzle().spec_is_solved(),
    {
        match key {
            Key::Quit => {
                self.exit();
                Effect::Keep
            },
            Key::NewGame => {
                self.new_game();
                Effect::Restart
            },
            Key::Reset => {
                self.puzzle.reset();
                Effect::Keep
            },
            Key::Left => {
                if self.selected_col > 0 {
                    self.selected_col = self.selected_col - 1;
                }
                Effect::Keep
            },
            Key::Right => {
                if self.selected_col < 8 {
                    self.selected_col = self.selected_col + 1;
                }
                Effect::Keep
            },
            Key::Up => {
                if self.selected_row > 0 {
                    self.selected_row = self.selected_row - 1;
                }
                Effect::Keep
            },
            Key::Down => {
                if self.selected_row < 8 {
                    self.selected_row = self.selected_row + 1;
                }
                Effect::Keep
            },
            Key::Digit(d) => {
                if 1 <= d && d <= 9 {
                    self.puzzle.insert_number(self.selected_row, self.selected_col, d);
                    if self.puzzle.is_solved() {
                        Effect::Solved
                    } else {
                        Effect::Keep
                    }
                } else {
                    Effect::Keep
                }
            },
            Key::Erase => {
                self.puzzle.clear_cell(self.selected_row, self.selected_col);
                Effect::Keep
            },
            Key::Other => Effect::Keep,
        }
    }
}

/// The text of one decimal digit.
pub open spec fn digit_text(d: nat) -> Seq<char> {
    if d == 0 {
        "0"@
    } else if d == 1 {
        "1"@
    } else if d == 2 {
        "2"@
    } else if d == 3 {
        "3"@
    } else if d == 4 {
        "4"@
    } else if d == 5 {
        "5"@
    } else if d == 6 {
        "6"@
    } else if d == 7 {
        "7"@
    } else if d == 8 {
        "8"@
    } else {
        "9"@
    }
}

/// `n` written in decimal, without leading zeros.
pub open spec fn decimal(n: nat) -> Seq<char>
    decreases n,
{
    if n < 10 {
        digit_text(n)
    } else {
        decimal(n / 10) + digit_text(n % 10)
    }
}

/// `n` in decimal, with a leading zero below ten.
pub open spec fn two_digits(n: nat) -> Seq<char> {
    if n < 10 {
        "0"@ + decimal(n)
    } else {
        decimal(n)
    }
}

/// `secs` seconds as hours, minutes and seconds, `hh:mm:ss`.
pub open spec fn clock_text(secs: nat) -> Seq<char> {
    two_digits(secs / 3600) + ":"@ + two_digits((secs % 3600) / 60) + ":"@ + two_digits(secs % 60)
}

fn digit_str(d: u64) -> (r: &'static str)
    requires
        d < 10,
    ensures
        r@ == digit_text(d as nat),
{
    if d == 0 {
        "0"
    } else if d == 1 {
        "1"
    } else if d == 2 {
        "2"
    } else if d == 3 {
        "3"
    } else if d == 4 {
        "4"
    } else if d == 5 {
        "5"
    } else if d == 6 {
        "6"
    } else if d == 7 {
        "7"
    } else if d == 8 {
        "8"
    } else {
        "9"
    }
}

fn push_decimal(out: &mut String, n: u64)
    ensures
        final(out)@ == old(out)@ + decimal(n as nat),
    decreases n,
{
    if n >= 10 {
        push_decimal(out, n / 10);
    }
    out.append(digit_str(n % 10));
    proof {
        assert(old(out)@ + decimal(n as nat) =~= if n >= 10 {
            old(out)@ + decimal((n / 10) as nat) + digit_text((n % 10) as nat)
        } else {
            old(out)@ + digit_text(n as nat)
        });
    }
}

fn push_two_digits(out: &mut String, n: u64)
    ensures
        final(out)@ == old(out)@ + two_digits(n as nat),
{
    if n < 10 {
        out.append("0");
    }
    push_decimal(out, n);
    proof {
        if n < 10 {
            assert(old(out)@ + two_digits(n as nat) =~= old(out)@ + "0"@ + decimal(n as nat));
        }
    }
}

/// The time shown for a game that has run `secs` seconds.
pub fn format_duration(secs: u64) -> (r: String)
    ensures
        r@ == clock_text(secs as nat),
{
    let hours = secs / 3600;
    let minutes = (secs % 3600) / 60;
    let seconds = secs % 60;
    let mut text = String::new();
    push_two_digits(&mut text, hours);
    text.append(":");
    push_two_digits(&mut text, minutes);
    text.append(":");
    push_two_digits(&mut text, seconds);
    proof {
        assert(text@ =~= clock_text(secs as nat));
    }
    text
}

} // verus!

use crate::board::Board;
use crate::board::in_range;
use vstd::prelude::*;

verus! {

/// The simulation: a board together with the pause, in milliseconds,
/// between generations.
pub struct Game {
    pub board: Board,
    pub sleep_time: u64,
}

/// What a line typed during the setup phase means: leave setup, randomize
/// the board, a cell coordinate, or nothing recognizable.
#[derive(Debug, PartialEq, Eq, Structural)]
pub enum SetupInput {
    Continue,
    Randomize,
    Index(usize),
    Invalid,
}

/// Whether `c` is a decimal digit.
pub open spec fn is_digit_char(c: char) -> bool {
    '0' as int <= c as int && c as int <= '9' as int
}

/// Whether `s` is a non-empty run of decimal digits.
pub open spec fn is_digits(s: Seq<char>) -> bool {
    s.len() > 0 && forall|k: int| 0 <= k < s.len() ==> is_digit_char(#[trigger] s[k])
}

/// The number a run of decimal digits denotes, most significant digit first.
pub open spec fn digits_value(s: Seq<char>) -> int
    decreases s.len(),
{
    if s.len() == 0 {
        0
    } else {
        digits_value(s.drop_last()) * 10 + (s.last() as int - '0' as int)
    }
}

/// What a trimmed setup line means: `"c"` leaves setup, `"r"` randomizes,
/// a run of digits that fits in `usize` is a coordinate, anything else is
/// ignored.
pub open spec fn classify_setup_input(s: Seq<char>) -> SetupInput {
    if s == "c"@ {
        SetupInput::Continue
    } else if s == "r"@ {
        SetupInput::Randomize
    } else if is_digits(s) && digits_value(s) <= usize::MAX as int {
        SetupInput::Index(digits_value(s) as usize)
    } else {
        SetupInput::Invalid
    }
}

proof fn lemma_digits_value_nonneg(s: Seq<char>)
    requires
        forall|k: int| 0 <= k < s.len() ==> is_digit_char(#[trigger] s[k]),
    ensures
        digits_value(s) >= 0,
    decreases s.len(),
{
    if s.len() > 0 {
        assert(forall|k: int|
            0 <= k < s.drop_last().len() ==> is_digit_char(#[trigger] s.drop_last()[k]));
        lemma_digits_value_nonneg(s.drop_last());
    }
}

/// A run of digits denotes at least what any of its prefixes denotes.
proof fn lemma_digits_value_take_le(s: Seq<char>, k: int)
    requires
        0 <= k <= s.len(),
        forall|t: int| 0 <= t < s.len() ==> is_digit_char(#[trigger] s[t]),
    ensures
        digits_value(s.take(k)) <= digits_value(s),
    decreases s.len() - k,
{
    if k == s.len() {
        assert(s.take(k) =~= s);
    } else {
        assert(s.take(k + 1).drop_last() =~= s.take(k));
        assert(s.take(k + 1).last() == s[k]);
        assert(forall|t: int| 0 <= t < s.take(k).len() ==> is_digit_char(#[trigger] s.take(k)[t]));
        lemma_digits_value_nonneg(s.take(k));
        assert(digits_value(s.take(k + 1)) == digits_value(s.take(k)) * 10 + (s[k] as int
            - '0' as int));
        lemma_digits_value_take_le(s, k + 1);
    }
}

/// Classify one trimmed line of setup input.
pub fn parse_setup_input(s: &str) -> (r: SetupInput)
    ensures
        r == classify_setup_input(s@),
{
    proof {
        reveal_strlit("c");
        reveal_strlit("r");
    }
    let len = s.unicode_len();
    if len == 0 {
        return SetupInput::Invalid;
    }
    if len == 1 {
        let c0 = s.get_char(0);
        if c0 == 'c' {
            proof {
                assert(s@ =~= "c"@);
            }
            return SetupInput::Continue;
        }
        if c0 == 'r' {
            proof {
                assert(s@ =~= "r"@);
            }
            return SetupInput::Randomize;
        }
    }
    let mut acc: usize = 0;
    let mut k: usize = 0;
    while k < len
        invariant
            k <= len,
            len == s@.len(),
            len >= 1,
            s@ != "c"@,
            s@ != "r"@,
            forall|t: int| 0 <= t < k ==> is_digit_char(#[trigger] s@[t]),
            acc as int == digits_value(s@.take(k as int)),
        decreases len - k,
    {
        let ch = s.get_char(k);
        let code = ch as u32;
        if code < 48 || code > 57 {
            return SetupInput::Invalid;
        }
        let d = (code - 48) as usize;
        proof {
            assert(s@.take(k + 1).drop_last() =~= s@.take(k as int));
            assert(s@.take(k + 1).last() == s@[k as int]);
        }
        let next = match acc.checked_mul(10) {
            Some(v) => v.checked_add(d),
            None => None,
        };
        match next {
            Some(v) => {
                acc = v;
            },
            None => {
                proof {
                    if is_digits(s@) && digits_value(s@) <= usize::MAX as int {
                        lemma_digits_value_take_le(s@, k + 1);
                    }
                }
                return SetupInput::Invalid;
            },
        }
        k = k + 1;
    }
    proof {
        assert(s@.take(len as int) =~= s@);
    }
    SetupInput::Index(acc)
}

/// Relies on rand::random::<bool>: one draw from the thread-local RNG.
/// Nothing is assumed of the value drawn.
#[verifier::external_body]
fn random_bool() -> bool {
    rand::random()
}

impl Game {
    /// A game over an all-dead square grid of the given side length, with
    /// the given pause between generations.
    pub fn new(time: u64, size: usize) -> (g: Game)
        ensures
            g.board.grid().len() == size,
            forall|i: int| 0 <= i < size ==> #[trigger] g.board.grid()[i].len() == size,
            forall|i: int, j: int| 0 <= i < size && 0 <= j < size ==> !(#[trigger] g.board.grid()[i][j]),
            g.board.iter == 0,
            g.sleep_time == time,
    {
        let mut vector: Vec<Vec<bool>> = Vec::new();
        let mut i: usize = 0;
        while i < size
            invariant
                i <= size,
                vector@.len() == i,
                forall|k: int| 0 <= k < i ==> (#[trigger] vector@[k])@.len() == size,
                forall|k: int, l: int| 0 <= k < i && 0 <= l < size ==> !(#[trigger] vector@[k]@[l]),
            decreases size - i,
        {
            let mut row: Vec<bool> = Vec::new();
            let mut j: usize = 0;
            while j < size
                invariant
                    j <= size,
                    row@.len() == j,
                    forall|l: int| 0 <= l < j ==> !(#[trigger] row@[l]),
                decreases size - j,
            {
                row.push(false);
                j = j + 1;
            }
            vector.push(row);
            i = i + 1;
        }
        Game { board: Board::from(vector), sleep_time: time }
    }

    /// Toggle cell `(i, j)`. An out-of-range coordinate leaves the board
    /// exactly as it was.
    pub fn change_value(&mut self, i: usize, j: usize)
        ensures
            final(self).sleep_time == old(self).sleep_time,
            final(self).board.iter == old(self).board.iter,
            final(self).board.grid().len() == old(self).board.grid().len(),
            forall|r: int|
                0 <= r < old(self).board.grid().len() ==> #[trigger] final(self).board.grid()[r].len()
                    == old(self).board.grid()[r].len(),
            forall|r: int, c: int|
                in_range(old(self).board.grid(), r, c) ==> #[trigger] final(self).board.grid()[r][c]
                    == (if r == i && c == j {
                    !old(self).board.grid()[r][c]
                } else {
                    old(self).board.grid()[r][c]
                }),
    {
        if i < self.board.positions.len() {
            let row_len = self.board.positions[i].len();
            if j < row_len {
                let cur = self.board.positions[i][j];
                self.board.positions[i][j] = !cur;
            }
        }
    }

    /// Set every cell independently to a random state; the shape of the
    /// board, its tick counter and the pause are untouched.
    pub fn random_setup(&mut self)
        ensures
            final(self).sleep_time == old(self).sleep_time,
            final(self).board.iter == old(self).board.iter,
            final(self).board.grid().len() == old(self).board.grid().len(),
            forall|r: int|
                0 <= r < old(self).board.grid().len() ==> #[trigger] final(self).board.grid()[r].len()
                    == old(self).board.grid()[r].len(),
    {
        let n = self.board.positions.len();
        let mut i: usize = 0;
        while i < n
            invariant
                i <= n,
                n == self.board.positions@.len(),
                self.board.positions@.len() == old(self).board.positions@.len(),
                forall|r: int|
                    0 <= r < n ==> (#[trigger] self.board.positions@[r])@.len() == old(
                        self,
                    ).board.positions@[r]@.len(),
                self.board.iter == old(self).board.iter,
                self.sleep_time == old(self).sleep_time,
            decreases n - i,
        {
            let m = self.board.positions[i].len();
            let mut j: usize = 0;
            while j < m
                invariant
                    j <= m,
                    i < n,
                    n == self.board.positions@.len(),
                    self.board.positions@.len() == old(self).board.positions@.len(),
                    m == self.board.positions@[i as int]@.len(),
                    forall|r: int|
                        0 <= r < n ==> (#[trigger] self.board.positions@[r])@.len() == old(
                            self,
                        ).board.positions@[r]@.len(),
                    self.board.iter == old(self).board.iter,
                    self.sleep_time == old(self).sleep_time,
                decreases m - j,
            {
                let v = random_bool();
                self.board.positions[i][j] = v;
                j = j + 1;
            }
            i = i + 1;
        }
    }
}

} // verus!

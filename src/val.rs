use vstd::prelude::*;
use vstd::string::*;

verus! {

/// One of the nine symbols that fill a Sudoku grid.
#[derive(Clone, Copy, Debug, PartialEq, Eq, Structural, PartialOrd, Ord, Hash)]
pub enum Val {
    One,
    Two,
    Three,
    Four,
    Five,
    Six,
    Seven,
    Eight,
    Nine,
}

impl Val {
    /// Position of the value in the order One..Nine, from 0 to 8.
    pub open spec fn index(self) -> int {
        match self {
            Val::One => 0,
            Val::Two => 1,
            Val::Three => 2,
            Val::Four => 3,
            Val::Five => 4,
            Val::Six => 5,
            Val::Seven => 6,
            Val::Eight => 7,
            Val::Nine => 8,
        }
    }

    /// The value at position `i` (0 to 8).
    pub open spec fn at(i: int) -> Val {
        if i <= 0 {
            Val::One
        } else if i == 1 {
            Val::Two
        } else if i == 2 {
            Val::Three
        } else if i == 3 {
            Val::Four
        } else if i == 4 {
            Val::Five
        } else if i == 5 {
            Val::Six
        } else if i == 6 {
            Val::Seven
        } else if i == 7 {
            Val::Eight
        } else {
            Val::Nine
        }
    }

    /// The digit that the value is written as.
    pub open spec fn digit(self) -> char {
        match self {
            Val::One => '1',
            Val::Two => '2',
            Val::Three => '3',
            Val::Four => '4',
            Val::Five => '5',
            Val::Six => '6',
            Val::Seven => '7',
            Val::Eight => '8',
            Val::Nine => '9',
        }
    }

    /// Position of the value, 0 to 8.
    pub fn idx(self) -> (r: usize)
        ensures
            r == self.index(),
            r < 9,
    {
        match self {
            Val::One => 0,
            Val::Two => 1,
            Val::Three => 2,
            Val::Four => 3,
            Val::Five => 4,
            Val::Six => 5,
            Val::Seven => 6,
            Val::Eight => 7,
            Val::Nine => 8,
        }
    }

    /// The value at position `i`.
    pub fn from_idx(i: usize) -> (r: Val)
        requires
            i < 9,
        ensures
            r.index() == i,
            r == Val::at(i as int),
    {
        if i == 0 {
            Val::One
        } else if i == 1 {
            Val::Two
        } else if i == 2 {
            Val::Three
        } else if i == 3 {
            Val::Four
        } else if i == 4 {
            Val::Five
        } else if i == 5 {
            Val::Six
        } else if i == 6 {
            Val::Seven
        } else if i == 7 {
            Val::Eight
        } else {
            Val::Nine
        }
    }

    /// The number 1 to 9 that the value stands for.
    pub fn number(self) -> (r: u32)
        ensures
            r == self.index() + 1,
    {
        self.idx() as u32 + 1
    }

    /// The value standing for `n`, if `n` is between 1 and 9.
    pub fn try_from(n: u32) -> (r: Option<Val>)
        ensures
            r.is_some() <==> 1 <= n <= 9,
            r matches Some(v) ==> v.index() + 1 == n,
    {
        if 1 <= n && n <= 9 {
            Some(Val::from_idx((n - 1) as usize))
        } else {
            None
        }
    }

    /// The nine values in ascending order.
    pub fn all() -> (r: Vec<Val>)
        ensures
            r@.len() == 9,
            forall|i: int| 0 <= i < 9 ==> (#[trigger] r@[i]).index() == i,
    {
        let mut r: Vec<Val> = Vec::new();
        for i in 0..9usize
            invariant
                r@.len() == i,
                forall|j: int| 0 <= j < i ==> (#[trigger] r@[j]).index() == j,
        {
            r.push(Val::from_idx(i));
        }
        r
    }

    /// The digit that the value is written as.
    pub fn to_char(self) -> (r: char)
        ensures
            r == self.digit(),
    {
        match self {
            Val::One => '1',
            Val::Two => '2',
            Val::Three => '3',
            Val::Four => '4',
            Val::Five => '5',
            Val::Six => '6',
            Val::Seven => '7',
            Val::Eight => '8',
            Val::Nine => '9',
        }
    }

    /// Reads a value from one token: a digit `1`-`9`, a letter `a`-`i`, or an
    /// English name `one`-`nine`, letters in either case.
    pub fn parse(t: &str) -> (r: Option<Val>)
        ensures
            r == token_value(t@),
    {
        if word_is(t, "1") || word_is(t, "a") || word_is(t, "one") {
            Some(Val::One)
        } else if word_is(t, "2") || word_is(t, "b") || word_is(t, "two") {
            Some(Val::Two)
        } else if word_is(t, "3") || word_is(t, "c") || word_is(t, "three") {
            Some(Val::Three)
        } else if word_is(t, "4") || word_is(t, "d") || word_is(t, "four") {
            Some(Val::Four)
        } else if word_is(t, "5") || word_is(t, "e") || word_is(t, "five") {
            Some(Val::Five)
        } else if word_is(t, "6") || word_is(t, "f") || word_is(t, "six") {
            Some(Val::Six)
        } else if word_is(t, "7") || word_is(t, "g") || word_is(t, "seven") {
            Some(Val::Seven)
        } else if word_is(t, "8") || word_is(t, "h") || word_is(t, "eight") {
            Some(Val::Eight)
        } else if word_is(t, "9") || word_is(t, "i") || word_is(t, "nine") {
            Some(Val::Nine)
        } else {
            None
        }
    }
}

/// `c` is the character `w`, or its upper-case form when `w` is a lower-case
/// ASCII letter.
pub open spec fn same_letter(c: char, w: char) -> bool {
    c == w || ('a' <= w <= 'z' && c as u32 == w as u32 - 32)
}

/// The token `t` spells the lower-case word `w`, ignoring ASCII case.
pub open spec fn spells(t: Seq<char>, w: Seq<char>) -> bool {
    t.len() == w.len() && forall|i: int| 0 <= i < t.len() ==> same_letter(t[i], w[i])
}

/// The value that a token stands for, if any.
pub open spec fn token_value(t: Seq<char>) -> Option<Val> {
    if spells(t, "1"@) || spells(t, "a"@) || spells(t, "one"@) {
        Some(Val::One)
    } else if spells(t, "2"@) || spells(t, "b"@) || spells(t, "two"@) {
        Some(Val::Two)
    } else if spells(t, "3"@) || spells(t, "c"@) || spells(t, "three"@) {
        Some(Val::Three)
    } else if spells(t, "4"@) || spells(t, "d"@) || spells(t, "four"@) {
        Some(Val::Four)
    } else if spells(t, "5"@) || spells(t, "e"@) || spells(t, "five"@) {
        Some(Val::Five)
    } else if spells(t, "6"@) || spells(t, "f"@) || spells(t, "six"@) {
        Some(Val::Six)
    } else if spells(t, "7"@) || spells(t, "g"@) || spells(t, "seven"@) {
        Some(Val::Seven)
    } else if spells(t, "8"@) || spells(t, "h"@) || spells(t, "eight"@) {
        Some(Val::Eight)
    } else if spells(t, "9"@) || spells(t, "i"@) || spells(t, "nine"@) {
        Some(Val::Nine)
    } else {
        None
    }
}

/// Whether `t` spells the word `w`, ignoring ASCII case.
fn word_is(t: &str, w: &str) -> (r: bool)
    ensures
        r == spells(t@, w@),
{
    let n = t.unicode_len();
    if n != w.unicode_len() {
        return false;
    }
    let mut i: usize = 0;
    while i < n
        invariant
            n == t@.len(),
            n == w@.len(),
            i <= n,
            forall|j: int| 0 <= j < i ==> same_letter(t@[j], w@[j]),
        decreases n - i,
    {
        let c = t.get_char(i);
        let d = w.get_char(i);
        let same = c == d || ('a' <= d && d <= 'z' && c as u32 == d as u32 - 32);
        if !same {
            return false;
        }
        i = i + 1;
    }
    true
}

} // verus!

use vstd::prelude::*;
use vstd::string::*;

verus! {

/// A tile's score amplifier.
#[derive(Clone, Copy, Debug, PartialEq, Eq, Structural)]
pub enum Multiplier {
    /// Multiplies the whole path's letter sum.
    Word(u16),
    /// Multiplies this tile's own letter value.
    Letter(u16),
    Unmultiplied,
}

/// Base point value of a tile letter; zero for a string that is no tile letter.
pub open spec fn letter_base(s: Seq<char>) -> nat {
    if s.len() == 1 {
        single_letter_base(s[0])
    } else if s.len() == 2 && s[0] == 'q' && s[1] == 'u' {
        10
    } else {
        0
    }
}

pub open spec fn single_letter_base(c: char) -> nat {
    match c {
        'a' => 1, 'b' => 4, 'c' => 4, 'd' => 2, 'e' => 1, 'f' => 4,
        'g' => 3, 'h' => 3, 'i' => 1, 'j' => 10, 'k' => 5, 'l' => 2,
        'm' => 4, 'n' => 2, 'o' => 1, 'p' => 4, 'r' => 1,
        's' => 1, 't' => 1, 'u' => 2, 'v' => 5, 'w' => 4, 'x' => 10,
        'y' => 3, 'z' => 10, _ => 0,
    }
}

/// One of the letters `a`..`z` (but `q`) or the ligature `qu`.
pub open spec fn is_tile_letter(s: Seq<char>) -> bool {
    letter_base(s) > 0
}

impl Multiplier {
    /// Factor applied to the tile's own letter value.
    pub open spec fn letter_factor(self) -> nat {
        match self {
            Multiplier::Letter(m) => m as nat,
            _ => 1,
        }
    }

    /// Factor applied to the letter sum of every path through the tile.
    pub open spec fn word_factor(self) -> nat {
        match self {
            Multiplier::Word(m) => m as nat,
            _ => 1,
        }
    }

    /// Every factor is a positive integer.
    pub open spec fn is_positive(self) -> bool {
        match self {
            Multiplier::Word(m) => m >= 1,
            Multiplier::Letter(m) => m >= 1,
            Multiplier::Unmultiplied => true,
        }
    }
}

/// One grid cell: its letter and its multiplier.
pub struct Tile {
    pub letter: String,
    pub multiplier: Multiplier,
}

impl Tile {
    /// Facts of a tile that a board accepts.
    pub open spec fn wf(&self) -> bool {
        is_tile_letter(self.letter@) && self.multiplier.is_positive()
    }

    /// Value this tile adds to a path's letter sum.
    pub open spec fn letter_score(&self) -> nat {
        letter_base(self.letter@) * self.multiplier.letter_factor()
    }

    pub fn new(letter: String, multiplier: Multiplier) -> (t: Tile)
        ensures
            t.letter@ == letter@,
            t.multiplier == multiplier,
    {
        Tile { letter: letter, multiplier: multiplier }
    }

    /// Base value of the tile's letter, from the fixed letter table.
    pub fn letter_value(&self) -> (v: u16)
        requires
            is_tile_letter(self.letter@),
        ensures
            v as nat == letter_base(self.letter@),
    {
        letter_value_of(self.letter.as_str())
    }
}

/// Base value of `s`, or zero when `s` is no tile letter.
pub fn letter_value_of(s: &str) -> (v: u16)
    ensures
        v as nat == letter_base(s@),
        v <= 10,
{
    let n = s.unicode_len();
    if n == 1 {
        let c = s.get_char(0);
        match c {
            'a' => 1, 'b' => 4, 'c' => 4, 'd' => 2, 'e' => 1, 'f' => 4,
            'g' => 3, 'h' => 3, 'i' => 1, 'j' => 10, 'k' => 5, 'l' => 2,
            'm' => 4, 'n' => 2, 'o' => 1, 'p' => 4, 'r' => 1,
            's' => 1, 't' => 1, 'u' => 2, 'v' => 5, 'w' => 4, 'x' => 10,
            'y' => 3, 'z' => 10, _ => 0,
        }
    } else if n == 2 && s.get_char(0) == 'q' && s.get_char(1) == 'u' {
        10
    } else {
        0
    }
}

/// Every tile letter, in alphabetical order: `a` to `z`, with `qu` in place of `q`.
pub fn tile_letters() -> (letters: Vec<String>)
    ensures
        letters@.len() == 26,
        forall|i: int| 0 <= i < letters@.len() ==> is_tile_letter(#[trigger] letters@[i]@),
        forall|s: Seq<char>| is_tile_letter(s) ==> exists|i: int| 0 <= i < letters@.len() && #[trigger] letters@[i]@ == s,
{
    proof {
        reveal_strlit("a");
        reveal_strlit("b");
        reveal_strlit("c");
        reveal_strlit("d");
        reveal_strlit("e");
        reveal_strlit("f");
        reveal_strlit("g");
        reveal_strlit("h");
        reveal_strlit("i");
        reveal_strlit("j");
        reveal_strlit("k");
        reveal_strlit("l");
        reveal_strlit("m");
        reveal_strlit("n");
        reveal_strlit("o");
        reveal_strlit("p");
        reveal_strlit("qu");
        reveal_strlit("r");
        reveal_strlit("s");
        reveal_strlit("t");
        reveal_strlit("u");
        reveal_strlit("v");
        reveal_strlit("w");
        reveal_strlit("x");
        reveal_strlit("y");
        reveal_strlit("z");
    }
    let mut letters: Vec<String> = Vec::new();
    letters.push(String::from_str("a"));
    letters.push(String::from_str("b"));
    letters.push(String::from_str("c"));
    letters.push(String::from_str("d"));
    letters.push(String::from_str("e"));
    letters.push(String::from_str("f"));
    letters.push(String::from_str("g"));
    letters.push(String::from_str("h"));
    letters.push(String::from_str("i"));
    letters.push(String::from_str("j"));
    letters.push(String::from_str("k"));
    letters.push(String::from_str("l"));
    letters.push(String::from_str("m"));
    letters.push(String::from_str("n"));
    letters.push(String::from_str("o"));
    letters.push(String::from_str("p"));
    letters.push(String::from_str("qu"));
    letters.push(String::from_str("r"));
    letters.push(String::from_str("s"));
    letters.push(String::from_str("t"));
    letters.push(String::from_str("u"));
    letters.push(String::from_str("v"));
    letters.push(String::from_str("w"));
    letters.push(String::from_str("x"));
    letters.push(String::from_str("y"));
    letters.push(String::from_str("z"));
    proof {
        assert forall|s: Seq<char>| is_tile_letter(s) implies exists|i: int| 0 <= i < letters@.len() && #[trigger] letters@[i]@ == s by {
            if s.len() == 1 {
                let c = s[0];
                assert(s =~= seq![c]);
                if c == 'a' {
                    assert(letters@[0]@ == s);
                } else if c == 'b' {
                    assert(letters@[1]@ == s);
                } else if c == 'c' {
                    assert(letters@[2]@ == s);
                } else if c == 'd' {
                    assert(letters@[3]@ == s);
                } else if c == 'e' {
                    assert(letters@[4]@ == s);
                } else if c == 'f' {
                    assert(letters@[5]@ == s);
                } else if c == 'g' {
                    assert(letters@[6]@ == s);
                } else if c == 'h' {
                    assert(letters@[7]@ == s);
                } else if c == 'i' {
                    assert(letters@[8]@ == s);
                } else if c == 'j' {
                    assert(letters@[9]@ == s);
                } else if c == 'k' {
                    assert(letters@[10]@ == s);
                } else if c == 'l' {
                    assert(letters@[11]@ == s);
                } else if c == 'm' {
                    assert(letters@[12]@ == s);
                } else if c == 'n' {
                    assert(letters@[13]@ == s);
                } else if c == 'o' {
                    assert(letters@[14]@ == s);
                } else if c == 'p' {
                    assert(letters@[15]@ == s);
                } else if c == 'r' {
                    assert(letters@[17]@ == s);
                } else if c == 's' {
                    assert(letters@[18]@ == s);
                } else if c == 't' {
                    assert(letters@[19]@ == s);
                } else if c == 'u' {
                    assert(letters@[20]@ == s);
                } else if c == 'v' {
                    assert(letters@[21]@ == s);
                } else if c == 'w' {
                    assert(letters@[22]@ == s);
                } else if c == 'x' {
                    assert(letters@[23]@ == s);
                } else if c == 'y' {
                    assert(letters@[24]@ == s);
                } else if c == 'z' {
                    assert(letters@[25]@ == s);
                }
            } else {
                assert(s =~= seq!['q', 'u']);
                assert(letters@[16]@ == s);
            }
        }
    }
    letters
}

} // verus!

use vstd::prelude::*;

verus! {

/// The index of the value that completes two attribute values to a set:
/// the unique `c` with `a + b + c == 0 (mod 3)`, so that the three indices
/// are either all equal or all distinct.
pub open spec fn third_index(a: int, b: int) -> int {
    (6 - a - b) % 3
}

/// A representation of the letter on a card: cylinders (rendered as O),
/// diamonds (rendered as >, D for diamond) and squigglies (rendered as S).
#[derive(Clone, Copy, PartialEq, Eq, Structural, Debug)]
pub enum Letter {
    O,
    D,
    S,
}

impl Letter {
    /// The position of this value in its 3-element domain.
    pub open spec fn index(self) -> int {
        match self {
            Letter::O => 0,
            Letter::D => 1,
            Letter::S => 2,
        }
    }

    /// The value standing at a given position of the domain.
    pub open spec fn of_index(i: int) -> Letter {
        if i == 0 {
            Letter::O
        } else if i == 1 {
            Letter::D
        } else {
            Letter::S
        }
    }

    /// The unique value completing `self` and `other` to a set.
    pub open spec fn spec_third(self, other: Letter) -> Letter {
        Letter::of_index(third_index(self.index(), other.index()))
    }

    pub fn from_number(num: u8) -> (r: Option<Letter>)
        ensures
            r is Some <==> num < 3,
            num < 3 ==> r == Some(Letter::of_index(num as int)),
    {
        match num {
            0 => Some(Letter::O),
            1 => Some(Letter::D),
            2 => Some(Letter::S),
            _ => None,
        }
    }

    /// The character under which this letter is rendered.
    pub open spec fn spec_print(self) -> Seq<char> {
        match self {
            Letter::O => seq!['O'],
            Letter::D => seq!['>'],
            Letter::S => seq!['S'],
        }
    }

    pub fn print(&self) -> (r: String)
        ensures
            r@ == self.spec_print(),
    {
        proof {
            reveal_strlit("O");
            reveal_strlit(">");
            reveal_strlit("S");
        }
        let r = match self {
            Letter::O => "O".to_owned(),
            Letter::D => ">".to_owned(),
            Letter::S => "S".to_owned(),
        };
        proof {
            assert(r@ =~= self.spec_print());
        }
        r
    }

    pub fn third(&self, other: &Letter) -> (r: Letter)
        ensures
            r == self.spec_third(*other),
    {
        match self {
            Letter::O => match other {
                Letter::O => Letter::O,
                Letter::D => Letter::S,
                Letter::S => Letter::D,
            },
            Letter::D => match other {
                Letter::O => Letter::S,
                Letter::D => Letter::D,
                Letter::S => Letter::O,
            },
            Letter::S => match other {
                Letter::O => Letter::D,
                Letter::D => Letter::O,
                Letter::S => Letter::S,
            },
        }
    }
}

/// A representation of how many shapes are on the card.
#[derive(Clone, Copy, PartialEq, Eq, Structural, Debug)]
pub enum Count {
    One,
    Two,
    Three,
}

impl Count {
    /// The position of this value in its 3-element domain.
    pub open spec fn index(self) -> int {
        match self {
            Count::One => 0,
            Count::Two => 1,
            Count::Three => 2,
        }
    }

    /// The value standing at a given position of the domain.
    pub open spec fn of_index(i: int) -> Count {
        if i == 0 {
            Count::One
        } else if i == 1 {
            Count::Two
        } else {
            Count::Three
        }
    }

    /// The unique value completing `self` and `other` to a set.
    pub open spec fn spec_third(self, other: Count) -> Count {
        Count::of_index(third_index(self.index(), other.index()))
    }

    pub fn from_number(num: u8) -> (r: Option<Count>)
        ensures
            r is Some <==> num < 3,
            num < 3 ==> r == Some(Count::of_index(num as int)),
    {
        match num {
            0 => Some(Count::One),
            1 => Some(Count::Two),
            2 => Some(Count::Three),
            _ => None,
        }
    }

    /// How a rendered shape is repeated on the card: one copy is padded by
    /// spaces, two copies stand apart, three copies stand together.
    pub open spec fn spec_apply(self, s: Seq<char>) -> Seq<char> {
        match self {
            Count::One => seq![' '] + s + seq![' '],
            Count::Two => s + seq![' '] + s,
            Count::Three => s + s + s,
        }
    }

    pub fn apply(&self, string: String) -> (r: String)
        ensures
            r@ == self.spec_apply(string@),
    {
        proof {
            reveal_strlit(" ");
        }
        let mut r = String::new();
        match self {
            Count::One => {
                r.append(" ");
                r.append(string.as_str());
                r.append(" ");
            },
            Count::Two => {
                r.append(string.as_str());
                r.append(" ");
                r.append(string.as_str());
            },
            Count::Three => {
                r.append(string.as_str());
                r.append(string.as_str());
                r.append(string.as_str());
            },
        }
        proof {
            assert(r@ =~= self.spec_apply(string@));
        }
        r
    }

    pub fn third(&self, other: &Count) -> (r: Count)
        ensures
            r == self.spec_third(*other),
    {
        match self {
            Count::One => match other {
                Count::One => Count::One,
                Count::Two => Count::Three,
                Count::Three => Count::Two,
            },
            Count::Two => match other {
                Count::One => Count::Three,
                Count::Two => Count::Two,
                Count::Three => Count::One,
            },
            Count::Three => match other {
                Count::One => Count::Two,
                Count::Two => Count::One,
                Count::Three => Count::Three,
            },
        }
    }
}

/// A representation of the fill of a card: empty (no decoration), striped
/// (one underline) and filled (double underline).
#[derive(Clone, Copy, PartialEq, Eq, Structural, Debug)]
pub enum Styling {
    Plain,
    Underline,
    DoubleUnderline,
}

impl Styling {
    /// The position of this value in its 3-element domain.
    pub open spec fn index(self) -> int {
        match self {
            Styling::Plain => 0,
            Styling::Underline => 1,
            Styling::DoubleUnderline => 2,
        }
    }

    /// The value standing at a given position of the domain.
    pub open spec fn of_index(i: int) -> Styling {
        if i == 0 {
            Styling::Plain
        } else if i == 1 {
            Styling::Underline
        } else {
            Styling::DoubleUnderline
        }
    }

    /// The unique value completing `self` and `other` to a set.
    pub open spec fn spec_third(self, other: Styling) -> Styling {
        Styling::of_index(third_index(self.index(), other.index()))
    }

    pub fn from_number(num: u8) -> (r: Option<Styling>)
        ensures
            r is Some <==> num < 3,
            num < 3 ==> r == Some(Styling::of_index(num as int)),
    {
        match num {
            0 => Some(Styling::Plain),
            1 => Some(Styling::Underline),
            2 => Some(Styling::DoubleUnderline),
            _ => None,
        }
    }

    pub fn third(&self, other: &Styling) -> (r: Styling)
        ensures
            r == self.spec_third(*other),
    {
        match self {
            Styling::Plain => match other {
                Styling::Plain => Styling::Plain,
                Styling::Underline => Styling::DoubleUnderline,
                Styling::DoubleUnderline => Styling::Underline,
            },
            Styling::Underline => match other {
                Styling::Plain => Styling::DoubleUnderline,
                Styling::Underline => Styling::Underline,
                Styling::DoubleUnderline => Styling::Plain,
            },
            Styling::DoubleUnderline => match other {
                Styling::Plain => Styling::Underline,
                Styling::Underline => Styling::Plain,
                Styling::DoubleUnderline => Styling::DoubleUnderline,
            },
        }
    }
}

/// Representation of the colour of a card. Colour, not color.
#[derive(Clone, Copy, PartialEq, Eq, Structural, Debug)]
pub enum Colour {
    Red,
    Green,
    Purple,
}

impl Colour {
    /// The position of this value in its 3-element domain.
    pub open spec fn index(self) -> int {
        match self {
            Colour::Red => 0,
            Colour::Green => 1,
            Colour::Purple => 2,
        }
    }

    /// The value standing at a given position of the domain.
    pub open spec fn of_index(i: int) -> Colour {
        if i == 0 {
            Colour::Red
        } else if i == 1 {
            Colour::Green
        } else {
            Colour::Purple
        }
    }

    /// The unique value completing `self` and `other` to a set.
    pub open spec fn spec_third(self, other: Colour) -> Colour {
        Colour::of_index(third_index(self.index(), other.index()))
    }

    pub fn from_number(num: u8) -> (r: Option<Colour>)
        ensures
            r is Some <==> num < 3,
            num < 3 ==> r == Some(Colour::of_index(num as int)),
    {
        match num {
            0 => Some(Colour::Red),
            1 => Some(Colour::Green),
            2 => Some(Colour::Purple),
            _ => None,
        }
    }

    pub fn third(&self, other: &Colour) -> (r: Colour)
        ensures
            r == self.spec_third(*other),
    {
        match self {
            Colour::Red => match other {
                Colour::Red => Colour::Red,
                Colour::Green => Colour::Purple,
                Colour::Purple => Colour::Green,
            },
            Colour::Green => match other {
                Colour::Red => Colour::Purple,
                Colour::Green => Colour::Green,
                Colour::Purple => Colour::Red,
            },
            Colour::Purple => match other {
                Colour::Red => Colour::Green,
                Colour::Green => Colour::Red,
                Colour::Purple => Colour::Purple,
            },
        }
    }
}

/// A card of the game: four independent attributes, each drawn from a
/// 3-element domain, so that exactly 81 distinct cards exist.
#[derive(Clone, Copy, PartialEq, Eq, Structural, Debug)]
pub struct Card {
    pub letter: Letter,
    pub count: Count,
    pub styling: Styling,
    pub colour: Colour,
}

impl Card {
    /// The identifier of this card: its four attribute positions read as a
    /// base-3 number, the letter as the least significant digit.
    pub open spec fn index(self) -> int {
        self.letter.index() + 3 * self.count.index() + 9 * self.styling.index() + 27
            * self.colour.index()
    }

    /// The card with a given identifier: the base-3 digits of `id`, the
    /// letter read from the least significant one.
    pub open spec fn of_index(id: int) -> Card {
        Card {
            letter: Letter::of_index(id % 3),
            count: Count::of_index((id / 3) % 3),
            styling: Styling::of_index((id / 9) % 3),
            colour: Colour::of_index((id / 27) % 3),
        }
    }

    /// The unique card completing `self` and `other` to a set, attribute by
    /// attribute.
    pub open spec fn spec_third(self, other: Card) -> Card {
        Card {
            letter: self.letter.spec_third(other.letter),
            count: self.count.spec_third(other.count),
            styling: self.styling.spec_third(other.styling),
            colour: self.colour.spec_third(other.colour),
        }
    }

    /// Creates a card based on its 4-trit (i.e. number from [0..3**4))
    /// representation; any other number is rejected.
    pub fn from_tile_number(num: u8) -> (r: Option<Card>)
        ensures
            r is Some <==> num < 81,
            num < 81 ==> r == Some(Card::of_index(num as int)),
    {
        if num >= 81 {
            return None;
        }
        let letter = num % 3;
        let count = (num / 3) % 3;
        let styling = (num / 9) % 3;
        let colour = num / 27;
        Some(
            Card {
                letter: Letter::from_number(letter).unwrap(),
                count: Count::from_number(count).unwrap(),
                styling: Styling::from_number(styling).unwrap(),
                colour: Colour::from_number(colour).unwrap(),
            },
        )
    }

    /// It is always possible to form a set with two cards and one other
    /// unique card. This function returns such card.
    pub fn third(&self, other: &Card) -> (r: Card)
        ensures
            r == self.spec_third(*other),
    {
        Card {
            letter: self.letter.third(&other.letter),
            count: self.count.third(&other.count),
            styling: self.styling.third(&other.styling),
            colour: self.colour.third(&other.colour),
        }
    }
}

/// The base-3 digits of a number below 81 are recovered by division and
/// remainder, and the number is recovered from its digits.
proof fn lemma_digits(a0: int, a1: int, a2: int, a3: int)
    requires
        0 <= a0 < 3,
        0 <= a1 < 3,
        0 <= a2 < 3,
        0 <= a3 < 3,
    ensures
        0 <= a0 + 3 * a1 + 9 * a2 + 27 * a3 < 81,
        (a0 + 3 * a1 + 9 * a2 + 27 * a3) % 3 == a0,
        ((a0 + 3 * a1 + 9 * a2 + 27 * a3) / 3) % 3 == a1,
        ((a0 + 3 * a1 + 9 * a2 + 27 * a3) / 9) % 3 == a2,
        ((a0 + 3 * a1 + 9 * a2 + 27 * a3) / 27) % 3 == a3,
{
    let id = a0 + 3 * a1 + 9 * a2 + 27 * a3;
    assert(id % 3 == a0 && (id / 3) % 3 == a1 && (id / 9) % 3 == a2 && (id / 27) % 3 == a3)
        by (nonlinear_arith)
        requires
            0 <= a0 < 3,
            0 <= a1 < 3,
            0 <= a2 < 3,
            0 <= a3 < 3,
            id == a0 + 3 * a1 + 9 * a2 + 27 * a3,
    ;
}

/// The card identifiers form a bijection: decoding is a left and right
/// inverse of encoding, so the 81 decoded cards are pairwise distinct.
pub proof fn lemma_card_codec_bijective()
    ensures
        forall|id: int| 0 <= id < 81 ==> (#[trigger] Card::of_index(id)).index() == id,
        forall|c: Card| Card::of_index(#[trigger] c.index()) == c && 0 <= c.index() < 81,
        forall|i: int, j: int|
            0 <= i < 81 && 0 <= j < 81 && i != j ==> Card::of_index(i) != Card::of_index(j),
{
    assert forall|c: Card| Card::of_index(#[trigger] c.index()) == c && 0 <= c.index() < 81 by {
        lemma_digits(c.letter.index(), c.count.index(), c.styling.index(), c.colour.index());
    }
    assert forall|id: int| 0 <= id < 81 implies (#[trigger] Card::of_index(id)).index() == id by {
        let c = Card::of_index(id);
        assert(0 <= id % 3 < 3 && 0 <= (id / 3) % 3 < 3 && 0 <= (id / 9) % 3 < 3 && 0 <= (id / 27)
            % 3 < 3 && id == id % 3 + 3 * ((id / 3) % 3) + 9 * ((id / 9) % 3) + 27 * ((id / 27)
            % 3)) by (nonlinear_arith)
            requires
                0 <= id < 81,
        ;
        assert(c.index() == id % 3 + 3 * ((id / 3) % 3) + 9 * ((id / 9) % 3) + 27 * ((id / 27)
            % 3));
    }
    assert forall|i: int, j: int|
        0 <= i < 81 && 0 <= j < 81 && i != j implies Card::of_index(i) != Card::of_index(j) by {
        assert(Card::of_index(i).index() == i && Card::of_index(j).index() == j);
    }
}

/// The third value is the same whichever way the two given values are
/// ordered, for each attribute and for whole cards.
pub proof fn lemma_third_commutative(a: Card, b: Card)
    ensures
        a.spec_third(b) == b.spec_third(a),
        a.letter.spec_third(b.letter) == b.letter.spec_third(a.letter),
        a.count.spec_third(b.count) == b.count.spec_third(a.count),
        a.styling.spec_third(b.styling) == b.styling.spec_third(a.styling),
        a.colour.spec_third(b.colour) == b.colour.spec_third(a.colour),
{
}

/// Completing the third card with either of the two original cards gives
/// back the other one, for each attribute and for whole cards.
pub proof fn lemma_third_round_trip(a: Card, b: Card)
    requires
        a != b,
    ensures
        a.spec_third(b).spec_third(a) == b,
        forall|x: Letter, y: Letter| x.spec_third(y).spec_third(x) == y,
        forall|x: Count, y: Count| x.spec_third(y).spec_third(x) == y,
        forall|x: Styling, y: Styling| x.spec_third(y).spec_third(x) == y,
        forall|x: Colour, y: Colour| x.spec_third(y).spec_third(x) == y,
{
}

/// The third of two distinct cards is itself distinct from both, and the
/// third of a card with itself is that card again.
pub proof fn lemma_third_distinct(a: Card, b: Card)
    ensures
        a != b ==> a.spec_third(b) != a && a.spec_third(b) != b,
        a.spec_third(a) == a,
{
}

} // verus!

use set_core::card::{Card, Colour, Count, Letter, Styling};

fn decode(id: u8) -> Card {
    Card::from_tile_number(id).unwrap()
}

#[test]
fn decode_examples() {
    let c0 = decode(0);
    assert_eq!(c0.letter, Letter::O);
    assert_eq!(c0.count, Count::One);
    assert_eq!(c0.styling, Styling::Plain);
    assert_eq!(c0.colour, Colour::Red);
    let c1 = decode(1);
    assert_eq!(c1.letter, Letter::D);
    assert_eq!(c1.count, Count::One);
    assert_eq!(c1.styling, Styling::Plain);
    assert_eq!(c1.colour, Colour::Red);
    let c80 = decode(80);
    assert_eq!(c80.letter, Letter::S);
    assert_eq!(c80.count, Count::Three);
    assert_eq!(c80.styling, Styling::DoubleUnderline);
    assert_eq!(c80.colour, Colour::Purple);
}

#[test]
fn decode_rejects_out_of_range() {
    for id in 81..=255u8 {
        assert!(Card::from_tile_number(id).is_none());
    }
}

#[test]
fn decode_is_injective() {
    let cards: Vec<Card> = (0..81u8).map(decode).collect();
    for i in 0..81 {
        for j in 0..81 {
            if i != j {
                assert_ne!(cards[i], cards[j]);
            }
        }
    }
}

#[test]
fn third_concrete_example() {
    let c0 = decode(0);
    let c1 = decode(1);
    let c2 = decode(2);
    assert_eq!(c2.letter, Letter::S);
    assert_eq!(c2.count, Count::One);
    assert_eq!(c2.styling, Styling::Plain);
    assert_eq!(c2.colour, Colour::Red);
    assert_eq!(c0.third(&c1), c2);
}

#[test]
fn third_commutative_all_cards() {
    for i in 0..81u8 {
        for j in 0..81u8 {
            let a = decode(i);
            let b = decode(j);
            assert_eq!(a.third(&b), b.third(&a));
        }
    }
}

#[test]
fn third_round_trip_all_cards() {
    for i in 0..81u8 {
        for j in 0..81u8 {
            if i != j {
                let a = decode(i);
                let b = decode(j);
                let t = a.third(&b);
                assert_eq!(t.third(&a), b);
                assert_ne!(t, a);
                assert_ne!(t, b);
            }
        }
    }
}

#[test]
fn third_of_card_with_itself() {
    for i in 0..81u8 {
        let a = decode(i);
        assert_eq!(a.third(&a), a);
    }
}

#[test]
fn third_commutative_attributes() {
    let letters = [Letter::O, Letter::D, Letter::S];
    for a in letters {
        for b in letters {
            assert_eq!(a.third(&b), b.third(&a));
        }
    }
    let counts = [Count::One, Count::Two, Count::Three];
    for a in counts {
        for b in counts {
            assert_eq!(a.third(&b), b.third(&a));
        }
    }
    let stylings = [Styling::Plain, Styling::Underline, Styling::DoubleUnderline];
    for a in stylings {
        for b in stylings {
            assert_eq!(a.third(&b), b.third(&a));
        }
    }
    let colours = [Colour::Red, Colour::Green, Colour::Purple];
    for a in colours {
        for b in colours {
            assert_eq!(a.third(&b), b.third(&a));
        }
    }
}

#[test]
fn third_round_trip_attributes() {
    let letters = [Letter::O, Letter::D, Letter::S];
    for a in letters {
        for b in letters {
            if a != b {
                assert_eq!(a.third(&b).third(&a), b);
            }
        }
    }
    let colours = [Colour::Red, Colour::Green, Colour::Purple];
    for a in colours {
        for b in colours {
            if a != b {
                assert_eq!(a.third(&b).third(&a), b);
            }
        }
    }
}

#[test]
fn letter_rendering() {
    assert_eq!(Letter::O.print(), "O");
    assert_eq!(Letter::D.print(), ">");
    assert_eq!(Letter::S.print(), "S");
}

#[test]
fn count_rendering() {
    assert_eq!(Count::One.apply(String::from("O")), " O ");
    assert_eq!(Count::Two.apply(String::from(">")), "> >");
    assert_eq!(Count::Three.apply(String::from("S")), "SSS");
}

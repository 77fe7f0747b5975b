use tetra_master::card::{ARROW_E, ARROW_N, ARROW_NE, ARROW_NW, ARROW_S, ARROW_SE, ARROW_SW, ARROW_W, Card, CardType, Direction};
use tetra_master::notation::ParseError;

fn physical(attack: u8, phys_def: u8, arrows: u8) -> Card {
    Card::new(attack, CardType::Physical, phys_def, 0, arrows)
}

#[test]
fn parse_roundtrip() {
    let card = Card::parse("2P34 10110101").unwrap();
    assert_eq!(card.attack, 2);
    assert_eq!(card.card_type, CardType::Physical);
    assert_eq!(card.phys_def, 3);
    assert_eq!(card.mag_def, 4);
    assert_eq!(card.stat_string(), "2P34");
}

#[test]
fn parse_all_types() {
    assert_eq!(Card::parse("0P00 00000000").unwrap().card_type, CardType::Physical);
    assert_eq!(Card::parse("0M00 00000000").unwrap().card_type, CardType::Magic);
    assert_eq!(Card::parse("0X00 00000000").unwrap().card_type, CardType::Flexible);
    assert_eq!(Card::parse("0A00 00000000").unwrap().card_type, CardType::Assault);
}

#[test]
fn parse_max_stats() {
    let card = Card::parse("FPFF 11111111").unwrap();
    assert_eq!(card.attack, 15);
    assert_eq!(card.phys_def, 15);
    assert_eq!(card.mag_def, 15);
    assert_eq!(card.arrows, 0xFF);
}

#[test]
fn parse_invalid_type() {
    assert!(Card::parse("2Z34 10110101").is_err());
}

#[test]
fn parse_wrong_length() {
    assert!(Card::parse("2P3 10110101").is_err());
    assert!(Card::parse("2P34 1011010").is_err());
}

#[test]
fn has_arrow() {
    let card = Card::new(0, CardType::Physical, 0, 0, ARROW_N | ARROW_E);
    assert!(card.has_arrow(Direction::N));
    assert!(card.has_arrow(Direction::E));
    assert!(!card.has_arrow(Direction::S));
    assert!(!card.has_arrow(Direction::W));
}

#[test]
fn parse_reads_every_field() {
    let card = Card::parse("aX3c 01000001").unwrap();
    assert_eq!(card, Card::new(10, CardType::Flexible, 3, 12, 0b01000001));
    assert_eq!(card.stat_string(), "AX3C");
}

#[test]
fn parse_ignores_surrounding_white_space() {
    let card = Card::parse("  1m23\t 00000011 \n").unwrap();
    assert_eq!(card, Card::new(1, CardType::Magic, 2, 3, 3));
    // A no-break space separates the parts too.
    let card = Card::parse("1m23\u{a0}00000011").unwrap();
    assert_eq!(card.arrows, 3);
    for sep in ['\u{85}', '\u{1680}', '\u{2003}', '\u{2028}', '\u{202f}', '\u{205f}', '\u{3000}', '\x0b'] {
        let text = format!("1m23{sep}00000011");
        assert_eq!(Card::parse(&text).unwrap().arrows, 3, "{sep:?}");
        assert!(sep.is_whitespace());
    }
    // Not white space: the parts stay joined.
    assert_eq!(Card::parse("1m23\u{200b}00000011"), Err(ParseError::WrongPartCount));
}

#[test]
fn parse_refuses_a_sign_before_the_arrows() {
    assert_eq!(Card::parse("1P11 +1111111"), Err(ParseError::InvalidDigit));
    assert_eq!(Card::parse("2P34 +1011010"), Err(ParseError::InvalidDigit));
    assert_eq!(Card::parse("2P34 -1011010"), Err(ParseError::InvalidDigit));
}

#[test]
fn parse_errors() {
    assert_eq!(Card::parse("2P34"), Err(ParseError::WrongPartCount));
    assert_eq!(Card::parse("2P34 10110101 1"), Err(ParseError::WrongPartCount));
    assert_eq!(Card::parse(""), Err(ParseError::WrongPartCount));
    assert_eq!(Card::parse("2P345 10110101"), Err(ParseError::StatsLength));
    assert_eq!(Card::parse("GP34 10110101"), Err(ParseError::InvalidDigit));
    assert_eq!(Card::parse("2Z34 10110101"), Err(ParseError::UnknownType('Z')));
    assert_eq!(Card::parse("2PG4 10110101"), Err(ParseError::InvalidDigit));
    assert_eq!(Card::parse("2P3+ 10110101"), Err(ParseError::InvalidDigit));
    assert_eq!(Card::parse("2P34 1011010"), Err(ParseError::ArrowsLength));
    assert_eq!(Card::parse("2P34 10210101"), Err(ParseError::InvalidDigit));
    assert_eq!(Card::parse("2P34 -0110101"), Err(ParseError::InvalidDigit));
    // Eight bytes, one character of which is two bytes long.
    assert_eq!(Card::parse("2P34 101101é"), Err(ParseError::InvalidDigit));
    // Eight characters, but nine bytes.
    assert_eq!(Card::parse("2P34 1011010é"), Err(ParseError::ArrowsLength));
}

#[test]
fn parse_error_messages() {
    assert_eq!(ParseError::WrongPartCount.message(), "expected \"XYYY BBBBBBBB\"");
    assert_eq!(ParseError::StatsLength.message(), "stats must be 4 chars e.g. 2P34");
    assert_eq!(ParseError::InvalidDigit.message(), "invalid digit found in string");
    assert_eq!(ParseError::UnknownType('Z').message(), "unknown card type 'Z'");
    assert_eq!(ParseError::ArrowsLength.message(), "arrow bitfield must be 8 binary digits e.g. 10110101");
}

#[test]
fn parse_panics_on_cut_characters() {
    assert!(Card::parse_panics_on("éab 10110101"));
    assert!(Card::parse_panics_on("1éb 10110101"));
    assert!(Card::parse_panics_on("1Pé 10110101"));
    assert!(!Card::parse_panics_on("Zéb 10110101"));
    assert!(!Card::parse_panics_on("2P34 10110101"));
    assert!(!Card::parse_panics_on("é 1"));
}

#[test]
fn stat_string_uses_upper_case_hex() {
    assert_eq!(Card::new(0, CardType::Magic, 10, 15, 0).stat_string(), "0MAF");
    assert_eq!(Card::new(11, CardType::Assault, 1, 2, 0).stat_string(), "BA12");
    // Stats beyond one digit print in full.
    assert_eq!(Card::new(16, CardType::Flexible, 255, 0, 0).stat_string(), "10XFF0");
}

#[test]
fn arrow_display_order() {
    let all = Card::new(0, CardType::Physical, 0, 0, 0xFF);
    assert_eq!(all.arrow_display(), "↖↑↗←→↙↓↘");
    let some = Card::new(0, CardType::Physical, 0, 0, ARROW_SE | ARROW_N | ARROW_W);
    assert_eq!(some.arrow_display(), "↑←↘");
    assert_eq!(Card::new(0, CardType::Physical, 0, 0, 0).arrow_display(), "");
}

#[test]
fn directions() {
    assert_eq!(Direction::N.delta(), (-1, 0));
    assert_eq!(Direction::SW.delta(), (1, -1));
    assert_eq!(Direction::NE.opposite(), Direction::SW);
    assert_eq!(Direction::W.opposite(), Direction::E);
    let masks: Vec<u8> = Direction::ALL.iter().map(|d| d.arrow_bit()).collect();
    assert_eq!(masks, vec![ARROW_N, ARROW_NE, ARROW_E, ARROW_SE, ARROW_S, ARROW_SW, ARROW_W, ARROW_NW]);
}

#[test]
fn defense_stat_by_attacker_type() {
    let def = Card::new(3, CardType::Physical, 9, 5, 0);
    assert_eq!(def.defense_stat(CardType::Physical), 9);
    assert_eq!(def.defense_stat(CardType::Magic), 5);
    assert_eq!(def.defense_stat(CardType::Flexible), 5);
    assert_eq!(def.defense_stat(CardType::Assault), 3);
}

#[test]
fn battle_outcomes() {
    assert!(physical(5, 0, 0).wins_against(physical(0, 5, 0)));
    assert!(!physical(4, 0, 0).wins_against(physical(0, 5, 0)));
    assert!(physical(15, 0, 0).wins_against(physical(0, 0, 0)));
    assert!(!physical(0, 0, 0).wins_against(physical(0, 15, 0)));
    // Assault cards face the lowest of both defences and the defender's attack.
    assert!(Card::new(0, CardType::Assault, 0, 0, 0).wins_against(physical(0, 15, 0)));
    assert!(!Card::new(0, CardType::Assault, 0, 0, 0).wins_against(Card::new(15, CardType::Physical, 15, 15, 0)));
    assert!(Card::new(4, CardType::Assault, 0, 0, 0).wins_against(Card::new(4, CardType::Magic, 9, 15, 0)));
    assert!(!Card::new(3, CardType::Assault, 0, 0, 0).wins_against(Card::new(4, CardType::Magic, 9, 15, 0)));
    // Magic attackers face the magic defence.
    assert!(Card::new(8, CardType::Magic, 0, 0, 0).wins_against(Card::new(0, CardType::Physical, 15, 0, 0)));
}

/// The expected-value win probability of the game's battles, in floating point.
fn win_probability(attacker: Card, defender: Card) -> f32 {
    let value = |d: u8| (d as f32) * 16.0 + 7.5;
    let p = value(defender.phys_def);
    let m = value(defender.mag_def);
    let own = value(defender.attack);
    let d = match attacker.card_type {
        CardType::Physical => p,
        CardType::Magic => m,
        CardType::Flexible => p.min(m),
        CardType::Assault => p.min(m).min(own),
    };
    let a = value(attacker.attack);
    let (a1, d1) = (a + 1.0, d + 1.0);
    if a >= d { 1.0 - d1 / (2.0 * a1) } else { a1 / (2.0 * d1) }
}

#[test]
fn wins_against_matches_the_expected_value_rule() {
    let types = [CardType::Physical, CardType::Magic, CardType::Flexible, CardType::Assault];
    let stats: Vec<u8> = (0..16u8).chain([16, 100, 254, 255]).collect();
    for t in types {
        for &atk in &stats {
            for dt in types {
                for &pd in &stats {
                    for &md in &stats {
                        for da in [0u8, 1, 6, 14, 15, 200] {
                            let a = Card::new(atk, t, 0, 0, 0);
                            let d = Card::new(da, dt, pd, md, 0);
                            let expected = win_probability(a, d) >= 0.5;
                            assert_eq!(a.wins_against(d), expected, "{a:?} vs {d:?}");
                        }
                    }
                }
            }
        }
    }
}

#[test]
fn printing_a_card_and_reading_it_back_gives_the_card() {
    let types = [CardType::Physical, CardType::Magic, CardType::Flexible, CardType::Assault];
    for t in types {
        for attack in 0..16u8 {
            for phys_def in 0..16u8 {
                for mag_def in 0..16u8 {
                    for arrows in [0u8, 1, 0x5A, 0x80, 0xB5, 0xFF] {
                        let c = Card::new(attack, t, phys_def, mag_def, arrows);
                        let text = format!("{} {:08b}", c.stat_string(), c.arrows);
                        assert_eq!(Card::parse(&text), Ok(c), "{text}");
                    }
                }
            }
        }
    }
    assert_eq!(
        Card::parse("2P34 10110101"),
        Ok(Card::new(2, CardType::Physical, 3, 4, 0b1011_0101))
    );
}

use vstd::prelude::*;
use crate::card::{Card, CardType, stat_text, type_letter};
use crate::text::{hex_byte, hex_digit};
use crate::text::push_char;
use vstd::string::{StrSliceExecFns, StringExecFns};

verus! {

/// Whether `c` is a white-space character (the Unicode `White_Space`
/// property, which `char::is_whitespace` follows).
pub open spec fn is_space(c: char) -> bool {
    let u = c as u32;
    ||| 0x09 <= u <= 0x0D
    ||| u == 0x20
    ||| u == 0x85
    ||| u == 0xA0
    ||| u == 0x1680
    ||| 0x2000 <= u <= 0x200A
    ||| u == 0x2028
    ||| u == 0x2029
    ||| u == 0x202F
    ||| u == 0x205F
    ||| u == 0x3000
}

/// The maximal runs of non-space characters of `s`, in order (what
/// `str::split_whitespace` yields).
pub open spec fn tokens(s: Seq<char>) -> Seq<Seq<char>>
    decreases s.len(),
{
    if s.len() == 0 {
        Seq::empty()
    } else {
        let prev = tokens(s.drop_last());
        let c = s.last();
        if is_space(c) {
            prev
        } else if s.len() >= 2 && !is_space(s[s.len() - 2]) {
            prev.update(prev.len() - 1, prev.last().push(c))
        } else {
            prev.push(seq![c])
        }
    }
}

/// The number of bytes of `c` in UTF-8.
pub open spec fn utf8_width(c: char) -> nat {
    let u = c as u32;
    if u < 0x80 { 1 } else if u < 0x800 { 2 } else if u < 0x10000 { 3 } else { 4 }
}

/// The number of bytes of `s` in UTF-8 (what `str::len` returns).
pub open spec fn byte_len(s: Seq<char>) -> nat
    decreases s.len(),
{
    if s.len() == 0 {
        0
    } else {
        utf8_width(s[0]) + byte_len(s.drop_first())
    }
}

pub open spec fn is_ascii_char(c: char) -> bool {
    (c as u32) < 0x80
}

/// The value of a hexadecimal digit, either case.
pub open spec fn hex_value(c: char) -> Option<u8> {
    let u = c as u32;
    if 0x30 <= u <= 0x39 {
        Some((u - 0x30) as u8)
    } else if 0x41 <= u <= 0x46 {
        Some((u - 0x41 + 10) as u8)
    } else if 0x61 <= u <= 0x66 {
        Some((u - 0x61 + 10) as u8)
    } else {
        None
    }
}

/// The card type named by a letter, either case.
pub open spec fn type_of_letter(c: char) -> Option<CardType> {
    if c == 'P' || c == 'p' {
        Some(CardType::Physical)
    } else if c == 'M' || c == 'm' {
        Some(CardType::Magic)
    } else if c == 'X' || c == 'x' {
        Some(CardType::Flexible)
    } else if c == 'A' || c == 'a' {
        Some(CardType::Assault)
    } else {
        None
    }
}

pub open spec fn is_binary_digit(c: char) -> bool {
    c == '0' || c == '1'
}

/// The value of a string of binary digits, most significant first.
pub open spec fn binary_digits_value(ds: Seq<char>) -> nat
    decreases ds.len(),
{
    if ds.len() == 0 {
        0
    } else {
        2 * binary_digits_value(ds.drop_last()) + if ds.last() == '1' { 1nat } else { 0nat }
    }
}

/// The arrow bitmask written as `t`: exactly eight characters, each `0` or
/// `1`, the first standing for the highest bit.
pub open spec fn binary_value(t: Seq<char>) -> Option<u8> {
    if t.len() == 8 && forall|i: int| 0 <= i < t.len() ==> is_binary_digit(#[trigger] t[i]) {
        Some(binary_digits_value(t) as u8)
    } else {
        None
    }
}

/// Why a card description could not be read.
#[derive(Clone, Copy, Debug, PartialEq, Eq, Structural)]
pub enum ParseError {
    /// The input is not two parts separated by white space.
    WrongPartCount,
    /// The stats part is not four bytes long.
    StatsLength,
    /// A stat is not a hexadecimal digit, or the arrows are not a binary number.
    InvalidDigit,
    /// The card type letter is not one of P, M, X, A.
    UnknownType(char),
    /// The arrows part is not eight bytes long.
    ArrowsLength,
}

/// What `Card::parse` gives for the characters `s`, in the format
/// `XTYY BBBBBBBB`: attack digit, type letter, physical and magic defence
/// digits, then the arrow bitmask in binary (N NE E SE S SW W NW).
pub open spec fn parse_result(s: Seq<char>) -> Result<Card, ParseError> {
    let t = tokens(s);
    if t.len() != 2 {
        Err(ParseError::WrongPartCount)
    } else if byte_len(t[0]) != 4 {
        Err(ParseError::StatsLength)
    } else {
        let st = t[0];
        match hex_value(st[0]) {
            None => Err(ParseError::InvalidDigit),
            Some(attack) => match type_of_letter(st[1]) {
                None => Err(ParseError::UnknownType(st[1])),
                Some(card_type) => match hex_value(st[2]) {
                    None => Err(ParseError::InvalidDigit),
                    Some(phys_def) => match hex_value(st[3]) {
                        None => Err(ParseError::InvalidDigit),
                        Some(mag_def) => if byte_len(t[1]) != 8 {
                            Err(ParseError::ArrowsLength)
                        } else {
                            match binary_value(t[1]) {
                                None => Err(ParseError::InvalidDigit),
                                Some(arrows) => Ok(Card { attack, card_type, phys_def, mag_def, arrows }),
                            }
                        },
                    },
                },
            },
        }
    }
}

/// The inputs on which reading the stats by byte ranges would cut a
/// multi-byte character: a four-byte stats part whose first character is not
/// ASCII, or whose second (after a valid attack digit) or third (after a
/// valid type letter) is not.
pub open spec fn parse_panics(s: Seq<char>) -> bool {
    let t = tokens(s);
    &&& t.len() == 2
    &&& byte_len(t[0]) == 4
    &&& {
        ||| !is_ascii_char(t[0][0])
        ||| hex_value(t[0][0]) is Some && !is_ascii_char(t[0][1])
        ||| hex_value(t[0][0]) is Some && type_of_letter(t[0][1]) is Some && !is_ascii_char(t[0][2])
    }
}

proof fn lemma_tokens_nonempty(s: Seq<char>)
    requires
        s.len() > 0,
        !is_space(s.last()),
    ensures
        tokens(s).len() > 0,
    decreases s.len(),
{
    if s.len() >= 2 && !is_space(s[s.len() - 2]) {
        let p = s.drop_last();
        assert(p.last() == s[s.len() - 2]);
        lemma_tokens_nonempty(p);
    }
}

/// The characters of a string.
fn chars_of(s: &str) -> (v: Vec<char>)
    ensures
        v@ == s@,
{
    let n = s.unicode_len();
    let mut v: Vec<char> = Vec::new();
    let mut i: usize = 0;
    while i < n
        invariant
            n == s@.len(),
            i <= n,
            v@ == s@.take(i as int),
        decreases n - i,
    {
        let c = s.get_char(i);
        v.push(c);
        i = i + 1;
        assert(v@ =~= s@.take(i as int));
    }
    assert(v@ =~= s@);
    v
}

fn is_space_char(c: char) -> (r: bool)
    ensures
        r == is_space(c),
{
    let u = c as u32;
    (0x09 <= u && u <= 0x0D) || u == 0x20 || u == 0x85 || u == 0xA0 || u == 0x1680 || (0x2000 <= u && u
        <= 0x200A) || u == 0x2028 || u == 0x2029 || u == 0x202F || u == 0x205F || u == 0x3000
}

/// The number of white-space separated parts of `cs`, with the first two.
fn split_parts(cs: &Vec<char>) -> (r: (usize, Vec<char>, Vec<char>))
    ensures
        r.0 == tokens(cs@).len(),
        r.0 >= 1 ==> r.1@ == tokens(cs@)[0],
        r.0 >= 2 ==> r.2@ == tokens(cs@)[1],
{
    let mut count: usize = 0;
    let mut first: Vec<char> = Vec::new();
    let mut second: Vec<char> = Vec::new();
    let mut i: usize = 0;
    while i < cs.len()
        invariant
            i <= cs@.len(),
            count <= i,
            count == tokens(cs@.take(i as int)).len(),
            count >= 1 ==> first@ == tokens(cs@.take(i as int))[0],
            count == 0 ==> first@.len() == 0,
            count <= 1 ==> second@.len() == 0,
            count >= 2 ==> second@ == tokens(cs@.take(i as int))[1],
        decreases cs@.len() - i,
    {
        let ghost prev = cs@.take(i as int);
        let ghost next = cs@.take(i + 1);
        assert(next.drop_last() =~= prev);
        assert(next.last() == cs@[i as int]);
        let c = cs[i];
        let ghost tp = tokens(prev);
        if is_space_char(c) {
            assert(tokens(next) == tp);
        } else if i >= 1 && !is_space_char(cs[i - 1]) {
            assert(next[next.len() - 2] == cs@[i - 1]);
            assert(prev.last() == cs@[i - 1]);
            proof {
                lemma_tokens_nonempty(prev);
            }
            assert(tokens(next) == tp.update(tp.len() - 1, tp.last().push(c)));
            if count == 1 {
                first.push(c);
                assert(first@ =~= tokens(next)[0]);
            } else if count == 2 {
                second.push(c);
                assert(second@ =~= tokens(next)[1]);
                assert(first@ =~= tokens(next)[0]);
            } else {
                assert(count >= 1 ==> first@ =~= tokens(next)[0]);
                assert(count >= 2 ==> second@ =~= tokens(next)[1]);
            }
        } else {
            if i >= 1 {
                assert(next[next.len() - 2] == cs@[i - 1]);
            }
            assert(tokens(next) == tp.push(seq![c]));
            if count == 0 {
                first.push(c);
                assert(first@ =~= tokens(next)[0]);
            } else if count == 1 {
                second.push(c);
                assert(second@ =~= tokens(next)[1]);
                assert(first@ =~= tokens(next)[0]);
            } else {
                assert(first@ =~= tokens(next)[0]);
                assert(second@ =~= tokens(next)[1]);
            }
            count = count + 1;
        }
        i = i + 1;
        assert(count >= 1 ==> first@ =~= tokens(cs@.take(i as int))[0]);
        assert(count >= 2 ==> second@ =~= tokens(cs@.take(i as int))[1]);
    }
    assert(cs@.take(cs@.len() as int) =~= cs@);
    (count, first, second)
}

fn utf8_width_of(c: char) -> (w: u64)
    ensures
        w == utf8_width(c),
{
    let u = c as u32;
    if u < 0x80 {
        1
    } else if u < 0x800 {
        2
    } else if u < 0x10000 {
        3
    } else {
        4
    }
}

/// Whether `t` takes `k` bytes in UTF-8.
fn has_byte_len(t: &Vec<char>, k: u64) -> (r: bool)
    requires
        k <= 8,
    ensures
        r == (byte_len(t@) == k),
{
    let mut acc: u64 = 0;
    let mut i: usize = 0;
    assert(t@.skip(0) =~= t@);
    while i < t.len()
        invariant
            i <= t@.len(),
            acc <= k,
            k <= 8,
            acc + byte_len(t@.skip(i as int)) == byte_len(t@),
        decreases t@.len() - i,
    {
        assert(t@.skip(i as int).drop_first() =~= t@.skip(i + 1));
        assert(t@.skip(i as int)[0] == t@[i as int]);
        let w = utf8_width_of(t[i]);
        if acc + w > k {
            return false;
        }
        acc = acc + w;
        i = i + 1;
    }
    acc == k
}

fn hex_value_of(c: char) -> (r: Option<u8>)
    ensures
        r == hex_value(c),
{
    let u = c as u32;
    if 0x30 <= u && u <= 0x39 {
        Some((u - 0x30) as u8)
    } else if 0x41 <= u && u <= 0x46 {
        Some((u - 0x41 + 10) as u8)
    } else if 0x61 <= u && u <= 0x66 {
        Some((u - 0x61 + 10) as u8)
    } else {
        None
    }
}

fn type_of_letter_exec(c: char) -> (r: Option<CardType>)
    ensures
        r == type_of_letter(c),
{
    if c == 'P' || c == 'p' {
        Some(CardType::Physical)
    } else if c == 'M' || c == 'm' {
        Some(CardType::Magic)
    } else if c == 'X' || c == 'x' {
        Some(CardType::Flexible)
    } else if c == 'A' || c == 'a' {
        Some(CardType::Assault)
    } else {
        None
    }
}

fn is_ascii_exec(c: char) -> (r: bool)
    ensures
        r == is_ascii_char(c),
{
    (c as u32) < 0x80
}

proof fn lemma_binary_value_bound(ds: Seq<char>)
    ensures
        binary_digits_value(ds) < pow2_nat(ds.len()),
    decreases ds.len(),
{
    if ds.len() > 0 {
        lemma_binary_value_bound(ds.drop_last());
    }
}

pub open spec fn pow2_nat(n: nat) -> nat
    decreases n,
{
    if n == 0 { 1 } else { 2 * pow2_nat((n - 1) as nat) }
}

/// The arrow bitmask written as the characters `t`, if they are eight
/// binary digits.
fn binary_value_of(t: &Vec<char>) -> (r: Option<u8>)
    ensures
        r == binary_value(t@),
{
    let n = t.len();
    if n != 8 {
        return None;
    }
    let mut v: u32 = 0;
    let mut k: usize = 0;
    while k < n
        invariant
            n == t@.len(),
            n == 8,
            k <= n,
            forall|i: int| 0 <= i < k ==> is_binary_digit(#[trigger] t@[i]),
            v == binary_digits_value(t@.take(k as int)),
            v < pow2_nat(k as nat),
        decreases n - k,
    {
        let c = t[k];
        if c != '0' && c != '1' {
            assert(!is_binary_digit(t@[k as int]));
            return None;
        }
        assert(t@.take(k + 1).drop_last() =~= t@.take(k as int));
        proof {
            lemma_pow2_mono(k as nat, 8);
            reveal_with_fuel(pow2_nat, 9);
        }
        v = 2 * v + if c == '1' { 1 } else { 0 };
        k = k + 1;
    }
    assert(t@.take(n as int) =~= t@);
    assert(pow2_nat(8) == 256) by {
        reveal_with_fuel(pow2_nat, 9);
    }
    Some(v as u8)
}

proof fn lemma_pow2_mono(a: nat, b: nat)
    requires
        a <= b,
    ensures
        pow2_nat(a) <= pow2_nat(b),
    decreases b,
{
    if a < b {
        lemma_pow2_mono(a, (b - 1) as nat);
    }
}

/// The message of a parse error.
pub open spec fn error_text(e: ParseError) -> Seq<char> {
    match e {
        ParseError::WrongPartCount => "expected \"XYYY BBBBBBBB\""@,
        ParseError::StatsLength => "stats must be 4 chars e.g. 2P34"@,
        ParseError::InvalidDigit => "invalid digit found in string"@,
        ParseError::UnknownType(c) => "unknown card type '"@ + seq![c] + "'"@,
        ParseError::ArrowsLength => "arrow bitfield must be 8 binary digits e.g. 10110101"@,
    }
}

impl ParseError {
    /// The message shown for this error.
    pub fn message(&self) -> (r: String)
        ensures
            r@ == error_text(*self),
    {
        match self {
            ParseError::WrongPartCount => String::from_str("expected \"XYYY BBBBBBBB\""),
            ParseError::StatsLength => String::from_str("stats must be 4 chars e.g. 2P34"),
            ParseError::InvalidDigit => String::from_str("invalid digit found in string"),
            ParseError::UnknownType(c) => {
                let mut s = String::from_str("unknown card type '");
                push_char(&mut s, *c);
                s.append("'");
                s
            },
            ParseError::ArrowsLength => String::from_str("arrow bitfield must be 8 binary digits e.g. 10110101"),
        }
    }
}

proof fn lemma_byte_len_step(s: Seq<char>)
    requires
        byte_len(s) > 0,
    ensures
        s.len() > 0,
        byte_len(s) == utf8_width(s[0]) + byte_len(s.drop_first()),
        utf8_width(s[0]) >= 1,
{
}

impl Card {
    /// Whether `Card::parse` cannot read `s` without cutting a multi-byte
    /// character of the stats part (see `parse_panics`).
    pub fn parse_panics_on(s: &str) -> (r: bool)
        ensures
            r == parse_panics(s@),
    {
        let cs = chars_of(s);
        let (n, st, _bits) = split_parts(&cs);
        if n != 2 || !has_byte_len(&st, 4) {
            return false;
        }
        proof {
            lemma_byte_len_step(st@);
        }
        if !is_ascii_exec(st[0]) {
            return true;
        }
        if hex_value_of(st[0]).is_none() {
            return false;
        }
        proof {
            lemma_byte_len_step(st@.drop_first());
        }
        assert(st@.drop_first()[0] == st@[1]);
        if !is_ascii_exec(st[1]) {
            return true;
        }
        if type_of_letter_exec(st[1]).is_none() {
            return false;
        }
        proof {
            lemma_byte_len_step(st@.drop_first().drop_first());
        }
        assert(st@.drop_first().drop_first()[0] == st@[2]);
        !is_ascii_exec(st[2])
    }

    /// Parse from the `XTYY BBBBBBBB` format, e.g. `2P34 10110101`.
    pub fn parse(s: &str) -> (r: Result<Card, ParseError>)
        requires
            !parse_panics(s@),
        ensures
            r == parse_result(s@),
    {
        let cs = chars_of(s);
        let (n, st, bits) = split_parts(&cs);
        if n != 2 {
            return Err(ParseError::WrongPartCount);
        }
        if !has_byte_len(&st, 4) {
            return Err(ParseError::StatsLength);
        }
        proof {
            lemma_byte_len_step(st@);
        }
        let attack = match hex_value_of(st[0]) {
            None => {
                return Err(ParseError::InvalidDigit);
            },
            Some(v) => v,
        };
        proof {
            lemma_byte_len_step(st@.drop_first());
        }
        assert(st@.drop_first()[0] == st@[1]);
        let card_type = match type_of_letter_exec(st[1]) {
            None => {
                return Err(ParseError::UnknownType(st[1]));
            },
            Some(t) => t,
        };
        proof {
            lemma_byte_len_step(st@.drop_first().drop_first());
        }
        assert(st@.drop_first().drop_first()[0] == st@[2]);
        let phys_def = match hex_value_of(st[2]) {
            None => {
                return Err(ParseError::InvalidDigit);
            },
            Some(v) => v,
        };
        proof {
            lemma_byte_len_step(st@.drop_first().drop_first().drop_first());
        }
        assert(st@.drop_first().drop_first().drop_first()[0] == st@[3]);
        let mag_def = match hex_value_of(st[3]) {
            None => {
                return Err(ParseError::InvalidDigit);
            },
            Some(v) => v,
        };
        if !has_byte_len(&bits, 8) {
            return Err(ParseError::ArrowsLength);
        }
        let arrows = match binary_value_of(&bits) {
            None => {
                return Err(ParseError::InvalidDigit);
            },
            Some(v) => v,
        };
        Ok(Card::new(attack, card_type, phys_def, mag_def, arrows))
    }
}

/// The upper-case form of an ASCII letter; other characters are unchanged.
pub open spec fn upper(c: char) -> char {
    let u = c as u32;
    if 0x61 <= u <= 0x7A { ((u - 0x20) as u32) as char } else { c }
}

proof fn lemma_hex_roundtrip(ch: char)
    requires
        hex_value(ch) is Some,
    ensures
        hex_byte(hex_value(ch)->0) == seq![upper(ch)],
        is_ascii_char(ch),
{
    let u = ch as u32;
    let v = hex_value(ch)->0;
    assert(v < 16);
    if 0x30 <= u <= 0x39 {
        assert(ch == '0' || ch == '1' || ch == '2' || ch == '3' || ch == '4' || ch == '5' || ch == '6' || ch == '7'
            || ch == '8' || ch == '9');
    } else if 0x41 <= u <= 0x46 {
        assert(ch == 'A' || ch == 'B' || ch == 'C' || ch == 'D' || ch == 'E' || ch == 'F');
    } else {
        assert(ch == 'a' || ch == 'b' || ch == 'c' || ch == 'd' || ch == 'e' || ch == 'f');
    }
}

/// Reading a card and printing its stats gives back the stats part of the
/// input, in upper case (e.g. `2p3a 10110101` reads as the card `2P3A`).
pub proof fn lemma_parse_then_stat_text(s: Seq<char>)
    requires
        parse_result(s) is Ok,
    ensures
        stat_text(parse_result(s)->Ok_0) == tokens(s)[0].map_values(|ch: char| upper(ch)),
{
    let st = tokens(s)[0];
    let c = parse_result(s)->Ok_0;
    lemma_byte_len_step(st);
    lemma_hex_roundtrip(st[0]);
    lemma_byte_len_step(st.drop_first());
    assert(st.drop_first()[0] == st[1]);
    lemma_byte_len_step(st.drop_first().drop_first());
    assert(st.drop_first().drop_first()[0] == st[2]);
    lemma_hex_roundtrip(st[2]);
    lemma_byte_len_step(st.drop_first().drop_first().drop_first());
    assert(st.drop_first().drop_first().drop_first()[0] == st[3]);
    lemma_hex_roundtrip(st[3]);
    let rest = st.drop_first().drop_first().drop_first().drop_first();
    assert(byte_len(rest) == 0);
    if rest.len() > 0 {
        assert(byte_len(rest) == utf8_width(rest[0]) + byte_len(rest.drop_first()));
    }
    assert(st.len() == 4);
    let t = st[1];
    assert(type_letter(c.card_type) == upper(t)) by {
        assert(t == 'P' || t == 'p' || t == 'M' || t == 'm' || t == 'X' || t == 'x' || t == 'A' || t == 'a');
    }
    assert(stat_text(c) =~= st.map_values(|ch: char| upper(ch)));
}

/// The last `n` binary digits of `v`, most significant first.
pub open spec fn bits_text(v: nat, n: nat) -> Seq<char>
    decreases n,
{
    if n == 0 {
        Seq::empty()
    } else {
        bits_text(v / 2, (n - 1) as nat).push(if v % 2 == 1 { '1' } else { '0' })
    }
}

/// An arrow bitmask as eight binary digits, north first.
pub open spec fn binary_text(arrows: u8) -> Seq<char> {
    bits_text(arrows as nat, 8)
}

/// How a card is written: its stats, a space, then its arrows in binary.
pub open spec fn card_text(c: Card) -> Seq<char> {
    stat_text(c) + seq![' '] + binary_text(c.arrows)
}

proof fn lemma_bits_text(v: nat, n: nat)
    requires
        v < pow2_nat(n),
    ensures
        bits_text(v, n).len() == n,
        forall|i: int| 0 <= i < n ==> is_binary_digit(#[trigger] bits_text(v, n)[i]),
        binary_digits_value(bits_text(v, n)) == v,
    decreases n,
{
    if n > 0 {
        lemma_bits_text(v / 2, (n - 1) as nat);
        let t = bits_text(v, n);
        assert(t.drop_last() =~= bits_text(v / 2, (n - 1) as nat));
        assert forall|i: int| 0 <= i < n implies is_binary_digit(#[trigger] t[i]) by {
            if i < n - 1 {
                assert(t[i] == bits_text(v / 2, (n - 1) as nat)[i]);
            }
        }
    }
}

proof fn lemma_byte_len_ascii(s: Seq<char>)
    requires
        forall|i: int| 0 <= i < s.len() ==> is_ascii_char(#[trigger] s[i]),
    ensures
        byte_len(s) == s.len(),
    decreases s.len(),
{
    if s.len() > 0 {
        assert forall|i: int| 0 <= i < s.drop_first().len() implies is_ascii_char(#[trigger] s.drop_first()[i]) by {
            assert(s.drop_first()[i] == s[i + 1]);
        }
        lemma_byte_len_ascii(s.drop_first());
        assert(is_ascii_char(s[0]));
    }
}

/// A run of non-space characters is one token.
proof fn lemma_tokens_of_word(w: Seq<char>)
    requires
        w.len() > 0,
        forall|i: int| 0 <= i < w.len() ==> !is_space(#[trigger] w[i]),
    ensures
        tokens(w) == seq![w],
    decreases w.len(),
{
    let c = w.last();
    assert(!is_space(w[w.len() - 1]));
    if w.len() == 1 {
        assert(w.drop_last().len() == 0);
        assert(tokens(w.drop_last()) =~= Seq::<Seq<char>>::empty());
        assert(w =~= seq![c]);
        assert(tokens(w) =~= seq![w]);
    } else {
        let p = w.drop_last();
        assert forall|i: int| 0 <= i < p.len() implies !is_space(#[trigger] p[i]) by {
            assert(p[i] == w[i]);
        }
        lemma_tokens_of_word(p);
        assert(!is_space(w[w.len() - 2]));
        assert(p.push(c) =~= w);
        assert(tokens(w) =~= seq![w]);
    }
}

/// Two runs of non-space characters around a space are two tokens.
proof fn lemma_tokens_of_two_words(x: Seq<char>, y: Seq<char>)
    requires
        x.len() > 0,
        y.len() > 0,
        forall|i: int| 0 <= i < x.len() ==> !is_space(#[trigger] x[i]),
        forall|i: int| 0 <= i < y.len() ==> !is_space(#[trigger] y[i]),
    ensures
        tokens(x + seq![' '] + y) == seq![x, y],
    decreases y.len(),
{
    let s = x + seq![' '] + y;
    let c = y.last();
    assert(!is_space(y[y.len() - 1]));
    assert(s.last() == c);
    if y.len() == 1 {
        let xs = x + seq![' '];
        assert(s.drop_last() =~= xs);
        assert(xs.drop_last() =~= x);
        lemma_tokens_of_word(x);
        assert(is_space(' '));
        assert(tokens(xs) == tokens(x));
        assert(s[s.len() - 2] == ' ');
        assert(y =~= seq![c]);
        assert(tokens(s) =~= seq![x, y]);
    } else {
        let yp = y.drop_last();
        assert forall|i: int| 0 <= i < yp.len() implies !is_space(#[trigger] yp[i]) by {
            assert(yp[i] == y[i]);
        }
        lemma_tokens_of_two_words(x, yp);
        assert(s.drop_last() =~= x + seq![' '] + yp);
        assert(s[s.len() - 2] == y[y.len() - 2]);
        assert(!is_space(y[y.len() - 2]));
        assert(yp.push(c) =~= y);
        assert(tokens(s) =~= seq![x, y]);
    }
}

proof fn lemma_hex_digit_value(v: u8)
    requires
        v < 16,
    ensures
        hex_value(hex_digit(v as nat)) == Some(v),
        is_ascii_char(hex_digit(v as nat)),
        !is_space(hex_digit(v as nat)),
{
}

/// Writing a card whose stats are single hex digits and reading the text
/// back gives the card (e.g. `2P34 10110101` and back).
pub proof fn lemma_print_then_parse(c: Card)
    requires
        c.attack <= 15,
        c.phys_def <= 15,
        c.mag_def <= 15,
    ensures
        parse_result(card_text(c)) == Ok::<Card, ParseError>(c),
{
    let x = stat_text(c);
    let y = binary_text(c.arrows);
    assert(pow2_nat(8) == 256) by {
        reveal_with_fuel(pow2_nat, 9);
    }
    lemma_bits_text(c.arrows as nat, 8);
    lemma_hex_digit_value(c.attack);
    lemma_hex_digit_value(c.phys_def);
    lemma_hex_digit_value(c.mag_def);
    assert(x =~= seq![hex_digit(c.attack as nat), type_letter(c.card_type), hex_digit(c.phys_def as nat), hex_digit(c.mag_def as nat)]);
    assert(type_of_letter(type_letter(c.card_type)) == Some(c.card_type));
    assert forall|i: int| 0 <= i < x.len() implies !is_space(#[trigger] x[i]) && is_ascii_char(x[i]) by {}
    assert forall|i: int| 0 <= i < y.len() implies !is_space(#[trigger] y[i]) && is_ascii_char(y[i]) by {
        assert(is_binary_digit(y[i]));
    }
    lemma_tokens_of_two_words(x, y);
    lemma_byte_len_ascii(x);
    lemma_byte_len_ascii(y);
    assert(binary_value(y) == Some(c.arrows));
}

} // verus!

//! Readings written in base 2, 8, 10 or 16, their values, and numbers
//! written out in base 65.

use vstd::prelude::*;
use vstd::string::{StrSliceExecFns, StringExecFns};

verus! {

/// The base in which a reading is written.
#[derive(Clone, Copy, PartialEq, Eq, Structural, Debug)]
pub enum Base {
    Base2,
    Base8,
    Base10,
    Base16,
}

impl Base {
    /// The number that the base stands for.
    pub open spec fn number(self) -> nat {
        match self {
            Base::Base2 => 2,
            Base::Base8 => 8,
            Base::Base10 => 10,
            Base::Base16 => 16,
        }
    }

    /// The base that a text names, if it names one: "2", "8", "10" or "16".
    pub open spec fn named(text: Seq<char>) -> Option<Base> {
        if text == "2"@ {
            Some(Base::Base2)
        } else if text == "8"@ {
            Some(Base::Base8)
        } else if text == "10"@ {
            Some(Base::Base10)
        } else if text == "16"@ {
            Some(Base::Base16)
        } else {
            None
        }
    }

    /// The number that the base stands for.
    pub fn radix(self) -> (r: usize)
        ensures
            r == self.number(),
    {
        match self {
            Base::Base2 => 2,
            Base::Base8 => 8,
            Base::Base10 => 10,
            Base::Base16 => 16,
        }
    }

    /// Reads the name of a base: "2", "8", "10" or "16".
    pub fn from_str(s: &str) -> (out: Result<Base, ()>)
        ensures
            out == match Base::named(s@) {
                Some(base) => Ok::<Base, ()>(base),
                None => Err::<Base, ()>(()),
            },
    {
        let text = s.to_owned();
        if text == "2".to_owned() {
            Ok(Base::Base2)
        } else if text == "8".to_owned() {
            Ok(Base::Base8)
        } else if text == "10".to_owned() {
            Ok(Base::Base10)
        } else if text == "16".to_owned() {
            Ok(Base::Base16)
        } else {
            Err(())
        }
    }
}

impl From<Base> for usize {
    /// The number that the base stands for.
    fn from(value: Base) -> (r: usize) {
        value.radix()
    }
}

impl vstd::std_specs::convert::FromSpecImpl<Base> for usize {
    open spec fn obeys_from_spec() -> bool {
        true
    }

    open spec fn from_spec(value: Base) -> usize {
        value.number() as usize
    }
}

/// The value of a character as a digit, if it is one: `0` to `9` are 0 to
/// 9, and the letters `a` to `z`, in either case, are 10 to 35.
pub open spec fn digit_value(c: char) -> Option<nat> {
    let code = c as u32;
    if 48 <= code <= 57 {
        Some((code - 48) as nat)
    } else if 97 <= code <= 122 {
        Some((code - 87) as nat)
    } else if 65 <= code <= 90 {
        Some((code - 55) as nat)
    } else {
        None
    }
}

/// Whether the character is a digit of the base.
pub open spec fn is_digit_of(c: char, radix: nat) -> bool {
    match digit_value(c) {
        Some(d) => d < radix,
        None => false,
    }
}

/// The value of a digit, and 0 for any other character.
pub open spec fn digit_or_zero(c: char) -> nat {
    match digit_value(c) {
        Some(d) => d,
        None => 0,
    }
}

/// The value of a run of digits, the most significant first.
pub open spec fn value_of(digits: Seq<char>, radix: nat) -> nat
    decreases digits.len(),
{
    if digits.len() == 0 {
        0
    } else {
        value_of(digits.drop_last(), radix) * radix + digit_or_zero(digits.last())
    }
}

/// The text without a plus sign at its start.
pub open spec fn unsigned_part(text: Seq<char>) -> Seq<char> {
    if text.len() > 0 && text[0] == '+' {
        text.skip(1)
    } else {
        text
    }
}

/// The text is a number in the base: at least one digit of the base, and
/// before them at most a plus sign.
pub open spec fn is_number(text: Seq<char>, radix: nat) -> bool {
    let digits = unsigned_part(text);
    &&& digits.len() > 0
    &&& forall|i: int| 0 <= i < digits.len() ==> is_digit_of(#[trigger] digits[i], radix)
}

/// The value of the text as a number in the base, where it is one and the
/// value fits the machine word.
pub open spec fn reading_value(text: Seq<char>, radix: nat) -> Option<usize> {
    if is_number(text, radix) && value_of(unsigned_part(text), radix) <= usize::MAX {
        Some(value_of(unsigned_part(text), radix) as usize)
    } else {
        None
    }
}

/// The value of a run of characters is at least that of any run it starts with.
pub proof fn lemma_value_of_prefix(digits: Seq<char>, radix: nat, n: int)
    requires
        radix >= 1,
        0 <= n <= digits.len(),
    ensures
        value_of(digits.take(n), radix) <= value_of(digits, radix),
    decreases digits.len(),
{
    if n == digits.len() {
        assert(digits.take(n) =~= digits);
    } else {
        assert(digits.drop_last().take(n) =~= digits.take(n));
        lemma_value_of_prefix(digits.drop_last(), radix, n);
        let before = value_of(digits.drop_last(), radix);
        assert(before <= before * radix) by (nonlinear_arith)
            requires
                radix >= 1,
        ;
    }
}

/// The value of a character as a digit of the base, if it is one.
fn digit_of(c: char, radix: usize) -> (out: Option<usize>)
    ensures
        out.is_some() == is_digit_of(c, radix as nat),
        out.is_some() ==> out.unwrap() == digit_or_zero(c) && out.unwrap() < radix,
{
    let code = c as u32;
    let value: usize = if 48 <= code && code <= 57 {
        (code - 48) as usize
    } else if 97 <= code && code <= 122 {
        (code - 87) as usize
    } else if 65 <= code && code <= 90 {
        (code - 55) as usize
    } else {
        return None;
    };
    if value < radix {
        Some(value)
    } else {
        None
    }
}

/// Reads a number written in the given base: digits of the base, with at
/// most a plus sign before them. There is no value where the text is not
/// such a number, or the number does not fit the machine word.
pub fn parse_reading(reading: &str, base: Base) -> (out: Option<usize>)
    ensures
        out == reading_value(reading@, base.number()),
{
    let radix = base.radix();
    let n = reading.unicode_len();
    if n == 0 {
        return None;
    }
    let start: usize = if reading.get_char(0) == '+' {
        1
    } else {
        0
    };
    if start == n {
        return None;
    }
    let ghost digits = unsigned_part(reading@);
    proof {
        assert(reading@.skip(0) =~= reading@);
    }
    let mut value: usize = 0;
    let mut i: usize = start;
    while i < n
        invariant
            start <= i <= n,
            n == reading@.len(),
            radix == base.number(),
            digits == reading@.skip(start as int),
            digits == unsigned_part(reading@),
            value == value_of(digits.take(i - start), radix as nat),
            forall|k: int| 0 <= k < i - start ==> is_digit_of(#[trigger] digits[k], radix as nat),
        decreases n - i,
    {
        let c = reading.get_char(i);
        proof {
            assert(digits[i - start] == c);
            assert(digits.take(i - start + 1).drop_last() =~= digits.take(i - start));
            lemma_value_of_prefix(digits, radix as nat, i - start + 1);
        }
        let ghost longer = value_of(digits.take(i - start + 1), radix as nat);
        assert(longer == value * radix + digit_or_zero(c));
        let digit = match digit_of(c, radix) {
            Some(d) => d,
            None => {
                assert(!is_digit_of(digits[i - start], radix as nat));
                return None;
            },
        };
        let scaled = match value.checked_mul(radix) {
            Some(v) => v,
            None => {
                assert(longer > usize::MAX);
                return None;
            },
        };
        value =
        match scaled.checked_add(digit) {
            Some(v) => v,
            None => {
                assert(longer > usize::MAX);
                return None;
            },
        };
        i += 1;
    }
    proof {
        assert(digits.take(n - start) =~= digits);
    }
    Some(value)
}

/// The value of a reading written in the given base.
pub fn convert_to_base10(reading: &str, base: Base) -> (value: usize)
    requires
        reading_value(reading@, base.number()).is_some(),
    ensures
        Some(value) == reading_value(reading@, base.number()),
{
    parse_reading(reading, base).unwrap()
}

/// The 65 symbols of base 65, the symbol for 0 first.
pub open spec fn alphabet() -> Seq<char> {
    "0123456789ABCDEFGHIJKLMNOPQRSTUVWXYZabcdefghijklmnopqrstuvwxyz!@#"@
}

/// A number written in base 65, the most significant symbol first; 0 is
/// written with no symbol at all.
pub open spec fn base65(n: nat) -> Seq<char>
    decreases n,
{
    if n == 0 {
        Seq::empty()
    } else {
        base65(n / 65).push(alphabet()[(n % 65) as int])
    }
}

/// Appends to `out` the number written in base 65.
fn write_base65(n: usize, out: &mut String)
    ensures
        final(out)@ == old(out)@ + base65(n as nat),
    decreases n,
{
    if n > 0 {
        write_base65(n / 65, out);
        let symbols = "0123456789ABCDEFGHIJKLMNOPQRSTUVWXYZabcdefghijklmnopqrstuvwxyz!@#";
        proof {
            reveal_strlit("0123456789ABCDEFGHIJKLMNOPQRSTUVWXYZabcdefghijklmnopqrstuvwxyz!@#");
        }
        let at = n % 65;
        let symbol = symbols.substring_char(at, at + 1);
        let ghost before = out@;
        out.append(symbol);
        proof {
            assert(symbol@ =~= seq![alphabet()[at as int]]);
            assert(out@ =~= old(out)@ + base65(n as nat));
        }
    } else {
        proof {
            assert(out@ =~= old(out)@ + base65(0));
        }
    }
}

/// Writes a number in base 65.
pub fn convert_from_base10_to_base65(reading: usize) -> (text: String)
    ensures
        text@ == base65(reading as nat),
{
    let mut text = String::new();
    write_base65(reading, &mut text);
    proof {
        assert(Seq::<char>::empty() + base65(reading as nat) =~= base65(reading as nat));
    }
    text
}

/// A reading of a drone: digits, and the base in which they are written.
pub struct DroneReading {
    pub reading: String,
    pub base: Base,
}

/// `at` is the position of the first space of the text.
pub open spec fn is_first_space(text: Seq<char>, at: int) -> bool {
    &&& 0 <= at < text.len()
    &&& text[at] == ' '
    &&& forall|j: int| 0 <= j < at ==> text[j] != ' '
}

impl DroneReading {
    /// The value of the reading, and 0 where its digits are no number in
    /// its base or the number does not fit the machine word.
    pub open spec fn worth(self) -> nat {
        match reading_value(self.reading@, self.base.number()) {
            Some(v) => v as nat,
            None => 0,
        }
    }

    /// The digits are a number in the reading's base that fits the machine word.
    pub open spec fn readable(self) -> bool {
        reading_value(self.reading@, self.base.number()).is_some()
    }

    /// Reads a line of the form `<READING> <BASE>`: what stands before the
    /// first space is the reading, what follows it names the base. A line
    /// without a space, or with something else than a base after the first
    /// space, is refused.
    pub fn from_str(s: &str) -> (out: Result<DroneReading, ()>)
        ensures
            match out {
                Ok(r) => exists|at: int|
                    is_first_space(s@, at) && r.reading@ == s@.take(at) && Base::named(
                        s@.skip(at + 1),
                    ) == Some(r.base),
                Err(_) => (forall|j: int| 0 <= j < s@.len() ==> s@[j] != ' ') || (exists|at: int|
                    is_first_space(s@, at) && Base::named(s@.skip(at + 1)).is_none()),
            },
    {
        let n = s.unicode_len();
        let mut at: usize = 0;
        while at < n && s.get_char(at) != ' '
            invariant
                at <= n,
                n == s@.len(),
                forall|j: int| 0 <= j < at ==> s@[j] != ' ',
            decreases n - at,
        {
            at += 1;
        }
        if at == n {
            return Err(());
        }
        assert(is_first_space(s@, at as int));
        let digits = s.substring_char(0, at);
        let name = s.substring_char(at + 1, n);
        proof {
            assert(digits@ =~= s@.take(at as int));
            assert(name@ =~= s@.skip(at + 1));
        }
        match Base::from_str(name) {
            Ok(base) => Ok(DroneReading { reading: digits.to_owned(), base }),
            Err(_) => Err(()),
        }
    }
}

/// The sum of the numbers that the bases of the readings stand for.
pub open spec fn base_total(readings: Seq<DroneReading>) -> nat
    decreases readings.len(),
{
    if readings.len() == 0 {
        0
    } else {
        base_total(readings.drop_last()) + readings.last().base.number()
    }
}

/// The sum of the values of the readings.
pub open spec fn value_total(readings: Seq<DroneReading>) -> nat
    decreases readings.len(),
{
    if readings.len() == 0 {
        0
    } else {
        value_total(readings.drop_last()) + readings.last().worth()
    }
}

/// The sum of the numbers that the bases of the readings stand for.
pub fn part1(input: Vec<DroneReading>) -> (total: usize)
    requires
        base_total(input@) <= usize::MAX,
    ensures
        total == base_total(input@),
{
    let mut acc: u128 = 0;
    let mut i: usize = 0;
    while i < input.len()
        invariant
            i <= input.len(),
            acc == base_total(input@.take(i as int)),
            acc <= i * 16,
        decreases input.len() - i,
    {
        proof {
            assert(input@.take(i + 1).drop_last() =~= input@.take(i as int));
        }
        acc = acc + usize::from(input[i].base) as u128;
        i += 1;
    }
    proof {
        assert(input@.take(input.len() as int) =~= input@);
    }
    acc as usize
}

/// The sum of the values of the readings, each read in its own base.
pub fn part2(input: Vec<DroneReading>) -> (total: usize)
    requires
        forall|i: int| 0 <= i < input@.len() ==> (#[trigger] input@[i]).readable(),
        value_total(input@) <= usize::MAX,
    ensures
        total == value_total(input@),
{
    let mut acc: u128 = 0;
    let mut i: usize = 0;
    while i < input.len()
        invariant
            i <= input.len(),
            forall|k: int| 0 <= k < input@.len() ==> (#[trigger] input@[k]).readable(),
            acc == value_total(input@.take(i as int)),
            acc <= i * 0xffff_ffff_ffff_ffff,
        decreases input.len() - i,
    {
        proof {
            assert(input@.take(i + 1).drop_last() =~= input@.take(i as int));
            assert(input@[i as int].readable());
        }
        let value = convert_to_base10(input[i].reading.as_str(), input[i].base);
        acc = acc + value as u128;
        i += 1;
    }
    proof {
        assert(input@.take(input.len() as int) =~= input@);
    }
    acc as usize
}

/// The sum of the values of the readings, written in base 65.
pub fn part3(input: Vec<DroneReading>) -> (text: String)
    requires
        forall|i: int| 0 <= i < input@.len() ==> (#[trigger] input@[i]).readable(),
        value_total(input@) <= usize::MAX,
    ensures
        text@ == base65(value_total(input@)),
{
    let sum = part2(input);
    convert_from_base10_to_base65(sum)
}

} // verus!

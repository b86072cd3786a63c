//! Frequencies as they are typed.

use vstd::prelude::*;

use crate::float;
use crate::float::Float;
use crate::text;
use crate::wire;

verus! {

/// What a suffix multiplies by.
#[derive(Debug, Clone, Copy, PartialEq, Eq, Structural)]
pub enum Scale {
    Hertz,
    Kilohertz,
    Megahertz,
    Gigahertz,
}

impl Scale {
    /// How many hertz one unit is, as a double.
    pub open spec fn hertz(self) -> nat {
        match self {
            Scale::Hertz => 1,
            Scale::Kilohertz => 1_000,
            Scale::Megahertz => 1_000_000,
            Scale::Gigahertz => 1_000_000_000,
        }
    }
}

/// Why a frequency is refused.
#[derive(Debug, Clone, Copy, PartialEq, Eq, Structural)]
pub enum FrequencyFault {
    NotAFrequency,
    TooLow { hz: u64 },
    TooHigh,
}

/// Whether a character is white space.
pub open spec fn is_space(c: char) -> bool {
    let n = c as int;
    ||| 9 <= n <= 13
    ||| n == 0x20
    ||| n == 0x85
    ||| n == 0xA0
    ||| n == 0x1680
    ||| 0x2000 <= n <= 0x200A
    ||| n == 0x2028
    ||| n == 0x2029
    ||| n == 0x202F
    ||| n == 0x205F
    ||| n == 0x3000
}

/// A text without the white space at its beginning.
pub open spec fn without_leading(text: Seq<char>) -> Seq<char>
    decreases text.len(),
{
    if text.len() > 0 && is_space(text[0]) {
        without_leading(text.drop_first())
    } else {
        text
    }
}

/// A text without the white space at its end.
pub open spec fn without_trailing(text: Seq<char>) -> Seq<char>
    decreases text.len(),
{
    if text.len() > 0 && is_space(text.last()) {
        without_trailing(text.drop_last())
    } else {
        text
    }
}

/// A text without the white space around it.
pub open spec fn stripped(text: Seq<char>) -> Seq<char> {
    without_trailing(without_leading(text))
}

/// An ASCII letter in lower case; any other character as it is.
pub open spec fn lower(c: char) -> char {
    if 'A' as int <= c as int <= 'Z' as int {
        (c as int + 32) as char
    } else {
        c
    }
}

/// A text with its ASCII letters in lower case.
pub open spec fn lowered(text: Seq<char>) -> Seq<char> {
    text.map_values(|c: char| lower(c))
}

/// `str::to_ascii_lowercase`: the letters `A` to `Z` become `a` to `z`, and
/// every other character stays as it is.
pub assume_specification[ str::to_ascii_lowercase ](s: &str) -> (result: String)
    ensures
        result@ == lowered(s@),
;

/// A text without the unit `hz`, and the white space before it.
pub open spec fn without_unit(text: Seq<char>) -> Seq<char> {
    let n = text.len();
    if n >= 2 && text[n - 2] == 'h' && text[n - 1] == 'z' {
        stripped(text.take(n - 2))
    } else {
        stripped(text)
    }
}

/// The scale that a text ends with.
pub open spec fn scale_of(text: Seq<char>) -> Scale {
    if text.len() == 0 {
        Scale::Hertz
    } else if text.last() == 'g' {
        Scale::Gigahertz
    } else if text.last() == 'm' {
        Scale::Megahertz
    } else if text.last() == 'k' {
        Scale::Kilohertz
    } else {
        Scale::Hertz
    }
}

/// A text without the scale that it ends with.
pub open spec fn without_scale(text: Seq<char>) -> Seq<char> {
    if scale_of(text) is Hertz {
        text
    } else {
        text.drop_last()
    }
}

/// What is typed, in lower case, without its unit.
pub open spec fn bare(input: Seq<char>) -> Seq<char> {
    without_unit(lowered(stripped(input)))
}

fn white(c: char) -> (result: bool)
    ensures
        result == is_space(c),
{
    let n: u32 = c as u32;
    (9 <= n && n <= 13) || n == 0x20 || n == 0x85 || n == 0xA0 || n == 0x1680 || (0x2000 <= n && n
        <= 0x200A) || n == 0x2028 || n == 0x2029 || n == 0x202F || n == 0x205F || n == 0x3000
}

/// A text without the white space around it.
pub fn strip<'a>(input: &'a str) -> (result: &'a str)
    ensures
        result@ == stripped(input@),
{
    let len: usize = input.unicode_len();
    let mut start: usize = 0;
    assert(input@.subrange(0, len as int) =~= input@);
    while start < len && white(input.get_char(start))
        invariant
            start <= len,
            len == input@.len(),
            without_leading(input@) == without_leading(input@.subrange(start as int, len as int)),
        decreases len - start,
    {
        assert(input@.subrange(start as int, len as int).drop_first() =~= input@.subrange(
            start + 1,
            len as int,
        ));
        start = start + 1;
    }
    let mut end: usize = len;
    assert(without_leading(input@) == input@.subrange(start as int, len as int));
    while end > start && white(input.get_char(end - 1))
        invariant
            start <= end <= len,
            len == input@.len(),
            stripped(input@) == without_trailing(input@.subrange(start as int, end as int)),
        decreases end,
    {
        assert(input@.subrange(start as int, end as int).drop_last() =~= input@.subrange(
            start as int,
            end - 1,
        ));
        end = end - 1;
    }
    input.substring_char(start, end)
}

/// Take a typed frequency apart: the digits, and what they are to be
/// multiplied by. Accepts `315M`, `433.92MHz`, `315000000` and friends.
pub fn split_frequency(input: &str) -> (result: (String, Scale))
    ensures
        result.0@ == without_scale(bare(input@)),
        result.1 == scale_of(bare(input@)),
{
    let text: String = strip(input).to_ascii_lowercase();
    let text: &str = text.as_str();
    let len: usize = text.unicode_len();
    let text: &str = if len >= 2 && text.get_char(len - 2) == 'h' && text.get_char(len - 1)
        == 'z' {
        strip(text.substring_char(0, len - 2))
    } else {
        strip(text)
    };
    let len: usize = text.unicode_len();
    if len == 0 {
        return (text.to_owned(), Scale::Hertz);
    }
    let last: char = text.get_char(len - 1);
    let scale: Scale = if last == 'g' {
        Scale::Gigahertz
    } else if last == 'm' {
        Scale::Megahertz
    } else if last == 'k' {
        Scale::Kilohertz
    } else {
        return (text.to_owned(), Scale::Hertz);
    };
    let digits: &str = text.substring_char(0, len - 1);
    assert(digits@ =~= text@.drop_last());
    (digits.to_owned(), scale)
}

/// What a number of units is in hertz, to the nearest.
pub open spec fn in_hertz(value: float::Binary, scale: Scale) -> int {
    float::round_into(
        float::product(value, float::from_nat(scale.hertz())),
        0,
        u64::MAX as int,
    )
}

/// The frequency that a number of units stands for.
///
/// Bare numbers are hertz, which makes `315` mean 315 Hz: a mistake that is
/// easy to make and, without this check, produces a capture of noise from a
/// radio tuned nowhere near the intended band.
pub fn resolve(value: Float, scale: Scale) -> (result: Result<u64, FrequencyFault>)
    ensures
        result == if !float::positive(value@) {
            Err::<u64, FrequencyFault>(FrequencyFault::NotAFrequency)
        } else if in_hertz(value@, scale) < wire::MIN_FREQUENCY_HZ {
            Err(FrequencyFault::TooLow { hz: in_hertz(value@, scale) as u64 })
        } else if in_hertz(value@, scale) > wire::MAX_FREQUENCY_HZ {
            Err(FrequencyFault::TooHigh)
        } else {
            Ok(in_hertz(value@, scale) as u64)
        },
{
    if !value.is_positive() {
        return Err(FrequencyFault::NotAFrequency);
    }
    let unit: u64 = match scale {
        Scale::Hertz => 1,
        Scale::Kilohertz => 1_000,
        Scale::Megahertz => 1_000_000,
        Scale::Gigahertz => 1_000_000_000,
    };
    let hz: u64 = value.times(Float::from_u64(unit)).round_to_u64();
    if hz < wire::MIN_FREQUENCY_HZ {
        return Err(FrequencyFault::TooLow { hz });
    }
    if hz > wire::MAX_FREQUENCY_HZ {
        return Err(FrequencyFault::TooHigh);
    }
    Ok(hz)
}

impl FrequencyFault {
    /// The refusal in words, given what was typed and its digits.
    pub open spec fn described(self, input: Seq<char>, digits: Seq<char>) -> Seq<char> {
        match self {
            FrequencyFault::NotAFrequency => "not a frequency: "@ + input,
            FrequencyFault::TooLow { hz } => input + " is "@ + text::decimal(hz as nat)
                + " Hz, below the HackRF's 1 MHz minimum — bare numbers are hertz, so write "@
                + digits + "M for megahertz"@,
            FrequencyFault::TooHigh => input + " is above the HackRF's 6 GHz maximum"@,
        }
    }

    /// The refusal in words, given what was typed and its digits.
    pub fn to_text(&self, input: &str, digits: &str) -> (result: String)
        ensures
            result@ == self.described(input@, digits@),
    {
        let mut out: String = String::new();
        match self {
            FrequencyFault::NotAFrequency => {
                out.append("not a frequency: ");
                out.append(input);
            },
            FrequencyFault::TooLow { hz } => {
                out.append(input);
                out.append(" is ");
                text::push_decimal(&mut out, *hz as u128);
                out.append(
                    " Hz, below the HackRF's 1 MHz minimum — bare numbers are hertz, so write ",
                );
                out.append(digits);
                out.append("M for megahertz");
            },
            FrequencyFault::TooHigh => {
                out.append(input);
                out.append(" is above the HackRF's 6 GHz maximum");
            },
        }
        assert(out@ =~= self.described(input@, digits@));
        out
    }
}

/// Whatever is accepted, the radio can tune to.
pub proof fn accepted_is_tunable(value: float::Binary, scale: Scale)
    requires
        float::positive(value),
        wire::MIN_FREQUENCY_HZ <= in_hertz(value, scale) <= wire::MAX_FREQUENCY_HZ,
    ensures
        wire::tunable(in_hertz(value, scale) as u64),
{
}

/// White space around what is typed does not matter.
pub proof fn stripping_settles(text: Seq<char>)
    ensures
        stripped(stripped(text)) == stripped(text),
        stripped(text).len() > 0 ==> !is_space(stripped(text)[0]) && !is_space(
            stripped(text).last(),
        ),
{
    lemma_leading(text);
    lemma_trailing(without_leading(text));
}

proof fn lemma_leading(text: Seq<char>)
    ensures
        without_leading(text).len() > 0 ==> !is_space(without_leading(text)[0]),
    decreases text.len(),
{
    if text.len() > 0 && is_space(text[0]) {
        lemma_leading(text.drop_first());
    }
}

proof fn lemma_trailing(text: Seq<char>)
    ensures
        without_trailing(text).len() <= text.len(),
        without_trailing(text) == text.take(without_trailing(text).len() as int),
        without_trailing(text).len() > 0 ==> !is_space(without_trailing(text).last()),
    decreases text.len(),
{
    if text.len() > 0 && is_space(text.last()) {
        lemma_trailing(text.drop_last());
        let kept = without_trailing(text);
        assert(text.drop_last().take(kept.len() as int) =~= text.take(kept.len() as int));
    } else {
        assert(text.take(text.len() as int) =~= text);
    }
}

} // verus!

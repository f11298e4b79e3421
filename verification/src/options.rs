//! What a conversion run is asked for: the output style, the index range and
//! the lifecycles, read from the texts of the command line.
use vstd::prelude::*;
use vstd::string::StrSliceExecFns;

verus! {

/// How a record is shown.
#[derive(Clone, Copy, Debug, PartialEq, Eq, Structural)]
pub enum OutputStyle {
    Hex,
    Ascii,
    Mixed,
    HeaderOnly,
    /// No record is shown.
    Silent,
}

/// The one style that the flags ask for: the first that is set, in the
/// order hex, ascii, mixed, headers; none of them shows nothing.
pub fn output_style(hex: bool, ascii: bool, mixed: bool, headers: bool) -> (style: OutputStyle)
    ensures
        style == (if hex {
            OutputStyle::Hex
        } else if ascii {
            OutputStyle::Ascii
        } else if mixed {
            OutputStyle::Mixed
        } else if headers {
            OutputStyle::HeaderOnly
        } else {
            OutputStyle::Silent
        }),
{
    if hex {
        OutputStyle::Hex
    } else if ascii {
        OutputStyle::Ascii
    } else if mixed {
        OutputStyle::Mixed
    } else if headers {
        OutputStyle::HeaderOnly
    } else {
        OutputStyle::Silent
    }
}

/// The value of a decimal digit.
pub open spec fn digit_of(c: char) -> Option<nat> {
    if '0' <= c <= '9' {
        Some((c as u32 - '0' as u32) as nat)
    } else {
        None
    }
}

/// The number that a sequence of decimal digits writes; the empty sequence
/// writes zero.
pub open spec fn number_of(digits: Seq<char>) -> Option<nat>
    decreases digits.len(),
{
    if digits.len() == 0 {
        Some(0)
    } else {
        match (number_of(digits.drop_last()), digit_of(digits.last())) {
            (Some(n), Some(d)) => Some(n * 10 + d),
            _ => None,
        }
    }
}

/// The index that a text writes: decimal digits, at least one, with or
/// without a plus sign before them, and a value that an index can have.
pub open spec fn index_of(text: Seq<char>) -> Option<u32> {
    let digits = if text.len() > 0 && text[0] == '+' {
        text.skip(1)
    } else {
        text
    };
    if digits.len() == 0 {
        None
    } else {
        match number_of(digits) {
            Some(n) => if n <= u32::MAX {
                Some(n as u32)
            } else {
                None
            },
            None => None,
        }
    }
}

/// Digits that write a number begin with digits that write no greater one.
proof fn lemma_number_of_prefix(digits: Seq<char>, n: int)
    requires
        0 <= n <= digits.len(),
    ensures
        number_of(digits.take(n)) is None ==> number_of(digits) is None,
        number_of(digits) matches Some(whole) ==> number_of(digits.take(n)).unwrap() <= whole,
    decreases digits.len() - n,
{
    if n < digits.len() {
        lemma_number_of_prefix(digits, n + 1);
        assert(digits.take(n + 1).drop_last() =~= digits.take(n));
    } else {
        assert(digits.take(n) =~= digits);
    }
}

/// Reads an index.
pub fn parse_index(text: &str) -> (index: Option<u32>)
    ensures
        index == index_of(text@),
{
    let n: usize = text.unicode_len();
    let start: usize = if n > 0 && text.get_char(0) == '+' {
        1
    } else {
        0
    };
    if start == n {
        return None;
    }
    let ghost digits = text@.skip(start as int);
    assert(text@.skip(0) =~= text@);
    assert(digits.len() == n - start);
    let mut value: u32 = 0;
    let mut i: usize = start;
    assert(digits.take(0) =~= Seq::<char>::empty());
    while i < n
        invariant
            start <= i <= n,
            n == text@.len(),
            digits == text@.skip(start as int),
            digits.len() == n - start,
            index_of(text@) == (match number_of(digits) {
                Some(whole) => if whole <= u32::MAX {
                    Some(whole as u32)
                } else {
                    None
                },
                None => None,
            }),
            number_of(digits.take(i - start)) == Some(value as nat),
        decreases n - i,
    {
        let c: char = text.get_char(i);
        proof {
            let longer = digits.take(i - start + 1);
            assert(longer.drop_last() =~= digits.take(i - start));
            assert(longer.last() == c);
            assert(number_of(longer) == (match digit_of(c) {
                Some(d) => Some(value as nat * 10 + d),
                None => None::<nat>,
            }));
            lemma_number_of_prefix(digits, i - start + 1);
        }
        if c < '0' || c > '9' {
            assert(digit_of(c) is None);
            return None;
        }
        let digit: u32 = c as u32 - '0' as u32;
        assert(digit_of(c) == Some(digit as nat));
        if value > (u32::MAX - digit) / 10 {
            assert(value as nat * 10 + digit > u32::MAX);
            return None;
        }
        value = value * 10 + digit;
        i = i + 1;
    }
    assert(digits.take(i - start) =~= digits);
    Some(value)
}

/// The index that an argument gives: `absent` where there is no argument,
/// `invalid` where the argument writes no index.
pub fn index_or(argument: Option<&str>, absent: u32, invalid: u32) -> (index: u32)
    ensures
        index == (match argument {
            None => absent,
            Some(text) => match index_of(text@) {
                Some(value) => value,
                None => invalid,
            },
        }),
{
    match argument {
        None => absent,
        Some(text) => match parse_index(text) {
            Some(value) => value,
            None => invalid,
        },
    }
}

/// The first index of the range: zero unless an argument says otherwise.
pub fn index_first(argument: Option<&str>) -> (index: u32)
    ensures
        index == (match argument {
            None => 0,
            Some(text) => match index_of(text@) {
                Some(value) => value,
                None => 0,
            },
        }),
{
    index_or(argument, 0, 0)
}

/// The last index of the range: the largest index unless an argument says
/// otherwise. An argument that writes no index gives zero, so that nothing
/// but the first record can pass.
pub fn index_last(argument: Option<&str>) -> (index: u32)
    ensures
        index == (match argument {
            None => u32::MAX,
            Some(text) => match index_of(text@) {
                Some(value) => value,
                None => 0,
            },
        }),
{
    index_or(argument, u32::MAX, 0)
}

/// The ids that the texts write, in their order; a text that writes none is
/// left out.
pub open spec fn ids_of(texts: Seq<Seq<char>>) -> Seq<u32>
    decreases texts.len(),
{
    if texts.len() == 0 {
        Seq::empty()
    } else {
        match index_of(texts.last()) {
            Some(id) => ids_of(texts.drop_last()).push(id),
            None => ids_of(texts.drop_last()),
        }
    }
}

/// The texts of the arguments.
pub open spec fn texts_of(arguments: Seq<String>) -> Seq<Seq<char>> {
    Seq::new(arguments.len(), |i: int| arguments[i]@)
}

/// Reads the lifecycle ids of the filter.
pub fn lifecycle_ids(arguments: &Vec<String>) -> (ids: Vec<u32>)
    ensures
        ids@ == ids_of(texts_of(arguments@)),
{
    let mut ids: Vec<u32> = Vec::new();
    let mut i: usize = 0;
    let ghost texts = texts_of(arguments@);
    assert(texts.take(0) =~= Seq::<Seq<char>>::empty());
    while i < arguments.len()
        invariant
            i <= arguments@.len(),
            texts == texts_of(arguments@),
            ids@ == ids_of(texts.take(i as int)),
        decreases arguments@.len() - i,
    {
        assert(texts.take(i + 1).drop_last() =~= texts.take(i as int));
        assert(texts.take(i + 1).last() == arguments@[i as int]@);
        match parse_index(arguments[i].as_str()) {
            Some(id) => {
                ids.push(id);
            },
            None => {},
        }
        i = i + 1;
    }
    assert(texts.take(i as int) =~= texts);
    ids
}

} // verus!

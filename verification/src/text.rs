//! Building the texts of error messages.
use vstd::prelude::*;
use vstd::string::StringExecFns;

verus! {

/// The lower-case hexadecimal digit for `n`.
pub open spec fn hex_digit(n: int) -> char {
    if n < 10 {
        (0x30 + n) as char
    } else {
        (0x57 + n) as char
    }
}

/// The last `width` hexadecimal digits of `n`.
pub open spec fn hexadecimal(n: int, width: nat) -> Seq<char>
    decreases width,
{
    if width == 0 {
        Seq::empty()
    } else {
        hexadecimal(n / 16, (width - 1) as nat).push(hex_digit(n % 16))
    }
}

/// A 32-bit word as `0x` and eight hexadecimal digits.
pub open spec fn hex_word(word: u32) -> Seq<char> {
    "0x"@ + hexadecimal(word as int, 8)
}

/// The digit for `n` as a text of one character.
fn hex_digit_text(n: u32) -> (text: &'static str)
    requires
        n < 16,
    ensures
        text@ == seq![hex_digit(n as int)],
{
    proof {
        reveal_strlit("0");
        reveal_strlit("1");
        reveal_strlit("2");
        reveal_strlit("3");
        reveal_strlit("4");
        reveal_strlit("5");
        reveal_strlit("6");
        reveal_strlit("7");
        reveal_strlit("8");
        reveal_strlit("9");
        reveal_strlit("a");
        reveal_strlit("b");
        reveal_strlit("c");
        reveal_strlit("d");
        reveal_strlit("e");
        reveal_strlit("f");
    }
    match n {
        0 => "0",
        1 => "1",
        2 => "2",
        3 => "3",
        4 => "4",
        5 => "5",
        6 => "6",
        7 => "7",
        8 => "8",
        9 => "9",
        10 => "a",
        11 => "b",
        12 => "c",
        13 => "d",
        14 => "e",
        _ => "f",
    }
}

/// Appends the last `width` hexadecimal digits of `n`.
fn append_hex(text: &mut String, n: u32, width: u32)
    ensures
        final(text)@ == old(text)@ + hexadecimal(n as int, width as nat),
    decreases width,
{
    if width > 0 {
        append_hex(text, n / 16, width - 1);
        text.append(hex_digit_text(n % 16));
    }
}

/// A text followed by a word in hexadecimal.
pub fn with_hex(prefix: &str, word: u32) -> (text: String)
    ensures
        text@ == prefix@ + hex_word(word),
{
    let mut text = String::from_str(prefix);
    text.append("0x");
    append_hex(&mut text, word, 8);
    text
}

/// Two texts, one after the other.
pub fn join2(first: &str, second: &str) -> (text: String)
    ensures
        text@ == first@ + second@,
{
    let mut text = String::from_str(first);
    text.append(second);
    text
}

/// Three texts, one after the other.
pub fn join3(first: &str, second: &str, third: &str) -> (text: String)
    ensures
        text@ == first@ + second@ + third@,
{
    let mut text = String::from_str(first);
    text.append(second);
    text.append(third);
    text
}

/// What a lower-case hexadecimal digit counts.
pub open spec fn digit_value(c: char) -> int {
    if '0' <= c <= '9' {
        c as int - '0' as int
    } else {
        c as int - 'a' as int + 10
    }
}

/// What hexadecimal digits count together.
pub open spec fn digits_value(digits: Seq<char>) -> int
    decreases digits.len(),
{
    if digits.len() == 0 {
        0
    } else {
        16 * digits_value(digits.drop_last()) + digit_value(digits.last())
    }
}

spec fn sixteen_power(width: nat) -> int
    decreases width,
{
    if width == 0 {
        1
    } else {
        16 * sixteen_power((width - 1) as nat)
    }
}

proof fn lemma_digits_value(n: int, width: nat)
    requires
        0 <= n < sixteen_power(width),
    ensures
        hexadecimal(n, width).len() == width,
        digits_value(hexadecimal(n, width)) == n,
        forall|i: int|
            0 <= i < width ==> '0' <= #[trigger] hexadecimal(n, width)[i] <= '9' || 'a'
                <= hexadecimal(n, width)[i] <= 'f',
    decreases width,
{
    if width > 0 {
        let fewer = (width - 1) as nat;
        lemma_digits_value(n / 16, fewer);
        assert(hexadecimal(n, width).drop_last() =~= hexadecimal(n / 16, fewer));
    }
}

/// A word is written as `0x` and eight lower-case hexadecimal digits, from which it can be read back.
pub proof fn lemma_hex_word(word: u32)
    ensures
        hex_word(word).len() == 10,
        hex_word(word)[0] == '0',
        hex_word(word)[1] == 'x',
        forall|i: int|
            2 <= i < 10 ==> '0' <= #[trigger] hex_word(word)[i] <= '9' || 'a' <= hex_word(word)[i]
                <= 'f',
        digits_value(hex_word(word).skip(2)) == word,
{
    reveal_strlit("0x");
    reveal_with_fuel(sixteen_power, 9);
    lemma_digits_value(word as int, 8);
    let digits = hexadecimal(word as int, 8);
    assert(hex_word(word).skip(2) =~= digits);
    assert forall|i: int| 2 <= i < 10 implies '0' <= #[trigger] hex_word(word)[i] <= '9' || 'a'
        <= hex_word(word)[i] <= 'f' by {
        assert(hex_word(word)[i] == digits[i - 2]);
    }
}

} // verus!

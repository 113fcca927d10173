//! Numbers as they are written on a command line.

use vstd::prelude::*;

verus! {

/// Why a text is not a number.
#[derive(Debug, Clone, Copy, PartialEq, Eq, Structural)]
pub enum NumError {
    /// No digit at all.
    Empty,
    InvalidDigit,
    /// The number does not fit in 64 bits.
    Overflow,
}

/// The value of a digit, letters counting from ten on.
pub open spec fn digit_of(c: char, radix: int) -> Option<int> {
    let d = if '0' <= c <= '9' {
        c as int - '0' as int
    } else if 'a' <= c <= 'z' {
        c as int - 'a' as int + 10
    } else if 'A' <= c <= 'Z' {
        c as int - 'A' as int + 10
    } else {
        radix
    };
    if d < radix {
        Some(d)
    } else {
        None
    }
}

/// The number whose digits from `i` on follow those that made `acc`.
pub open spec fn digits_of(s: Seq<char>, radix: int, acc: int, i: int) -> Result<u64, NumError>
    decreases s.len() - i,
{
    if i >= s.len() {
        Ok(acc as u64)
    } else {
        match digit_of(s[i], radix) {
            None => Err(NumError::InvalidDigit),
            Some(d) => if acc * radix + d > u64::MAX {
                Err(NumError::Overflow)
            } else {
                digits_of(s, radix, acc * radix + d, i + 1)
            },
        }
    }
}

/// The number that `s` writes, with or without a plus sign.
pub open spec fn number_of(s: Seq<char>, radix: int) -> Result<u64, NumError> {
    if s.len() == 0 {
        Err(NumError::Empty)
    } else if s[0] == '+' {
        if s.len() == 1 {
            Err(NumError::InvalidDigit)
        } else {
            digits_of(s, radix, 0, 1)
        }
    } else {
        digits_of(s, radix, 0, 0)
    }
}

/// What a unit letter multiplies by.
pub open spec fn unit_of(c: char) -> Option<int> {
    if c == 'K' || c == 'k' {
        Some(0x400)
    } else if c == 'M' || c == 'm' {
        Some(0x10_0000)
    } else if c == 'G' || c == 'g' {
        Some(0x4000_0000)
    } else if c == 'T' || c == 't' {
        Some(0x100_0000_0000)
    } else {
        None
    }
}

/// The size that `s` writes: a number, with or without a unit letter.
pub open spec fn size_of_text(s: Seq<char>) -> Result<u64, NumError> {
    if s.len() > 0 && unit_of(s.last()) is Some {
        match number_of(s.drop_last(), 10) {
            Err(e) => Err(e),
            Ok(n) => if n * unit_of(s.last())->0 > u64::MAX {
                Err(NumError::Overflow)
            } else {
                Ok((n * unit_of(s.last())->0) as u64)
            },
        }
    } else {
        number_of(s, 10)
    }
}

/// The inode number that `s` writes: decimal, or hexadecimal behind `0x`.
pub open spec fn ino_of_text(s: Seq<char>) -> Result<u64, NumError> {
    if s.len() >= 2 && s[0] == '0' && s[1] == 'x' {
        number_of(s.skip(2), 16)
    } else {
        number_of(s, 10)
    }
}

fn digit(c: char, radix: u64) -> (r: Option<u64>)
    requires
        radix <= 36,
    ensures
        match r {
            Some(d) => digit_of(c, radix as int) == Some(d as int) && d < radix,
            None => digit_of(c, radix as int) is None,
        },
{
    let d = if '0' <= c && c <= '9' {
        c as u64 - '0' as u64
    } else if 'a' <= c && c <= 'z' {
        c as u64 - 'a' as u64 + 10
    } else if 'A' <= c && c <= 'Z' {
        c as u64 - 'A' as u64 + 10
    } else {
        radix
    };
    if d < radix {
        Some(d)
    } else {
        None
    }
}

/// Characters `lo` to `hi` of `s` as a number.
fn number(s: &str, lo: usize, hi: usize, radix: u64) -> (r: Result<u64, NumError>)
    requires
        lo <= hi <= s@.len(),
        2 <= radix <= 36,
    ensures
        r == number_of(s@.subrange(lo as int, hi as int), radix as int),
{
    let ghost t = s@.subrange(lo as int, hi as int);
    if lo == hi {
        return Err(NumError::Empty);
    }
    let mut i = lo;
    if s.get_char(lo) == '+' {
        if hi - lo == 1 {
            return Err(NumError::InvalidDigit);
        }
        i = lo + 1;
    }
    let ghost want = number_of(t, radix as int);
    let mut acc: u64 = 0;
    while i < hi
        invariant
            lo <= i <= hi <= s@.len(),
            2 <= radix <= 36,
            t == s@.subrange(lo as int, hi as int),
            want == number_of(t, radix as int),
            want == digits_of(t, radix as int, acc as int, i - lo),
        decreases hi - i,
    {
        let c = s.get_char(i);
        assert(t[i - lo] == c);
        let d = match digit(c, radix) {
            Some(d) => d,
            None => return Err(NumError::InvalidDigit),
        };
        assert(acc * radix <= 0xffff_ffff_ffff_ffff * 36) by (nonlinear_arith)
            requires
                0 <= acc <= 0xffff_ffff_ffff_ffff,
                0 <= radix <= 36,
        ;
        let next = acc as u128 * radix as u128 + d as u128;
        if next > u64::MAX as u128 {
            return Err(NumError::Overflow);
        }
        acc = next as u64;
        i = i + 1;
    }
    Ok(acc)
}

/// A size with a unit letter, such as `256M` or `8G`.
pub fn parse_size(s: &str) -> (r: Result<u64, NumError>)
    ensures
        r == size_of_text(s@),
{
    let n = s.unicode_len();
    assert(s@.subrange(0, n as int) =~= s@);
    if n == 0 {
        return number(s, 0, n, 10);
    }
    let c = s.get_char(n - 1);
    let unit: u64 = if c == 'K' || c == 'k' {
        0x400
    } else if c == 'M' || c == 'm' {
        0x10_0000
    } else if c == 'G' || c == 'g' {
        0x4000_0000
    } else if c == 'T' || c == 't' {
        0x100_0000_0000
    } else {
        return number(s, 0, n, 10);
    };
    assert(s@.subrange(0, n - 1) =~= s@.drop_last());
    let v = number(s, 0, n - 1, 10)?;
    match v.checked_mul(unit) {
        Some(x) => Ok(x),
        None => Err(NumError::Overflow),
    }
}

/// An inode number, decimal or 0x-hex.
pub fn parse_ino(s: &str) -> (r: Result<u64, NumError>)
    ensures
        r == ino_of_text(s@),
{
    let n = s.unicode_len();
    if n >= 2 && s.get_char(0) == '0' && s.get_char(1) == 'x' {
        assert(s@.subrange(2, n as int) =~= s@.skip(2));
        number(s, 2, n, 16)
    } else {
        assert(s@.subrange(0, n as int) =~= s@);
        number(s, 0, n, 10)
    }
}

// --- laws ---------------------------------------------------------------------

/// Whether the character `c` stands for the digit `v`: the ten figures, and the
/// letters from A on in either case behind them.
pub open spec fn stands_for(c: char, v: int) -> bool {
    ||| 0 <= v <= 9 && c as int == 0x30 + v
    ||| 10 <= v <= 35 && (c as int == 0x61 + v - 10 || c as int == 0x41 + v - 10)
}

proof fn lemma_digit(c: char, radix: int)
    requires
        2 <= radix <= 36,
    ensures
        digit_of(c, radix) matches Some(v) ==> 0 <= v < radix && stands_for(c, v),
        digit_of(c, radix) is None ==> forall|v: int|
            0 <= v < radix ==> !#[trigger] stands_for(c, v),
{
}

/// One character is a number if it is a digit of the radix, and then worth what
/// it stands for; a plus sign may precede it.
pub proof fn law_one_digit(c: char, radix: int, v: int)
    requires
        2 <= radix <= 36,
    ensures
        0 <= v < radix && stands_for(c, v) ==> number_of(seq![c], radix) == Ok::<u64, NumError>(
            v as u64,
        ),
        0 <= v < radix && stands_for(c, v) ==> number_of(seq!['+', c], radix) == Ok::<
            u64,
            NumError,
        >(v as u64),
        (forall|w: int| 0 <= w < radix ==> !#[trigger] stands_for(c, w)) ==> number_of(
            seq![c],
            radix,
        ) == Err::<u64, NumError>(NumError::InvalidDigit),
        number_of(Seq::empty(), radix) == Err::<u64, NumError>(NumError::Empty),
{
    lemma_digit(c, radix);
    reveal_with_fuel(digits_of, 3);
    if 0 <= v < radix && stands_for(c, v) {
        assert(digit_of(c, radix) == Some(v));
        assert(0 * radix == 0) by (nonlinear_arith);
    }
}

/// A digit behind a number multiplies it by the radix and adds itself, as long
/// as 64 bits hold the result. Anything else behind it makes it no number, and
/// what was no number before stays none, for the same reason.
pub proof fn law_digits_follow(s: Seq<char>, c: char, radix: int, v: int)
    requires
        2 <= radix <= 36,
        s.len() > 0,
        s != seq!['+'],
    ensures
        number_of(s, radix) matches Err(e) ==> number_of(s.push(c), radix) == Err::<u64, NumError>(e),
        number_of(s, radix) matches Ok(n) ==> {
            &&& 0 <= v < radix && stands_for(c, v) && n * radix + v <= u64::MAX ==> number_of(
                s.push(c),
                radix,
            ) == Ok::<u64, NumError>((n * radix + v) as u64)
            &&& 0 <= v < radix && stands_for(c, v) && n * radix + v > u64::MAX ==> number_of(
                s.push(c),
                radix,
            ) == Err::<u64, NumError>(NumError::Overflow)
            &&& (forall|w: int| 0 <= w < radix ==> !#[trigger] stands_for(c, w)) ==> number_of(
                s.push(c),
                radix,
            ) == Err::<u64, NumError>(NumError::InvalidDigit)
        },
{
    lemma_digit(c, radix);
    let from: int = if s[0] == '+' {
        1
    } else {
        0
    };
    if s[0] == '+' && s.len() == 1 {
        assert(s =~= seq!['+']);
    }
    assert(0 * radix == 0) by (nonlinear_arith);
    lemma_digits_follow(s, c, radix, 0, from);
    if 0 <= v < radix && stands_for(c, v) {
        assert(digit_of(c, radix) == Some(v));
    }
}

proof fn lemma_digits_follow(s: Seq<char>, c: char, radix: int, acc: int, i: int)
    requires
        2 <= radix <= 36,
        0 <= i <= s.len(),
        0 <= acc <= u64::MAX,
    ensures
        digits_of(s.push(c), radix, acc, i) == match digits_of(s, radix, acc, i) {
            Err(e) => Err(e),
            Ok(n) => match digit_of(c, radix) {
                None => Err(NumError::InvalidDigit),
                Some(d) => if n * radix + d > u64::MAX {
                    Err(NumError::Overflow)
                } else {
                    Ok((n * radix + d) as u64)
                },
            },
        },
    decreases s.len() - i,
{
    let t = s.push(c);
    if i < s.len() {
        assert(t[i] == s[i]);
        if let Some(d) = digit_of(s[i], radix) {
            lemma_digit(s[i], radix);
            assert(acc * radix >= 0) by (nonlinear_arith)
                requires
                    acc >= 0,
                    radix >= 2,
            ;
            if acc * radix + d <= u64::MAX {
                lemma_digits_follow(s, c, radix, acc * radix + d, i + 1);
            }
        }
    } else {
        assert(t[i] == c);
        reveal_with_fuel(digits_of, 2);
        lemma_digit(c, radix);
    }
}

/// The bytes that a unit letter stands for.
pub open spec fn unit_bytes(c: char, n: int) -> bool {
    ||| (c == 'K' || c == 'k') && n == 1024
    ||| (c == 'M' || c == 'm') && n == 1024 * 1024
    ||| (c == 'G' || c == 'g') && n == 1024 * 1024 * 1024
    ||| (c == 'T' || c == 't') && n == 1024 * 1024 * 1024 * 1024
}

/// A unit letter behind a number multiplies it, as long as 64 bits hold the
/// result. Without one a size is a plain number.
pub proof fn law_unit_multiplies(s: Seq<char>, c: char, n: int)
    ensures
        unit_bytes(c, n) ==> size_of_text(s.push(c)) == match number_of(s, 10) {
            Err(e) => Err(e),
            Ok(v) => if v * n <= u64::MAX {
                Ok((v * n) as u64)
            } else {
                Err(NumError::Overflow)
            },
        },
        (forall|m: int| !#[trigger] unit_bytes(c, m)) ==> size_of_text(s.push(c)) == number_of(
            s.push(c),
            10,
        ),
        size_of_text(Seq::empty()) == Err::<u64, NumError>(NumError::Empty),
{
    let t = s.push(c);
    assert(t.last() == c);
    assert(t.drop_last() =~= s);
    if forall|m: int| !#[trigger] unit_bytes(c, m) {
        assert(!unit_bytes(c, 1024));
        assert(!unit_bytes(c, 0x10_0000));
        assert(!unit_bytes(c, 0x4000_0000));
        assert(!unit_bytes(c, 0x100_0000_0000));
    }
}

/// Behind `0x` an inode number is hexadecimal, else decimal.
pub proof fn law_hex_prefix(s: Seq<char>)
    ensures
        ino_of_text(seq!['0', 'x'] + s) == number_of(s, 16),
        !(s.len() >= 2 && s[0] == '0' && s[1] == 'x') ==> ino_of_text(s) == number_of(s, 10),
{
    assert((seq!['0', 'x'] + s).skip(2) =~= s);
}

} // verus!

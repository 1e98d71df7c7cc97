//! Decimal text for unsigned integers: writing a number as digits and reading
//! digits back the way `str::parse` does for unsigned integer types.
use vstd::prelude::*;
use vstd::string::*;

verus! {

/// Why a text is not an unsigned integer of the wanted width.
#[derive(Debug, Clone, Copy, PartialEq, Eq, Structural)]
pub enum IntErrorKind {
    /// The text is empty.
    Empty,
    /// A character is not a decimal digit (or a lone sign).
    InvalidDigit,
    /// The value does not fit the wanted width.
    PosOverflow,
}

pub open spec fn is_digit(c: char) -> bool {
    '0' <= c && c <= '9'
}

pub open spec fn digit_value(c: char) -> nat {
    (c as int - '0' as int) as nat
}

pub open spec fn digit_char(d: nat) -> char {
    (d + 48) as char
}

/// The shortest decimal writing of `n`, most significant digit first.
pub open spec fn digits_of(n: nat) -> Seq<char>
    decreases n,
{
    if n < 10 {
        seq![digit_char(n)]
    } else {
        digits_of(n / 10).push(digit_char(n % 10))
    }
}

/// Reads `ds` left to right, starting from the value `acc`, failing at the first
/// character that is not a digit or that pushes the value past `max`.
pub open spec fn scan_digits(ds: Seq<char>, acc: nat, max: nat) -> Result<nat, IntErrorKind>
    decreases ds.len(),
{
    if ds.len() == 0 {
        Ok(acc)
    } else if !is_digit(ds[0]) {
        Err(IntErrorKind::InvalidDigit)
    } else if acc * 10 + digit_value(ds[0]) > max {
        Err(IntErrorKind::PosOverflow)
    } else {
        scan_digits(ds.drop_first(), acc * 10 + digit_value(ds[0]), max)
    }
}

/// What reading `s` as an unsigned integer no larger than `max` gives: an
/// optional leading `+`, then decimal digits.
pub open spec fn parse_unsigned(s: Seq<char>, max: nat) -> Result<nat, IntErrorKind> {
    if s.len() == 0 {
        Err(IntErrorKind::Empty)
    } else if (s[0] == '+' || s[0] == '-') && s.len() == 1 {
        Err(IntErrorKind::InvalidDigit)
    } else if s[0] == '+' {
        scan_digits(s.drop_first(), 0, max)
    } else {
        scan_digits(s, 0, max)
    }
}

/// The text that `ParseIntError` shows for each kind.
pub open spec fn int_error_text(k: IntErrorKind) -> Seq<char> {
    match k {
        IntErrorKind::Empty => "cannot parse integer from empty string"@,
        IntErrorKind::InvalidDigit => "invalid digit found in string"@,
        IntErrorKind::PosOverflow => "number too large to fit in target type"@,
    }
}

/// Left fold of a digit sequence onto a starting value.
pub open spec fn fold_digits(acc: nat, ds: Seq<char>) -> nat
    decreases ds.len(),
{
    if ds.len() == 0 {
        acc
    } else {
        fold_digits(acc * 10 + digit_value(ds[0]), ds.drop_first())
    }
}

pub open spec fn all_digits(ds: Seq<char>) -> bool {
    forall|i: int| 0 <= i < ds.len() ==> is_digit(#[trigger] ds[i])
}

proof fn lemma_fold_monotone(acc: nat, ds: Seq<char>)
    ensures
        acc <= fold_digits(acc, ds),
    decreases ds.len(),
{
    if ds.len() > 0 {
        lemma_fold_monotone(acc * 10 + digit_value(ds[0]), ds.drop_first());
        assert(acc <= acc * 10 + digit_value(ds[0])) by (nonlinear_arith);
    }
}

proof fn lemma_scan_fold(ds: Seq<char>, acc: nat, max: nat)
    requires
        all_digits(ds),
        fold_digits(acc, ds) <= max,
    ensures
        scan_digits(ds, acc, max) == Ok::<nat, IntErrorKind>(fold_digits(acc, ds)),
    decreases ds.len(),
{
    if ds.len() > 0 {
        let next = acc * 10 + digit_value(ds[0]);
        assert(is_digit(ds[0]));
        lemma_fold_monotone(next, ds.drop_first());
        assert(all_digits(ds.drop_first())) by {
            assert forall|i: int| 0 <= i < ds.drop_first().len() implies is_digit(
                #[trigger] ds.drop_first()[i],
            ) by {
                assert(ds.drop_first()[i] == ds[i + 1]);
            }
        }
        lemma_scan_fold(ds.drop_first(), next, max);
    }
}

proof fn lemma_fold_push(acc: nat, ds: Seq<char>, c: char)
    ensures
        fold_digits(acc, ds.push(c)) == fold_digits(acc, ds) * 10 + digit_value(c),
    decreases ds.len(),
{
    if ds.len() == 0 {
        assert(ds.push(c).drop_first() =~= Seq::<char>::empty());
        assert(ds.push(c)[0] == c);
        assert(fold_digits(acc * 10 + digit_value(c), Seq::<char>::empty()) == acc * 10
            + digit_value(c));
    } else {
        let a2 = acc * 10 + digit_value(ds[0]);
        assert(ds.push(c).drop_first() =~= ds.drop_first().push(c));
        assert(ds.push(c)[0] == ds[0]);
        lemma_fold_push(a2, ds.drop_first(), c);
        assert(fold_digits(acc, ds.push(c)) == fold_digits(a2, ds.drop_first().push(c)));
    }
}

proof fn lemma_digit_char(d: nat)
    requires
        d < 10,
    ensures
        is_digit(digit_char(d)),
        digit_value(digit_char(d)) == d,
        digit_char(d) != '-',
        digit_char(d) != '+',
{
}

/// The digits of `n` are digits, and folding them gives `n` back.
pub proof fn lemma_digits_of(n: nat)
    ensures
        all_digits(digits_of(n)),
        fold_digits(0, digits_of(n)) == n,
        digits_of(n).len() >= 1,
        forall|i: int| 0 <= i < digits_of(n).len() ==> #[trigger] digits_of(n)[i] != '-',
    decreases n,
{
    if n < 10 {
        lemma_digit_char(n);
        let s = seq![digit_char(n)];
        assert(s.drop_first() =~= Seq::<char>::empty());
        assert(fold_digits(0, s) == fold_digits(0 * 10 + digit_value(s[0]), s.drop_first()));
        assert(fold_digits(digit_value(s[0]), Seq::<char>::empty()) == digit_value(s[0]));
    } else {
        lemma_digits_of(n / 10);
        lemma_digit_char(n % 10);
        lemma_fold_push(0, digits_of(n / 10), digit_char(n % 10));
        assert((n / 10) * 10 + n % 10 == n);
        assert(fold_digits(0, digits_of(n)) == fold_digits(0, digits_of(n / 10)) * 10 + n % 10);
        let s = digits_of(n);
        assert forall|i: int| 0 <= i < s.len() implies is_digit(#[trigger] s[i]) && s[i] != '-' by {
            if i < s.len() - 1 {
                assert(s[i] == digits_of(n / 10)[i]);
            }
        }
    }
}

/// Reading back the digits of a number that fits gives the number.
pub proof fn lemma_parse_digits(n: nat, max: nat)
    requires
        n <= max,
    ensures
        parse_unsigned(digits_of(n), max) == Ok::<nat, IntErrorKind>(n),
{
    lemma_digits_of(n);
    let s = digits_of(n);
    assert(is_digit(s[0]));
    lemma_scan_fold(s, 0, max);
}

/// The decimal digit `d` as a one-character text.
fn digit_str(d: u8) -> (s: &'static str)
    requires
        d < 10,
    ensures
        s@ == seq![digit_char(d as nat)],
{
    match d {
        0 => {
            proof {
                reveal_strlit("0");
            }
            "0"
        },
        1 => {
            proof {
                reveal_strlit("1");
            }
            "1"
        },
        2 => {
            proof {
                reveal_strlit("2");
            }
            "2"
        },
        3 => {
            proof {
                reveal_strlit("3");
            }
            "3"
        },
        4 => {
            proof {
                reveal_strlit("4");
            }
            "4"
        },
        5 => {
            proof {
                reveal_strlit("5");
            }
            "5"
        },
        6 => {
            proof {
                reveal_strlit("6");
            }
            "6"
        },
        7 => {
            proof {
                reveal_strlit("7");
            }
            "7"
        },
        8 => {
            proof {
                reveal_strlit("8");
            }
            "8"
        },
        _ => {
            proof {
                reveal_strlit("9");
            }
            "9"
        },
    }
}

/// Writes `n` in decimal, as `to_string` does for unsigned integers.
pub fn decimal_string(n: u128) -> (s: String)
    ensures
        s@ == digits_of(n as nat),
    decreases n,
{
    if n < 10 {
        String::from_str(digit_str(n as u8))
    } else {
        let mut s = decimal_string(n / 10);
        s.append(digit_str((n % 10) as u8));
        s
    }
}

/// The characters of a text, one per element.
pub fn chars_of(s: &str) -> (v: Vec<char>)
    ensures
        v@ == s@,
{
    let n = s.unicode_len();
    let mut v: Vec<char> = Vec::new();
    let mut i: usize = 0;
    while i < n
        invariant
            n == s@.len(),
            i <= n,
            v@ == s@.subrange(0, i as int),
        decreases n - i,
    {
        let c = s.get_char(i);
        v.push(c);
        i = i + 1;
        assert(v@ =~= s@.subrange(0, i as int));
    }
    assert(v@ =~= s@);
    v
}

proof fn lemma_scan_step(cs: Seq<char>, i: int, hi: int, acc: nat, max: nat)
    requires
        0 <= i < hi <= cs.len(),
        is_digit(cs[i]),
        acc * 10 + digit_value(cs[i]) <= max,
    ensures
        scan_digits(cs.subrange(i, hi), acc, max) == scan_digits(
            cs.subrange(i + 1, hi),
            acc * 10 + digit_value(cs[i]),
            max,
        ),
{
    assert(cs.subrange(i, hi).drop_first() =~= cs.subrange(i + 1, hi));
}

/// Reads `cs[lo..hi]` as an unsigned integer no larger than `max`, as `str::parse`
/// does for the unsigned integer type whose largest value is `max`.
pub fn parse_unsigned_range(cs: &Vec<char>, lo: usize, hi: usize, max: u128) -> (r: Result<
    u128,
    IntErrorKind,
>)
    requires
        lo <= hi <= cs@.len(),
    ensures
        match r {
            Ok(v) => parse_unsigned(cs@.subrange(lo as int, hi as int), max as nat) == Ok::<
                nat,
                IntErrorKind,
            >(v as nat) && v <= max,
            Err(k) => parse_unsigned(cs@.subrange(lo as int, hi as int), max as nat) == Err::<
                nat,
                IntErrorKind,
            >(k),
        },
{
    let ghost s = cs@.subrange(lo as int, hi as int);
    if lo == hi {
        return Err(IntErrorKind::Empty);
    }
    let first = cs[lo];
    if (first == '+' || first == '-') && hi - lo == 1 {
        return Err(IntErrorKind::InvalidDigit);
    }
    let mut i: usize = lo;
    if first == '+' {
        i = lo + 1;
        assert(s.drop_first() =~= cs@.subrange(i as int, hi as int));
    }
    let mut acc: u128 = 0;
    while i < hi
        invariant
            lo <= i <= hi <= cs@.len(),
            acc <= max,
            s == cs@.subrange(lo as int, hi as int),
            parse_unsigned(s, max as nat) == scan_digits(
                cs@.subrange(i as int, hi as int),
                acc as nat,
                max as nat,
            ),
        decreases hi - i,
    {
        let c = cs[i];
        if !('0' <= c && c <= '9') {
            assert(cs@.subrange(i as int, hi as int)[0] == c);
            assert(scan_digits(cs@.subrange(i as int, hi as int), acc as nat, max as nat) == Err::<
                nat,
                IntErrorKind,
            >(IntErrorKind::InvalidDigit));
            return Err(IntErrorKind::InvalidDigit);
        }
        let d: u128 = ((c as u32) - 48) as u128;
        assert(d as nat == digit_value(c));
        assert(cs@.subrange(i as int, hi as int)[0] == c);
        if d > max || acc > (max - d) / 10 {
            assert(acc * 10 + d > max) by (nonlinear_arith)
                requires
                    d > max || acc > (max - d) / 10,
                    d <= 9,
            ;
            assert(scan_digits(cs@.subrange(i as int, hi as int), acc as nat, max as nat) == Err::<
                nat,
                IntErrorKind,
            >(IntErrorKind::PosOverflow));
            return Err(IntErrorKind::PosOverflow);
        }
        assert(acc * 10 + d <= max) by (nonlinear_arith)
            requires
                d <= max,
                acc <= (max - d) / 10,
        ;
        proof {
            lemma_scan_step(cs@, i as int, hi as int, acc as nat, max as nat);
        }
        acc = acc * 10 + d;
        i = i + 1;
    }
    assert(cs@.subrange(i as int, hi as int).len() == 0);
    Ok(acc)
}

/// The text of a parse failure of the given kind.
pub fn int_error_string(k: IntErrorKind) -> (s: String)
    ensures
        s@ == int_error_text(k),
{
    match k {
        IntErrorKind::Empty => String::from_str("cannot parse integer from empty string"),
        IntErrorKind::InvalidDigit => String::from_str("invalid digit found in string"),
        IntErrorKind::PosOverflow => String::from_str("number too large to fit in target type"),
    }
}

} // verus!

//! Verified string helpers: equality, prefix and suffix stripping, and
//! decimal parsing and formatting.
use vstd::prelude::*;

verus! {

/// Character-wise string equality.
pub fn strEq(a: &str, b: &str) -> (r: bool)
    ensures
        r == (a@ == b@),
{
    let na = a.unicode_len();
    let nb = b.unicode_len();
    if na != nb {
        proof {
            if a@ == b@ {
                assert(a@.len() == b@.len());
            }
        }
        return false;
    }
    let mut i: usize = 0;
    while i < na
        invariant
            i <= na,
            na == a@.len(),
            nb == b@.len(),
            na == nb,
            forall|j: int| 0 <= j < i ==> a@[j] == b@[j],
        decreases na - i,
    {
        if a.get_char(i) != b.get_char(i) {
            return false;
        }
        i = i + 1;
    }
    proof {
        assert(a@ =~= b@);
    }
    true
}

/// `s` begins with `prefix`.
pub open spec fn hasPrefix(s: Seq<char>, prefix: Seq<char>) -> bool {
    prefix.len() <= s.len() && s.subrange(0, prefix.len() as int) == prefix
}

/// `s` ends with `suffix`.
pub open spec fn hasSuffix(s: Seq<char>, suffix: Seq<char>) -> bool {
    suffix.len() <= s.len() && s.subrange(s.len() - suffix.len(), s.len() as int) == suffix
}

/// What remains of `s` after its `prefix`, when it has it.
pub fn strStripPrefix<'a>(s: &'a str, prefix: &str) -> (r: Option<&'a str>)
    ensures
        match r {
            Some(rest) => hasPrefix(s@, prefix@) && rest@ == s@.skip(prefix@.len() as int),
            None => !hasPrefix(s@, prefix@),
        },
{
    let n = s.unicode_len();
    let m = prefix.unicode_len();
    if m > n {
        return None;
    }
    let mut i: usize = 0;
    while i < m
        invariant
            i <= m,
            m <= n,
            n == s@.len(),
            m == prefix@.len(),
            forall|j: int| 0 <= j < i ==> s@[j] == prefix@[j],
        decreases m - i,
    {
        if s.get_char(i) != prefix.get_char(i) {
            proof {
                if hasPrefix(s@, prefix@) {
                    assert(s@.subrange(0, m as int)[i as int] == prefix@[i as int]);
                }
            }
            return None;
        }
        i = i + 1;
    }
    let rest = s.substring_char(m, n);
    proof {
        assert(s@.subrange(0, m as int) =~= prefix@);
        assert(rest@ =~= s@.skip(m as int));
    }
    Some(rest)
}

/// What remains of `s` before its `suffix`, when it has it.
pub fn strStripSuffix<'a>(s: &'a str, suffix: &str) -> (r: Option<&'a str>)
    ensures
        match r {
            Some(rest) => hasSuffix(s@, suffix@) && rest@ == s@.take(s@.len() - suffix@.len()),
            None => !hasSuffix(s@, suffix@),
        },
{
    let n = s.unicode_len();
    let m = suffix.unicode_len();
    if m > n {
        return None;
    }
    let start = n - m;
    let mut i: usize = 0;
    while i < m
        invariant
            i <= m,
            m <= n,
            n == s@.len(),
            m == suffix@.len(),
            start == n - m,
            forall|j: int| 0 <= j < i ==> s@[start + j] == suffix@[j],
        decreases m - i,
    {
        if s.get_char(start + i) != suffix.get_char(i) {
            proof {
                if hasSuffix(s@, suffix@) {
                    assert(s@.subrange(n - m, n as int)[i as int] == suffix@[i as int]);
                }
            }
            return None;
        }
        i = i + 1;
    }
    let rest = s.substring_char(0, start);
    proof {
        assert(s@.subrange(n - m, n as int) =~= suffix@);
        assert(rest@ =~= s@.take(n - m));
    }
    Some(rest)
}

/// A decimal digit.
pub open spec fn isDigit(c: char) -> bool {
    '0' <= c && c <= '9'
}

/// Its value.
pub open spec fn digitVal(c: char) -> int {
    c as int - '0' as int
}

/// Every character is a decimal digit.
pub open spec fn allDigits(s: Seq<char>) -> bool {
    forall|i: int| 0 <= i < s.len() ==> isDigit(#[trigger] s[i])
}

/// The number a digit string denotes.
pub open spec fn digitsVal(s: Seq<char>) -> int
    decreases s.len(),
{
    if s.len() == 0 {
        0
    } else {
        digitsVal(s.drop_last()) * 10 + digitVal(s.last())
    }
}

/// The number a possibly signed decimal string denotes, when well formed.
pub open spec fn parsedInt(s: Seq<char>) -> Option<int> {
    if s.len() >= 1 && (s[0] == '-' || s[0] == '+') {
        if s.len() >= 2 && allDigits(s.skip(1)) {
            if s[0] == '-' {
                Some(-digitsVal(s.skip(1)))
            } else {
                Some(digitsVal(s.skip(1)))
            }
        } else {
            None
        }
    } else {
        if s.len() >= 1 && allDigits(s) {
            Some(digitsVal(s))
        } else {
            None
        }
    }
}

/// A digit string denotes a nonnegative number.
pub proof fn lemma_digitsVal_nonneg(s: Seq<char>)
    requires
        allDigits(s),
    ensures
        digitsVal(s) >= 0,
    decreases s.len(),
{
    if s.len() > 0 {
        assert(allDigits(s.drop_last())) by {
            assert(forall|i: int| 0 <= i < s.len() - 1 ==> s.drop_last()[i] == s[i]);
        }
        lemma_digitsVal_nonneg(s.drop_last());
    }
}

/// Extending a digit string never shrinks the number it denotes.
pub proof fn lemma_digitsVal_prefix(s: Seq<char>, i: int)
    requires
        allDigits(s),
        0 <= i <= s.len(),
    ensures
        digitsVal(s.take(i)) <= digitsVal(s),
    decreases s.len() - i,
{
    if i < s.len() {
        lemma_digitsVal_prefix(s, i + 1);
        assert(allDigits(s.take(i))) by {
            assert(forall|j: int| 0 <= j < i ==> s.take(i)[j] == s[j]);
        }
        lemma_digitsVal_nonneg(s.take(i));
        assert(s.take(i + 1).drop_last() =~= s.take(i));
        assert(s.take(i + 1).last() == s[i]);
        assert(digitsVal(s.take(i + 1)) == digitsVal(s.take(i)) * 10 + digitVal(s[i]));
        assert(digitVal(s[i]) >= 0);
        assert(digitsVal(s.take(i)) * 10 >= digitsVal(s.take(i))) by (nonlinear_arith)
            requires
                digitsVal(s.take(i)) >= 0,
        ;
    } else {
        assert(s.take(i) =~= s);
    }
}

/// Parse a possibly signed decimal `i32`. Returns the value exactly when
/// the string is a well-formed decimal and the value fits.
pub fn parseI32(s: &str) -> (r: Option<i32>)
    ensures
        match r {
            Some(v) => parsedInt(s@) == Some(v as int),
            None => !(parsedInt(s@) matches Some(v) && i32::MIN <= v <= i32::MAX),
        },
{
    let n = s.unicode_len();
    if n == 0 {
        return None;
    }
    let c0 = s.get_char(0);
    let neg = c0 == '-';
    let mut i: usize = if c0 == '-' || c0 == '+' {
        1
    } else {
        0
    };
    let ghost start = i as int;
    if i >= n {
        return None;
    }
    let mut acc: u64 = 0;
    while i < n
        invariant
            start <= i <= n,
            n == s@.len(),
            start == (if s@[0] == '-' || s@[0] == '+' {
                1int
            } else {
                0int
            }),
            start < n,
            acc <= 0x8000_0000u64,
            allDigits(s@.subrange(start, i as int)),
            acc == digitsVal(s@.subrange(start, i as int)),
            neg == (s@[0] == '-'),
        decreases n - i,
    {
        let c = s.get_char(i);
        if !('0' <= c && c <= '9') {
            proof {
                let digits = if start == 1 {
                    s@.skip(1)
                } else {
                    s@
                };
                if parsedInt(s@) is Some {
                    assert(isDigit(digits[i - start]));
                }
            }
            return None;
        }
        proof {
            assert(s@.subrange(start, i + 1).drop_last() =~= s@.subrange(start, i as int));
            assert(s@.subrange(start, i + 1).last() == s@[i as int]);
        }
        let d: u64 = (c as u32 - 48) as u64;
        acc = acc * 10 + d;
        i = i + 1;
        if acc > 0x8000_0000 {
            proof {
                let digits = if start == 1 {
                    s@.skip(1)
                } else {
                    s@
                };
                if parsedInt(s@) is Some {
                    assert(allDigits(digits));
                    assert(s@.subrange(start, i as int) =~= digits.take(i - start));
                    lemma_digitsVal_prefix(digits, i - start);
                    assert(digitsVal(digits) >= acc > 0x8000_0000);
                }
            }
            return None;
        }
    }
    proof {
        let digits = if start == 1 {
            s@.skip(1)
        } else {
            s@
        };
        assert(s@.subrange(start, n as int) =~= digits);
    }
    if neg {
        let v: i64 = -(acc as i64);
        Some(v as i32)
    } else {
        if acc > 0x7fff_ffff {
            return None;
        }
        Some(acc as i32)
    }
}

/// The digit character for a value below ten.
pub open spec fn digitChar(d: int) -> char {
    if d == 0 {
        '0'
    } else if d == 1 {
        '1'
    } else if d == 2 {
        '2'
    } else if d == 3 {
        '3'
    } else if d == 4 {
        '4'
    } else if d == 5 {
        '5'
    } else if d == 6 {
        '6'
    } else if d == 7 {
        '7'
    } else if d == 8 {
        '8'
    } else {
        '9'
    }
}

/// The decimal representation of a nonnegative number.
pub open spec fn decimalStr(n: int) -> Seq<char>
    decreases n,
{
    if n < 10 {
        seq![digitChar(n)]
    } else {
        decimalStr(n / 10).push(digitChar(n % 10))
    }
}

fn digitString(d: u64) -> (s: String)
    requires
        d < 10,
    ensures
        s@ == seq![digitChar(d as int)],
{
    let lit: &str = if d == 0 {
        "0"
    } else if d == 1 {
        "1"
    } else if d == 2 {
        "2"
    } else if d == 3 {
        "3"
    } else if d == 4 {
        "4"
    } else if d == 5 {
        "5"
    } else if d == 6 {
        "6"
    } else if d == 7 {
        "7"
    } else if d == 8 {
        "8"
    } else {
        "9"
    };
    proof {
        reveal_strlit("0");
        reveal_strlit("1");
        reveal_strlit("2");
        reveal_strlit("3");
        reveal_strlit("4");
        reveal_strlit("5");
        reveal_strlit("6");
        reveal_strlit("7");
        reveal_strlit("8");
        reveal_strlit("9");
        assert(lit@ =~= seq![digitChar(d as int)]);
    }
    String::from_str(lit)
}

/// Format a number in decimal.
pub fn u64ToString(n: u64) -> (s: String)
    ensures
        s@ == decimalStr(n as int),
    decreases n,
{
    if n < 10 {
        digitString(n)
    } else {
        let mut s = u64ToString(n / 10);
        let d = digitString(n % 10);
        s.append(d.as_str());
        proof {
            assert(s@ =~= decimalStr((n / 10) as int).push(digitChar((n % 10) as int)));
        }
        s
    }
}

/// Format a signed number in decimal.
pub fn i64ToString(n: i64) -> (s: String)
    requires
        n > i64::MIN,
    ensures
        n >= 0 ==> s@ == decimalStr(n as int),
        n < 0 ==> s@ == seq!['-'] + decimalStr(-n as int),
{
    if n >= 0 {
        u64ToString(n as u64)
    } else {
        let mut s = String::from_str("-");
        let mag = u64ToString((-n) as u64);
        s.append(mag.as_str());
        proof {
            reveal_strlit("-");
            assert("-"@ =~= seq!['-']);
            assert(s@ =~= seq!['-'] + decimalStr(-n as int));
        }
        s
    }
}

} // verus!

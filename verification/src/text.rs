use vstd::prelude::*;
use vstd::string::*;

verus! {

/// An ASCII decimal digit.
pub open spec fn is_digit(b: u8) -> bool {
    48 <= b <= 57
}

/// Every byte is a decimal digit.
pub open spec fn all_digits(s: Seq<u8>) -> bool {
    forall|i: int| 0 <= i < s.len() ==> is_digit(#[trigger] s[i])
}

/// The number that a string of decimal digits denotes, most significant digit first.
pub open spec fn digits_value(s: Seq<u8>) -> nat
    decreases s.len(),
{
    if s.len() == 0 {
        0
    } else {
        digits_value(s.drop_last()) * 10 + (s.last() - 48) as nat
    }
}

/// The decimal digits of `n`, without leading zeros.
pub open spec fn decimal(n: nat) -> Seq<u8>
    decreases n,
{
    if n < 10 {
        seq![(48 + n) as u8]
    } else {
        decimal(n / 10).push((48 + n % 10) as u8)
    }
}

/// A digit string in the form that `decimal` produces: not empty, no leading zero but for "0".
pub open spec fn canonical_digits(s: Seq<u8>) -> bool {
    &&& s.len() > 0
    &&& all_digits(s)
    &&& (s.len() > 1 ==> s[0] != 48)
}

/// The value of a non-empty digit string that fits in `usize`; `None` for anything else.
pub open spec fn unsigned_of(s: Seq<u8>) -> Option<usize> {
    if s.len() > 0 && all_digits(s) && digits_value(s) <= usize::MAX {
        Some(digits_value(s) as usize)
    } else {
        None
    }
}

/// `s` without one leading `+`.
pub open spec fn strip_plus(s: Seq<u8>) -> Seq<u8> {
    if s.len() > 0 && s[0] == 43 {
        s.subrange(1, s.len() as int)
    } else {
        s
    }
}

/// An unsigned integer token: digits, after an optional `+`, whose value fits in `usize`.
pub open spec fn usize_of(s: Seq<u8>) -> Option<usize> {
    unsigned_of(strip_plus(s))
}

/// A signed integer token: digits, after an optional `+` or `-`, whose value fits in `isize`.
pub open spec fn isize_of(s: Seq<u8>) -> Option<isize> {
    if s.len() > 0 && s[0] == 45 {
        let m = s.subrange(1, s.len() as int);
        if m.len() > 0 && all_digits(m) && digits_value(m) <= -(isize::MIN as int) {
            Some((-(digits_value(m) as int)) as isize)
        } else {
            None
        }
    } else {
        let m = strip_plus(s);
        if m.len() > 0 && all_digits(m) && digits_value(m) <= isize::MAX {
            Some(digits_value(m) as isize)
        } else {
            None
        }
    }
}

/// The characters that a string of ASCII bytes stands for.
pub open spec fn as_text(bytes: Seq<u8>) -> Seq<char> {
    Seq::new(bytes.len(), |i: int| bytes[i] as char)
}

/// Every byte is below 128.
pub open spec fn all_ascii(bytes: Seq<u8>) -> bool {
    forall|i: int| 0 <= i < bytes.len() ==> #[trigger] bytes[i] < 128
}

/// A string slice that reads as the ASCII bytes `bytes` is made of exactly those bytes.
pub proof fn lemma_text_bytes(s: &str, bytes: Seq<u8>)
    requires
        all_ascii(bytes),
        s@ == as_text(bytes),
    ensures
        s.spec_bytes() == bytes,
        is_ascii(s),
{
    assert(vstd::utf8::is_ascii_chars(s@)) by {
        assert forall|i: int| 0 <= i < s@.len() implies '\0' <= #[trigger] s@[i] <= '\u{7f}' by {
            assert(bytes[i] < 128);
        }
    }
    vstd::utf8::is_ascii_chars_encode_utf8(s@);
    assert forall|i: int| 0 <= i < bytes.len() implies s.spec_bytes()[i] == bytes[i] by {
        assert(s@[i] as u8 == vstd::utf8::encode_utf8(s@)[i]);
        assert(bytes[i] < 128);
    }
    assert(s.spec_bytes() =~= bytes);
}

/// The text of two byte strings in a row is the text of the one and then of the other.
pub proof fn lemma_as_text_concat(a: Seq<u8>, b: Seq<u8>)
    ensures
        as_text(a + b) == as_text(a) + as_text(b),
{
    assert(as_text(a + b) =~= as_text(a) + as_text(b));
}

/// A longer digit string denotes no smaller a number than any of its prefixes.
pub proof fn lemma_digits_value_prefix(s: Seq<u8>, k: int)
    requires
        all_digits(s),
        0 <= k <= s.len(),
    ensures
        digits_value(s.subrange(0, k)) <= digits_value(s),
    decreases s.len(),
{
    if k == s.len() {
        assert(s.subrange(0, k) =~= s);
    } else {
        let t = s.drop_last();
        assert(all_digits(t)) by {
            assert forall|i: int| 0 <= i < t.len() implies is_digit(#[trigger] t[i]) by {
                assert(t[i] == s[i]);
            }
        }
        lemma_digits_value_prefix(t, k);
        assert(t.subrange(0, k) =~= s.subrange(0, k));
        assert(is_digit(s[s.len() - 1]));
    }
}

/// `decimal(n)` is a canonical digit string that denotes `n`.
pub proof fn lemma_decimal_value(n: nat)
    ensures
        canonical_digits(decimal(n)),
        digits_value(decimal(n)) == n,
        n > 0 ==> decimal(n)[0] != 48,
        all_ascii(decimal(n)),
    decreases n,
{
    if n < 10 {
        let s = decimal(n);
        assert(s.len() == 1);
        assert(s.drop_last().len() == 0);
        assert(digits_value(s.drop_last()) == 0);
        assert(s.last() == (48 + n) as u8);
    } else {
        lemma_decimal_value(n / 10);
        let t = decimal(n / 10);
        let s = decimal(n);
        assert(s.drop_last() =~= t);
        assert(s.last() == (48 + n % 10) as u8);
        assert(s[0] == t[0]);
        assert forall|i: int| 0 <= i < s.len() implies is_digit(#[trigger] s[i]) by {
            if i < t.len() {
                assert(s[i] == t[i]);
            }
        }
        assert forall|i: int| 0 <= i < s.len() implies #[trigger] s[i] < 128 by {
            assert(is_digit(s[i]));
        }
    }
}

/// A canonical digit string is the `decimal` of the number it denotes.
pub proof fn lemma_value_decimal(s: Seq<u8>)
    requires
        canonical_digits(s),
    ensures
        decimal(digits_value(s)) == s,
        s[0] != 48 ==> digits_value(s) > 0,
    decreases s.len(),
{
    let t = s.drop_last();
    let d = (s.last() - 48) as nat;
    assert(is_digit(s[s.len() - 1]));
    if s.len() == 1 {
        assert(t.len() == 0);
        assert(digits_value(t) == 0);
        assert(digits_value(s) == d);
        assert(decimal(d) =~= s);
    } else {
        assert(all_digits(t)) by {
            assert forall|i: int| 0 <= i < t.len() implies is_digit(#[trigger] t[i]) by {
                assert(t[i] == s[i]);
            }
        }
        assert(t[0] == s[0]);
        lemma_value_decimal(t);
        let v = digits_value(t);
        assert(v > 0);
        let n = digits_value(s);
        assert(n == v * 10 + d);
        assert(n / 10 == v && n % 10 == d);
        assert(n >= 10);
        assert(decimal(n) == decimal(v).push((48 + d) as u8));
        assert(decimal(n) =~= s);
    }
}

/// Reads the digits `input[start..end]` as an unsigned number.
pub fn parse_unsigned(input: &[u8], start: usize, end: usize) -> (res: Option<usize>)
    requires
        start <= end <= input@.len(),
    ensures
        res == unsigned_of(input@.subrange(start as int, end as int)),
{
    let ghost s = input@.subrange(start as int, end as int);
    if start == end {
        return None;
    }
    let mut acc: usize = 0;
    let mut i: usize = start;
    while i < end
        invariant
            start <= i <= end <= input@.len(),
            s == input@.subrange(start as int, end as int),
            all_digits(s.subrange(0, i - start)),
            acc == digits_value(s.subrange(0, i - start)),
        decreases end - i,
    {
        let b = input[i];
        let ghost before = s.subrange(0, i - start);
        let ghost after = s.subrange(0, i + 1 - start);
        proof {
            assert(after.drop_last() =~= before);
            assert(after.last() == b);
        }
        if b < 48 || b > 57 {
            proof {
                assert(s[i - start] == b);
                assert(!all_digits(s));
            }
            return None;
        }
        proof {
            assert forall|k: int| 0 <= k < after.len() implies is_digit(#[trigger] after[k]) by {
                if k < before.len() {
                    assert(after[k] == before[k]);
                }
            }
        }
        let d: usize = (b - 48) as usize;
        let next = match acc.checked_mul(10) {
            Some(m) => m.checked_add(d),
            None => None,
        };
        match next {
            Some(v) => {
                acc = v;
            },
            None => {
                proof {
                    assert(digits_value(after) > usize::MAX);
                    if all_digits(s) {
                        lemma_digits_value_prefix(s, i + 1 - start);
                    }
                }
                return None;
            },
        }
        i += 1;
    }
    proof {
        assert(s.subrange(0, end - start) =~= s);
    }
    Some(acc)
}

/// Reads `input[start..end]` as an unsigned integer with an optional leading `+`.
pub fn parse_usize(input: &[u8], start: usize, end: usize) -> (res: Option<usize>)
    requires
        start <= end <= input@.len(),
    ensures
        res == usize_of(input@.subrange(start as int, end as int)),
{
    let ghost s = input@.subrange(start as int, end as int);
    if start < end && input[start] == 43 {
        proof {
            assert(s[0] == input@[start as int]);
            assert(s.subrange(1, s.len() as int) =~= input@.subrange(start + 1, end as int));
        }
        parse_unsigned(input, start + 1, end)
    } else {
        proof {
            if start < end {
                assert(s[0] == input@[start as int]);
            }
        }
        parse_unsigned(input, start, end)
    }
}

/// Reads `input[start..end]` as a signed integer with an optional leading `+` or `-`.
pub fn parse_isize(input: &[u8], start: usize, end: usize) -> (res: Option<isize>)
    requires
        start <= end <= input@.len(),
    ensures
        res == isize_of(input@.subrange(start as int, end as int)),
{
    let ghost s = input@.subrange(start as int, end as int);
    if start < end && input[start] == 45 {
        proof {
            assert(s[0] == input@[start as int]);
            assert(s.subrange(1, s.len() as int) =~= input@.subrange(start + 1, end as int));
        }
        match parse_unsigned(input, start + 1, end) {
            None => None,
            Some(m) => {
                let limit: usize = isize::MAX as usize;
                if m <= limit {
                    let v: isize = m as isize;
                    Some(-v)
                } else if m - 1 == limit {
                    Some(isize::MIN)
                } else {
                    None
                }
            },
        }
    } else {
        proof {
            if start < end {
                assert(s[0] == input@[start as int]);
            }
        }
        match parse_usize(input, start, end) {
            None => None,
            Some(m) => {
                if m <= isize::MAX as usize {
                    Some(m as isize)
                } else {
                    None
                }
            },
        }
    }
}

/// The one-character text of a decimal digit.
pub fn digit_str(d: usize) -> (s: &'static str)
    requires
        d < 10,
    ensures
        s@ == as_text(seq![(48 + d) as u8]),
{
    let s = if d == 0 {
        "0"
    } else if d == 1 {
        "1"
    } else if d == 2 {
        "2"
    } else if d == 3 {
        "3"
    } else if d == 4 {
        "4"
    } else if d == 5 {
        "5"
    } else if d == 6 {
        "6"
    } else if d == 7 {
        "7"
    } else if d == 8 {
        "8"
    } else {
        "9"
    };
    proof {
        reveal_strlit("0");
        reveal_strlit("1");
        reveal_strlit("2");
        reveal_strlit("3");
        reveal_strlit("4");
        reveal_strlit("5");
        reveal_strlit("6");
        reveal_strlit("7");
        reveal_strlit("8");
        reveal_strlit("9");
        assert(s@ =~= as_text(seq![(48 + d) as u8]));
    }
    s
}

/// Appends the decimal digits of `n` to `out`.
pub fn push_decimal(out: &mut String, n: usize)
    ensures
        final(out)@ == old(out)@ + as_text(decimal(n as nat)),
    decreases n,
{
    if n >= 10 {
        push_decimal(out, n / 10);
    }
    let d = digit_str(n % 10);
    out.append(d);
    proof {
        let last = seq![(48 + n % 10) as u8];
        if n >= 10 {
            assert(decimal(n as nat) =~= decimal((n / 10) as nat) + last);
            lemma_as_text_concat(decimal((n / 10) as nat), last);
            assert(final(out)@ =~= old(out)@ + as_text(decimal(n as nat)));
        } else {
            assert(decimal(n as nat) =~= last);
        }
    }
}

/// Whether `input[start..end]` is exactly the bytes of `word`.
pub fn slice_is(input: &[u8], start: usize, end: usize, word: &str) -> (res: bool)
    requires
        start <= end <= input@.len(),
    ensures
        res == (input@.subrange(start as int, end as int) == word.spec_bytes()),
{
    let w = word.as_bytes();
    if w.len() != end - start {
        return false;
    }
    let mut i: usize = 0;
    while i < w.len()
        invariant
            start <= end <= input@.len(),
            w@.len() == end - start,
            w@ == word.spec_bytes(),
            0 <= i <= w@.len(),
            input@.subrange(start as int, start + i) == w@.subrange(0, i as int),
        decreases w@.len() - i,
    {
        if input[start + i] != w[i] {
            proof {
                assert(input@.subrange(start as int, end as int)[i as int] != w@[i as int]);
            }
            return false;
        }
        proof {
            assert(input@.subrange(start as int, start + i + 1) =~= input@.subrange(
                start as int,
                start + i,
            ).push(input@[start + i]));
            assert(w@.subrange(0, i + 1) =~= w@.subrange(0, i as int).push(w@[i as int]));
        }
        i += 1;
    }
    proof {
        assert(w@.subrange(0, w@.len() as int) =~= w@);
    }
    true
}

} // verus!

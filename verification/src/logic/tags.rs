use vstd::prelude::*;
use vstd::string::StringExecFns;
use vstd::string::*;

verus! {

/// Whether two strings hold the same characters.
pub fn str_eq(a: &str, b: &str) -> (res: bool)
    ensures
        res == (a@ == b@),
{
    let n = a.unicode_len();
    if n != b.unicode_len() {
        return false;
    }
    let mut i: usize = 0;
    while i < n
        invariant
            n == a@.len(),
            n == b@.len(),
            i <= n,
            forall|j: int| 0 <= j < i ==> a@[j] == b@[j],
        decreases n - i,
    {
        if a.get_char(i) != b.get_char(i) {
            return false;
        }
        i = i + 1;
    }
    assert(a@ =~= b@);
    true
}

pub open spec fn is_digit(c: char) -> bool {
    '0' <= c <= '9'
}

pub open spec fn digit_value(c: char) -> nat {
    (c as nat - '0' as nat) as nat
}

/// The number that a non-empty string of decimal digits stands for.
pub open spec fn spec_decimal(s: Seq<char>) -> Option<nat>
    decreases s.len(),
{
    if s.len() == 0 || !is_digit(s.last()) {
        None
    } else if s.len() == 1 {
        Some(digit_value(s.last()))
    } else {
        match spec_decimal(s.drop_last()) {
            None => None,
            Some(v) => Some(v * 10 + digit_value(s.last())),
        }
    }
}

/// The number that the characters of `s` from position `from` on stand for, when they are
/// decimal digits and the number fits in a `usize`.
pub fn parse_decimal_from(s: &str, from: usize) -> (res: Option<usize>)
    requires
        from <= s@.len(),
    ensures
        match res {
            Some(v) => spec_decimal(s@.subrange(from as int, s@.len() as int)) == Some(v as nat),
            None => spec_decimal(s@.subrange(from as int, s@.len() as int)) is None
                || spec_decimal(s@.subrange(from as int, s@.len() as int))->0 > usize::MAX,
        },
{
    let n = s.unicode_len();
    if from >= n {
        return None;
    }
    let mut value: usize = 0;
    let mut i: usize = from;
    while i < n
        invariant
            n == s@.len(),
            from < n,
            from <= i <= n,
            i > from ==> spec_decimal(s@.subrange(from as int, i as int)) == Some(value as nat),
            i == from ==> value == 0,
        decreases n - i,
    {
        let c = s.get_char(i);
        proof {
            assert(s@.subrange(from as int, i as int + 1).drop_last() =~= s@.subrange(from as int, i as int));
            assert(s@.subrange(from as int, i as int + 1).last() == c);
        }
        if c < '0' || c > '9' {
            proof {
                lemma_decimal_none_extends(s@.subrange(from as int, n as int), (i - from) as int);
                assert(s@.subrange(from as int, n as int).subrange(0, (i - from) as int + 1) =~= s@.subrange(from as int, i as int + 1));
            }
            return None;
        }
        let d = (c as u32 - '0' as u32) as usize;
        proof {
            if i == from {
                assert(s@.subrange(from as int, i as int + 1).len() == 1);
            }
        }
        let next = match value.checked_mul(10) {
            Some(v) => v.checked_add(d),
            None => None,
        };
        match next {
            Some(v) => {
                value = v;
            },
            None => {
                proof {
                    let sub = s@.subrange(from as int, i as int + 1);
                    assert(s@.subrange(from as int, n as int).subrange(0, (i - from) as int + 1) =~= sub);
                    assert(is_digit(c));
                    assert(d as nat == digit_value(c));
                    assert(i > from);
                    assert(spec_decimal(sub) == Some((value * 10 + d) as nat));
                    lemma_decimal_big_extends(s@.subrange(from as int, n as int), (i - from) as int);
                }
                return None;
            },
        }
        i = i + 1;
    }
    Some(value)
}

/// A string that stops being digits never becomes a number again.
proof fn lemma_decimal_none_extends(s: Seq<char>, k: int)
    requires
        0 <= k < s.len(),
        !is_digit(s[k]),
    ensures
        spec_decimal(s) is None,
    decreases s.len(),
{
    if k < s.len() - 1 {
        assert(s.drop_last()[k] == s[k]);
        lemma_decimal_none_extends(s.drop_last(), k);
    }
}

/// A number that is already too big only grows.
proof fn lemma_decimal_big_extends(s: Seq<char>, k: int)
    requires
        0 <= k < s.len(),
        spec_decimal(s.subrange(0, k + 1)) is None || spec_decimal(s.subrange(0, k + 1))->0 > usize::MAX,
    ensures
        spec_decimal(s) is None || spec_decimal(s)->0 > usize::MAX,
    decreases s.len() - k,
{
    if k == s.len() - 1 {
        assert(s.subrange(0, k + 1) =~= s);
    } else {
        assert(s.subrange(0, k + 2).drop_last() =~= s.subrange(0, k + 1));
        lemma_decimal_big_extends(s, k + 1);
    }
}

/// The index named by a tag of the form `i_<number>` or `o_<number>`.
pub open spec fn spec_numbered_tag(tag: Seq<char>) -> Option<nat> {
    if tag.len() >= 2 && (tag[0] == 'i' || tag[0] == 'o') && tag[1] == '_' {
        spec_decimal(tag.subrange(2, tag.len() as int))
    } else {
        None
    }
}

/// The index named by a tag of the form `i_<number>` or `o_<number>`, if it fits a `usize`.
pub fn index_from_numbered_tag(tag: &str) -> (res: Option<usize>)
    ensures
        res matches Some(v) ==> spec_numbered_tag(tag@) == Some(v as nat),
        res is None ==> spec_numbered_tag(tag@) is None || spec_numbered_tag(tag@)->0 > usize::MAX,
{
    let n = tag.unicode_len();
    if n < 2 {
        return None;
    }
    let first = tag.get_char(0);
    if (first != 'i' && first != 'o') || tag.get_char(1) != '_' {
        return None;
    }
    parse_decimal_from(tag, 2)
}

/// The character of decimal digit `d`.
pub open spec fn digit_char(d: nat) -> char {
    (48 + d) as char
}

/// The decimal digits of `n`, most significant first, with no leading zero.
pub open spec fn decimal_chars(n: nat) -> Seq<char>
    decreases n,
{
    if n < 10 {
        seq![digit_char(n)]
    } else {
        decimal_chars(n / 10).push(digit_char(n % 10))
    }
}

/// The tag `prefix` followed by the decimal digits of `k`.
pub open spec fn numbered(prefix: Seq<char>, k: int) -> Seq<char> {
    prefix + decimal_chars(k as nat)
}

/// Reading back the digits that name a number gives that number.
pub proof fn lemma_decimal_round_trip(n: nat)
    ensures
        spec_decimal(decimal_chars(n)) == Some(n),
    decreases n,
{
    let d = digit_char(n % 10);
    assert(is_digit(d) && digit_value(d) == n % 10);
    if n >= 10 {
        lemma_decimal_round_trip(n / 10);
        let s = decimal_chars(n);
        assert(s.drop_last() =~= decimal_chars(n / 10));
        assert(decimal_chars(n / 10).len() >= 1) by {
            if n / 10 >= 10 {
                assert(decimal_chars(n / 10) == decimal_chars(n / 100).push(digit_char((n / 10) % 10)));
            }
        }
    }
}

/// The tag `prefix`, the decimal digits of `i`, `middle`, then the decimal digits of `j`.
pub fn double_numbered_tag(prefix: &str, i: usize, middle: &str, j: usize) -> (res: String)
    ensures
        res@ == numbered(prefix@, i as int) + middle@ + decimal_chars(j as nat),
{
    let mut res = numbered_tag(prefix, i);
    res.append(middle);
    let digits = numbered_tag("", j);
    proof {
        reveal_strlit("");
        assert(digits@ =~= decimal_chars(j as nat));
    }
    res.append(digits.as_str());
    res
}

/// The text of decimal digit `d`.
fn digit_text(d: usize) -> (res: &'static str)
    requires
        d < 10,
    ensures
        res@ == seq![digit_char(d as nat)],
{
    proof {
        reveal_strlit("0");
        reveal_strlit("1");
        reveal_strlit("2");
        reveal_strlit("3");
        reveal_strlit("4");
        reveal_strlit("5");
        reveal_strlit("6");
        reveal_strlit("7");
        reveal_strlit("8");
        reveal_strlit("9");
    }
    match d {
        0 => "0",
        1 => "1",
        2 => "2",
        3 => "3",
        4 => "4",
        5 => "5",
        6 => "6",
        7 => "7",
        8 => "8",
        _ => "9",
    }
}

/// Appends the decimal digits of `n` to `res`.
fn append_decimal(res: &mut String, n: usize)
    ensures
        final(res)@ == old(res)@ + decimal_chars(n as nat),
    decreases n,
{
    if n >= 10 {
        append_decimal(res, n / 10);
    }
    let ghost before = res@;
    res.append(digit_text(n % 10));
    proof {
        if n >= 10 {
            assert(decimal_chars(n as nat) == decimal_chars((n / 10) as nat).push(digit_char((n % 10) as nat)));
            assert(res@ =~= old(res)@ + decimal_chars(n as nat));
        } else {
            assert(res@ =~= old(res)@ + decimal_chars(n as nat));
        }
    }
}

/// The tag `prefix` followed by the decimal digits of `n`.
pub(crate) fn numbered_tag(prefix: &str, n: usize) -> (res: String)
    ensures
        res@ == prefix@ + decimal_chars(n as nat),
{
    let mut res = prefix.to_string();
    append_decimal(&mut res, n);
    res
}

} // verus!

use vstd::prelude::*;
use vstd::string::*;

verus! {

pub open spec fn is_digit(c: char) -> bool {
    '0' <= c && c <= '9'
}

/// The value of a string of decimal digits.
pub open spec fn dec_value(s: Seq<char>) -> nat
    decreases s.len(),
{
    if s.len() == 0 {
        0
    } else {
        dec_value(s.drop_last()) * 10 + (s.last() as nat - '0' as nat) as nat
    }
}

/// A port written in decimal: one or more digits, at most 65535.
pub open spec fn port_text_ok(s: Seq<char>) -> bool {
    &&& 0 < s.len()
    &&& forall|k: int| 0 <= k < s.len() ==> is_digit(#[trigger] s[k])
    &&& dec_value(s) <= 65535
}

/// `a` is `host:port`, `c` the position of its first colon, the host non-empty.
pub open spec fn splits_address(a: Seq<char>, c: int) -> bool {
    &&& 0 < c < a.len()
    &&& a[c] == ':'
    &&& forall|k: int| 0 <= k < c ==> a[k] != ':'
    &&& port_text_ok(a.subrange(c + 1, a.len() as int))
}

pub open spec fn address_valid(a: Seq<char>) -> bool {
    exists|c: int| splits_address(a, c)
}

proof fn lemma_dec_prefix_le(s: Seq<char>, i: int)
    requires
        0 <= i <= s.len(),
        forall|k: int| 0 <= k < s.len() ==> is_digit(#[trigger] s[k]),
    ensures
        dec_value(s.subrange(0, i)) <= dec_value(s),
    decreases s.len(),
{
    if i < s.len() {
        let t = s.drop_last();
        assert(t.subrange(0, i) =~= s.subrange(0, i));
        assert forall|k: int| 0 <= k < t.len() implies is_digit(#[trigger] t[k]) by {
            assert(t[k] == s[k]);
        }
        lemma_dec_prefix_le(t, i);
    } else {
        assert(s.subrange(0, i) =~= s);
    }
}

/// Splits `host:port` at its first colon; `None` where the address has no
/// colon, an empty host, or a port that is not a decimal number up to 65535.
pub fn parse_address(a: &String) -> (r: Option<(String, u16)>)
    ensures
        r.is_some() == address_valid(a@),
        r matches Some((host, port)) ==> {
            &&& splits_address(a@, host@.len() as int)
            &&& host@ == a@.subrange(0, host@.len() as int)
            &&& port as nat == dec_value(a@.subrange((host@.len() + 1) as int, a@.len() as int))
        },
{
    let s = a.as_str();
    let n = s.unicode_len();
    let mut c: usize = 0;
    while c < n && s.get_char(c) != ':'
        invariant
            n == s@.len(),
            s@ == a@,
            c <= n,
            forall|k: int| 0 <= k < c ==> s@[k] != ':',
        decreases n - c,
    {
        c = c + 1;
    }
    if c == 0 || c >= n || n - c <= 1 {
        proof {
            assert forall|d: int| !splits_address(a@, d) by {
                if splits_address(a@, d) {
                    if d < c {
                        assert(a@[d] != ':');
                    } else if c < d {
                        assert(a@[c as int] != ':');
                    } else {
                        assert(a@.subrange(d + 1, a@.len() as int).len() == 0);
                    }
                }
            }
        }
        return None;
    }
    let ghost port_text = a@.subrange(c + 1, n as int);
    let mut value: u32 = 0;
    let mut i: usize = c + 1;
    while i < n
        invariant
            n == s@.len(),
            s@ == a@,
            0 < c < n,
            c + 1 <= i <= n,
            s@[c as int] == ':',
            forall|k: int| 0 <= k < c ==> s@[k] != ':',
            port_text == a@.subrange(c + 1, n as int),
            forall|k: int| 0 <= k < i - c - 1 ==> is_digit(#[trigger] port_text[k]),
            value as nat == dec_value(port_text.subrange(0, i - c - 1)),
            value <= 65535,
        decreases n - i,
    {
        let ch = s.get_char(i);
        let ghost j = i - c - 1;
        assert(port_text[j] == ch);
        if !('0' <= ch && ch <= '9') {
            proof {
                assert forall|d: int| !splits_address(a@, d) by {
                    if splits_address(a@, d) {
                        if d < c {
                            assert(a@[d] != ':');
                        } else if c < d {
                            assert(a@[c as int] != ':');
                        } else {
                            assert(!is_digit(port_text[j]));
                        }
                    }
                }
            }
            return None;
        }
        let digit = ((ch as u32) - ('0' as u32)) as u32;
        assert(port_text.subrange(0, j + 1).drop_last() =~= port_text.subrange(0, j));
        let next: u32 = value * 10 + digit;
        if next > 65535 {
            proof {
                assert forall|k: int| 0 <= k < port_text.len() implies is_digit(
                    #[trigger] port_text[k],
                ) || k > j by {}
                assert forall|d: int| !splits_address(a@, d) by {
                    if splits_address(a@, d) {
                        if d < c {
                            assert(a@[d] != ':');
                        } else if c < d {
                            assert(a@[c as int] != ':');
                        } else {
                            lemma_dec_prefix_le(port_text, j + 1);
                        }
                    }
                }
            }
            return None;
        }
        value = next;
        i = i + 1;
    }
    assert(port_text.subrange(0, i - c - 1) =~= port_text);
    assert(splits_address(a@, c as int));
    let host = String::from_str(s.substring_char(0, c));
    Some((host, value as u16))
}

/// A non-empty string of decimal digits whose value fits in `u64`.
pub open spec fn decimal_ok(s: Seq<char>) -> bool {
    &&& 0 < s.len()
    &&& forall|k: int| 0 <= k < s.len() ==> is_digit(#[trigger] s[k])
    &&& dec_value(s) <= u64::MAX
}

/// The value of a decimal number, as partition directories are named;
/// `None` where `s` is not one or does not fit in `u64`.
pub fn parse_decimal(s: &String) -> (r: Option<u64>)
    ensures
        r is Some <==> decimal_ok(s@),
        r matches Some(v) ==> v as nat == dec_value(s@),
{
    let t = s.as_str();
    let n = t.unicode_len();
    if n == 0 {
        return None;
    }
    let mut value: u64 = 0;
    let mut i: usize = 0;
    while i < n
        invariant
            n == t@.len(),
            t@ == s@,
            i <= n,
            forall|k: int| 0 <= k < i ==> is_digit(#[trigger] t@[k]),
            value as nat == dec_value(t@.subrange(0, i as int)),
        decreases n - i,
    {
        let ch = t.get_char(i);
        if !('0' <= ch && ch <= '9') {
            assert(!is_digit(s@[i as int]));
            return None;
        }
        let digit = ((ch as u32) - ('0' as u32)) as u64;
        assert(t@.subrange(0, i + 1).drop_last() =~= t@.subrange(0, i as int));
        if value > (u64::MAX - digit) / 10 {
            proof {
                assert(dec_value(t@.subrange(0, i + 1)) > u64::MAX) by (nonlinear_arith)
                    requires
                        value > (u64::MAX - digit) / 10,
                        dec_value(t@.subrange(0, i + 1)) == value * 10 + digit,
                        digit <= 9,
                ;
                if forall|k: int| 0 <= k < s@.len() ==> is_digit(#[trigger] s@[k]) {
                    lemma_dec_prefix_le(s@, i + 1);
                }
            }
            return None;
        }
        value = value * 10 + digit;
        i = i + 1;
    }
    assert(t@.subrange(0, i as int) =~= t@);
    Some(value)
}

} // verus!

use vstd::prelude::*;
use crate::prop::{PropStatStatus, UnknownStatus};

verus! {

/// Whether `c` is whitespace in the sense of token splitting
/// (the Unicode white-space characters).
pub open spec fn is_ws_char(c: char) -> bool {
    let n = c as u32;
    (9 <= n && n <= 13) || n == 32 || n == 0x85 || n == 0xA0 || n == 0x1680 || (0x2000 <= n
        && n <= 0x200A) || n == 0x2028 || n == 0x2029 || n == 0x202F || n == 0x205F || n == 0x3000
}

/// First position at or after `i` holding a non-whitespace character
/// (or the end of the sequence).
pub open spec fn skip_ws(s: Seq<char>, i: int) -> int
    decreases s.len() - i,
{
    if i < 0 || i >= s.len() || !is_ws_char(s[i]) {
        i
    } else {
        skip_ws(s, i + 1)
    }
}

/// First position at or after `i` holding a whitespace character
/// (or the end of the sequence).
pub open spec fn skip_token(s: Seq<char>, i: int) -> int
    decreases s.len() - i,
{
    if i < 0 || i >= s.len() || is_ws_char(s[i]) {
        i
    } else {
        skip_token(s, i + 1)
    }
}

/// The second whitespace-separated token of `s`, if there is one.
pub open spec fn second_token(s: Seq<char>) -> Option<Seq<char>> {
    let a = skip_ws(s, 0);
    let b = skip_token(s, a);
    let c = skip_ws(s, b);
    if c >= s.len() {
        None
    } else {
        Some(s.subrange(c, skip_token(s, c)))
    }
}

/// Whether every character of `t` is an ASCII digit.
pub open spec fn all_digits(t: Seq<char>) -> bool {
    forall|i: int| 0 <= i < t.len() ==> 48 <= #[trigger] (t[i] as u32) <= 57
}

/// The number the digit string `t` denotes.
pub open spec fn digits_val(t: Seq<char>) -> int
    decreases t.len(),
{
    if t.len() == 0 {
        0
    } else {
        digits_val(t.drop_last()) * 10 + (t.last() as u32 - 48)
    }
}

/// The numeric status code a token denotes: an optional leading `+`,
/// then only digits, with a value fitting sixteen bits; any other
/// shape counts as code zero.
pub open spec fn code_of_token(t: Seq<char>) -> int {
    let d = if t.len() > 0 && t[0] == '+' {
        t.drop_first()
    } else {
        t
    };
    if d.len() > 0 && all_digits(d) && digits_val(d) <= 65535 {
        digits_val(d)
    } else {
        0
    }
}

/// The named outcome of a numeric status code.
pub open spec fn status_of_code(c: int) -> PropStatStatus {
    if c == 200 {
        PropStatStatus::Okay
    } else if c == 401 {
        PropStatStatus::Unauthorized
    } else if c == 403 {
        PropStatStatus::Forbidden
    } else if c == 404 {
        PropStatStatus::NotFound
    } else if 200 <= c && c < 300 {
        PropStatStatus::Unknown(UnknownStatus::UnknownSuccess)
    } else if 400 <= c && c < 500 {
        PropStatStatus::Unknown(UnknownStatus::UnknownClientError)
    } else if 500 <= c && c < 600 {
        PropStatStatus::Unknown(UnknownStatus::UnknownServerError)
    } else {
        PropStatStatus::Unknown(UnknownStatus::Unknown)
    }
}

/// The outcome of a whole status line: only lines opening with
/// `HTTP/1.1 ` are examined; the second token gives the code.
/// Total over every string.
pub open spec fn spec_classify(s: Seq<char>) -> PropStatStatus {
    if s.len() >= 9 && s.subrange(0, 9) == "HTTP/1.1 "@ {
        match second_token(s) {
            None => PropStatStatus::Unknown(UnknownStatus::Unknown),
            Some(t) => status_of_code(code_of_token(t)),
        }
    } else {
        PropStatStatus::Unknown(UnknownStatus::Unknown)
    }
}

fn is_ws(c: char) -> (r: bool)
    ensures
        r == is_ws_char(c),
{
    let n = c as u32;
    (9 <= n && n <= 13) || n == 32 || n == 0x85 || n == 0xA0 || n == 0x1680 || (0x2000 <= n
        && n <= 0x200A) || n == 0x2028 || n == 0x2029 || n == 0x202F || n == 0x205F || n == 0x3000
}

fn skip_ws_exec(s: &str, from: usize, n: usize) -> (r: usize)
    requires
        n == s@.len(),
        from <= n,
    ensures
        r == skip_ws(s@, from as int),
        from <= r <= n,
    decreases s@.len() - from,
{
    let mut i = from;
    while i < n && is_ws(s.get_char(i))
        invariant
            from <= i <= n,
            n == s@.len(),
            skip_ws(s@, from as int) == skip_ws(s@, i as int),
        decreases n - i,
    {
        i = i + 1;
    }
    i
}

fn skip_token_exec(s: &str, from: usize, n: usize) -> (r: usize)
    requires
        n == s@.len(),
        from <= n,
    ensures
        r == skip_token(s@, from as int),
        from <= r <= n,
    decreases s@.len() - from,
{
    let mut i = from;
    while i < n && !is_ws(s.get_char(i))
        invariant
            from <= i <= n,
            n == s@.len(),
            skip_token(s@, from as int) == skip_token(s@, i as int),
        decreases n - i,
    {
        i = i + 1;
    }
    i
}

fn has_http_prefix(s: &str, n: usize) -> (r: bool)
    requires
        n == s@.len(),
    ensures
        r == (s@.len() >= 9 && s@.subrange(0, 9) == "HTTP/1.1 "@),
{
    proof {
        reveal_strlit("HTTP/1.1 ");
    }
    if n < 9 {
        return false;
    }
    let r = s.get_char(0) == 'H' && s.get_char(1) == 'T' && s.get_char(2) == 'T' && s.get_char(3)
        == 'P' && s.get_char(4) == '/' && s.get_char(5) == '1' && s.get_char(6) == '.'
        && s.get_char(7) == '1' && s.get_char(8) == ' ';
    proof {
        if r {
            assert(s@.subrange(0, 9) =~= "HTTP/1.1 "@);
        } else {
            if s@.subrange(0, 9) == "HTTP/1.1 "@ {
                assert forall|i: int| 0 <= i < 9 implies s@[i] == "HTTP/1.1 "@[i] by {
                    assert(s@.subrange(0, 9)[i] == s@[i]);
                }
                assert(false);
            }
        }
    }
    r
}

proof fn lemma_digits_val_bounds(t: Seq<char>, i: int)
    requires
        all_digits(t),
        0 <= i <= t.len(),
    ensures
        0 <= digits_val(t.subrange(0, i)) <= digits_val(t),
    decreases t.len() - i,
{
    if i == t.len() {
        assert(t.subrange(0, i) =~= t);
        lemma_digits_val_nonneg(t);
    } else {
        lemma_digits_val_bounds(t, i + 1);
        assert(t.subrange(0, i + 1).drop_last() =~= t.subrange(0, i));
        lemma_digits_val_nonneg(t.subrange(0, i));
    }
}

proof fn lemma_digits_val_nonneg(t: Seq<char>)
    requires
        all_digits(t),
    ensures
        digits_val(t) >= 0,
    decreases t.len(),
{
    if t.len() > 0 {
        assert(all_digits(t.drop_last())) by {
            assert(forall|i: int|
                0 <= i < t.len() - 1 ==> #[trigger] (t.drop_last()[i] as u32) == t[i] as u32);
        }
        lemma_digits_val_nonneg(t.drop_last());
    }
}

/// The numeric code the token denotes, as `code_of_token` defines it.
fn token_code(t: &str) -> (r: u16)
    ensures
        r as int == code_of_token(t@),
{
    let n = t.unicode_len();
    let start: usize = if n > 0 && t.get_char(0) == '+' {
        1
    } else {
        0
    };
    let ghost d: Seq<char> = if t@.len() > 0 && t@[0] == '+' {
        t@.drop_first()
    } else {
        t@
    };
    proof {
        assert(d =~= t@.subrange(start as int, n as int));
    }
    if start >= n {
        return 0;
    }
    let mut val: u32 = 0;
    let mut i = start;
    while i < n
        invariant
            start <= i <= n,
            n == t@.len(),
            start < n,
            d == t@.subrange(start as int, n as int),
            d == (if t@.len() > 0 && t@[0] == '+' {
                t@.drop_first()
            } else {
                t@
            }),
            val == digits_val(t@.subrange(start as int, i as int)),
            val <= 65535,
            all_digits(t@.subrange(start as int, i as int)),
        decreases n - i,
    {
        let ch = t.get_char(i);
        let dv = ch as u32;
        if dv < 48 || dv > 57 {
            proof {
                assert(d[i - start] == t@[i as int]);
                assert((d[i - start] as u32) == dv);
                assert(!all_digits(d));
                assert(code_of_token(t@) == 0);
            }
            return 0;
        }
        proof {
            let s1 = t@.subrange(start as int, i as int + 1);
            let s0 = t@.subrange(start as int, i as int);
            assert(s1.drop_last() =~= s0);
            assert(s1.last() == t@[i as int]);
            assert(digits_val(s1) == digits_val(s0) * 10 + (t@[i as int] as u32 - 48));
            assert forall|j: int| 0 <= j < s1.len() implies 48 <= #[trigger] (s1[j] as u32)
                <= 57 by {
                if j < s0.len() {
                    assert(s1[j] == s0[j]);
                    assert(48 <= (s0[j] as u32) <= 57);
                } else {
                    assert(s1[j] == t@[i as int]);
                }
            }
            assert(all_digits(s1));
        }
        val = val * 10 + (dv - 48);
        i = i + 1;
        if val > 65535 {
            proof {
                assert(t@.subrange(start as int, i as int) =~= d.subrange(0, i - start));
                if all_digits(d) {
                    lemma_digits_val_bounds(d, i - start);
                    assert(digits_val(d) >= digits_val(d.subrange(0, i - start)));
                    assert(digits_val(d) > 65535);
                }
                assert(code_of_token(t@) == 0);
            }
            return 0;
        }
    }
    proof {
        assert(t@.subrange(start as int, i as int) =~= d);
    }
    #[verifier::truncate]
    (val as u16)
}

/// Classifies one HTTP status line into a named outcome, as
/// `spec_classify` defines it.  Total: no line is rejected.
pub fn parse_prop_stat_code(status: &str) -> (r: PropStatStatus)
    ensures
        r == spec_classify(status@),
{
    let n = status.unicode_len();
    if !has_http_prefix(status, n) {
        return PropStatStatus::Unknown(UnknownStatus::Unknown);
    }
    let a = skip_ws_exec(status, 0, n);
    let b = skip_token_exec(status, a, n);
    let c = skip_ws_exec(status, b, n);
    if c >= n {
        return PropStatStatus::Unknown(UnknownStatus::Unknown);
    }
    let e = skip_token_exec(status, c, n);
    let tok = status.substring_char(c, e);
    let code = token_code(tok);
    if code == 200 {
        PropStatStatus::Okay
    } else if code == 401 {
        PropStatStatus::Unauthorized
    } else if code == 403 {
        PropStatStatus::Forbidden
    } else if code == 404 {
        PropStatStatus::NotFound
    } else if 200 <= code && code < 300 {
        PropStatStatus::Unknown(UnknownStatus::UnknownSuccess)
    } else if 400 <= code && code < 500 {
        PropStatStatus::Unknown(UnknownStatus::UnknownClientError)
    } else if 500 <= code && code < 600 {
        PropStatStatus::Unknown(UnknownStatus::UnknownServerError)
    } else {
        PropStatStatus::Unknown(UnknownStatus::Unknown)
    }
}

} // verus!

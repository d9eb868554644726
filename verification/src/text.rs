//! Small verified helpers on strings and sequences: character-wise string
//! equality, base-10 integer parsing with the same acceptance rules as
//! `str::parse::<i64>`, quote trimming, and decimal rendering.

use vstd::prelude::*;

verus! {

/// The element-wise view of a sequence of viewable values.
pub open spec fn seq_view<T: View>(s: Seq<T>) -> Seq<T::V>
    decreases s.len(),
{
    if s.len() == 0 {
        Seq::empty()
    } else {
        seq_view(s.drop_last()).push(s.last()@)
    }
}

pub proof fn lemma_seq_view<T: View>(s: Seq<T>)
    ensures
        seq_view(s).len() == s.len(),
        forall|i: int| 0 <= i < s.len() ==> seq_view(s)[i] == s[i]@,
    decreases s.len(),
{
    if s.len() > 0 {
        lemma_seq_view(s.drop_last());
    }
}

pub broadcast proof fn lemma_seq_view_len<T: View>(s: Seq<T>)
    ensures
        (#[trigger] seq_view(s)).len() == s.len(),
    decreases s.len(),
{
    if s.len() > 0 {
        lemma_seq_view_len(s.drop_last());
    }
}

pub proof fn lemma_seq_view_drop_first<T: View>(s: Seq<T>)
    requires
        s.len() > 0,
    ensures
        seq_view(s.drop_first()) == seq_view(s).drop_first(),
{
    lemma_seq_view(s);
    lemma_seq_view(s.drop_first());
    assert(seq_view(s.drop_first()) =~= seq_view(s).drop_first());
}

/// String equality, decided character by character.
pub fn str_eq(a: &str, b: &str) -> (r: bool)
    ensures
        r == (a@ == b@),
{
    let na = a.unicode_len();
    let nb = b.unicode_len();
    if na != nb {
        return false;
    }
    let mut i: usize = 0;
    while i < na
        invariant
            na == a@.len(),
            na == b@.len(),
            0 <= i <= na,
            forall|j: int| 0 <= j < i ==> a@[j] == b@[j],
        decreases na - i,
    {
        if a.get_char(i) != b.get_char(i) {
            return false;
        }
        i += 1;
    }
    proof {
        assert(a@ =~= b@);
    }
    true
}

/// Whether `c` is an ASCII decimal digit.
pub open spec fn is_digit(c: char) -> bool {
    '0' <= c && c <= '9'
}

/// The numeric value of an ASCII digit.
pub open spec fn digit_val(c: char) -> int {
    c as int - '0' as int
}

pub open spec fn all_digits(s: Seq<char>) -> bool {
    forall|i: int| 0 <= i < s.len() ==> is_digit(#[trigger] s[i])
}

/// The value of a nonempty digit string, read in base 10.
pub open spec fn digits_val(s: Seq<char>) -> int
    decreases s.len(),
{
    if s.len() == 0 {
        0
    } else {
        digits_val(s.drop_last()) * 10 + digit_val(s.last())
    }
}

pub proof fn lemma_digits_val_nonneg(s: Seq<char>)
    requires
        all_digits(s),
    ensures
        digits_val(s) >= 0,
    decreases s.len(),
{
    if s.len() > 0 {
        assert(all_digits(s.drop_last())) by {
            assert(forall|i: int|
                0 <= i < s.len() - 1 ==> #[trigger] s.drop_last()[i] == s[i]);
        }
        lemma_digits_val_nonneg(s.drop_last());
    }
}

/// Reading one more digit cannot decrease the value.
pub proof fn lemma_digits_val_monotone(s: Seq<char>, i: int)
    requires
        all_digits(s),
        0 <= i <= s.len(),
    ensures
        digits_val(s.subrange(0, i)) <= digits_val(s),
        digits_val(s) >= 0,
    decreases s.len() - i,
{
    assert(all_digits(s.subrange(0, i))) by {
        assert(forall|j: int|
            0 <= j < i ==> #[trigger] s.subrange(0, i)[j] == s[j]);
    }
    lemma_digits_val_nonneg(s.subrange(0, i));
    lemma_digits_val_nonneg(s);
    if i < s.len() {
        let t = s.subrange(0, i + 1);
        assert(t.drop_last() =~= s.subrange(0, i));
        lemma_digits_val_nonneg(t.drop_last());
        assert(digits_val(t) == digits_val(s.subrange(0, i)) * 10 + digit_val(s[i]));
        lemma_digits_val_monotone(s, i + 1);
    } else {
        assert(s.subrange(0, i) =~= s);
    }
}

/// What `str::parse::<i64>` accepts: an optional sign, then one or more
/// ASCII digits, with the value inside the range of `i64`.
pub open spec fn spec_parse_i64(s: Seq<char>) -> Option<int> {
    let signed = s.len() >= 1 && (s[0] == '+' || s[0] == '-');
    let body = if signed {
        s.drop_first()
    } else {
        s
    };
    if body.len() == 0 || !all_digits(body) {
        None
    } else {
        let v = if s.len() >= 1 && s[0] == '-' {
            -digits_val(body)
        } else {
            digits_val(body)
        };
        if i64::MIN <= v <= i64::MAX {
            Some(v)
        } else {
            None
        }
    }
}

/// Base-10 parsing of a signed 64-bit integer, with the same acceptance
/// rules as `str::parse::<i64>`.
pub fn parse_i64(s: &str) -> (r: Option<i64>)
    ensures
        r is Some <==> spec_parse_i64(s@) is Some,
        r is Some ==> r->0 as int == spec_parse_i64(s@)->0,
{
    let n = s.unicode_len();
    let mut start: usize = 0;
    let mut neg = false;
    if n >= 1 {
        let c0 = s.get_char(0);
        if c0 == '+' || c0 == '-' {
            neg = c0 == '-';
            start = 1;
        }
    }
    let ghost body: Seq<char> = if start == 1 {
        s@.drop_first()
    } else {
        s@
    };
    if start >= n {
        // No digits at all.
        assert(body.len() == 0);
        return None;
    }
    let mut acc: i128 = 0;
    let mut i: usize = start;
    while i < n
        invariant
            n == s@.len(),
            start <= i <= n,
            start == 0 || start == 1,
            start == 1 ==> s@.len() >= 1 && (s@[0] == '+' || s@[0] == '-'),
            start == 0 ==> !(s@.len() >= 1 && (s@[0] == '+' || s@[0] == '-')),
            neg <==> (s@.len() >= 1 && s@[0] == '-'),
            body == s@.subrange(start as int, n as int),
            all_digits(s@.subrange(start as int, i as int)),
            acc == digits_val(s@.subrange(start as int, i as int)),
            0 <= acc <= 0x8000_0000_0000_0000i128,
        decreases n - i,
    {
        let c = s.get_char(i);
        if !(c >= '0' && c <= '9') {
            // Not a digit string.
            assert(body[i - start] == c);
            return None;
        }
        let d: i128 = (c as u32 - 48) as i128;
        let ghost pre = s@.subrange(start as int, i as int);
        let ghost post = s@.subrange(start as int, i as int + 1);
        proof {
            assert(post.drop_last() =~= pre);
            assert(post.last() == s@[i as int]);
            assert(digits_val(post) == digits_val(pre) * 10 + digit_val(s@[i as int]));
            assert(d == digit_val(s@[i as int]));
            assert(forall|j: int| 0 <= j < post.len() ==> is_digit(#[trigger] post[j]));
        }
        acc = acc * 10 + d;
        i += 1;
        proof {
            assert(acc == digits_val(post));
            assert(post =~= s@.subrange(start as int, i as int));
        }
        if acc > 0x8000_0000_0000_0000i128 {
            // Already past the magnitude of any i64; more digits only grow it.
            proof {
                assert({
                    let signed = s@.len() >= 1 && (s@[0] == '+' || s@[0] == '-');
                    (if signed { s@.drop_first() } else { s@ }) == body
                });
                if all_digits(body) {
                    lemma_digits_val_monotone(body, i - start);
                    assert(s@.subrange(start as int, i as int)
                        =~= body.subrange(0, i - start));
                    assert(digits_val(body) > 0x8000_0000_0000_0000);
                }
            }
            return None;
        }
    }
    proof {
        assert(s@.subrange(start as int, n as int) =~= body);
    }
    if neg {
        assert(-acc >= i64::MIN as i128);
        Some((-acc) as i64)
    } else {
        if acc > i64::MAX as i128 {
            return None;
        }
        Some(acc as i64)
    }
}

/// The result of stripping every leading and trailing `"`, as
/// `str::trim_matches('"')` does.
pub open spec fn spec_trim_quotes(s: Seq<char>) -> Seq<char>
    decreases s.len(),
{
    if s.len() > 0 && s[0] == '"' {
        spec_trim_quotes(s.drop_first())
    } else if s.len() > 0 && s.last() == '"' {
        spec_trim_quotes(s.drop_last())
    } else {
        s
    }
}

/// Strips every leading and trailing `"` from `s`.
pub fn trim_quotes(s: &str) -> (r: String)
    ensures
        r@ == spec_trim_quotes(s@),
{
    let n = s.unicode_len();
    proof {
        assert(s@.subrange(0, n as int) =~= s@);
    }
    let mut lo: usize = 0;
    while lo < n && s.get_char(lo) == '"'
        invariant
            n == s@.len(),
            0 <= lo <= n,
            spec_trim_quotes(s@) == spec_trim_quotes(s@.subrange(lo as int, n as int)),
        decreases n - lo,
    {
        proof {
            let cur = s@.subrange(lo as int, n as int);
            assert(cur[0] == s@[lo as int]);
            assert(cur.drop_first() =~= s@.subrange(lo as int + 1, n as int));
        }
        lo += 1;
    }
    let mut hi: usize = n;
    while hi > lo && s.get_char(hi - 1) == '"'
        invariant
            n == s@.len(),
            0 <= lo <= hi <= n,
            lo < n ==> s@[lo as int] != '"',
            lo == hi ==> lo == n,
            spec_trim_quotes(s@) == spec_trim_quotes(s@.subrange(lo as int, hi as int)),
        decreases hi,
    {
        proof {
            let cur = s@.subrange(lo as int, hi as int);
            assert(cur[0] == s@[lo as int]);
            assert(cur.last() == s@[hi - 1]);
            assert(cur.drop_last() =~= s@.subrange(lo as int, hi as int - 1));
        }
        hi -= 1;
    }
    proof {
        let cur = s@.subrange(lo as int, hi as int);
        if cur.len() > 0 {
            assert(cur[0] == s@[lo as int]);
            assert(cur.last() == s@[hi - 1]);
        }
        assert(spec_trim_quotes(cur) == cur);
    }
    String::from_str(s.substring_char(lo, hi))
}

/// The character for one decimal digit value.
pub open spec fn spec_digit_char(d: int) -> char {
    if d == 0 { '0' }
    else if d == 1 { '1' }
    else if d == 2 { '2' }
    else if d == 3 { '3' }
    else if d == 4 { '4' }
    else if d == 5 { '5' }
    else if d == 6 { '6' }
    else if d == 7 { '7' }
    else if d == 8 { '8' }
    else { '9' }
}

/// The decimal rendering of a nonnegative integer, most significant digit
/// first.
pub open spec fn spec_dec(n: int) -> Seq<char>
    decreases n,
{
    if n <= 0 {
        seq!['0']
    } else if n < 10 {
        seq![spec_digit_char(n)]
    } else {
        spec_dec(n / 10).push(spec_digit_char(n % 10))
    }
}

fn digit_str(d: usize) -> (r: &'static str)
    requires
        0 <= d <= 9,
    ensures
        r@ =~= seq![spec_digit_char(d as int)],
{
    proof {
        reveal_strlit("0");
        reveal_strlit("1");
        reveal_strlit("2");
        reveal_strlit("3");
        reveal_strlit("4");
        reveal_strlit("5");
        reveal_strlit("6");
        reveal_strlit("7");
        reveal_strlit("8");
        reveal_strlit("9");
    }
    if d == 0 { "0" }
    else if d == 1 { "1" }
    else if d == 2 { "2" }
    else if d == 3 { "3" }
    else if d == 4 { "4" }
    else if d == 5 { "5" }
    else if d == 6 { "6" }
    else if d == 7 { "7" }
    else if d == 8 { "8" }
    else { "9" }
}

/// Renders a nonnegative machine integer in decimal.
pub fn dec_string(n: usize) -> (r: String)
    ensures
        r@ == spec_dec(n as int),
    decreases n,
{
    if n < 10 {
        String::from_str(digit_str(n))
    } else {
        let q = dec_string(n / 10);
        q.concat(digit_str(n % 10))
    }
}

} // verus!

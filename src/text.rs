//! Character-level helpers: Unicode white space, trimming, splitting and
//! decimal/hexadecimal rendering, all over `Seq<char>` models.
use vstd::prelude::*;

verus! {

/// The characters with the Unicode `White_Space` property.
pub open spec fn is_ws(c: char) -> bool {
    let u = c as u32;
    (0x09 <= u && u <= 0x0d) || u == 0x20 || u == 0x85 || u == 0xa0 || u == 0x1680
        || (0x2000 <= u && u <= 0x200a) || u == 0x2028 || u == 0x2029 || u == 0x202f
        || u == 0x205f || u == 0x3000
}

/// Tells whether `c` is a Unicode white-space character.
pub fn is_whitespace(c: char) -> (r: bool)
    ensures
        r == is_ws(c),
{
    let u = c as u32;
    (0x09 <= u && u <= 0x0d) || u == 0x20 || u == 0x85 || u == 0xa0 || u == 0x1680
        || (0x2000 <= u && u <= 0x200a) || u == 0x2028 || u == 0x2029 || u == 0x202f
        || u == 0x205f || u == 0x3000
}

/// The characters of `s`, in order.
pub fn chars_of(s: &str) -> (r: Vec<char>)
    ensures
        r@ == s@,
{
    let mut r: Vec<char> = Vec::new();
    for c in it: s.chars()
        invariant
            r@ == it.seq().take(it.index() as int),
    {
        r.push(c);
    }
    r
}

/// `s` with its leading white space removed.
pub open spec fn trim_left(s: Seq<char>) -> Seq<char>
    decreases s.len(),
{
    if s.len() > 0 && is_ws(s[0]) {
        trim_left(s.drop_first())
    } else {
        s
    }
}

/// `s` with its trailing white space removed.
pub open spec fn trim_right(s: Seq<char>) -> Seq<char>
    decreases s.len(),
{
    if s.len() > 0 && is_ws(s.last()) {
        trim_right(s.drop_last())
    } else {
        s
    }
}

/// `s` with white space removed at both ends.
pub open spec fn trimmed(s: Seq<char>) -> Seq<char> {
    trim_right(trim_left(s))
}

/// Every character of `s` is white space (the empty sequence included).
pub open spec fn is_blank(s: Seq<char>) -> bool {
    forall|i: int| 0 <= i < s.len() ==> is_ws(#[trigger] s[i])
}

/// `trim_left` removes exactly the white-space run that ends at `i`.
pub proof fn lemma_trim_left_at(s: Seq<char>, i: int)
    requires
        0 <= i <= s.len(),
        forall|k: int| 0 <= k < i ==> is_ws(#[trigger] s[k]),
        i == s.len() || !is_ws(s[i]),
    ensures
        trim_left(s) == s.skip(i),
    decreases i,
{
    if i == 0 {
        assert(s.skip(0) =~= s);
    } else {
        assert(is_ws(s[0]));
        let t = s.drop_first();
        assert forall|k: int| 0 <= k < i - 1 implies is_ws(#[trigger] t[k]) by {
            assert(t[k] == s[k + 1]);
        }
        lemma_trim_left_at(t, i - 1);
        assert(t.skip(i - 1) =~= s.skip(i));
    }
}

/// `trim_right` removes exactly the white-space run that starts at `j`.
pub proof fn lemma_trim_right_at(s: Seq<char>, j: int)
    requires
        0 <= j <= s.len(),
        forall|k: int| j <= k < s.len() ==> is_ws(#[trigger] s[k]),
        j == 0 || !is_ws(s[j - 1]),
    ensures
        trim_right(s) == s.take(j),
    decreases s.len() - j,
{
    if j == s.len() {
        assert(s.take(j) =~= s);
    } else {
        assert(is_ws(s.last()));
        let t = s.drop_last();
        lemma_trim_right_at(t, j);
        assert(t.take(j) =~= s.take(j));
    }
}

/// The bounds, inside `v[a..b]`, of that range with white space trimmed at both ends.
pub fn trim_bounds(v: &Vec<char>, a: usize, b: usize) -> (r: (usize, usize))
    requires
        a <= b <= v.len(),
    ensures
        a <= r.0 <= r.1 <= b,
        v@.subrange(r.0 as int, r.1 as int) == trimmed(v@.subrange(a as int, b as int)),
{
    let mut i: usize = a;
    while i < b && is_whitespace(v[i])
        invariant
            a <= i <= b <= v.len(),
            forall|k: int| a <= k < i ==> is_ws(#[trigger] v@[k]),
        decreases b - i,
    {
        i = i + 1;
    }
    let ghost sub = v@.subrange(a as int, b as int);
    proof {
        assert forall|k: int| 0 <= k < i - a implies is_ws(#[trigger] sub[k]) by {
            assert(sub[k] == v@[k + a]);
        }
        lemma_trim_left_at(sub, i - a);
        assert(sub.skip(i - a) =~= v@.subrange(i as int, b as int));
    }
    let mut j: usize = b;
    while j > i && is_whitespace(v[j - 1])
        invariant
            a <= i <= j <= b <= v.len(),
            forall|k: int| j <= k < b ==> is_ws(#[trigger] v@[k]),
        decreases j - i,
    {
        j = j - 1;
    }
    proof {
        let mid = v@.subrange(i as int, b as int);
        assert forall|k: int| j - i <= k < mid.len() implies is_ws(#[trigger] mid[k]) by {
            assert(mid[k] == v@[k + i]);
        }
        if j > i {
            assert(mid[j - i - 1] == v@[j - 1]);
        }
        lemma_trim_right_at(mid, j - i);
        assert(mid.take(j - i) =~= v@.subrange(i as int, j as int));
    }
    (i, j)
}

/// `s` with white space removed at both ends.
pub fn trim(s: &str) -> (r: String)
    ensures
        r@ == trimmed(s@),
{
    let v = chars_of(s);
    let (lo, hi) = trim_bounds(&v, 0, v.len());
    assert(v@.subrange(0, v@.len() as int) =~= s@);
    s.substring_char(lo, hi).to_owned()
}

/// Tells whether every character of `s` is white space.
pub fn blank(s: &str) -> (r: bool)
    ensures
        r == is_blank(s@),
{
    let v = chars_of(s);
    let mut i: usize = 0;
    while i < v.len()
        invariant
            i <= v.len(),
            v@ == s@,
            forall|k: int| 0 <= k < i ==> is_ws(#[trigger] v@[k]),
        decreases v.len() - i,
    {
        if !is_whitespace(v[i]) {
            return false;
        }
        i = i + 1;
    }
    true
}

/// The index of the first white-space character of `s`, or `s.len()` when there is none.
pub open spec fn find_ws(s: Seq<char>) -> nat
    decreases s.len(),
{
    if s.len() == 0 {
        0
    } else if is_ws(s[0]) {
        0
    } else {
        1 + find_ws(s.drop_first())
    }
}

/// The length of the white-space run that starts `s`.
pub open spec fn skip_ws(s: Seq<char>) -> nat
    decreases s.len(),
{
    if s.len() == 0 {
        0
    } else if !is_ws(s[0]) {
        0
    } else {
        1 + skip_ws(s.drop_first())
    }
}

/// `find_ws` is the first white-space position, or the end.
pub proof fn lemma_find_ws_at(s: Seq<char>, i: int)
    requires
        0 <= i <= s.len(),
        forall|k: int| 0 <= k < i ==> !is_ws(#[trigger] s[k]),
        i == s.len() || is_ws(s[i]),
    ensures
        find_ws(s) == i,
    decreases i,
{
    if i > 0 {
        let t = s.drop_first();
        assert forall|k: int| 0 <= k < i - 1 implies !is_ws(#[trigger] t[k]) by {
            assert(t[k] == s[k + 1]);
        }
        lemma_find_ws_at(t, i - 1);
    }
}

/// `skip_ws` is the first position that is not white space, or the end.
pub proof fn lemma_skip_ws_at(s: Seq<char>, i: int)
    requires
        0 <= i <= s.len(),
        forall|k: int| 0 <= k < i ==> is_ws(#[trigger] s[k]),
        i == s.len() || !is_ws(s[i]),
    ensures
        skip_ws(s) == i,
    decreases i,
{
    if i > 0 {
        let t = s.drop_first();
        assert forall|k: int| 0 <= k < i - 1 implies is_ws(#[trigger] t[k]) by {
            assert(t[k] == s[k + 1]);
        }
        lemma_skip_ws_at(t, i - 1);
    }
}

/// The position of the first white-space character in `v[a..b]`; `b` when there is none.
pub fn find_ws_in(v: &Vec<char>, a: usize, b: usize) -> (r: usize)
    requires
        a <= b <= v.len(),
    ensures
        a <= r <= b,
        r - a == find_ws(v@.subrange(a as int, b as int)),
{
    let mut i: usize = a;
    while i < b && !is_whitespace(v[i])
        invariant
            a <= i <= b <= v.len(),
            forall|k: int| a <= k < i ==> !is_ws(#[trigger] v@[k]),
        decreases b - i,
    {
        i = i + 1;
    }
    proof {
        let sub = v@.subrange(a as int, b as int);
        assert forall|k: int| 0 <= k < i - a implies !is_ws(#[trigger] sub[k]) by {
            assert(sub[k] == v@[k + a]);
        }
        lemma_find_ws_at(sub, i - a);
    }
    i
}

/// The position of the first character in `v[a..b]` that is not white space; `b` when there is none.
pub fn skip_ws_in(v: &Vec<char>, a: usize, b: usize) -> (r: usize)
    requires
        a <= b <= v.len(),
    ensures
        a <= r <= b,
        r - a == skip_ws(v@.subrange(a as int, b as int)),
{
    let mut i: usize = a;
    while i < b && is_whitespace(v[i])
        invariant
            a <= i <= b <= v.len(),
            forall|k: int| a <= k < i ==> is_ws(#[trigger] v@[k]),
        decreases b - i,
    {
        i = i + 1;
    }
    proof {
        let sub = v@.subrange(a as int, b as int);
        assert forall|k: int| 0 <= k < i - a implies is_ws(#[trigger] sub[k]) by {
            assert(sub[k] == v@[k + a]);
        }
        lemma_skip_ws_at(sub, i - a);
    }
    i
}

/// Tells whether `v[a..b]` holds exactly the characters of `lit`.
pub fn range_is(v: &Vec<char>, a: usize, b: usize, lit: &str) -> (r: bool)
    requires
        a <= b <= v.len(),
    ensures
        r == (v@.subrange(a as int, b as int) == lit@),
{
    let n = lit.unicode_len();
    if n != b - a {
        return false;
    }
    let mut i: usize = 0;
    while i < n
        invariant
            n == b - a,
            n == lit@.len(),
            a <= b <= v.len(),
            i <= n,
            forall|k: int| 0 <= k < i ==> v@[a + k] == #[trigger] lit@[k],
        decreases n - i,
    {
        if v[a + i] != lit.get_char(i) {
            assert(v@.subrange(a as int, b as int)[i as int] != lit@[i as int]);
            return false;
        }
        i = i + 1;
    }
    assert(v@.subrange(a as int, b as int) =~= lit@);
    true
}

/// The digits and lower-case letters that write numbers in bases up to sixteen.
pub open spec fn hex_alphabet() -> Seq<char> {
    seq!['0', '1', '2', '3', '4', '5', '6', '7', '8', '9', 'a', 'b', 'c', 'd', 'e', 'f']
}

/// `n` written in decimal, without leading zeros.
pub open spec fn dec_digits(n: nat) -> Seq<char>
    decreases n,
{
    if n < 10 {
        seq![hex_alphabet()[n as int]]
    } else {
        dec_digits(n / 10).push(hex_alphabet()[(n % 10) as int])
    }
}

/// `n` written in lower-case hexadecimal, without leading zeros.
pub open spec fn hex_digits(n: nat) -> Seq<char>
    decreases n,
{
    if n < 16 {
        seq![hex_alphabet()[n as int]]
    } else {
        hex_digits(n / 16).push(hex_alphabet()[(n % 16) as int])
    }
}

/// `c` is an ASCII decimal digit.
pub open spec fn is_digit(c: char) -> bool {
    '0' <= c && c <= '9'
}

/// The number that the decimal digits `s` write (zero for no digits).
pub open spec fn dec_value(s: Seq<char>) -> nat
    decreases s.len(),
{
    if s.len() == 0 {
        0
    } else {
        dec_value(s.drop_last()) * 10 + ((s.last() as u32 - '0' as u32) as nat)
    }
}

/// `s` is a non-empty run of decimal digits.
pub open spec fn all_digits(s: Seq<char>) -> bool {
    s.len() > 0 && forall|i: int| 0 <= i < s.len() ==> is_digit(#[trigger] s[i])
}

/// The value of `s` read as an unsigned decimal integer with an optional leading `+`.
pub open spec fn unsigned_value(s: Seq<char>) -> Option<nat> {
    if s.len() > 0 && s[0] == '+' {
        if all_digits(s.drop_first()) {
            Some(dec_value(s.drop_first()))
        } else {
            None
        }
    } else if all_digits(s) {
        Some(dec_value(s))
    } else {
        None
    }
}

/// A prefix of a run of digits never writes a larger number than the whole run.
pub proof fn lemma_dec_value_prefix(s: Seq<char>, j: int)
    requires
        0 <= j <= s.len(),
        forall|i: int| 0 <= i < s.len() ==> is_digit(#[trigger] s[i]),
    ensures
        dec_value(s.take(j)) <= dec_value(s),
    decreases s.len() - j,
{
    if j < s.len() {
        lemma_dec_value_prefix(s, j + 1);
        assert(s.take(j + 1).drop_last() =~= s.take(j));
    } else {
        assert(s.take(j) =~= s);
    }
}

/// Every character of the hexadecimal writing of a number is in the alphabet.
pub proof fn lemma_digits_in_alphabet(n: nat)
    ensures
        forall|i: int|
            0 <= i < hex_digits(n).len() ==> hex_alphabet().contains(#[trigger] hex_digits(n)[i]),
        dec_digits(n).len() >= 1,
        hex_digits(n).len() >= 1,
    decreases n,
{
    if n >= 16 {
        lemma_digits_in_alphabet(n / 16);
    }
    assert forall|i: int| 0 <= i < hex_digits(n).len() implies hex_alphabet().contains(
        #[trigger] hex_digits(n)[i],
    ) by {
        if n < 16 {
            assert(hex_digits(n)[i] == hex_alphabet()[n as int]);
        } else if i < hex_digits(n).len() - 1 {
            assert(hex_digits(n)[i] == hex_digits(n / 16)[i]);
        } else {
            assert(hex_digits(n)[i] == hex_alphabet()[(n % 16) as int]);
        }
    }
}

/// The alphabet's first ten characters are the decimal digits, in order.
pub proof fn lemma_digit_value(d: nat)
    requires
        d < 10,
    ensures
        is_digit(hex_alphabet()[d as int]),
        (hex_alphabet()[d as int] as u32 - '0' as u32) as nat == d,
{
    assert(hex_alphabet()[0] == '0');
    assert(hex_alphabet()[1] == '1');
    assert(hex_alphabet()[2] == '2');
    assert(hex_alphabet()[3] == '3');
    assert(hex_alphabet()[4] == '4');
    assert(hex_alphabet()[5] == '5');
    assert(hex_alphabet()[6] == '6');
    assert(hex_alphabet()[7] == '7');
    assert(hex_alphabet()[8] == '8');
    assert(hex_alphabet()[9] == '9');
}

/// Reading back the decimal writing of `n` gives `n`.
pub proof fn lemma_dec_round_trip(n: nat)
    ensures
        dec_value(dec_digits(n)) == n,
        all_digits(dec_digits(n)),
    decreases n,
{
    lemma_digit_value(n % 10);
    if n >= 10 {
        lemma_dec_round_trip(n / 10);
        assert(dec_digits(n).drop_last() =~= dec_digits(n / 10));
        assert(dec_digits(n).last() == hex_alphabet()[(n % 10) as int]);
        assert(dec_value(dec_digits(n)) == dec_value(dec_digits(n / 10)) * 10 + n % 10);
        assert((n / 10) * 10 + n % 10 == n);
        assert forall|i: int| 0 <= i < dec_digits(n).len() implies is_digit(
            #[trigger] dec_digits(n)[i],
        ) by {
            if i < dec_digits(n).len() - 1 {
                assert(dec_digits(n)[i] == dec_digits(n / 10)[i]);
            }
        }
    } else {
        assert(dec_digits(n).drop_last() =~= Seq::<char>::empty());
        assert(dec_value(Seq::<char>::empty()) == 0);
    }
}

/// Appends the decimal writing of `n` to `out`.
pub fn append_decimal(out: &mut String, n: usize)
    ensures
        final(out)@ == old(out)@ + dec_digits(n as nat),
    decreases n,
{
    if n >= 10 {
        append_decimal(out, n / 10);
    }
    let d = n % 10;
    let alphabet = "0123456789abcdef";
    proof {
        reveal_strlit("0123456789abcdef");
        assert(alphabet@ =~= hex_alphabet());
    }
    let ghost before = out@;
    out.append(alphabet.substring_char(d, d + 1));
    assert(alphabet@.subrange(d as int, d + 1) =~= seq![hex_alphabet()[d as int]]);
    if n >= 10 {
        assert(out@ =~= old(out)@ + dec_digits(n as nat));
    } else {
        assert(out@ =~= old(out)@ + dec_digits(n as nat));
    }
}

/// Appends the lower-case hexadecimal writing of `n` to `out`.
pub fn append_hex(out: &mut String, n: u64)
    ensures
        final(out)@ == old(out)@ + hex_digits(n as nat),
    decreases n,
{
    if n >= 16 {
        append_hex(out, n / 16);
    }
    let d = (n % 16) as usize;
    let alphabet = "0123456789abcdef";
    proof {
        reveal_strlit("0123456789abcdef");
        assert(alphabet@ =~= hex_alphabet());
    }
    out.append(alphabet.substring_char(d, d + 1));
    assert(alphabet@.subrange(d as int, d + 1) =~= seq![hex_alphabet()[d as int]]);
    assert(out@ =~= old(out)@ + hex_digits(n as nat));
}

/// The number that `s` writes (an optional `+`, then decimal digits) when it lies
/// in `1..=n`, as a position counted from zero.
pub open spec fn ordinal_in(s: Seq<char>, n: nat) -> Option<nat> {
    match unsigned_value(s) {
        Some(x) => if 1 <= x && x <= n {
            Some((x - 1) as nat)
        } else {
            None
        },
        None => None,
    }
}

/// Reads `v[a..b]` as a one-based position among `n` things.
pub fn parse_ordinal(v: &Vec<char>, a: usize, b: usize, n: usize) -> (r: Option<usize>)
    requires
        a <= b <= v.len(),
    ensures
        r matches Some(k) ==> ordinal_in(v@.subrange(a as int, b as int), n as nat) == Some(
            k as nat,
        ),
        r is None ==> ordinal_in(v@.subrange(a as int, b as int), n as nat) is None,
{
    let ghost s = v@.subrange(a as int, b as int);
    let mut start = a;
    if a < b && v[a] == '+' {
        start = a + 1;
    }
    let ghost d = v@.subrange(start as int, b as int);
    proof {
        assert(s.len() > 0 ==> s[0] == v@[a as int]);
        if a < b && v@[a as int] == '+' {
            assert(d =~= s.drop_first());
        } else {
            assert(d =~= s);
        }
        assert(unsigned_value(s) == if all_digits(d) {
            Some(dec_value(d))
        } else {
            None::<nat>
        });
    }
    if start == b {
        return None;
    }
    let mut acc: usize = 0;
    let mut i: usize = start;
    while i < b
        invariant
            start <= i <= b <= v.len(),
            start < b,
            d == v@.subrange(start as int, b as int),
            unsigned_value(v@.subrange(a as int, b as int)) == if all_digits(d) {
                Some(dec_value(d))
            } else {
                None::<nat>
            },
            forall|k: int| start <= k < i ==> is_digit(#[trigger] v@[k]),
            acc as nat == dec_value(d.take(i - start)),
            acc <= n,
        decreases b - i,
    {
        let c = v[i];
        if !('0' <= c && c <= '9') {
            assert(!is_digit(d[i - start]));
            return None;
        }
        let digit = (c as u32 - '0' as u32) as usize;
        assert(d.take(i + 1 - start).drop_last() =~= d.take(i - start));
        assert(d[i - start] == c);
        if digit > n || acc > (n - digit) / 10 {
            proof {
                if digit <= n {
                    assert(acc * 10 + digit > n) by (nonlinear_arith)
                        requires
                            acc > (n - digit) / 10,
                            digit <= n,
                    ;
                }
                if all_digits(d) {
                    lemma_dec_value_prefix(d, i + 1 - start);
                }
            }
            return None;
        }
        proof {
            assert(acc * 10 + digit <= n) by (nonlinear_arith)
                requires
                    acc <= (n - digit) / 10,
                    digit <= n,
            ;
        }
        acc = acc * 10 + digit;
        i = i + 1;
    }
    assert(d.take(b - start) =~= d);
    assert(all_digits(d));
    if acc == 0 {
        return None;
    }
    Some(acc - 1)
}

} // verus!

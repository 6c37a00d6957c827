//! Character classes, decimal integers and string building used across the library.
use vstd::prelude::*;


verus! {

/// Unicode `White_Space` characters, as `char::is_whitespace` documents them.
pub open spec fn spec_is_whitespace(c: char) -> bool {
    ||| c == ' '
    ||| ('\u{9}' <= c && c <= '\u{d}')
    ||| c == '\u{85}'
    ||| c == '\u{a0}'
    ||| c == '\u{1680}'
    ||| ('\u{2000}' <= c && c <= '\u{200a}')
    ||| c == '\u{2028}'
    ||| c == '\u{2029}'
    ||| c == '\u{202f}'
    ||| c == '\u{205f}'
    ||| c == '\u{3000}'
}

pub fn is_whitespace(c: char) -> (r: bool)
    ensures
        r == spec_is_whitespace(c),
{
    c == ' ' || ('\u{9}' <= c && c <= '\u{d}') || c == '\u{85}' || c == '\u{a0}' || c
        == '\u{1680}' || ('\u{2000}' <= c && c <= '\u{200a}') || c == '\u{2028}' || c
        == '\u{2029}' || c == '\u{202f}' || c == '\u{205f}' || c == '\u{3000}'
}

/// `char::is_ascii_control`: U+0000 to U+001F and U+007F.
pub open spec fn spec_is_ascii_control(c: char) -> bool {
    c <= '\u{1f}' || c == '\u{7f}'
}

pub fn is_ascii_control(c: char) -> (r: bool)
    ensures
        r == spec_is_ascii_control(c),
{
    c <= '\u{1f}' || c == '\u{7f}'
}

pub open spec fn is_lower(c: char) -> bool {
    'a' <= c && c <= 'z'
}

pub open spec fn is_upper(c: char) -> bool {
    'A' <= c && c <= 'Z'
}

pub open spec fn is_digit(c: char) -> bool {
    '0' <= c && c <= '9'
}

/// What `char::is_uppercase` returns; its ASCII part is `'A'..='Z'`.
pub uninterp spec fn unicode_uppercase(c: char) -> bool;

/// Calls `char::is_uppercase`. Its documentation fixes the answer on ASCII characters
/// (exactly `'A'..='Z'`); on other characters the Unicode tables decide, which is left
/// to the name `unicode_uppercase`.
#[verifier::external_body]
pub fn char_is_uppercase(c: char) -> (r: bool)
    ensures
        r == unicode_uppercase(c),
        c <= '\u{7f}' ==> (r == is_upper(c)),
{
    c.is_uppercase()
}

/// What `char::is_lowercase` returns; its ASCII part is `'a'..='z'`.
pub uninterp spec fn unicode_lowercase(c: char) -> bool;

/// Calls `char::is_lowercase`. Its documentation fixes the answer on ASCII characters
/// (exactly `'a'..='z'`); on other characters the Unicode tables decide, which is left
/// to the name `unicode_lowercase`.
#[verifier::external_body]
pub fn char_is_lowercase(c: char) -> (r: bool)
    ensures
        r == unicode_lowercase(c),
        c <= '\u{7f}' ==> (r == is_lower(c)),
{
    c.is_lowercase()
}

/// Calls `String::push`, which appends one character.
#[verifier::external_body]
pub fn push_char(s: &mut String, c: char)
    ensures
        final(s)@ == old(s)@.push(c),
{
    s.push(c)
}

/// A `String` holding the characters of a literal.
pub fn lit(s: &str) -> (r: String)
    ensures
        r@ == s@,
{
    String::from_str(s)
}

/// Appends a string slice.
pub fn push_str(s: &mut String, t: &str)
    ensures
        final(s)@ == old(s)@ + t@,
{
    s.append(t)
}

/// The characters of a string, in order.
pub fn chars_of(s: &String) -> (r: Vec<char>)
    ensures
        r@ == s@,
{
    let st = s.as_str();
    let n = st.unicode_len();
    let mut v: Vec<char> = Vec::new();
    let mut i: usize = 0;
    while i < n
        invariant
            n == st@.len(),
            st@ == s@,
            i <= n,
            v@ == s@.subrange(0, i as int),
        decreases n - i,
    {
        let c = st.get_char(i);
        v.push(c);
        i = i + 1;
        assert(v@ =~= s@.subrange(0, i as int));
    }
    assert(v@ =~= s@);
    v
}

/// A `String` made of the given characters.
pub fn string_of(v: &Vec<char>) -> (r: String)
    ensures
        r@ == v@,
{
    let mut s = String::new();
    let mut i: usize = 0;
    while i < v.len()
        invariant
            i <= v@.len(),
            s@ == v@.subrange(0, i as int),
        decreases v@.len() - i,
    {
        push_char(&mut s, v[i]);
        i = i + 1;
        assert(s@ =~= v@.subrange(0, i as int));
    }
    assert(s@ =~= v@);
    s
}

/// Equality of two strings.
pub fn str_eq(a: &String, b: &String) -> (r: bool)
    ensures
        r == (a@ == b@),
{
    *a == *b
}

/// Equality of a string with a literal.
pub fn eq_lit(a: &String, b: &str) -> (r: bool)
    ensures
        r == (a@ == b@),
{
    let bs = lit(b);
    *a == bs
}

/// Whether `s` starts with the character `c`.
pub fn starts_with_char(s: &String, c: char) -> (r: bool)
    ensures
        r == (s@.len() > 0 && s@[0] == c),
{
    let st = s.as_str();
    let n = st.unicode_len();
    if n == 0 {
        false
    } else {
        st.get_char(0) == c
    }
}

/// The first character of a string, if any.
pub fn first_char(s: &String) -> (r: Option<char>)
    ensures
        r == (if s@.len() > 0 { Some(s@[0]) } else { None::<char> }),
{
    let st = s.as_str();
    let n = st.unicode_len();
    if n == 0 {
        None
    } else {
        Some(st.get_char(0))
    }
}

/// Lexicographic order on character sequences (code point order), which is the
/// order of `String` in Rust.
pub open spec fn seq_lt(a: Seq<char>, b: Seq<char>) -> bool
    decreases a.len(),
{
    if a.len() == 0 {
        b.len() > 0
    } else if b.len() == 0 {
        false
    } else if a[0] != b[0] {
        a[0] < b[0]
    } else {
        seq_lt(a.drop_first(), b.drop_first())
    }
}

pub fn string_lt(a: &String, b: &String) -> (r: bool)
    ensures
        r == seq_lt(a@, b@),
{
    let av = chars_of(a);
    let bv = chars_of(b);
    let mut i: usize = 0;
    assert(a@.skip(0) =~= a@);
    assert(b@.skip(0) =~= b@);
    while i < av.len() && i < bv.len() && av[i] == bv[i]
        invariant
            i <= av@.len(),
            i <= bv@.len(),
            av@ == a@,
            bv@ == b@,
            forall|j: int| 0 <= j < i ==> av@[j] == bv@[j],
            seq_lt(a@, b@) == seq_lt(a@.skip(i as int), b@.skip(i as int)),
        decreases av@.len() - i,
    {
        assert(a@.skip(i as int).drop_first() =~= a@.skip(i + 1));
        assert(b@.skip(i as int).drop_first() =~= b@.skip(i + 1));
        i = i + 1;
    }
    if i == av.len() {
        i < bv.len()
    } else if i == bv.len() {
        false
    } else {
        av[i] < bv[i]
    }
}

/// Sorts strings into ascending order (insertion sort), as `Vec::sort` would.
pub fn sort_strings(v: &mut Vec<String>)
    ensures
        final(v)@.len() == old(v)@.len(),
        final(v)@.to_multiset() == old(v)@.to_multiset(),
        forall|i: int, j: int|
            0 <= i < j < final(v)@.len() ==> !seq_lt(final(v)@[j]@, final(v)@[i]@),
{
    let n = v.len();
    if n == 0 {
        return ;
    }
    let mut i: usize = 1;
    while i < n
        invariant
            1 <= i <= n,
            n == v@.len(),
            v@.to_multiset() == old(v)@.to_multiset(),
            forall|a: int, b: int| 0 <= a < b < i ==> !seq_lt(v@[b]@, v@[a]@),
        decreases n - i,
    {
        let mut j: usize = i;
        while j > 0 && string_lt(&v[j], &v[j - 1])
            invariant
                0 <= j <= i < n,
                n == v@.len(),
                v@.to_multiset() == old(v)@.to_multiset(),
                forall|a: int, b: int|
                    0 <= a < b <= i && a != j && b != j ==> !seq_lt(v@[b]@, v@[a]@),
                forall|a: int| j < a <= i ==> seq_lt(#[trigger] v@[j as int]@, v@[a]@),
            decreases j,
        {
            let tmp = v[j].clone();
            let prev = v[j - 1].clone();
            let ghost before = v@;
            v.set(j, prev);
            v.set(j - 1, tmp);
            proof {
                lemma_swap_multiset(before, j - 1, j as int);
                assert(v@ =~= before.update(j as int, before[j - 1]).update(
                    j - 1,
                    before[j as int],
                ));
            }
            j = j - 1;
        }
        proof {
            let jj = j as int;
            assert forall|a: int, b: int| 0 <= a < b <= i implies !seq_lt(v@[b]@, v@[a]@) by {
                if b == jj {
                    lemma_seq_le_trans(v@[jj]@, v@[jj - 1]@, v@[a]@);
                } else if a == jj {
                    lemma_seq_lt_asym(v@[jj]@, v@[b]@);
                }
            }
        }
        i = i + 1;
    }
}

/// Not-less is transitive: `!(a < b)` and `!(b < c)` give `!(a < c)`.
pub proof fn lemma_seq_le_trans(a: Seq<char>, b: Seq<char>, c: Seq<char>)
    ensures
        !seq_lt(a, b) && !seq_lt(b, c) ==> !seq_lt(a, c),
    decreases a.len(),
{
    if a.len() > 0 && b.len() > 0 && c.len() > 0 && a[0] == b[0] && b[0] == c[0] {
        lemma_seq_le_trans(a.drop_first(), b.drop_first(), c.drop_first());
    }
}

pub proof fn lemma_seq_lt_asym(a: Seq<char>, b: Seq<char>)
    ensures
        seq_lt(a, b) ==> !seq_lt(b, a),
    decreases a.len(),
{
    if a.len() > 0 && b.len() > 0 && a[0] == b[0] {
        lemma_seq_lt_asym(a.drop_first(), b.drop_first());
    }
}

proof fn lemma_swap_multiset<T>(s: Seq<T>, i: int, j: int)
    requires
        0 <= i < s.len(),
        0 <= j < s.len(),
    ensures
        s.update(j, s[i]).update(i, s[j]).to_multiset() == s.to_multiset(),
{
    broadcast use vstd::seq_lib::group_to_multiset_ensures;

    let s1 = s.update(j, s[i]);
    assert(s1.to_multiset() == s.to_multiset().remove(s[j]).insert(s[i]));
    let s2 = s1.update(i, s[j]);
    assert(s2.to_multiset() == s1.to_multiset().remove(s1[i]).insert(s[j]));
}

} // verus!

verus! {

/// The decimal digits of `n`, most significant first, without leading zeros (`0` is `"0"`).
pub open spec fn dec_str(n: nat) -> Seq<char>
    decreases n,
{
    if n < 10 {
        seq![digit_char(n)]
    } else {
        dec_str(n / 10).push(digit_char(n % 10))
    }
}

pub open spec fn digit_char(d: nat) -> char {
    ((48 + d) as u32) as char
}

/// How an integer is written in decimal, with a leading `-` when it is negative.
pub open spec fn int_str(x: int) -> Seq<char> {
    if x < 0 {
        seq!['-'] + dec_str((-x) as nat)
    } else {
        dec_str(x as nat)
    }
}

/// The value of a sequence of decimal digits.
pub open spec fn digits_val(s: Seq<char>) -> nat
    decreases s.len(),
{
    if s.len() == 0 {
        0
    } else {
        digits_val(s.drop_last()) * 10 + ((s.last() as u32 - 48) as nat)
    }
}

pub open spec fn all_digits(s: Seq<char>) -> bool {
    forall|i: int| 0 <= i < s.len() ==> is_digit(#[trigger] s[i])
}

/// The integer that `s` denotes: an optional sign followed by at least one decimal digit.
pub open spec fn parse_int(s: Seq<char>) -> Option<int> {
    if s.len() > 0 && (s[0] == '-' || s[0] == '+') {
        let d = s.drop_first();
        if d.len() > 0 && all_digits(d) {
            if s[0] == '-' {
                Some(-(digits_val(d) as int))
            } else {
                Some(digits_val(d) as int)
            }
        } else {
            None
        }
    } else if s.len() > 0 && all_digits(s) {
        Some(digits_val(s) as int)
    } else {
        None
    }
}

/// What `str::parse::<i64>` gives: the denoted integer when it fits in an `i64`.
pub open spec fn parse_i64_spec(s: Seq<char>) -> Option<i64> {
    match parse_int(s) {
        Some(x) => if i64::MIN <= x <= i64::MAX {
            Some(x as i64)
        } else {
            None
        },
        None => None,
    }
}

/// The decimal form of `n`.
pub fn u128_to_string(n: u128) -> (r: String)
    ensures
        r@ == dec_str(n as nat),
{
    let mut digits: Vec<char> = Vec::new();
    let mut m = n;
    let ghost g = n as nat;
    // digits are collected least significant first
    while m >= 10
        invariant
            dec_str(n as nat) == dec_str(m as nat) + digits@.reverse(),
        decreases m,
    {
        let d = (m % 10) as u32;
        let c = char_of_digit(d);
        proof {
            assert(dec_str(m as nat) == dec_str((m / 10) as nat).push(c));
            assert(digits@.push(c).reverse() =~= seq![c] + digits@.reverse());
            assert(dec_str((m / 10) as nat).push(c) + digits@.reverse() =~= dec_str(
                (m / 10) as nat,
            ) + (seq![c] + digits@.reverse()));
        }
        digits.push(c);
        m = m / 10;
    }
    let c0 = char_of_digit(m as u32);
    digits.push(c0);
    proof {
        assert(dec_str(m as nat) == seq![c0]);
        assert(digits@.reverse() =~= seq![c0] + digits@.drop_last().reverse());
    }
    let mut s = String::new();
    let mut i = digits.len();
    while i > 0
        invariant
            i <= digits@.len(),
            s@ == digits@.reverse().subrange(0, (digits@.len() - i) as int),
        decreases i,
    {
        push_char(&mut s, digits[i - 1]);
        i = i - 1;
        assert(s@ =~= digits@.reverse().subrange(0, (digits@.len() - i) as int));
    }
    assert(digits@.reverse().subrange(0, digits@.len() as int) =~= digits@.reverse());
    s
}

/// The digit character for `d < 10`.
pub fn char_of_digit(d: u32) -> (c: char)
    requires
        d < 10,
    ensures
        c == digit_char(d as nat),
{
    if d == 0 { '0' }
    else if d == 1 { '1' }
    else if d == 2 { '2' }
    else if d == 3 { '3' }
    else if d == 4 { '4' }
    else if d == 5 { '5' }
    else if d == 6 { '6' }
    else if d == 7 { '7' }
    else if d == 8 { '8' }
    else { '9' }
}

/// The decimal form of `n`.
pub fn usize_to_string(n: usize) -> (r: String)
    ensures
        r@ == dec_str(n as nat),
{
    u128_to_string(n as u128)
}

/// The decimal form of `x`, with `-` before a negative number.
pub fn i64_to_string(x: i64) -> (r: String)
    ensures
        r@ == int_str(x as int),
{
    if x < 0 {
        let m: i128 = -(x as i128);
        let d = u128_to_string(m as u128);
        let mut s = String::new();
        push_char(&mut s, '-');
        push_str(&mut s, d.as_str());
        assert(s@ =~= seq!['-'] + d@);
        s
    } else {
        u128_to_string(x as u128)
    }
}

/// What `str::parse::<i64>` returns on `s`.
#[verifier::loop_isolation(false)]
pub fn parse_i64(s: &String) -> (r: Option<i64>)
    ensures
        r == parse_i64_spec(s@),
{
    let v = chars_of(s);
    let n = v.len();
    if n == 0 {
        return None;
    }
    let neg = v[0] == '-';
    let start: usize = if v[0] == '-' || v[0] == '+' { 1 } else { 0 };
    if start == n {
        assert(s@.drop_first().len() == 0);
        return None;
    }
    let ghost d = s@.subrange(start as int, n as int);
    proof {
        if start == 1 {
            assert(d =~= s@.drop_first());
        } else {
            assert(d =~= s@);
        }
    }
    let mut acc: u128 = 0;
    let mut i: usize = start;
    while i < n
        invariant
            start <= i <= n,
            n == v@.len(),
            v@ == s@,
            d == s@.subrange(start as int, n as int),
            acc == digits_val(s@.subrange(start as int, i as int)),
            acc <= 10000000000000000009u128,
            all_digits(s@.subrange(start as int, i as int)),
        decreases n - i,
    {
        let c = v[i];
        if !('0' <= c && c <= '9') {
            proof {
                assert(d[i - start] == c);
                assert(!all_digits(d));
            }
            return None;
        }
        let dv = (c as u32 - 48) as u128;
        proof {
            let pre = s@.subrange(start as int, i as int);
            let nxt = s@.subrange(start as int, i + 1);
            assert(nxt.drop_last() =~= pre);
            assert(nxt.last() == c);
            assert(all_digits(nxt));
        }
        if acc > 1000000000000000000u128 {
            // the value is already above 10^19 > i64 range magnitude
            proof {
                let pre = s@.subrange(start as int, i as int);
                let nxt = s@.subrange(start as int, i + 1);
                assert(nxt.drop_last() =~= pre);
                assert(d.subrange(0, (i + 1 - start) as int) =~= nxt);
                if all_digits(d) {
                    lemma_digits_val_grow(d, (i + 1 - start) as nat);
                }
            }
            return None;
        }
        acc = acc * 10 + dv;
        i = i + 1;
    }
    assert(s@.subrange(start as int, n as int) == d);
    if neg {
        if acc > 9223372036854775808u128 {
            return None;
        }
        let r: i128 = -(acc as i128);
        Some(r as i64)
    } else {
        if acc > 9223372036854775807u128 {
            return None;
        }
        Some(acc as i64)
    }
}

/// Digits only add value as the prefix grows: the value of a prefix is at most that of
/// a longer one.
pub proof fn lemma_digits_val_grow(d: Seq<char>, k: nat)
    requires
        k <= d.len(),
        all_digits(d),
    ensures
        digits_val(d.subrange(0, k as int)) <= digits_val(d),
    decreases d.len() - k,
{
    if k < d.len() {
        lemma_digits_val_grow(d, k + 1);
        let a = d.subrange(0, k as int);
        let b = d.subrange(0, (k + 1) as int);
        assert(b.drop_last() =~= a);
        assert(is_digit(b.last()));
    }
    else {
        assert(d.subrange(0, k as int) =~= d);
    }
}

} // verus!

verus! {

pub proof fn lemma_dec_str_nonempty(n: int)
    requires
        n >= 0,
    ensures
        dec_str(n as nat).len() > 0,
    decreases n,
{
    if n >= 10 {
        lemma_dec_str_nonempty(n / 10);
    }
}

} // verus!

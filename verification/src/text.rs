//! Character-level string utilities: ASCII upper-casing, digit parsing,
//! substring removal and whitespace trimming, each with an exact
//! specification over the string's character sequence.
use vstd::prelude::*;
use vstd::string::*;

verus! {

/// Relies on std's String::push: appends exactly one character.
#[verifier::external_body]
pub(crate) fn push_char(s: &mut String, c: char)
    ensures
        final(s)@ == old(s)@.push(c),
{
    s.push(c);
}

/// Character equality of two string slices.
pub fn str_eq(a: &str, b: &str) -> (r: bool)
    ensures
        r == (a@ == b@),
{
    let sa: String = a.to_owned();
    let sb: String = b.to_owned();
    sa == sb
}

/// ASCII upper-casing of a single character; anything outside 'a'..='z'
/// passes through unchanged.
pub open spec fn upper_char(c: char) -> char {
    if 'a' <= c && c <= 'z' {
        ((c as u8) - 32) as char
    } else {
        c
    }
}

/// ASCII upper-casing of a character sequence.
pub open spec fn upper_seq(s: Seq<char>) -> Seq<char> {
    s.map_values(|c: char| upper_char(c))
}

fn upper_char_exec(c: char) -> (r: char)
    ensures
        r == upper_char(c),
{
    if 'a' <= c && c <= 'z' {
        ((c as u8) - 32) as char
    } else {
        c
    }
}

/// ASCII upper-casing of a whole string.
pub fn to_upper(s: &str) -> (r: String)
    ensures
        r@ == upper_seq(s@),
{
    let n = s.unicode_len();
    let mut out = String::new();
    let mut i: usize = 0;
    while i < n
        invariant
            n == s@.len(),
            i <= n,
            out@ == upper_seq(s@.take(i as int)),
        decreases n - i,
    {
        let c = s.get_char(i);
        let u = upper_char_exec(c);
        push_char(&mut out, u);
        proof {
            assert(s@.take(i + 1) =~= s@.take(i as int).push(s@[i as int]));
            assert(upper_seq(s@.take(i + 1)) =~= upper_seq(s@.take(i as int)).push(
                upper_char(s@[i as int]),
            ));
        }
        i += 1;
    }
    proof {
        assert(s@.take(n as int) =~= s@);
    }
    out
}

/// Decimal digit test.
pub open spec fn is_digit(c: char) -> bool {
    '0' <= c && c <= '9'
}

/// Numeric value of a decimal digit.
pub open spec fn digit_val(c: char) -> int {
    c as int - '0' as int
}

/// Whether a sequence is one or more decimal digits.
pub open spec fn all_digits(s: Seq<char>) -> bool {
    s.len() > 0 && forall|i: int| 0 <= i < s.len() ==> is_digit(#[trigger] s[i])
}

/// Value of a digit sequence read in base ten.
pub open spec fn digits_val(s: Seq<char>) -> int
    decreases s.len(),
{
    if s.len() == 0 {
        0
    } else {
        digits_val(s.drop_last()) * 10 + digit_val(s.last())
    }
}

/// What parsing a sequence as a non-negative 32-bit integer yields:
/// the digits' value when the whole sequence is digits and the value
/// fits, nothing otherwise.
pub open spec fn parse_i32_spec(s: Seq<char>) -> Option<int> {
    if all_digits(s) && digits_val(s) <= i32::MAX as int {
        Some(digits_val(s))
    } else {
        None
    }
}

proof fn lemma_digits_val_nonneg(s: Seq<char>)
    requires
        forall|i: int| 0 <= i < s.len() ==> is_digit(#[trigger] s[i]),
    ensures
        digits_val(s) >= 0,
    decreases s.len(),
{
    if s.len() > 0 {
        lemma_digits_val_nonneg(s.drop_last());
    }
}

/// Parse the character range `[from, to)` of `s` as a non-negative
/// decimal number that fits in an i32.
pub fn parse_i32_range(s: &str, from: usize, to: usize) -> (r: Option<i32>)
    requires
        from <= to <= s@.len(),
    ensures
        r is Some ==> parse_i32_spec(s@.subrange(from as int, to as int)) == Some(
            r->0 as int,
        ),
        r is None ==> parse_i32_spec(s@.subrange(from as int, to as int)) is None,
{
    if from == to {
        return None;
    }
    let ghost whole = s@.subrange(from as int, to as int);
    let mut acc: u64 = 0;
    let mut i: usize = from;
    while i < to
        invariant
            from <= i <= to <= s@.len(),
            whole == s@.subrange(from as int, to as int),
            all_digits(s@.subrange(from as int, i as int)) || i == from,
            acc as int == digits_val(s@.subrange(from as int, i as int)),
            acc <= i32::MAX,
        decreases to - i,
    {
        let c = s.get_char(i);
        if !('0' <= c && c <= '9') {
            proof {
                assert(whole[i - from] == c);
                assert(!all_digits(whole));
            }
            return None;
        }
        let d: u64 = (c as u8 - 48) as u64;
        proof {
            assert(d as int == digit_val(c));
        }
        let next: u64 = acc * 10 + d;
        proof {
            assert(s@.subrange(from as int, i + 1) =~= s@.subrange(from as int, i as int).push(
                s@[i as int],
            ));
            assert(s@.subrange(from as int, i + 1).drop_last() =~= s@.subrange(
                from as int,
                i as int,
            ));
        }
        if next > (i32::MAX as u64) {
            proof {
                let grown = s@.subrange(from as int, i + 1);
                assert(digits_val(grown) == next as int);
                lemma_digits_prefix_monotone(whole, grown);
            }
            return None;
        }
        acc = next;
        i += 1;
    }
    proof {
        assert(s@.subrange(from as int, to as int) =~= whole);
    }
    Some(acc as i32)
}

/// A digit sequence is worth at least the value of any of its prefixes,
/// so once a prefix overflows the whole overflows.
proof fn lemma_digits_prefix_monotone(whole: Seq<char>, prefix: Seq<char>)
    requires
        prefix.len() <= whole.len(),
        prefix =~= whole.subrange(0, prefix.len() as int),
        forall|i: int| 0 <= i < prefix.len() ==> is_digit(#[trigger] prefix[i]),
    ensures
        all_digits(whole) ==> digits_val(whole) >= digits_val(prefix),
    decreases whole.len() - prefix.len(),
{
    if all_digits(whole) {
        if prefix.len() < whole.len() {
            let ext = whole.subrange(0, prefix.len() as int + 1);
            assert(ext.drop_last() =~= prefix);
            lemma_digits_val_nonneg(prefix);
            assert(digits_val(ext) == digits_val(prefix) * 10 + digit_val(ext.last()));
            assert(digit_val(ext.last()) >= 0);
            assert(digits_val(ext) >= digits_val(prefix));
            lemma_digits_prefix_monotone(whole, ext);
        } else {
            assert(prefix =~= whole);
        }
    }
}

/// Whether the character occurs anywhere in the string.
pub fn contains_char(s: &str, c: char) -> (r: bool)
    ensures
        r == s@.contains(c),
{
    let n = s.unicode_len();
    let mut i: usize = 0;
    while i < n
        invariant
            n == s@.len(),
            i <= n,
            forall|j: int| 0 <= j < i ==> s@[j] != c,
        decreases n - i,
    {
        if s.get_char(i) == c {
            return true;
        }
        i += 1;
    }
    proof {
        if s@.contains(c) {
            let j = choose|j: int| 0 <= j < s@.len() && s@[j] == c;
            assert(s@[j] != c);
        }
    }
    false
}

/// A parsed digit sequence is never negative.
pub proof fn lemma_parse_nonneg(s: Seq<char>)
    ensures
        parse_i32_spec(s) is Some ==> parse_i32_spec(s)->0 >= 0,
{
    if all_digits(s) {
        lemma_digits_val_nonneg(s);
    }
}

/// The digit character for a value below ten.
pub open spec fn digit_char(d: nat) -> char {
    ((48 + d) as u8) as char
}

/// The decimal representation of a natural number, most significant
/// digit first, with no leading zeros (zero itself is "0").
pub open spec fn dec_digits(n: nat) -> Seq<char>
    decreases n,
{
    if n < 10 {
        seq![digit_char(n)]
    } else {
        dec_digits(n / 10).push(digit_char(n % 10))
    }
}

/// The decimal representation of an integer: a leading '-' for
/// negative values.
pub open spec fn dec_int(n: int) -> Seq<char> {
    if n < 0 {
        seq!['-'] + dec_digits((-n) as nat)
    } else {
        dec_digits(n as nat)
    }
}

fn push_u32_digits(out: &mut String, n: u32)
    ensures
        final(out)@ == old(out)@ + dec_digits(n as nat),
    decreases n,
{
    if n < 10 {
        push_char(out, ((48 + n) as u8) as char);
        proof {
            assert(old(out)@.push(digit_char(n as nat)) =~= old(out)@ + dec_digits(n as nat));
        }
    } else {
        push_u32_digits(out, n / 10);
        push_char(out, ((48 + n % 10) as u8) as char);
        proof {
            assert(old(out)@ + dec_digits(n as nat / 10).push(digit_char(n as nat % 10)) =~= (old(
                out,
            )@ + dec_digits(n as nat / 10)).push(digit_char(n as nat % 10)));
        }
    }
}

/// Append the decimal form of an integer.
pub fn push_i32(out: &mut String, n: i32)
    ensures
        final(out)@ == old(out)@ + dec_int(n as int),
{
    if n < 0 {
        push_char(out, '-');
        let m: u32 = (-(n as i64)) as u32;
        push_u32_digits(out, m);
        proof {
            assert(old(out)@.push('-') + dec_digits(m as nat) =~= old(out)@ + dec_int(n as int));
        }
    } else {
        push_u32_digits(out, n as u32);
    }
}

/// What parsing an optionally '-'-signed digit string yields.
pub open spec fn parse_signed_spec(s: Seq<char>) -> Option<int> {
    if s.len() > 0 && s[0] == '-' {
        match parse_i32_spec(s.drop_first()) {
            Some(v) => Some(-v),
            None => None,
        }
    } else {
        parse_i32_spec(s)
    }
}

/// Parse a whole string as an optionally signed decimal integer.
pub fn parse_signed(s: &str) -> (r: Option<i32>)
    ensures
        r matches Some(v) ==> parse_signed_spec(s@) == Some(v as int),
        r is None ==> parse_signed_spec(s@) is None,
{
    let n = s.unicode_len();
    if n > 0 && s.get_char(0) == '-' {
        proof {
            assert(s@.subrange(1, n as int) =~= s@.drop_first());
        }
        match parse_i32_range(s, 1, n) {
            Some(v) => {
                proof {
                    lemma_parse_nonneg(s@.drop_first());
                }
                Some(-v)
            },
            None => None,
        }
    } else {
        proof {
            assert(s@.subrange(0, n as int) =~= s@);
        }
        parse_i32_range(s, 0, n)
    }
}

/// The first '.' of the sequence sits at this position.
pub open spec fn first_dot_at(s: Seq<char>, i: int) -> bool {
    &&& 0 <= i < s.len()
    &&& s[i] == '.'
    &&& forall|j: int| 0 <= j < i ==> s[j] != '.'
}

/// The magnitude a digit string with an optional fractional part
/// truncates to: the value of the digits before the point, the
/// fraction discarded.
pub open spec fn decimal_mag_spec(s: Seq<char>) -> Option<int> {
    if exists|i: int| first_dot_at(s, i) {
        let i = choose|i: int| first_dot_at(s, i);
        if forall|j: int| i < j < s.len() ==> is_digit(#[trigger] s[j]) {
            parse_i32_spec(s.take(i))
        } else {
            None
        }
    } else {
        parse_i32_spec(s)
    }
}

/// What parsing an optionally signed decimal number and truncating
/// toward zero yields.
pub open spec fn parse_decimal_spec(s: Seq<char>) -> Option<int> {
    if s.len() > 0 && s[0] == '-' {
        match decimal_mag_spec(s.drop_first()) {
            Some(v) => Some(-v),
            None => None,
        }
    } else {
        decimal_mag_spec(s)
    }
}

proof fn lemma_first_dot_unique(s: Seq<char>, i: int, k: int)
    requires
        first_dot_at(s, i),
        first_dot_at(s, k),
    ensures
        i == k,
{
    if i < k {
        assert(s[i] != '.');
    }
    if k < i {
        assert(s[k] != '.');
    }
}

fn decimal_mag(s: &str, from: usize, n: usize) -> (r: Option<i32>)
    requires
        n == s@.len(),
        from <= n,
    ensures
        r matches Some(v) ==> decimal_mag_spec(s@.skip(from as int)) == Some(v as int),
        r is None ==> decimal_mag_spec(s@.skip(from as int)) is None,
{
    let ghost m = s@.skip(from as int);
    let mut i: usize = from;
    while i < n && s.get_char(i) != '.'
        invariant
            n == s@.len(),
            from <= i <= n,
            forall|j: int| from <= j < i ==> s@[j] != '.',
        decreases n - i,
    {
        i += 1;
    }
    if i == n {
        proof {
            assert forall|k: int| !first_dot_at(m, k) by {
                if 0 <= k < m.len() {
                    assert(m[k] == s@[from + k]);
                }
            }
            assert(s@.subrange(from as int, n as int) =~= m);
        }
        return parse_i32_range(s, from, n);
    }
    let dot: usize = i;
    let mut k: usize = dot + 1;
    let mut frac_ok: bool = true;
    while k < n
        invariant
            n == s@.len(),
            from <= dot < n,
            dot + 1 <= k <= n,
            frac_ok == (forall|j: int| dot < j < k ==> is_digit(#[trigger] s@[j])),
        decreases n - k,
    {
        let c = s.get_char(k);
        if !('0' <= c && c <= '9') {
            frac_ok = false;
        }
        k += 1;
    }
    proof {
        assert(m[dot - from] == s@[dot as int]);
        assert forall|j: int| 0 <= j < dot - from implies m[j] != '.' by {
            assert(m[j] == s@[from + j]);
        }
        assert(first_dot_at(m, dot - from));
        let i0 = choose|i0: int| first_dot_at(m, i0);
        lemma_first_dot_unique(m, i0, dot - from);
        if frac_ok {
            assert forall|j: int| (dot - from) < j < m.len() implies is_digit(
                #[trigger] m[j],
            ) by {
                assert(m[j] == s@[from + j]);
            }
            assert(s@.subrange(from as int, dot as int) =~= m.take(dot - from));
        } else {
            let bad = choose|j: int| dot < j < n && !is_digit(#[trigger] s@[j]);
            assert(m[bad - from] == s@[bad]);
            assert(!is_digit(m[bad - from]));
            assert(!(forall|j: int|
                (dot - from) < j < m.len() ==> is_digit(#[trigger] m[j])));
        }
    }
    if frac_ok {
        parse_i32_range(s, from, dot)
    } else {
        None
    }
}

/// Parse a decimal number, truncating any fractional part toward
/// zero.
pub fn parse_decimal_trunc(s: &str) -> (r: Option<i32>)
    ensures
        r matches Some(v) ==> parse_decimal_spec(s@) == Some(v as int),
        r is None ==> parse_decimal_spec(s@) is None,
{
    let n = s.unicode_len();
    if n > 0 && s.get_char(0) == '-' {
        proof {
            assert(s@.skip(1) =~= s@.drop_first());
        }
        match decimal_mag(s, 1, n) {
            Some(v) => {
                proof {
                    if exists|i: int| first_dot_at(s@.drop_first(), i) {
                        let i = choose|i: int| first_dot_at(s@.drop_first(), i);
                        lemma_parse_nonneg(s@.drop_first().take(i));
                    } else {
                        lemma_parse_nonneg(s@.drop_first());
                    }
                }
                Some(-v)
            },
            None => None,
        }
    } else {
        proof {
            assert(s@.skip(0) =~= s@);
        }
        decimal_mag(s, 0, n)
    }
}

/// Space, tab, carriage return and newline.
pub open spec fn is_space(c: char) -> bool {
    c == ' ' || c == '\t' || c == '\n' || c == '\r'
}

fn is_space_exec(c: char) -> (r: bool)
    ensures
        r == is_space(c),
{
    c == ' ' || c == '\t' || c == '\n' || c == '\r'
}

/// The sequence with leading spaces removed.
pub open spec fn trim_front_spec(s: Seq<char>) -> Seq<char>
    decreases s.len(),
{
    if s.len() > 0 && is_space(s[0]) {
        trim_front_spec(s.drop_first())
    } else {
        s
    }
}

/// The sequence with trailing spaces removed.
pub open spec fn trim_back_spec(s: Seq<char>) -> Seq<char>
    decreases s.len(),
{
    if s.len() > 0 && is_space(s.last()) {
        trim_back_spec(s.drop_last())
    } else {
        s
    }
}

/// The sequence with surrounding spaces removed.
pub open spec fn trim_spec(s: Seq<char>) -> Seq<char> {
    trim_back_spec(trim_front_spec(s))
}

proof fn lemma_trim_front_range(s: Seq<char>, k: int)
    requires
        0 <= k <= s.len(),
        forall|i: int| 0 <= i < k ==> is_space(#[trigger] s[i]),
        k < s.len() ==> !is_space(s[k]),
    ensures
        trim_front_spec(s) =~= s.skip(k),
    decreases k,
{
    if k > 0 {
        assert(is_space(s[0]));
        assert(trim_front_spec(s) == trim_front_spec(s.drop_first()));
        lemma_trim_front_range(s.drop_first(), k - 1);
        assert(s.drop_first().skip(k - 1) =~= s.skip(k));
    } else {
        if s.len() > 0 {
            assert(!is_space(s[0]));
        }
        assert(s.skip(0) =~= s);
    }
}

proof fn lemma_trim_back_range(s: Seq<char>, k: int)
    requires
        0 <= k <= s.len(),
        forall|i: int| k <= i < s.len() ==> is_space(#[trigger] s[i]),
        k > 0 ==> !is_space(s[k - 1]),
    ensures
        trim_back_spec(s) =~= s.take(k),
    decreases s.len() - k,
{
    if k < s.len() {
        assert(is_space(s.last()));
        assert(trim_back_spec(s) == trim_back_spec(s.drop_last()));
        lemma_trim_back_range(s.drop_last(), k);
        assert(s.drop_last().take(k) =~= s.take(k));
    } else {
        if s.len() > 0 {
            assert(!is_space(s[s.len() - 1]));
        }
        assert(s.take(s.len() as int) =~= s);
    }
}

/// Remove surrounding whitespace.
pub fn trim(s: &str) -> (r: String)
    ensures
        r@ == trim_spec(s@),
{
    let n = s.unicode_len();
    let mut start: usize = 0;
    while start < n && is_space_exec(s.get_char(start))
        invariant
            n == s@.len(),
            start <= n,
            forall|i: int| 0 <= i < start ==> is_space(#[trigger] s@[i]),
        decreases n - start,
    {
        start += 1;
    }
    let mut end: usize = n;
    while end > start && is_space_exec(s.get_char(end - 1))
        invariant
            n == s@.len(),
            start <= end <= n,
            forall|i: int| end <= i < n ==> is_space(#[trigger] s@[i]),
        decreases end,
    {
        end -= 1;
    }
    proof {
        lemma_trim_front_range(s@, start as int);
        let f = s@.skip(start as int);
        if end == start {
            lemma_trim_back_range(f, 0);
        } else {
            lemma_trim_back_range(f, end - start);
        }
        assert(f.take(end - start) =~= s@.subrange(start as int, end as int));
    }
    let sub = s.substring_char(start, end);
    sub.to_owned()
}

/// The sequence with every non-overlapping occurrence of `p`, scanned
/// left to right, removed.
pub open spec fn remove_all_spec(s: Seq<char>, p: Seq<char>) -> Seq<char>
    decreases s.len(),
{
    if p.len() == 0 || s.len() < p.len() {
        s
    } else if s.subrange(0, p.len() as int) == p {
        remove_all_spec(s.skip(p.len() as int), p)
    } else {
        seq![s[0]] + remove_all_spec(s.skip(1), p)
    }
}

/// Whether `p` occurs in `s` at character position `i`.
fn matches_at(s: &str, n: usize, i: usize, p: &str, m: usize) -> (r: bool)
    requires
        n == s@.len(),
        m == p@.len(),
        i <= n,
    ensures
        r == (i + m <= n && s@.subrange(i as int, i + m) =~= p@),
{
    if m > n - i {
        return false;
    }
    let mut j: usize = 0;
    while j < m
        invariant
            n == s@.len(),
            m == p@.len(),
            i + m <= n,
            j <= m,
            forall|k: int| 0 <= k < j ==> s@[i + k] == p@[k],
        decreases m - j,
    {
        if s.get_char(i + j) != p.get_char(j) {
            proof {
                assert(s@.subrange(i as int, i + m)[j as int] != p@[j as int]);
            }
            return false;
        }
        j += 1;
    }
    proof {
        assert(s@.subrange(i as int, i + m) =~= p@);
    }
    true
}

/// Remove every occurrence of `p` from `s`, scanning left to right.
pub fn remove_all(s: &str, p: &str) -> (r: String)
    requires
        p@.len() > 0,
    ensures
        r@ == remove_all_spec(s@, p@),
{
    let n = s.unicode_len();
    let m = p.unicode_len();
    let mut out = String::new();
    let mut i: usize = 0;
    proof {
        assert(s@.skip(0) =~= s@);
    }
    while i < n
        invariant
            n == s@.len(),
            m == p@.len(),
            m > 0,
            i <= n,
            out@ + remove_all_spec(s@.skip(i as int), p@) == remove_all_spec(s@, p@),
        decreases n - i,
    {
        let ghost rest = s@.skip(i as int);
        if matches_at(s, n, i, p, m) {
            proof {
                assert(rest.subrange(0, m as int) =~= s@.subrange(i as int, i + m));
                assert(rest.skip(m as int) =~= s@.skip(i + m));
                assert(remove_all_spec(rest, p@) == remove_all_spec(s@.skip(i + m), p@));
            }
            i += m;
        } else {
            let c = s.get_char(i);
            push_char(&mut out, c);
            proof {
                if rest.len() >= m {
                    assert(rest.subrange(0, m as int) =~= s@.subrange(i as int, i + m));
                    assert(rest.subrange(0, m as int) != p@);
                    assert(remove_all_spec(rest, p@) == seq![rest[0]] + remove_all_spec(
                        rest.skip(1),
                        p@,
                    ));
                } else {
                    assert(remove_all_spec(rest, p@) == rest);
                    assert(remove_all_spec(rest.skip(1), p@) =~= rest.skip(1));
                    assert(rest =~= seq![rest[0]] + rest.skip(1));
                }
                assert(rest[0] == s@[i as int]);
                assert(rest.skip(1) =~= s@.skip(i + 1));
                assert(out@ + remove_all_spec(s@.skip(i + 1), p@) == remove_all_spec(s@, p@));
            }
            i += 1;
        }
    }
    proof {
        assert(s@.skip(n as int) =~= Seq::<char>::empty());
        assert(remove_all_spec(s@.skip(n as int), p@) == s@.skip(n as int));
        assert(out@ + s@.skip(n as int) =~= out@);
    }
    out
}

} // verus!

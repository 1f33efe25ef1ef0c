//! Decimal text: formatting integers into strings, parsing them back, and
//! small character-level string utilities used by file names, console
//! commands and `server.properties` values.

use vstd::prelude::*;

verus! {

/// The character for a single decimal digit value.
pub open spec fn digit_char(d: int) -> char
    recommends
        0 <= d <= 9,
{
    ((d + 48) as u8) as char
}

/// The decimal digit sequence of a non-negative integer, most significant
/// digit first, with no leading zeros (a single `'0'` for zero).
pub open spec fn dec_digits(n: int) -> Seq<char>
    recommends
        n >= 0,
    decreases n,
{
    if n < 10 {
        seq![digit_char(n)]
    } else {
        dec_digits(n / 10).push(digit_char(n % 10))
    }
}

/// The decimal rendering of a signed integer: a leading `'-'` for negative
/// values, then the digits of the magnitude.
pub open spec fn dec_int(n: int) -> Seq<char> {
    if n < 0 {
        seq!['-'].add(dec_digits(-n))
    } else {
        dec_digits(n)
    }
}

pub open spec fn is_digit(c: char) -> bool {
    48 <= c as int <= 57
}

pub open spec fn digit_val(c: char) -> int {
    c as int - 48
}

pub open spec fn all_digits(s: Seq<char>) -> bool {
    forall|i: int| 0 <= i < s.len() ==> is_digit(#[trigger] s[i])
}

/// The numeric value of a digit string, read left to right.
pub open spec fn dec_value(s: Seq<char>) -> int
    decreases s.len(),
{
    if s.len() == 0 {
        0
    } else {
        dec_value(s.drop_last()) * 10 + digit_val(s.last())
    }
}

/// The digit part of a possibly-signed decimal string.
pub open spec fn dec_body(s: Seq<char>) -> Seq<char> {
    if s.len() > 0 && s[0] == '-' {
        s.subrange(1, s.len() as int)
    } else {
        s
    }
}

/// The sign of a possibly-signed decimal string.
pub open spec fn dec_sign(s: Seq<char>) -> int {
    if s.len() > 0 && s[0] == '-' {
        -1
    } else {
        1
    }
}

/// Whether `s` is an optional `'-'` followed by one or more digits.
pub open spec fn is_dec_string(s: Seq<char>) -> bool {
    dec_body(s).len() > 0 && all_digits(dec_body(s))
}

/// The signed value of a decimal string.
pub open spec fn dec_string_value(s: Seq<char>) -> int {
    dec_sign(s) * dec_value(dec_body(s))
}

pub proof fn lemma_dec_value_nonneg(s: Seq<char>)
    requires
        all_digits(s),
    ensures
        dec_value(s) >= 0,
    decreases s.len(),
{
    if s.len() > 0 {
        assert(all_digits(s.drop_last())) by {
            assert(forall|i: int|
                0 <= i < s.len() - 1 ==> #[trigger] s.drop_last()[i] == s[i]);
        }
        lemma_dec_value_nonneg(s.drop_last());
    }
}

pub proof fn lemma_dec_value_take_step(s: Seq<char>, i: int)
    requires
        0 <= i < s.len(),
    ensures
        dec_value(s.take(i + 1)) == 10 * dec_value(s.take(i)) + digit_val(s[i]),
{
    assert(s.take(i + 1).drop_last() =~= s.take(i));
    assert(s.take(i + 1).last() == s[i]);
}

/// More digits never shrink the value: the value of a digit-string prefix is
/// a lower bound for the value of the whole string.
pub proof fn lemma_dec_value_take_mono(s: Seq<char>, i: int)
    requires
        all_digits(s),
        0 <= i <= s.len(),
    ensures
        dec_value(s.take(i)) <= dec_value(s),
    decreases s.len() - i,
{
    if i < s.len() {
        assert(all_digits(s.take(i))) by {
            assert(forall|j: int| 0 <= j < i ==> #[trigger] s.take(i)[j] == s[j]);
        }
        lemma_dec_value_nonneg(s.take(i));
        lemma_dec_value_take_step(s, i);
        lemma_dec_value_take_mono(s, i + 1);
        assert(s.take(s.len() as int) =~= s);
    } else {
        assert(s.take(i) =~= s);
    }
}

/// Formatting then reading back is the identity: the decimal digits of `n`
/// form a digit string whose value is `n`.
pub proof fn lemma_dec_digits_value(n: int)
    requires
        n >= 0,
    ensures
        all_digits(dec_digits(n)),
        dec_value(dec_digits(n)) == n,
        dec_digits(n).len() >= 1,
        dec_digits(n)[0] != '-',
    decreases n,
{
    if n < 10 {
        assert(dec_digits(n) =~= seq![digit_char(n)]);
        assert(dec_value(dec_digits(n)) == dec_value(seq![digit_char(n)].drop_last()) * 10
            + digit_val(digit_char(n)));
        assert(seq![digit_char(n)].drop_last() =~= Seq::<char>::empty());
        assert(digit_val(digit_char(n)) == n);
    } else {
        lemma_dec_digits_value(n / 10);
        let d = dec_digits(n);
        assert(d.drop_last() =~= dec_digits(n / 10));
        assert(d.last() == digit_char(n % 10));
        assert(digit_val(digit_char(n % 10)) == n % 10);
        assert(dec_value(d) == (n / 10) * 10 + n % 10);
        assert((n / 10) * 10 + n % 10 == n) by (nonlinear_arith);
        assert(forall|i: int|
            0 <= i < d.len() - 1 ==> #[trigger] d[i] == dec_digits(n / 10)[i]);
        assert(is_digit(d.last()));
    }
}

/// The decimal rendering of any integer parses back to that integer.
pub proof fn lemma_dec_int_value(n: int)
    ensures
        is_dec_string(dec_int(n)),
        dec_string_value(dec_int(n)) == n,
{
    if n < 0 {
        lemma_dec_digits_value(-n);
        assert(dec_body(dec_int(n)) =~= dec_digits(-n));
    } else {
        lemma_dec_digits_value(n);
        assert(dec_digits(n)[0] != '-');
        assert(dec_body(dec_int(n)) =~= dec_digits(n));
    }
}

/// Relies on `String::push`: appends one character to the string.
#[verifier::external_body]
pub fn push_char(s: &mut String, c: char)
    ensures
        final(s)@ == old(s)@.push(c),
{
    s.push(c);
}

fn digit_char_exec(d: u8) -> (c: char)
    requires
        d <= 9,
    ensures
        c == digit_char(d as int),
{
    (d + 48) as char
}

/// Appends the decimal digits of `n` to `s`.
pub fn push_dec_u64(s: &mut String, n: u64)
    ensures
        final(s)@ == old(s)@ + dec_digits(n as int),
    decreases n,
{
    if n < 10 {
        push_char(s, digit_char_exec(n as u8));
        assert(s@ =~= old(s)@ + dec_digits(n as int));
    } else {
        push_dec_u64(s, n / 10);
        push_char(s, digit_char_exec((n % 10) as u8));
        assert(s@ =~= old(s)@ + dec_digits(n as int));
    }
}

/// The decimal rendering of an unsigned integer.
pub fn u64_to_string(n: u64) -> (s: String)
    ensures
        s@ == dec_digits(n as int),
{
    let mut s = String::new();
    push_dec_u64(&mut s, n);
    proof {
        assert(s@ =~= dec_digits(n as int));
    }
    s
}

/// Appends the decimal rendering of a signed integer to `s`.
pub fn push_dec_i64(s: &mut String, n: i64)
    ensures
        final(s)@ == old(s)@ + dec_int(n as int),
{
    if n < 0 {
        push_char(s, '-');
        let mag: u64 = (-(n as i128)) as u64;
        push_dec_u64(s, mag);
        assert(s@ =~= old(s)@ + dec_int(n as int));
    } else {
        push_dec_u64(s, n as u64);
    }
}

/// Appends the decimal digits of `n` to `s`.
pub fn push_dec_u128(s: &mut String, n: u128)
    ensures
        final(s)@ == old(s)@ + dec_digits(n as int),
    decreases n,
{
    if n < 10 {
        push_char(s, digit_char_exec(n as u8));
        assert(s@ =~= old(s)@ + dec_digits(n as int));
    } else {
        push_dec_u128(s, n / 10);
        push_char(s, digit_char_exec((n % 10) as u8));
        assert(s@ =~= old(s)@ + dec_digits(n as int));
    }
}

/// Appends the decimal rendering of a signed integer to `s`.
pub fn push_dec_i128(s: &mut String, n: i128)
    requires
        i128::MIN < n,
    ensures
        final(s)@ == old(s)@ + dec_int(n as int),
{
    if n < 0 {
        push_char(s, '-');
        push_dec_u128(s, (-n) as u128);
        assert(s@ =~= old(s)@ + dec_int(n as int));
    } else {
        push_dec_u128(s, n as u128);
    }
}

/// The decimal rendering of a signed integer.
pub fn i64_to_string(n: i64) -> (s: String)
    ensures
        s@ == dec_int(n as int),
{
    let mut s = String::new();
    push_dec_i64(&mut s, n);
    proof {
        assert(s@ =~= dec_int(n as int));
    }
    s
}

/// Whether two string slices hold the same characters.
pub fn str_eq(a: &str, b: &str) -> (r: bool)
    ensures
        r == (a@ == b@),
{
    let la = a.unicode_len();
    let lb = b.unicode_len();
    if la != lb {
        proof {
            assert(a@ != b@) by {
                if a@ == b@ {
                    assert(a@.len() == b@.len());
                }
            }
        }
        return false;
    }
    let mut i: usize = 0;
    while i < la
        invariant
            a@.len() == la,
            b@.len() == la,
            0 <= i <= la,
            forall|j: int| 0 <= j < i ==> a@[j] == b@[j],
        decreases la - i,
    {
        if a.get_char(i) != b.get_char(i) {
            proof {
                assert(a@[i as int] != b@[i as int]);
            }
            return false;
        }
        i = i + 1;
    }
    proof {
        assert(a@ =~= b@);
    }
    true
}

/// Whether `s` ends with the characters of `suffix`.
pub fn str_ends_with(s: &str, suffix: &str) -> (r: bool)
    ensures
        r == (s@.len() >= suffix@.len() && s@.subrange(
            s@.len() - suffix@.len(),
            s@.len() as int,
        ) == suffix@),
{
    let ls = s.unicode_len();
    let lf = suffix.unicode_len();
    if ls < lf {
        return false;
    }
    let base = ls - lf;
    let mut i: usize = 0;
    while i < lf
        invariant
            s@.len() == ls,
            suffix@.len() == lf,
            base == ls - lf,
            0 <= i <= lf,
            forall|j: int| 0 <= j < i ==> s@[base + j] == suffix@[j],
        decreases lf - i,
    {
        if s.get_char(base + i) != suffix.get_char(i) {
            proof {
                let tail = s@.subrange(s@.len() - suffix@.len(), s@.len() as int);
                assert(tail[i as int] == s@[base + i]);
            }
            return false;
        }
        i = i + 1;
    }
    proof {
        assert(s@.subrange(s@.len() - suffix@.len(), s@.len() as int) =~= suffix@);
    }
    true
}

/// Parses a possibly-signed decimal string as an `i64` in the given closed
/// range. Returns the value exactly when the string is an optional `'-'`
/// followed by one or more digits and its value lies within the range.
pub fn parse_dec_in_range(s: &str, lo: i64, hi: i64) -> (r: Option<i64>)
    requires
        -0x4000_0000_0000_0000 <= lo < 0 < hi <= 0x4000_0000_0000_0000,
    ensures
        match r {
            Some(v) => is_dec_string(s@) && lo as int <= dec_string_value(s@) <= hi as int && v
                as int == dec_string_value(s@),
            None => !(is_dec_string(s@) && lo as int <= dec_string_value(s@) <= hi as int),
        },
{
    let len = s.unicode_len();
    if len == 0 {
        return None;
    }
    let neg = s.get_char(0) == '-';
    let start: usize = if neg {
        1
    } else {
        0
    };
    if start == len {
        return None;
    }
    let ghost body = dec_body(s@);
    proof {
        assert(body =~= s@.subrange(start as int, len as int));
    }
    let bound: i64 = if neg {
        -lo
    } else {
        hi
    };
    let mut acc: i64 = 0;
    let mut i: usize = start;
    while i < len
        invariant
            s@.len() == len,
            start <= i <= len,
            start == if neg {
                1int
            } else {
                0int
            },
            neg ==> s@[0] == '-',
            body == dec_body(s@),
            body == s@.subrange(start as int, len as int),
            all_digits(body.take(i - start)),
            0 <= acc,
            acc as int == dec_value(body.take(i - start)),
            0 < bound <= 0x4000_0000_0000_0000,
            bound as int == if neg {
                -(lo as int)
            } else {
                hi as int
            },
            -0x4000_0000_0000_0000 <= lo < 0 < hi <= 0x4000_0000_0000_0000,
            acc <= bound,
        decreases len - i,
    {
        let c = s.get_char(i);
        let cv = c as u32;
        if cv < 48 || cv > 57 {
            proof {
                assert(body[i - start] == s@[i as int]);
                assert(!is_digit(body[i - start]));
            }
            return None;
        }
        let d: i64 = (cv - 48) as i64;
        proof {
            lemma_dec_value_take_step(body, i - start);
            assert(body[i - start] == s@[i as int]);
            assert(digit_val(body[i - start]) == d as int);
        }
        let over = if acc >= 0x0800_0000_0000_0000 {
            true
        } else {
            acc * 10 + d > bound
        };
        if over {
            // The accumulated magnitude already exceeds the bound, and
            // further digits can only grow it.
            proof {
                assert(10 * (acc as int) + d > bound as int);
                if all_digits(body) {
                    assert(dec_value(body.take(i - start + 1)) == 10 * (acc as int) + d);
                    lemma_dec_value_take_mono(body, i - start + 1);
                    assert(dec_value(body) >= dec_value(body.take(i - start + 1)));
                    assert(dec_value(body) > bound as int);
                    if neg {
                        assert(dec_string_value(s@) == -dec_value(body));
                        assert(dec_value(body) > -(lo as int));
                    } else {
                        assert(dec_string_value(s@) == dec_value(body));
                        assert(dec_value(body) > hi as int);
                    }
                }
            }
            return None;
        }
        acc = acc * 10 + d;
        i = i + 1;
    }
    proof {
        assert(body.take(len - start) =~= body);
        assert(is_dec_string(s@));
    }
    if neg {
        proof {
            assert(dec_string_value(s@) == -(acc as int));
        }
        Some(-acc)
    } else {
        Some(acc)
    }
}

/// Parses a possibly-signed decimal string as an `i32`: `Some` exactly on
/// strings of the form `-?[0-9]+` whose value fits in an `i32`.
pub fn parse_i32(s: &str) -> (r: Option<i32>)
    ensures
        match r {
            Some(v) => is_dec_string(s@) && v as int == dec_string_value(s@),
            None => !(is_dec_string(s@) && i32::MIN as int <= dec_string_value(s@)
                <= i32::MAX as int),
        },
{
    match parse_dec_in_range(s, -0x8000_0000i64, 0x7fff_ffffi64) {
        Some(v) => Some(v as i32),
        None => None,
    }
}

/// Splitting a character sequence on a separator, keeping empty parts, as
/// `str::split` does: the result always holds at least one part.
pub open spec fn split_on(s: Seq<char>, sep: char) -> Seq<Seq<char>>
    decreases s.len(),
{
    if s.len() == 0 {
        seq![Seq::<char>::empty()]
    } else {
        let rest = split_on(s.subrange(1, s.len() as int), sep);
        if s[0] == sep {
            seq![Seq::<char>::empty()].add(rest)
        } else {
            seq![seq![s[0]].add(rest[0])].add(rest.subrange(1, rest.len() as int))
        }
    }
}

pub proof fn lemma_split_on_len(s: Seq<char>, sep: char)
    ensures
        split_on(s, sep).len() >= 1,
    decreases s.len(),
{
    if s.len() > 0 {
        lemma_split_on_len(s.subrange(1, s.len() as int), sep);
    }
}

/// Joining parts with a separator between consecutive parts.
pub open spec fn join_with(parts: Seq<Seq<char>>, sep: char) -> Seq<char>
    decreases parts.len(),
{
    if parts.len() == 0 {
        Seq::<char>::empty()
    } else if parts.len() == 1 {
        parts[0]
    } else {
        parts[0] + seq![sep] + join_with(parts.subrange(1, parts.len() as int), sep)
    }
}

/// Splitting a string that begins with a separator-free part `p` followed by
/// the separator yields `p` and then the split of the remainder.
pub proof fn lemma_split_on_concat(p: Seq<char>, t: Seq<char>, sep: char)
    requires
        forall|i: int| 0 <= i < p.len() ==> #[trigger] p[i] != sep,
    ensures
        split_on(p + seq![sep] + t, sep) == seq![p].add(split_on(t, sep)),
    decreases p.len(),
{
    let s = p + seq![sep] + t;
    if p.len() == 0 {
        assert(s =~= seq![sep].add(t));
        assert(s[0] == sep);
        assert(s.len() > 0);
        let sub = s.subrange(1, s.len() as int);
        assert(sub =~= t);
        assert(sub == t);
        assert(split_on(sub, sep) == split_on(t, sep));
        assert(split_on(s, sep) == seq![Seq::<char>::empty()].add(split_on(sub, sep)));
        assert(split_on(s, sep) == seq![Seq::<char>::empty()].add(split_on(t, sep)));
        assert(seq![p].add(split_on(t, sep)) =~~= seq![Seq::<char>::empty()].add(
            split_on(t, sep),
        ));
    } else {
        let p1 = p.subrange(1, p.len() as int);
        lemma_split_on_concat(p1, t, sep);
        assert(s[0] == p[0]);
        assert(s[0] != sep);
        assert(s.subrange(1, s.len() as int) =~= p1 + seq![sep] + t);
        let rest = split_on(p1 + seq![sep] + t, sep);
        assert(rest == seq![p1].add(split_on(t, sep)));
        assert(rest[0] == p1);
        assert(seq![s[0]].add(rest[0]) =~= p);
        assert(rest.subrange(1, rest.len() as int) =~= split_on(t, sep));
        assert(split_on(s, sep) =~~= seq![p].add(split_on(t, sep)));
    }
}

/// Splitting undoes joining: joining separator-free parts with the separator
/// and splitting again yields the same parts.
pub proof fn lemma_split_join(parts: Seq<Seq<char>>, sep: char)
    requires
        parts.len() >= 1,
        forall|i: int, j: int|
            0 <= i < parts.len() && 0 <= j < parts[i].len() ==> #[trigger] parts[i][j] != sep,
    ensures
        split_on(join_with(parts, sep), sep) == parts,
    decreases parts.len(),
{
    if parts.len() == 1 {
        lemma_split_no_sep(parts[0], sep);
        assert(join_with(parts, sep) == parts[0]);
        assert(split_on(parts[0], sep) =~= seq![parts[0]]);
        assert(seq![parts[0]] =~= parts);
    } else {
        let tail = parts.subrange(1, parts.len() as int);
        lemma_split_join(tail, sep);
        assert(forall|i: int| 0 <= i < parts[0].len() ==> #[trigger] parts[0][i] != sep);
        lemma_split_on_concat(parts[0], join_with(tail, sep), sep);
        assert(seq![parts[0]].add(tail) =~= parts);
    }
}

/// Splitting a separator-free string yields that string as the only part.
pub proof fn lemma_split_no_sep(p: Seq<char>, sep: char)
    requires
        forall|i: int| 0 <= i < p.len() ==> #[trigger] p[i] != sep,
    ensures
        split_on(p, sep) == seq![p],
    decreases p.len(),
{
    if p.len() == 0 {
        assert(split_on(p, sep) =~~= seq![p]);
    } else {
        let p1 = p.subrange(1, p.len() as int);
        lemma_split_no_sep(p1, sep);
        assert(split_on(p, sep) =~~= seq![seq![p[0]].add(p1)]);
        assert(seq![p[0]].add(p1) =~= p);
    }
}

/// Splits `s` on the separator character, keeping empty parts.
pub fn split_chars(s: &str, sep: char) -> (parts: Vec<String>)
    ensures
        parts.deep_view() == split_on(s@, sep),
        parts.len() >= 1,
{
    let len = s.unicode_len();
    let r = split_chars_from(s, 0, sep);
    proof {
        assert(s@.subrange(0, s@.len() as int) =~= s@);
    }
    r
}

fn split_chars_from(s: &str, from: usize, sep: char) -> (parts: Vec<String>)
    requires
        from <= s@.len(),
    ensures
        parts.deep_view() == split_on(s@.subrange(from as int, s@.len() as int), sep),
        parts.len() >= 1,
    decreases s@.len() - from,
{
    let len = s.unicode_len();
    let ghost tail = s@.subrange(from as int, s@.len() as int);
    if from == len {
        let mut parts: Vec<String> = Vec::new();
        parts.push(String::new());
        proof {
            assert(tail =~= Seq::<char>::empty());
            assert(parts.deep_view() =~~= split_on(tail, sep));
        }
        parts
    } else {
        let c = s.get_char(from);
        let mut rest = split_chars_from(s, from + 1, sep);
        let ghost tail1 = s@.subrange(from + 1, s@.len() as int);
        proof {
            assert(tail.subrange(1, tail.len() as int) =~= tail1);
        }
        if c == sep {
            rest.insert(0, String::new());
            proof {
                assert(rest.deep_view() =~~= split_on(tail, sep));
            }
            rest
        } else {
            let mut first = String::new();
            push_char(&mut first, c);
            let old_first = rest.remove(0);
            first.append(old_first.as_str());
            rest.insert(0, first);
            proof {
                assert(first@ =~= seq![tail[0]].add(split_on(tail1, sep)[0]));
                assert(rest.deep_view() =~~= split_on(tail, sep));
            }
            rest
        }
    }
}

/// Joins parts with the separator between consecutive parts.
pub fn join_strings(parts: &Vec<String>, sep: char) -> (s: String)
    ensures
        s@ == join_with(parts.deep_view(), sep),
{
    let mut s = String::new();
    let mut i: usize = 0;
    proof {
        assert(join_with(parts.deep_view().take(0), sep) =~= Seq::<char>::empty());
    }
    while i < parts.len()
        invariant
            0 <= i <= parts.len(),
            s@ == join_with(parts.deep_view().take(i as int), sep),
        decreases parts.len() - i,
    {
        if i > 0 {
            push_char(&mut s, sep);
        }
        let p = &parts[i];
        let ghost pre = s@;
        append_str(&mut s, p.as_str());
        proof {
            lemma_join_with_snoc(parts.deep_view(), i as int, sep);
        }
        i = i + 1;
    }
    proof {
        assert(parts.deep_view().take(parts.len() as int) =~= parts.deep_view());
    }
    s
}

/// Appends the characters of `t` to `s`.
pub fn append_str(s: &mut String, t: &str)
    ensures
        final(s)@ == old(s)@ + t@,
{
    s.append(t);
}

proof fn lemma_join_with_snoc(parts: Seq<Seq<char>>, i: int, sep: char)
    requires
        0 <= i < parts.len(),
    ensures
        i == 0 ==> join_with(parts.take(1), sep) == join_with(parts.take(0), sep) + parts[0],
        i > 0 ==> join_with(parts.take(i + 1), sep) == join_with(parts.take(i), sep) + seq![sep]
            + parts[i],
    decreases i,
{
    if i == 0 {
        assert(parts.take(1) =~= seq![parts[0]]);
        assert(join_with(parts.take(1), sep) == parts[0]);
        assert(join_with(parts.take(0), sep) + parts[0] =~= parts[0]);
    } else {
        let a = parts.take(i + 1);
        let b = parts.take(i);
        assert(a.len() >= 2);
        assert(b.len() >= 1);
        let a1 = a.subrange(1, a.len() as int);
        let b1 = b.subrange(1, b.len() as int);
        let shifted = parts.subrange(1, parts.len() as int);
        assert(a1 =~= shifted.take(i));
        assert(b1 =~= shifted.take(i - 1));
        lemma_join_with_snoc(shifted, i - 1, sep);
        if i == 1 {
            assert(join_with(a, sep) == a[0] + seq![sep] + join_with(a1, sep));
            assert(a1 =~= seq![shifted[0]]);
            assert(join_with(a1, sep) == shifted[0]);
            assert(join_with(b, sep) == b[0]);
            assert(join_with(a, sep) =~= join_with(b, sep) + seq![sep] + parts[1]);
        } else {
            assert(join_with(a, sep) == a[0] + seq![sep] + join_with(a1, sep));
            assert(join_with(b, sep) == b[0] + seq![sep] + join_with(b1, sep));
            assert(join_with(a1, sep) == join_with(b1, sep) + seq![sep] + shifted[i - 1]);
            assert(shifted[i - 1] == parts[i]);
            assert(join_with(a, sep) =~= join_with(b, sep) + seq![sep] + parts[i]);
        }
    }
}

} // verus!

//! Character-level text utilities shared by the puzzle modules: turning a
//! `&str` into a vector of characters, splitting on a separator, and parsing
//! decimal numbers, each with an exact specification.

use vstd::prelude::*;
use vstd::string::*;

verus! {

/// Splits `s` on `sep`. Mirrors `str::split`: the result always holds at
/// least one token, and an empty input yields one empty token.
pub open spec fn split_on(s: Seq<char>, sep: char) -> Seq<Seq<char>>
    decreases s.len(),
{
    if s.len() == 0 {
        seq![Seq::<char>::empty()]
    } else {
        let rest = split_on(s.drop_first(), sep);
        if s[0] == sep {
            seq![Seq::<char>::empty()] + rest
        } else {
            seq![seq![s[0]] + rest[0]] + rest.drop_first()
        }
    }
}

pub proof fn lemma_split_on_nonempty(s: Seq<char>, sep: char)
    ensures
        split_on(s, sep).len() >= 1,
    decreases s.len(),
{
    if s.len() != 0 {
        lemma_split_on_nonempty(s.drop_first(), sep);
    }
}

/// A separator-free sequence splits into the single token it is.
pub proof fn lemma_split_on_no_sep(t: Seq<char>, sep: char)
    requires
        forall|i: int| 0 <= i < t.len() ==> t[i] != sep,
    ensures
        split_on(t, sep) == seq![t],
    decreases t.len(),
{
    if t.len() == 0 {
        assert(split_on(t, sep) =~~= seq![t]);
    } else {
        lemma_split_on_no_sep(t.drop_first(), sep);
        assert(seq![t[0]] + t.drop_first() =~= t);
        assert(split_on(t, sep) =~~= seq![t]);
    }
}

/// Peeling the first token off a split: a separator-free prefix, the
/// separator, then the remainder.
pub proof fn lemma_split_on_append(t: Seq<char>, sep: char, r: Seq<char>)
    requires
        forall|i: int| 0 <= i < t.len() ==> t[i] != sep,
    ensures
        split_on(t + seq![sep] + r, sep) == seq![t] + split_on(r, sep),
    decreases t.len(),
{
    let s = t + seq![sep] + r;
    if t.len() == 0 {
        assert(s[0] == sep);
        assert(s.drop_first() =~= r);
        assert(split_on(s, sep) =~~= seq![t] + split_on(r, sep));
    } else {
        lemma_split_on_append(t.drop_first(), sep, r);
        assert(s[0] == t[0]);
        assert(s.drop_first() =~= t.drop_first() + seq![sep] + r);
        let rest = split_on(s.drop_first(), sep);
        assert(rest == seq![t.drop_first()] + split_on(r, sep));
        assert(rest[0] == t.drop_first());
        assert(seq![s[0]] + rest[0] =~= t);
        assert(rest.drop_first() =~= split_on(r, sep));
        assert(split_on(s, sep) =~~= seq![t] + split_on(r, sep));
    }
}

/// The characters of `s`, in order.
pub fn str_to_chars(s: &str) -> (r: Vec<char>)
    ensures
        r@ == s@,
{
    let n = s.unicode_len();
    let mut r: Vec<char> = Vec::new();
    let mut i: usize = 0;
    while i < n
        invariant
            n == s@.len(),
            i <= n,
            r@ == s@.subrange(0, i as int),
        decreases n - i,
    {
        r.push(s.get_char(i));
        i = i + 1;
        assert(r@ =~= s@.subrange(0, i as int));
    }
    assert(r@ =~= s@);
    r
}

/// Splits `v` on `sep`, exactly as `split_on` describes.
pub fn split_chars(v: &Vec<char>, sep: char) -> (r: Vec<Vec<char>>)
    ensures
        r@.len() == split_on(v@, sep).len(),
        forall|i: int| 0 <= i < r@.len() ==> #[trigger] r@[i]@ == split_on(v@, sep)[i],
{
    let ghost full = split_on(v@, sep);
    let mut done: Vec<Vec<char>> = Vec::new();
    let mut cur: Vec<char> = Vec::new();
    let mut j: usize = 0;
    proof {
        assert(cur@ + v@.skip(0) =~= v@);
    }
    while j < v.len()
        invariant
            j <= v@.len(),
            forall|i: int| 0 <= i < cur@.len() ==> cur@[i] != sep,
            full == split_on(v@, sep),
            full =~~= done@.map_values(|t: Vec<char>| t@) + split_on(
                cur@ + v@.skip(j as int),
                sep,
            ),
        decreases v@.len() - j,
    {
        let c = v[j];
        if c == sep {
            proof {
                assert(cur@ + v@.skip(j as int) =~= cur@ + seq![sep] + v@.skip(j + 1));
                lemma_split_on_append(cur@, sep, v@.skip(j + 1));
            }
            let ghost old_done = done@;
            let ghost old_cur = cur@;
            done.push(cur);
            cur = Vec::new();
            j = j + 1;
            proof {
                assert(done@.map_values(|t: Vec<char>| t@) =~= old_done.map_values(
                    |t: Vec<char>| t@,
                ) + seq![old_cur]);
                assert(cur@ + v@.skip(j as int) =~= v@.skip(j as int));
                assert(full =~~= done@.map_values(|t: Vec<char>| t@) + split_on(
                    v@.skip(j as int),
                    sep,
                ));
            }
        } else {
            let ghost old_cur = cur@;
            cur.push(c);
            j = j + 1;
            proof {
                assert(cur@ + v@.skip(j as int) =~= old_cur + v@.skip(j - 1));
            }
        }
    }
    proof {
        assert(cur@ + v@.skip(j as int) =~= cur@);
        lemma_split_on_no_sep(cur@, sep);
    }
    let ghost old_done = done@;
    let ghost last_cur = cur@;
    done.push(cur);
    proof {
        assert(done@.map_values(|t: Vec<char>| t@) =~= old_done.map_values(|t: Vec<char>| t@)
            + seq![last_cur]);
        assert(full =~~= done@.map_values(|t: Vec<char>| t@));
    }
    done
}

/// The lines of an input text: split on `'\n'`, with a single trailing
/// newline tolerated.
pub open spec fn lines_of(s: Seq<char>) -> Seq<Seq<char>> {
    if s.len() > 0 && s[s.len() - 1] == '\n' {
        split_on(s.drop_last(), '\n')
    } else {
        split_on(s, '\n')
    }
}

/// The lines of `s`, exactly as `lines_of` describes.
pub fn to_lines(s: &str) -> (r: Vec<Vec<char>>)
    ensures
        r@.len() == lines_of(s@).len(),
        forall|i: int| 0 <= i < r@.len() ==> #[trigger] r@[i]@ == lines_of(s@)[i],
{
    let mut v = str_to_chars(s);
    if v.len() > 0 {
        let last = v[v.len() - 1];
        if last == '\n' {
            v.pop();
            assert(v@ =~= s@.drop_last());
        }
    }
    split_chars(&v, '\n')
}

pub open spec fn is_digit(c: char) -> bool {
    48 <= c as u32 && c as u32 <= 57
}

pub open spec fn digit_val(c: char) -> int {
    c as u32 - 48
}

/// A non-empty, all-digit sequence.
pub open spec fn is_digits(s: Seq<char>) -> bool {
    s.len() > 0 && forall|i: int| 0 <= i < s.len() ==> is_digit(#[trigger] s[i])
}

/// The value of a digit sequence read in base ten.
pub open spec fn digits_val(s: Seq<char>) -> int
    decreases s.len(),
{
    if s.len() == 0 {
        0
    } else {
        digits_val(s.drop_last()) * 10 + digit_val(s.last())
    }
}

pub open spec fn pow10(n: nat) -> int
    decreases n,
{
    if n == 0 {
        1
    } else {
        10 * pow10((n - 1) as nat)
    }
}

pub proof fn lemma_digits_val_bound(s: Seq<char>)
    requires
        forall|i: int| 0 <= i < s.len() ==> is_digit(#[trigger] s[i]),
    ensures
        0 <= digits_val(s) < pow10(s.len()),
    decreases s.len(),
{
    if s.len() > 0 {
        lemma_digits_val_bound(s.drop_last());
    }
}

/// Parses `v[lo..hi]` as an unsigned decimal number of at most 19 digits
/// (every such number fits in a `u64`).
pub fn parse_u64_range(v: &Vec<char>, lo: usize, hi: usize) -> (r: Option<u64>)
    requires
        lo <= hi <= v@.len(),
    ensures
        ({
            let t = v@.subrange(lo as int, hi as int);
            match r {
                Some(x) => is_digits(t) && t.len() <= 19 && x == digits_val(t),
                None => !(is_digits(t) && t.len() <= 19),
            }
        }),
{
    let ghost t = v@.subrange(lo as int, hi as int);
    if hi == lo || hi - lo > 19 {
        return None;
    }
    let mut acc: u64 = 0;
    let mut j: usize = lo;
    while j < hi
        invariant
            lo <= j <= hi <= v@.len(),
            hi - lo <= 19,
            t == v@.subrange(lo as int, hi as int),
            forall|i: int| lo <= i < j ==> is_digit(#[trigger] v@[i]),
            acc == digits_val(v@.subrange(lo as int, j as int)),
        decreases hi - j,
    {
        let c = v[j];
        let u = c as u32;
        if u < 48 || u > 57 {
            assert(!is_digit(t[j - lo]));
            return None;
        }
        assert(is_digit(v@[j as int]));
        let ghost pre = v@.subrange(lo as int, j as int);
        proof {
            lemma_digits_val_bound(pre);
            assert(pre.len() <= 18);
            lemma_pow10_mono(pre.len(), 18);
            assert(pow10(18) == 1_000_000_000_000_000_000) by {
                reveal_with_fuel(pow10, 19);
            }
        }
        acc = acc * 10 + (u - 48) as u64;
        j = j + 1;
        proof {
            let now = v@.subrange(lo as int, j as int);
            assert(now.drop_last() =~= pre);
            assert(now.last() == v@[j - 1]);
            assert(digit_val(v@[j - 1]) == u - 48);
            assert(acc == digits_val(now));
        }
    }
    proof {
        assert(v@.subrange(lo as int, j as int) =~= t);
        assert(is_digits(t));
    }
    Some(acc)
}

pub proof fn lemma_pow10_mono(a: nat, b: nat)
    requires
        a <= b,
    ensures
        pow10(a) <= pow10(b),
    decreases b,
{
    if a < b {
        lemma_pow10_mono(a, (b - 1) as nat);
        assert(pow10(a) >= 1) by {
            lemma_pow10_pos(a);
        }
    }
}

pub proof fn lemma_pow10_pos(n: nat)
    ensures
        pow10(n) >= 1,
    decreases n,
{
    if n > 0 {
        lemma_pow10_pos((n - 1) as nat);
    }
}

/// Parses the whole of `v` as an unsigned decimal number.
pub fn parse_u64(v: &Vec<char>) -> (r: Option<u64>)
    ensures
        match r {
            Some(x) => is_digits(v@) && v@.len() <= 19 && x == digits_val(v@),
            None => !(is_digits(v@) && v@.len() <= 19),
        },
{
    let n = v.len();
    let r = parse_u64_range(v, 0, n);
    proof {
        assert(v@.subrange(0, n as int) =~= v@);
    }
    r
}

/// A signed decimal token: an optional minus sign, then digits.
pub open spec fn is_int_token(s: Seq<char>) -> bool {
    if s.len() > 0 && s[0] == '-' {
        is_digits(s.drop_first()) && s.drop_first().len() <= 18
    } else {
        is_digits(s) && s.len() <= 18
    }
}

/// The value of a signed decimal token.
pub open spec fn int_token_val(s: Seq<char>) -> int {
    if s.len() > 0 && s[0] == '-' {
        -digits_val(s.drop_first())
    } else {
        digits_val(s)
    }
}

/// Parses the whole of `v` as a signed decimal number of at most 18 digits
/// (every such number fits in an `i64`).
pub fn parse_i64(v: &Vec<char>) -> (r: Option<i64>)
    ensures
        match r {
            Some(x) => is_int_token(v@) && x == int_token_val(v@),
            None => !is_int_token(v@),
        },
{
    if v.len() > 0 && v[0] == '-' {
        let ghost rest = v@.drop_first();
        if v.len() > 19 {
            return None;
        }
        let m = parse_u64_range(v, 1, v.len());
        proof {
            assert(v@.subrange(1, v@.len() as int) =~= rest);
        }
        match m {
            Some(x) => {
                proof {
                    lemma_digits_val_bound(rest);
                    lemma_pow10_mono(rest.len(), 18);
                    assert(pow10(18) == 1_000_000_000_000_000_000) by {
                        reveal_with_fuel(pow10, 19);
                    }
                }
                Some(-(x as i64))
            },
            None => None,
        }
    } else {
        if v.len() > 18 {
            return None;
        }
        let m = parse_u64(v);
        match m {
            Some(x) => {
                proof {
                    lemma_digits_val_bound(v@);
                    lemma_pow10_mono(v@.len(), 18);
                    assert(pow10(18) == 1_000_000_000_000_000_000) by {
                        reveal_with_fuel(pow10, 19);
                    }
                }
                Some(x as i64)
            },
            None => None,
        }
    }
}

/// Relies on `String::push`: appends exactly the given character.
#[verifier::external_body]
pub(crate) fn push_char(s: &mut String, c: char)
    ensures
        final(s)@ == old(s)@.push(c),
{
    s.push(c);
}

/// Builds a `String` holding exactly the characters of `v`.
pub fn chars_to_string(v: &Vec<char>) -> (r: String)
    ensures
        r@ == v@,
{
    let mut r = String::new();
    let mut i: usize = 0;
    while i < v.len()
        invariant
            i <= v@.len(),
            r@ == v@.subrange(0, i as int),
        decreases v@.len() - i,
    {
        push_char(&mut r, v[i]);
        i = i + 1;
        assert(r@ =~= v@.subrange(0, i as int));
    }
    assert(r@ =~= v@);
    r
}

} // verus!

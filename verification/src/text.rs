//! Decimal text and template substitution.
//!
//! Tile files are named `{level}_{x}x{y}.{format}` and the render command
//! template carries `%LEVEL%`-style placeholders, so the store needs exact
//! decimal rendering, decimal parsing, and string substitution.

use vstd::prelude::*;
use vstd::string::StringExecFns;

verus! {

/// The character for one decimal digit.
pub open spec fn digit_char(d: int) -> char {
    if d == 0 {
        '0'
    } else if d == 1 {
        '1'
    } else if d == 2 {
        '2'
    } else if d == 3 {
        '3'
    } else if d == 4 {
        '4'
    } else if d == 5 {
        '5'
    } else if d == 6 {
        '6'
    } else if d == 7 {
        '7'
    } else if d == 8 {
        '8'
    } else {
        '9'
    }
}

/// The value of one decimal digit character, or -1 for any other
/// character.
pub open spec fn digit_val(c: char) -> int {
    if c == '0' {
        0
    } else if c == '1' {
        1
    } else if c == '2' {
        2
    } else if c == '3' {
        3
    } else if c == '4' {
        4
    } else if c == '5' {
        5
    } else if c == '6' {
        6
    } else if c == '7' {
        7
    } else if c == '8' {
        8
    } else if c == '9' {
        9
    } else {
        -1
    }
}

pub open spec fn is_digit(c: char) -> bool {
    digit_val(c) >= 0
}

/// The decimal representation of `n`, most significant digit first, with
/// no leading zero.
pub open spec fn dec_rep(n: int) -> Seq<char>
    decreases n,
{
    if n < 10 {
        seq![digit_char(n)]
    } else {
        dec_rep(n / 10).push(digit_char(n % 10))
    }
}

/// The number a sequence of digit characters stands for.
pub open spec fn seq_val(s: Seq<char>) -> int
    decreases s.len(),
{
    if s.len() == 0 {
        0
    } else {
        seq_val(s.drop_last()) * 10 + digit_val(s.last())
    }
}

/// A sequence that some number renders to: digits only, nonempty, no
/// leading zero except for "0" itself.
pub open spec fn canonical_digits(s: Seq<char>) -> bool {
    s.len() >= 1 && (forall|i: int| 0 <= i < s.len() ==> is_digit(#[trigger] s[i])) && (s.len()
        == 1 || s[0] != '0')
}

/// A digit string stands for a nonnegative number, and for a positive one
/// when it does not start with '0'.
pub proof fn lemma_seq_val_bounds(s: Seq<char>)
    requires
        s.len() >= 1,
        forall|i: int| 0 <= i < s.len() ==> is_digit(#[trigger] s[i]),
    ensures
        seq_val(s) >= 0,
        s[0] != '0' ==> seq_val(s) >= 1,
    decreases s.len(),
{
    if s.len() == 1 {
        assert(s.drop_last() =~= Seq::<char>::empty());
        assert(seq_val(s.drop_last()) == 0);
        assert(s.last() == s[0]);
    } else {
        let rest = s.drop_last();
        assert(forall|i: int| 0 <= i < rest.len() ==> rest[i] == s[i]);
        lemma_seq_val_bounds(rest);
        assert(seq_val(s) == seq_val(rest) * 10 + digit_val(s.last()));
        if s[0] != '0' {
            assert(rest[0] != '0');
        }
    }
}

/// What `dec_rep` renders: a canonical digit string standing for the
/// number itself.
pub proof fn lemma_dec_rep_props(n: int)
    requires
        n >= 0,
    ensures
        canonical_digits(dec_rep(n)),
        seq_val(dec_rep(n)) == n,
        dec_rep(n).len() >= 1,
        n >= 10 ==> dec_rep(n).len() >= 2,
    decreases n,
{
    if n < 10 {
        assert(dec_rep(n) == seq![digit_char(n)]);
        assert(dec_rep(n).drop_last() =~= Seq::<char>::empty());
        assert(dec_rep(n).last() == digit_char(n));
        assert(seq_val(Seq::<char>::empty()) == 0);
        assert(seq_val(dec_rep(n)) == seq_val(dec_rep(n).drop_last()) * 10 + digit_val(
            dec_rep(n).last(),
        ));
    } else {
        let d = dec_rep(n / 10);
        lemma_dec_rep_props(n / 10);
        assert(dec_rep(n) == d.push(digit_char(n % 10)));
        assert(d.push(digit_char(n % 10)).drop_last() =~= d);
        assert(d.push(digit_char(n % 10)).last() == digit_char(n % 10));
        assert(seq_val(dec_rep(n)) == seq_val(d) * 10 + digit_val(digit_char(n % 10)));
        assert((n / 10) * 10 + n % 10 == n) by (nonlinear_arith)
            requires
                n >= 0,
        {
        }
        if d.len() == 1 {
            assert(n / 10 < 10);
            assert(d == seq![digit_char(n / 10)]);
            assert(d[0] == digit_char(n / 10));
        }
        assert(dec_rep(n)[0] == d[0]);
    }
}

/// The converse: a canonical digit string is the rendering of its value.
pub proof fn lemma_canonical_to_dec(s: Seq<char>)
    requires
        canonical_digits(s),
    ensures
        seq_val(s) >= 0,
        s == dec_rep(seq_val(s)),
    decreases s.len(),
{
    lemma_seq_val_bounds(s);
    let v = seq_val(s);
    if s.len() == 1 {
        assert(s.drop_last() =~= Seq::<char>::empty());
        assert(seq_val(s.drop_last()) == 0);
        assert(s.last() == s[0]);
        assert(v == digit_val(s[0]));
        assert(dec_rep(v) == seq![digit_char(v)]);
        assert(s =~= seq![digit_char(v)]);
    } else {
        let rest = s.drop_last();
        assert(forall|i: int| 0 <= i < rest.len() ==> rest[i] == s[i]);
        assert(canonical_digits(rest));
        lemma_canonical_to_dec(rest);
        let vr = seq_val(rest);
        lemma_seq_val_bounds(rest);
        assert(vr >= 1);
        let dl = digit_val(s.last());
        assert(v == vr * 10 + dl);
        assert(v / 10 == vr && v % 10 == dl && v >= 10) by (nonlinear_arith)
            requires
                v == vr * 10 + dl,
                vr >= 1,
                0 <= dl <= 9,
        {
        }
        assert(dec_rep(v) == dec_rep(vr).push(digit_char(v % 10)));
        assert(digit_char(digit_val(s.last())) == s.last());
        assert(s =~= rest.push(s.last()));
    }
}

/// A digit string's prefixes never stand for more than the whole.
pub proof fn lemma_seq_val_prefix_le(s: Seq<char>, i: int)
    requires
        0 <= i <= s.len(),
        forall|j: int| 0 <= j < s.len() ==> is_digit(#[trigger] s[j]),
    ensures
        seq_val(s.take(i)) <= seq_val(s),
    decreases s.len() - i,
{
    if i < s.len() {
        lemma_seq_val_prefix_le(s, i + 1);
        let a = s.take(i);
        let b = s.take(i + 1);
        assert(b.drop_last() =~= a);
        assert(forall|j: int| 0 <= j < a.len() ==> a[j] == s[j]);
        if i > 0 {
            lemma_seq_val_bounds(a);
        }
        assert(seq_val(b) == seq_val(a) * 10 + digit_val(s[i]));
        assert(seq_val(a) * 10 >= seq_val(a)) by (nonlinear_arith)
            requires
                seq_val(a) >= 0,
        {
        }
    } else {
        assert(s.take(i) =~= s);
    }
}

/// The single-character string for a digit.
fn digit_str(d: u32) -> (r: &'static str)
    requires
        d < 10,
    ensures
        r@ =~= seq![digit_char(d as int)],
{
    let digits = "0123456789";
    proof {
        reveal_strlit("0123456789");
    }
    let r = digits.substring_ascii(d as usize, d as usize + 1);
    proof {
        assert(r@ =~= seq![digit_char(d as int)]);
    }
    r
}

/// Render `n` in decimal.
pub fn u32_to_string(n: u32) -> (r: String)
    ensures
        r@ == dec_rep(n as int),
    decreases n,
{
    if n < 10 {
        let mut s = String::new();
        s.append(digit_str(n));
        proof {
            assert(s@ =~= dec_rep(n as int));
        }
        s
    } else {
        let mut s = u32_to_string(n / 10);
        s.append(digit_str(n % 10));
        proof {
            assert(s@ =~= dec_rep(n as int));
        }
        s
    }
}

/// The value of a digit character, or nothing for any other character.
fn char_digit(c: char) -> (r: Option<u32>)
    ensures
        r matches Some(d) ==> d as int == digit_val(c) && d < 10,
        r is None <==> !is_digit(c),
{
    if c == '0' {
        Some(0)
    } else if c == '1' {
        Some(1)
    } else if c == '2' {
        Some(2)
    } else if c == '3' {
        Some(3)
    } else if c == '4' {
        Some(4)
    } else if c == '5' {
        Some(5)
    } else if c == '6' {
        Some(6)
    } else if c == '7' {
        Some(7)
    } else if c == '8' {
        Some(8)
    } else if c == '9' {
        Some(9)
    } else {
        None
    }
}

/// Parse a decimal string exactly as `u32_to_string` renders it: digits
/// only, no leading zero, value within `u32`.
pub fn parse_canonical_u32(s: &str) -> (r: Option<u32>)
    ensures
        r matches Some(n) ==> s@ == dec_rep(n as int),
        forall|n: u32| s@ == dec_rep(n as int) ==> r == Some(n),
{
    let len = s.unicode_len();
    if len == 0 {
        proof {
            assert forall|n: u32| s@ != dec_rep(n as int) by {
                lemma_dec_rep_props(n as int);
            }
        }
        return None;
    }
    if len > 1 && s.get_char(0) == '0' {
        proof {
            assert forall|n: u32| s@ != dec_rep(n as int) by {
                lemma_dec_rep_props(n as int);
            }
        }
        return None;
    }
    let mut acc: u64 = 0;
    let mut i: usize = 0;
    while i < len
        invariant
            0 <= i <= len,
            len == s@.len(),
            len >= 1,
            len > 1 ==> s@[0] != '0',
            acc <= 0xffff_ffff,
            acc as int == seq_val(s@.take(i as int)),
            forall|j: int| 0 <= j < i ==> is_digit(#[trigger] s@[j]),
        decreases len - i,
    {
        let c = s.get_char(i);
        let d = match char_digit(c) {
            Some(d) => d,
            None => {
                proof {
                    assert forall|n: u32| s@ != dec_rep(n as int) by {
                        lemma_dec_rep_props(n as int);
                        if s@ == dec_rep(n as int) {
                            assert(is_digit(s@[i as int]));
                        }
                    }
                }
                return None;
            },
        };
        proof {
            assert(s@.take(i + 1 as int).drop_last() =~= s@.take(i as int));
            assert(s@.take(i + 1 as int).last() == s@[i as int]);
        }
        acc = acc * 10 + d as u64;
        if acc > 0xffff_ffff {
            proof {
                assert forall|n: u32| s@ != dec_rep(n as int) by {
                    lemma_dec_rep_props(n as int);
                    if s@ == dec_rep(n as int) {
                        lemma_seq_val_prefix_le(s@, i + 1 as int);
                    }
                }
            }
            return None;
        }
        i = i + 1;
    }
    proof {
        assert(s@.take(len as int) =~= s@);
        assert(canonical_digits(s@));
        lemma_canonical_to_dec(s@);
        assert forall|n: u32| s@ == dec_rep(n as int) implies acc as u32 == n by {
            lemma_dec_rep_props(n as int);
        }
    }
    Some(acc as u32)
}

/// Where `c` first occurs in `s`, if anywhere.
pub fn find_char(s: &str, c: char) -> (r: Option<usize>)
    ensures
        r matches Some(i) ==> i < s@.len() && s@[i as int] == c && forall|j: int|
            0 <= j < i ==> s@[j] != c,
        r is None ==> forall|j: int| 0 <= j < s@.len() ==> s@[j] != c,
{
    let len = s.unicode_len();
    let mut i: usize = 0;
    while i < len
        invariant
            0 <= i <= len,
            len == s@.len(),
            forall|j: int| 0 <= j < i ==> s@[j] != c,
        decreases len - i,
    {
        if s.get_char(i) == c {
            return Some(i);
        }
        i = i + 1;
    }
    None
}

/// The digits of a `u32` numeral as `str::parse::<u32>` reads one: a
/// single leading `+` is stripped, everything else must be digits.
pub open spec fn numeral_digits(s: Seq<char>) -> Seq<char> {
    if s.len() >= 1 && s[0] == '+' {
        s.skip(1)
    } else {
        s
    }
}

/// Whether `s` has the shape `str::parse::<u32>` accepts: an optional
/// leading `+`, then one or more digits (leading zeros allowed).
pub open spec fn u32_numeral(s: Seq<char>) -> bool {
    numeral_digits(s).len() >= 1 && (forall|i: int|
        0 <= i < numeral_digits(s).len() ==> is_digit(#[trigger] numeral_digits(s)[i]))
}

/// A numeral whose value a `u32` can hold.
pub open spec fn u32_numeral_in_range(s: Seq<char>) -> bool {
    u32_numeral(s) && seq_val(numeral_digits(s)) <= u32::MAX
}

/// Parse a numeral the way `str::parse::<u32>` does: an optional `+`,
/// digits with leading zeros allowed, value within `u32`.
pub fn parse_u32_arg(s: &str) -> (r: Option<u32>)
    ensures
        r is Some <==> u32_numeral_in_range(s@),
        r matches Some(n) ==> n as int == seq_val(numeral_digits(s@)),
{
    let len = s.unicode_len();
    let start: usize = if len >= 1 && s.get_char(0) == '+' {
        1
    } else {
        0
    };
    let ghost d = numeral_digits(s@);
    proof {
        assert(d =~= s@.skip(start as int));
    }
    if len == start {
        return None;
    }
    let mut acc: u64 = 0;
    let mut i: usize = start;
    while i < len
        invariant
            start <= i <= len,
            len == s@.len(),
            len > start,
            d == s@.skip(start as int),
            d == numeral_digits(s@),
            acc <= 0xffff_ffff,
            acc as int == seq_val(d.take(i - start)),
            forall|j: int| 0 <= j < i - start ==> is_digit(#[trigger] d[j]),
        decreases len - i,
    {
        let c = s.get_char(i);
        let d_val = match char_digit(c) {
            Some(v) => v,
            None => {
                proof {
                    assert(d[i - start] == s@[i as int]);
                    assert(!is_digit(d[i - start]));
                }
                return None;
            },
        };
        proof {
            assert(d.take(i - start + 1).drop_last() =~= d.take(i - start));
            assert(d.take(i - start + 1).last() == d[i - start]);
            assert(d[i - start] == s@[i as int]);
        }
        acc = acc * 10 + d_val as u64;
        if acc > 0xffff_ffff {
            proof {
                if u32_numeral(s@) {
                    lemma_seq_val_prefix_le(d, i - start + 1);
                }
            }
            return None;
        }
        i = i + 1;
    }
    proof {
        assert(d.take(len - start) =~= d);
    }
    Some(acc as u32)
}

/// `s` splits at index `i` into everything before its first `x` and the
/// rest.
pub open spec fn splits_at_first_x(s: Seq<char>, i: int) -> bool {
    0 <= i < s.len() && s[i] == 'x' && (forall|j: int| 0 <= j < i ==> s[j] != 'x')
}

/// Parse `NUMxNUM`, the position argument syntax of the section
/// renderer: split at the first `x` and read both sides as `u32`
/// numerals, exactly as `str::parse::<u32>` would (an optional `+` and
/// leading zeros are accepted; `1x2x3` fails because `2x3` is no
/// numeral).
pub fn position_arg_parse(s: &str) -> (r: Option<(u32, u32)>)
    ensures
        r matches Some(p) ==> exists|i: int| #[trigger] splits_at_first_x(s@, i)
            && u32_numeral_in_range(s@.take(i)) && u32_numeral_in_range(s@.skip(i + 1)) && p.0
            == seq_val(numeral_digits(s@.take(i))) && p.1 == seq_val(
            numeral_digits(s@.skip(i + 1)),
        ),
        forall|i: int| #[trigger] splits_at_first_x(s@, i) ==> (r is Some <==> (
        u32_numeral_in_range(s@.take(i)) && u32_numeral_in_range(s@.skip(i + 1)))),
        (forall|j: int| 0 <= j < s@.len() ==> s@[j] != 'x') ==> r is None,
{
    let len = s.unicode_len();
    let ix = match find_char(s, 'x') {
        Some(ix) => ix,
        None => {
            return None;
        },
    };
    proof {
        assert(splits_at_first_x(s@, ix as int));
        assert forall|i: int| #[trigger] splits_at_first_x(s@, i) implies i == ix as int by {
            if i < ix {
                assert(s@[i] == 'x');
            } else if i > ix {
                assert(s@[ix as int] != 'x');
            }
        }
    }
    let left = s.substring_char(0, ix);
    let right = s.substring_char(ix + 1, len);
    proof {
        assert(left@ =~= s@.take(ix as int));
        assert(right@ =~= s@.skip(ix + 1 as int));
    }
    let a = match parse_u32_arg(left) {
        Some(a) => a,
        None => {
            return None;
        },
    };
    let b = match parse_u32_arg(right) {
        Some(b) => b,
        None => {
            return None;
        },
    };
    Some((a, b))
}

/// Parse the `{x}x{y}` trailer of a tile file name: two canonical
/// decimals either side of the first `x`, accepting exactly what
/// `u32_to_string` writes.
pub fn parse_canonical_pair(s: &str) -> (r: Option<(u32, u32)>)
    ensures
        r matches Some(p) ==> s@ == dec_rep(p.0 as int) + seq!['x'] + dec_rep(p.1 as int),
        forall|a: u32, b: u32|
            s@ == dec_rep(a as int) + seq!['x'] + dec_rep(b as int) ==> r == Some((a, b)),
{
    let len = s.unicode_len();
    let ix = match find_char(s, 'x') {
        Some(ix) => ix,
        None => {
            proof {
                assert forall|a: u32, b: u32|
                    s@ != dec_rep(a as int) + seq!['x'] + dec_rep(b as int) by {
                    lemma_dec_rep_props(a as int);
                    let w = dec_rep(a as int) + seq!['x'] + dec_rep(b as int);
                    if s@ == w {
                        assert(s@[dec_rep(a as int).len() as int] == 'x');
                    }
                }
            }
            return None;
        },
    };
    let left = s.substring_char(0, ix);
    let right = s.substring_char(ix + 1, len);
    let a = match parse_canonical_u32(left) {
        Some(a) => a,
        None => {
            proof {
                lemma_split_at_x(s@, left@, right@, ix as int);
            }
            return None;
        },
    };
    let b = match parse_canonical_u32(right) {
        Some(b) => b,
        None => {
            proof {
                lemma_split_at_x(s@, left@, right@, ix as int);
            }
            return None;
        },
    };
    proof {
        assert(s@ =~= left@ + seq!['x'] + right@);
        lemma_split_at_x(s@, left@, right@, ix as int);
    }
    Some((a, b))
}

/// If `s` splits as `left + 'x' + right` at its first `x`, then any way of
/// writing `s` as `digits + 'x' + anything` puts those digits exactly in
/// `left` and the rest in `right`.
proof fn lemma_split_at_x(s: Seq<char>, left: Seq<char>, right: Seq<char>, ix: int)
    requires
        0 <= ix < s.len(),
        s[ix] == 'x',
        forall|j: int| 0 <= j < ix ==> s[j] != 'x',
        left == s.take(ix),
        right == s.skip(ix + 1),
    ensures
        forall|a: u32, b: u32|
            s == dec_rep(a as int) + seq!['x'] + dec_rep(b as int) ==> left == dec_rep(a as int)
                && right == dec_rep(b as int),
{
    assert forall|a: u32, b: u32|
        s == dec_rep(a as int) + seq!['x'] + dec_rep(b as int) implies left == dec_rep(a as int)
        && right == dec_rep(b as int) by {
        let da = dec_rep(a as int);
        let db = dec_rep(b as int);
        lemma_dec_rep_props(a as int);
        lemma_dec_rep_props(b as int);
        assert(s[da.len() as int] == 'x');
        assert forall|j: int| 0 <= j < da.len() implies s[j] != 'x' by {
            assert(s[j] == da[j]);
            assert(is_digit(da[j]));
        }
        assert(ix == da.len());
        assert(left =~= da);
        assert(right =~= db);
    }
}

/// Replace every occurrence of `pat` in `s` by `rep`, scanning left to
/// right past each replacement.
pub open spec fn replace_spec(s: Seq<char>, pat: Seq<char>, rep: Seq<char>) -> Seq<char>
    decreases s.len(),
{
    if pat.len() == 0 || s.len() < pat.len() {
        s
    } else if s.take(pat.len() as int) == pat {
        rep + replace_spec(s.skip(pat.len() as int), pat, rep)
    } else {
        seq![s[0]] + replace_spec(s.skip(1), pat, rep)
    }
}

/// Whether `pat` occurs in `s` at position `i`.
fn matches_at(s: &str, i: usize, pat: &str) -> (r: bool)
    requires
        i + pat@.len() <= s@.len(),
        s@.len() <= usize::MAX,
    ensures
        r == (s@.subrange(i as int, i + pat@.len()) == pat@),
{
    let plen = pat.unicode_len();
    let mut k: usize = 0;
    while k < plen
        invariant
            0 <= k <= plen,
            plen == pat@.len(),
            i + plen <= s@.len(),
            s@.len() <= usize::MAX,
            forall|j: int| 0 <= j < k ==> s@[i + j] == pat@[j],
        decreases plen - k,
    {
        if s.get_char(i + k) != pat.get_char(k) {
            proof {
                assert(s@.subrange(i as int, i + pat@.len())[k as int] != pat@[k as int]);
            }
            return false;
        }
        k = k + 1;
    }
    proof {
        assert(s@.subrange(i as int, i + pat@.len()) =~= pat@);
    }
    true
}

/// Substitute every occurrence of a placeholder.
pub fn replace_all(s: &str, pat: &str, rep: &str) -> (r: String)
    ensures
        r@ == replace_spec(s@, pat@, rep@),
{
    let len = s.unicode_len();
    let plen = pat.unicode_len();
    let mut out = String::new();
    if plen == 0 {
        out.append(s);
        return out;
    }
    let mut i: usize = 0;
    proof {
        assert(s@.skip(0) =~= s@);
        assert(out@ + replace_spec(s@, pat@, rep@) =~= replace_spec(s@, pat@, rep@));
    }
    while i < len
        invariant
            0 <= i <= len,
            len == s@.len(),
            plen == pat@.len(),
            plen >= 1,
            out@ + replace_spec(s@.skip(i as int), pat@, rep@) == replace_spec(s@, pat@, rep@),
        decreases len - i,
    {
        let ghost out_pre = out@;
        if plen <= len - i && matches_at(s, i, pat) {
            out.append(rep);
            proof {
                let tail = s@.skip(i as int);
                assert(tail.take(plen as int) =~= s@.subrange(i as int, i + plen));
                assert(tail.skip(plen as int) =~= s@.skip(i + plen));
                assert(replace_spec(tail, pat@, rep@) == rep@ + replace_spec(
                    s@.skip(i + plen),
                    pat@,
                    rep@,
                ));
                assert(out@ + replace_spec(s@.skip(i + plen as int), pat@, rep@) =~= replace_spec(
                    s@,
                    pat@,
                    rep@,
                ));
            }
            i = i + plen;
        } else {
            let piece = s.substring_char(i, i + 1);
            out.append(piece);
            proof {
                let tail = s@.skip(i as int);
                if tail.len() >= plen {
                    assert(tail.take(plen as int) =~= s@.subrange(i as int, i + plen));
                    assert(tail.take(plen as int) != pat@);
                }
                assert(tail.skip(1) =~= s@.skip(i + 1));
                assert(seq![tail[0]] =~= piece@);
                assert(replace_spec(tail, pat@, rep@) == seq![tail[0]] + replace_spec(
                    s@.skip(i + 1),
                    pat@,
                    rep@,
                ));
                assert(out@ + replace_spec(s@.skip(i + 1 as int), pat@, rep@) =~= replace_spec(
                    s@,
                    pat@,
                    rep@,
                ));
            }
            i = i + 1;
        }
    }
    proof {
        assert(s@.skip(len as int) =~= Seq::<char>::empty());
        assert(replace_spec(s@.skip(len as int), pat@, rep@) == s@.skip(len as int));
        assert(out@ =~= replace_spec(s@, pat@, rep@));
    }
    out
}

} // verus!

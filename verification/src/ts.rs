//! Timestamps.
//!
//! The first comma-separated field of a data row, once stripped of
//! surrounding double quotes, is read as a decimal timestamp: an optional
//! sign, then digits with at most one decimal point — at most 18 integer
//! digits, at most 9 fractional digits, and at least one digit overall.
//! A timestamp's value is held as a signed integer scaled by 10^9, which
//! orders exactly as the decimal values do. A field outside this grammar is
//! not a timestamp, and the ordering policy does not apply to its row.

use vstd::prelude::*;

verus! {

/// ASCII code of the decimal point.
pub const DOT: u8 = 46;

/// ASCII code of the comma field separator.
pub const COMMA: u8 = 44;

/// ASCII code of the double quote.
pub const QUOTE: u8 = 34;

/// ASCII code of '+'.
pub const PLUS: u8 = 43;

/// ASCII code of '-'.
pub const MINUS: u8 = 45;

pub open spec fn is_digit(b: u8) -> bool {
    48 <= b && b <= 57
}

pub open spec fn all_digits(s: Seq<u8>) -> bool {
    forall|i: int| 0 <= i < s.len() ==> is_digit(#[trigger] s[i])
}

/// Value of a digit string read in base 10, most significant digit first.
pub open spec fn digits_val(s: Seq<u8>) -> nat
    decreases s.len(),
{
    if s.len() == 0 {
        0
    } else {
        digits_val(s.drop_last()) * 10 + (s.last() - 48) as nat
    }
}

pub open spec fn pow10(n: nat) -> nat
    decreases n,
{
    if n == 0 {
        1
    } else {
        10 * pow10((n - 1) as nat)
    }
}

/// Position of the first occurrence of `b` in `s`.
pub open spec fn find_byte(s: Seq<u8>, b: u8) -> Option<int>
    decreases s.len(),
{
    if s.len() == 0 {
        None
    } else if s[0] == b {
        Some(0)
    } else {
        match find_byte(s.drop_first(), b) {
            None => None,
            Some(k) => Some(k + 1),
        }
    }
}

pub proof fn lemma_find_byte(s: Seq<u8>, b: u8)
    ensures
        match find_byte(s, b) {
            Some(k) => 0 <= k < s.len() && s[k] == b && forall|j: int| 0 <= j < k ==> s[j] != b,
            None => forall|j: int| 0 <= j < s.len() ==> s[j] != b,
        },
    decreases s.len(),
{
    if s.len() > 0 && s[0] != b {
        lemma_find_byte(s.drop_first(), b);
        assert(forall|j: int| 1 <= j < s.len() ==> #[trigger] s[j] == s.drop_first()[j - 1]);
    }
}

/// The first occurrence is pinned down by a witness position.
pub proof fn lemma_find_byte_witness(s: Seq<u8>, b: u8, k: int)
    requires
        0 <= k < s.len(),
        s[k] == b,
        forall|j: int| 0 <= j < k ==> s[j] != b,
    ensures
        find_byte(s, b) == Some(k),
{
    lemma_find_byte(s, b);
}

/// No occurrence at all means the search fails.
pub proof fn lemma_find_byte_none(s: Seq<u8>, b: u8)
    requires
        forall|j: int| 0 <= j < s.len() ==> s[j] != b,
    ensures
        find_byte(s, b) is None,
{
    lemma_find_byte(s, b);
}

pub proof fn lemma_digits_val_bound(s: Seq<u8>)
    requires
        all_digits(s),
    ensures
        digits_val(s) < pow10(s.len() as nat),
    decreases s.len(),
{
    if s.len() > 0 {
        assert(all_digits(s.drop_last())) by {
            assert(forall|i: int| 0 <= i < s.drop_last().len() ==> s.drop_last()[i] == s[i]);
        }
        lemma_digits_val_bound(s.drop_last());
        assert(is_digit(s.last()));
    }
}

/// The body of a timestamp field: what follows the optional sign.
pub open spec fn ts_body(f: Seq<u8>) -> Seq<u8> {
    if f.len() > 0 && (f[0] == PLUS || f[0] == MINUS) {
        f.drop_first()
    } else {
        f
    }
}

pub open spec fn ts_neg(f: Seq<u8>) -> bool {
    f.len() > 0 && f[0] == MINUS
}

/// Whether a sign-stripped body matches the digit grammar.
pub open spec fn body_ok(body: Seq<u8>) -> bool {
    match find_byte(body, DOT) {
        None => 1 <= body.len() <= 18 && all_digits(body),
        Some(k) => {
            let ip = body.take(k);
            let fp = body.skip(k + 1);
            all_digits(ip) && all_digits(fp) && ip.len() <= 18 && fp.len() <= 9 && ip.len()
                + fp.len() >= 1
        },
    }
}

/// Value of a well-formed body, scaled by 10^9.
pub open spec fn body_scaled(body: Seq<u8>) -> int {
    match find_byte(body, DOT) {
        None => digits_val(body) * pow10(9) as int,
        Some(k) => {
            let fp = body.skip(k + 1);
            digits_val(body.take(k)) * pow10(9) + digits_val(fp) * pow10((9 - fp.len()) as nat)
                as int
        },
    }
}

/// Whether a whole field is a timestamp.
pub open spec fn ts_ok(f: Seq<u8>) -> bool {
    body_ok(ts_body(f))
}

/// Signed scaled value of a timestamp field.
pub open spec fn ts_scaled(f: Seq<u8>) -> int {
    if ts_neg(f) {
        -body_scaled(ts_body(f))
    } else {
        body_scaled(ts_body(f))
    }
}

pub proof fn lemma_pow10_le(a: nat, b: nat)
    requires
        a <= b,
    ensures
        pow10(a) <= pow10(b),
    decreases b,
{
    if a < b {
        lemma_pow10_le(a, (b - 1) as nat);
    }
}

pub proof fn lemma_pow10_add(a: nat, b: nat)
    ensures
        pow10(a + b) == pow10(a) * pow10(b),
    decreases a,
{
    if a == 0 {
        assert(pow10(a + b) == pow10(b));
        assert(pow10(a) == 1);
    } else {
        lemma_pow10_add((a - 1) as nat, b);
        assert(pow10(a) * pow10(b) == 10 * (pow10((a - 1) as nat) * pow10(b)))
            by (nonlinear_arith)
            requires
                pow10(a) == 10 * pow10((a - 1) as nat),
        ;
        assert((a + b - 1) as nat == (a - 1) as nat + b);
        assert(pow10(a + b) == 10 * pow10((a + b - 1) as nat));
        assert(pow10(a + b) == 10 * (pow10((a - 1) as nat) * pow10(b)));
    }
}

pub proof fn lemma_pow10_vals()
    ensures
        pow10(9) == 1000000000,
        pow10(17) == 100000000000000000,
        pow10(18) == 1000000000000000000,
{
    reveal_with_fuel(pow10, 20);
}

/// One decimal power, for the fractional scale.
pub fn pow10_u64(n: usize) -> (r: u64)
    requires
        n <= 9,
    ensures
        r == pow10(n as nat),
{
    let mut r: u64 = 1;
    let mut i: usize = 0;
    while i < n
        invariant
            i <= n <= 9,
            r == pow10(i as nat),
        decreases n - i,
    {
        proof {
            lemma_pow10_le(i as nat, 8);
            lemma_pow10_vals();
            lemma_pow10_le(8, 17);
        }
        r = r * 10;
        i = i + 1;
    }
    r
}

/// Reads a whole field as a timestamp: `Some` exactly on the timestamp
/// grammar, with the signed value scaled by 10^9.
pub fn parse_ts(f: &[u8]) -> (r: Option<i128>)
    ensures
        r is Some <==> ts_ok(f@),
        r matches Some(v) ==> v == ts_scaled(f@),
{
    let n = f.len();
    let mut i: usize = 0;
    let mut neg = false;
    if n > 0 && (f[0] == PLUS || f[0] == MINUS) {
        neg = f[0] == MINUS;
        i = 1;
    }
    let ghost off = i as int;
    let ghost body = ts_body(f@);
    proof {
        assert(body =~= f@.skip(off));
        assert(neg == ts_neg(f@));
        assert(forall|j: int| 0 <= j < body.len() ==> #[trigger] body[j] == f@[j + off]);
    }
    // integer part
    let mut iv: u64 = 0;
    let mut ic: usize = 0;
    loop
        invariant
            f@.len() == n,
            0 <= off <= i as int <= n,
            ic == i as int - off,
            body =~= f@.skip(off),
            body == ts_body(f@),
            forall|j: int| 0 <= j < body.len() ==> #[trigger] body[j] == f@[j + off],
            all_digits(f@.subrange(off, i as int)),
            iv == digits_val(f@.subrange(off, i as int)),
            ic <= 18,
            iv < pow10(ic as nat),
        ensures
            0 <= off <= i as int <= n,
            ic == i as int - off,
            ic <= 18,
            all_digits(f@.subrange(off, i as int)),
            iv == digits_val(f@.subrange(off, i as int)),
            iv < pow10(ic as nat),
            i as int == n || !is_digit(f@[i as int]),
        decreases n - i,
    {
        if i >= n {
            break ;
        }
        let b = f[i];
        if !(48 <= b && b <= 57) {
            break ;
        }
        if ic == 18 {
            // a 19th integer digit: outside the grammar
            proof {
                lemma_find_byte(body, DOT);
                assert(body[i as int - off] == f@[i as int]);
                match find_byte(body, DOT) {
                    Some(kd) => {
                        if kd < i as int - off {
                            assert(is_digit(f@.subrange(off, i as int)[kd]));
                        }
                        assert(kd >= i as int - off);
                        assert(body[kd] == DOT);
                        assert(kd != i as int - off);
                        assert(body.take(kd).len() >= 19);
                    },
                    None => {
                        assert(body.len() >= i as int + 1 - off >= 19);
                    },
                }
            }
            return None;
        }
        proof {
            lemma_pow10_le(ic as nat, 17);
            lemma_pow10_vals();
            let pre = f@.subrange(off, i as int);
            let post = f@.subrange(off, i as int + 1);
            assert(post.drop_last() =~= pre);
            assert(post.last() == b);
        }
        iv = iv * 10 + ((b - 48) as u64);
        i = i + 1;
        ic = ic + 1;
        proof {
            assert(iv < pow10(ic as nat)) by {
                lemma_digits_val_bound(f@.subrange(off, i as int));
            }
        }
    }
    if i >= n {
        // digits only: no fractional part
        if ic == 0 {
            assert(body.len() == 0);
            return None;
        }
        proof {
            assert(body =~= f@.subrange(off, n as int));
            lemma_find_byte_none(body, DOT);
            lemma_pow10_vals();
            lemma_pow10_le(ic as nat, 18);
            assert((iv as int) * 1000000000 < 1000000000000000000 * 1000000000)
                by (nonlinear_arith)
                requires
                    0 <= (iv as int) < 1000000000000000000,
            ;
        }
        let v: i128 = (iv as i128) * 1000000000;
        assert(v == body_scaled(body));
        if neg {
            return Some(-v);
        } else {
            return Some(v);
        }
    }
    // a non-digit byte stopped the scan
    if f[i] != DOT {
        proof {
            let stop = i as int - off;
            assert(!is_digit(body[stop]));
            lemma_find_byte(body, DOT);
            match find_byte(body, DOT) {
                Some(k) => {
                    if k < stop {
                        assert(is_digit(f@.subrange(off, i as int)[k]));
                    }
                    assert(k != stop);
                    assert(k > stop);
                    assert(!is_digit(body.take(k)[stop]));
                },
                None => {
                    assert(!all_digits(body));
                },
            }
        }
        return None;
    }
    // fractional part
    let dot = i;
    let ghost k = dot as int - off;
    proof {
        assert(body[k] == DOT);
        assert(forall|j: int| 0 <= j < k ==> is_digit(#[trigger] f@.subrange(off, dot as int)[j]));
        assert(forall|j: int| 0 <= j < k ==> body[j] != DOT);
        lemma_find_byte_witness(body, DOT, k);
    }
    i = i + 1;
    let mut fv: u64 = 0;
    let mut fc: usize = 0;
    loop
        invariant
            f@.len() == n,
            0 <= off <= (dot as int) < n,
            k == dot as int - off,
            dot < i,
            i as int <= n,
            fc == i as int - dot - 1,
            body =~= f@.skip(off),
            body == ts_body(f@),
            forall|j: int| 0 <= j < body.len() ==> #[trigger] body[j] == f@[j + off],
            all_digits(f@.subrange(dot as int + 1, i as int)),
            fv == digits_val(f@.subrange(dot as int + 1, i as int)),
            fc <= 9,
            fv < pow10(fc as nat),
            find_byte(body, DOT) == Some(k),
        ensures
            0 <= off <= (dot as int) < n,
            dot < i,
            i as int <= n,
            fc == i as int - dot - 1,
            fc <= 9,
            all_digits(f@.subrange(dot as int + 1, i as int)),
            fv == digits_val(f@.subrange(dot as int + 1, i as int)),
            fv < pow10(fc as nat),
            find_byte(body, DOT) == Some(k),
            i as int == n || !is_digit(f@[i as int]),
        decreases n - i,
    {
        if i >= n {
            break ;
        }
        let b = f[i];
        if !(48 <= b && b <= 57) {
            break ;
        }
        if fc == 9 {
            // a 10th fractional digit: outside the grammar
            proof {
                let fp = body.skip(k + 1);
                assert(fp.len() >= i as int + 1 - dot - 1 >= 10);
            }
            return None;
        }
        proof {
            lemma_pow10_le(fc as nat, 17);
            lemma_pow10_vals();
            let pre = f@.subrange(dot as int + 1, i as int);
            let post = f@.subrange(dot as int + 1, i as int + 1);
            assert(post.drop_last() =~= pre);
            assert(post.last() == b);
        }
        fv = fv * 10 + ((b - 48) as u64);
        i = i + 1;
        fc = fc + 1;
        proof {
            assert(fv < pow10(fc as nat)) by {
                lemma_digits_val_bound(f@.subrange(dot as int + 1, i as int));
            }
        }
    }
    if i < n {
        // a second dot or other junk inside the fraction
        proof {
            let fp = body.skip(k + 1);
            assert(fp[i as int - dot - 1] == f@[i as int]);
            assert(!is_digit(fp[i as int - dot - 1]));
        }
        return None;
    }
    if ic == 0 && fc == 0 {
        // a lone dot carries no digits
        proof {
            assert(body.take(k).len() + body.skip(k + 1).len() == 0);
        }
        return None;
    }
    proof {
        assert(body.take(k) =~= f@.subrange(off, dot as int));
        assert(body.skip(k + 1) =~= f@.subrange(dot as int + 1, n as int));
        lemma_pow10_vals();
        lemma_pow10_le(ic as nat, 18);
        lemma_pow10_le(0, (9 - fc) as nat);
        lemma_pow10_add(fc as nat, (9 - fc) as nat);
        assert((fv as int) * pow10((9 - fc) as nat) < pow10(9)) by (nonlinear_arith)
            requires
                0 <= (fv as int) < pow10(fc as nat),
                pow10(fc as nat) * pow10((9 - fc) as nat) == pow10(9),
                pow10((9 - fc) as nat) >= 1,
        ;
        assert((iv as int) * 1000000000 < 1000000000000000000 * 1000000000)
            by (nonlinear_arith)
            requires
                0 <= (iv as int) < 1000000000000000000,
        ;
    }
    let scale = pow10_u64(9 - fc);
    let v: i128 = (iv as i128) * 1000000000 + (fv as i128) * (scale as i128);
    assert(v == body_scaled(body));
    if neg {
        Some(-v)
    } else {
        Some(v)
    }
}

/// The first comma-separated field of a row.
pub open spec fn first_field(line: Seq<u8>) -> Seq<u8> {
    match find_byte(line, COMMA) {
        None => line,
        Some(k) => line.take(k),
    }
}

pub open spec fn trim_lead(s: Seq<u8>) -> Seq<u8>
    decreases s.len(),
{
    if s.len() > 0 && s[0] == QUOTE {
        trim_lead(s.drop_first())
    } else {
        s
    }
}

pub open spec fn trim_trail(s: Seq<u8>) -> Seq<u8>
    decreases s.len(),
{
    if s.len() > 0 && s.last() == QUOTE {
        trim_trail(s.drop_last())
    } else {
        s
    }
}

/// A field stripped of the double quotes around it.
pub open spec fn unquote(s: Seq<u8>) -> Seq<u8> {
    trim_trail(trim_lead(s))
}

/// The ordering key of a data row: the value of its first field, when that
/// field (unquoted) is a timestamp.
pub open spec fn row_ts(line: Seq<u8>) -> Option<int> {
    if ts_ok(unquote(first_field(line))) {
        Some(ts_scaled(unquote(first_field(line))))
    } else {
        None
    }
}

/// Ordering key of one data row.
pub fn ts_of_line(line: &[u8]) -> (r: Option<i128>)
    ensures
        r is Some <==> row_ts(line@) is Some,
        r matches Some(v) ==> row_ts(line@) == Some(v as int),
{
    let n = line.len();
    // end of the first comma-separated field
    let mut e: usize = 0;
    loop
        invariant
            line@.len() == n,
            e as int <= n,
            forall|j: int| 0 <= j < e as int ==> line@[j] != COMMA,
        ensures
            e as int <= n,
            forall|j: int| 0 <= j < e as int ==> line@[j] != COMMA,
            e as int == n || line@[e as int] == COMMA,
        decreases n - e,
    {
        if e >= n {
            break ;
        }
        if line[e] == COMMA {
            break ;
        }
        e = e + 1;
    }
    let ghost fld = first_field(line@);
    proof {
        if e as int == n {
            lemma_find_byte_none(line@, COMMA);
        } else {
            lemma_find_byte_witness(line@, COMMA, e as int);
        }
        assert(fld =~= line@.subrange(0, e as int));
    }
    // strip leading quotes
    let mut lo: usize = 0;
    loop
        invariant
            line@.len() == n,
            0 <= lo as int <= e as int <= n,
            fld == first_field(line@),
            trim_lead(fld) == trim_lead(line@.subrange(lo as int, e as int)),
        ensures
            0 <= lo as int <= e as int <= n,
            trim_lead(fld) == line@.subrange(lo as int, e as int),
        decreases e - lo,
    {
        if lo >= e {
            assert(trim_lead(line@.subrange(lo as int, e as int)).len() == 0);
            break ;
        }
        if line[lo] != QUOTE {
            break ;
        }
        proof {
            let cur = line@.subrange(lo as int, e as int);
            assert(cur[0] == QUOTE);
            assert(cur.drop_first() =~= line@.subrange(lo as int + 1, e as int));
        }
        lo = lo + 1;
    }
    // strip trailing quotes
    let mut hi: usize = e;
    loop
        invariant
            line@.len() == n,
            0 <= lo as int <= hi as int <= e as int <= n,
            fld == first_field(line@),
            trim_lead(fld) == line@.subrange(lo as int, e as int),
            unquote(fld) == trim_trail(line@.subrange(lo as int, hi as int)),
        ensures
            0 <= lo as int <= hi as int <= n,
            unquote(fld) == line@.subrange(lo as int, hi as int),
        decreases hi,
    {
        if hi <= lo {
            assert(trim_trail(line@.subrange(lo as int, hi as int)).len() == 0);
            break ;
        }
        if line[hi - 1] != QUOTE {
            break ;
        }
        proof {
            let cur = line@.subrange(lo as int, hi as int);
            assert(cur.last() == QUOTE);
            assert(cur.drop_last() =~= line@.subrange(lo as int, hi as int - 1));
        }
        hi = hi - 1;
    }
    parse_ts(&line[lo..hi])
}

} // verus!

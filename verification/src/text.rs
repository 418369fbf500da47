//! Text at the machine's edges, verified: parsing signed decimal integers
//! (program fields and input lines) and rendering them (output lines).
//! Everything is specified over byte sequences; program text and input
//! lines are UTF-8, and every byte that matters here is ASCII.
use vstd::prelude::*;
use vstd::string::StringSliceAdditionalSpecFns;

use crate::Int;
use crate::machine::VmError;

verus! {

/// Field separators in program source: comma and the line-break bytes.
pub open spec fn is_sep(b: u8) -> bool {
    b == 44 || b == 10 || b == 13
}

/// ASCII whitespace trimmed around an input line before parsing.
pub open spec fn is_ws(b: u8) -> bool {
    b == 32 || b == 9 || b == 10 || b == 13
}

/// ASCII decimal digit.
pub open spec fn is_digit(b: u8) -> bool {
    48 <= b <= 57
}

pub open spec fn all_digits(t: Seq<u8>) -> bool {
    forall|i: int| 0 <= i < t.len() ==> is_digit(#[trigger] t[i])
}

/// Value of a sequence of decimal digits, most significant first.
pub open spec fn digits_val(t: Seq<u8>) -> int
    decreases t.len(),
{
    if t.len() == 0 {
        0
    } else {
        digits_val(t.drop_last()) * 10 + (t.last() - 48)
    }
}

/// The digits of a literal, past an optional sign byte.
pub open spec fn literal_body(t: Seq<u8>) -> Seq<u8> {
    if t.len() > 0 && (t[0] == 43 || t[0] == 45) {
        t.skip(1)
    } else {
        t
    }
}

pub open spec fn literal_negative(t: Seq<u8>) -> bool {
    t.len() > 0 && t[0] == 45
}

/// The mathematical value of a signed decimal literal.
pub open spec fn literal_val(t: Seq<u8>) -> int {
    if literal_negative(t) {
        -digits_val(literal_body(t))
    } else {
        digits_val(literal_body(t))
    }
}

/// Whether `t` is a signed decimal literal in the machine's integer range:
/// an optional `+` or `-`, then at least one digit, with a value that fits.
pub open spec fn is_int_literal(t: Seq<u8>) -> bool {
    &&& literal_body(t).len() > 0
    &&& all_digits(literal_body(t))
    &&& i64::MIN <= literal_val(t) <= i64::MAX
}

pub open spec fn trim_front(s: Seq<u8>) -> Seq<u8>
    decreases s.len(),
{
    if s.len() > 0 && is_ws(s[0]) {
        trim_front(s.skip(1))
    } else {
        s
    }
}

pub open spec fn trim_back(s: Seq<u8>) -> Seq<u8>
    decreases s.len(),
{
    if s.len() > 0 && is_ws(s.last()) {
        trim_back(s.drop_last())
    } else {
        s
    }
}

/// `s` without leading and trailing ASCII whitespace.
pub open spec fn trim(s: Seq<u8>) -> Seq<u8> {
    trim_back(trim_front(s))
}

/// What parsing one piece of input text yields: the value of the literal
/// left after trimming, if there is one.
pub open spec fn spec_parse_int(s: Seq<u8>) -> Option<Int> {
    if is_int_literal(trim(s)) {
        Some(literal_val(trim(s)) as Int)
    } else {
        None
    }
}

proof fn lemma_digits_val_nonneg(t: Seq<u8>)
    requires
        all_digits(t),
    ensures
        digits_val(t) >= 0,
    decreases t.len(),
{
    if t.len() > 0 {
        assert(all_digits(t.drop_last()));
        lemma_digits_val_nonneg(t.drop_last());
    }
}

/// Each further digit can only move the value away from zero.
proof fn lemma_digits_val_prefix(t: Seq<u8>, j: int)
    requires
        all_digits(t),
        0 <= j <= t.len(),
    ensures
        digits_val(t.take(j)) <= digits_val(t),
    decreases t.len() - j,
{
    assert(all_digits(t.take(j)));
    lemma_digits_val_nonneg(t.take(j));
    if j < t.len() {
        assert(t.take(j + 1).drop_last() =~= t.take(j));
        assert(digits_val(t.take(j + 1)) == digits_val(t.take(j)) * 10 + (t[j] - 48));
        lemma_digits_val_prefix(t, j + 1);
    } else {
        assert(t.take(j) =~= t);
    }
}

proof fn lemma_trim_front_skip(s: Seq<u8>, i: int)
    requires
        0 <= i <= s.len(),
        forall|j: int| 0 <= j < i ==> is_ws(#[trigger] s[j]),
    ensures
        trim_front(s) == trim_front(s.skip(i)),
    decreases i,
{
    if i > 0 {
        assert(s.skip(1).skip(i - 1) =~= s.skip(i));
        lemma_trim_front_skip(s.skip(1), i - 1);
    } else {
        assert(s.skip(0) =~= s);
    }
}

proof fn lemma_trim_back_take(s: Seq<u8>, k: int)
    requires
        0 <= k <= s.len(),
        forall|j: int| k <= j < s.len() ==> is_ws(#[trigger] s[j]),
    ensures
        trim_back(s) == trim_back(s.take(k)),
    decreases s.len() - k,
{
    if k < s.len() {
        assert(is_ws(s[s.len() - 1]));
        assert(s.drop_last().take(k) =~= s.take(k));
        lemma_trim_back_take(s.drop_last(), k);
    } else {
        assert(s.take(k) =~= s);
    }
}

/// Parse the bytes `[lo, hi)` of `bytes` as a signed decimal literal, with
/// no surrounding whitespace allowed. `None` exactly when that range is not
/// a literal in range.
pub(crate) fn parse_range(bytes: &[u8], lo: usize, hi: usize) -> (r: Option<Int>)
    requires
        lo <= hi <= bytes@.len(),
    ensures
        ({
            let t = bytes@.subrange(lo as int, hi as int);
            match r {
                Some(n) => is_int_literal(t) && n == literal_val(t),
                None => !is_int_literal(t),
            }
        }),
{
    let ghost t = bytes@.subrange(lo as int, hi as int);
    let mut i: usize = lo;
    let mut neg = false;
    if i < hi && (bytes[i] == 43 || bytes[i] == 45) {
        neg = bytes[i] == 45;
        i = i + 1;
    }
    let ghost body = bytes@.subrange(i as int, hi as int);
    proof {
        assert(body =~= literal_body(t));
        assert(neg == literal_negative(t));
    }
    if i == hi {
        // No digits at all.
        return None;
    }
    // Accumulate the negated value: the negative range of the machine
    // integer is one wider than the positive, so `-9223372036854775808`
    // still accumulates without overflow.
    let ghost start = i as int;
    let mut acc: Int = 0;
    while i < hi
        invariant
            0 <= lo <= start <= i <= hi <= bytes@.len(),
            t == bytes@.subrange(lo as int, hi as int),
            body == bytes@.subrange(start, hi as int),
            body == literal_body(t),
            neg == literal_negative(t),
            all_digits(body.take(i - start)),
            acc <= 0,
            acc == -digits_val(body.take(i - start)),
        decreases hi - i,
    {
        let ghost k = i - start;
        let b = bytes[i];
        proof {
            assert(body[k] == bytes@[i as int]);
        }
        if b < 48 || b > 57 {
            proof {
                assert(!is_digit(body[k]));
            }
            return None;
        }
        let d = (b - 48) as Int;
        proof {
            assert(body.take(k + 1).drop_last() =~= body.take(k));
        }
        let acc10 = match acc.checked_mul(10) {
            Some(a) => a,
            None => {
                proof {
                    overflow_means_out_of_range(t, body, k as int, neg, acc * 10 - d);
                }
                return None;
            },
        };
        let acc2 = match acc10.checked_sub(d) {
            Some(a) => a,
            None => {
                proof {
                    overflow_means_out_of_range(t, body, k as int, neg, acc * 10 - d);
                }
                return None;
            },
        };
        acc = acc2;
        i = i + 1;
    }
    proof {
        assert(body.take(body.len() as int) =~= body);
    }
    if neg {
        Some(acc)
    } else {
        if acc == i64::MIN {
            // The digits spell one more than the largest positive value.
            proof {
                if is_int_literal(t) {
                    assert(literal_val(t) == digits_val(body));
                }
            }
            return None;
        }
        Some(-acc)
    }
}

/// When the accumulator leaves the machine range at digit `k`, the whole
/// literal is out of range (or not all digits), so rejecting it is right.
proof fn overflow_means_out_of_range(t: Seq<u8>, body: Seq<u8>, k: int, neg: bool, bad: int)
    requires
        body == literal_body(t),
        neg == literal_negative(t),
        0 <= k < body.len(),
        all_digits(body.take(k + 1)),
        bad == -digits_val(body.take(k + 1)),
        bad < i64::MIN,
    ensures
        !is_int_literal(t),
{
    if all_digits(body) {
        lemma_digits_val_prefix(body, k + 1);
        assert(digits_val(body) >= digits_val(body.take(k + 1)));
        if neg {
            assert(literal_val(t) == -digits_val(body));
            assert(literal_val(t) < i64::MIN);
        } else {
            assert(literal_val(t) == digits_val(body));
            assert(literal_val(t) > i64::MAX);
        }
    }
}

/// Program source split at separators into fields. Splitting never yields
/// an empty list: text with no separator is one field.
pub open spec fn split_fields(s: Seq<u8>) -> Seq<Seq<u8>>
    decreases s.len(),
{
    if s.len() == 0 {
        seq![seq![]]
    } else if is_sep(s[0]) {
        seq![seq![]] + split_fields(s.skip(1))
    } else {
        let rest = split_fields(s.skip(1));
        seq![seq![s[0]] + rest[0]] + rest.skip(1)
    }
}

/// Every nonempty field is a signed decimal literal in range; empty fields
/// (as around a trailing separator) are skipped, not errors.
pub open spec fn fields_ok(fs: Seq<Seq<u8>>) -> bool {
    forall|k: int| 0 <= k < fs.len() ==> ((#[trigger] fs[k]).len() > 0 ==> is_int_literal(fs[k]))
}

/// The values of the nonempty fields, in order.
pub open spec fn fields_vals(fs: Seq<Seq<u8>>) -> Seq<Int>
    decreases fs.len(),
{
    if fs.len() == 0 {
        seq![]
    } else {
        (if fs[0].len() == 0 {
            seq![]
        } else {
            seq![literal_val(fs[0]) as Int]
        }) + fields_vals(fs.skip(1))
    }
}

/// Whether program source is well formed: every nonempty field parses.
pub open spec fn code_ok(s: Seq<u8>) -> bool {
    fields_ok(split_fields(s))
}

/// The cells a well-formed program source denotes.
pub open spec fn code_val(s: Seq<u8>) -> Seq<Int> {
    fields_vals(split_fields(s))
}

proof fn lemma_split_fields_len(s: Seq<u8>)
    ensures
        split_fields(s).len() >= 1,
    decreases s.len(),
{
    if s.len() > 0 && !is_sep(s[0]) {
        lemma_split_fields_len(s.skip(1));
    }
}

/// Splitting at the first separator: the bytes before it are one field and
/// the rest splits on its own.
proof fn lemma_split_at_first_sep(s: Seq<u8>, j: int)
    requires
        0 <= j <= s.len(),
        forall|k: int| 0 <= k < j ==> !is_sep(#[trigger] s[k]),
        j == s.len() || is_sep(s[j]),
    ensures
        j < s.len() ==> split_fields(s) == seq![s.take(j)] + split_fields(s.skip(j + 1)),
        j == s.len() ==> split_fields(s) == seq![s],
    decreases j,
{
    lemma_split_fields_len(s);
    if j == 0 {
        if 0 < s.len() {
            assert(s.take(0) =~= Seq::<u8>::empty());
            assert(split_fields(s) =~= seq![s.take(0)] + split_fields(s.skip(1)));
        } else {
            assert(s =~= Seq::<u8>::empty());
            assert(split_fields(s) =~= seq![s]);
        }
    } else {
        let s1 = s.skip(1);
        assert forall|k: int| 0 <= k < j - 1 implies !is_sep(#[trigger] s1[k]) by {
            assert(s1[k] == s[k + 1]);
        }
        lemma_split_at_first_sep(s1, j - 1);
        let rest = split_fields(s1);
        lemma_split_fields_len(s1);
        if j < s.len() {
            assert(rest == seq![s1.take(j - 1)] + split_fields(s1.skip(j)));
            assert(rest[0] == s1.take(j - 1));
            assert(seq![s[0]] + rest[0] =~= s.take(j));
            assert(rest.skip(1) =~= split_fields(s1.skip(j)));
            assert(s1.skip(j) =~= s.skip(j + 1));
            assert(split_fields(s) =~= seq![s.take(j)] + split_fields(s.skip(j + 1)));
        } else {
            assert(rest == seq![s1]);
            assert(!is_sep(s[0]));
            assert(split_fields(s) == seq![seq![s[0]] + rest[0]] + rest.skip(1));
            assert(seq![s[0]] + rest[0] =~= s);
            assert(rest.skip(1) =~= Seq::<Seq<u8>>::empty());
            assert(seq![seq![s[0]] + rest[0]] + rest.skip(1) =~= seq![s]);
        }
    }
}

proof fn lemma_fields_vals_push(fs: Seq<Seq<u8>>, f: Seq<u8>)
    ensures
        fields_vals(fs + seq![f]) == fields_vals(fs) + (if f.len() == 0 {
            seq![]
        } else {
            seq![literal_val(f) as Int]
        }),
    decreases fs.len(),
{
    let whole = fs + seq![f];
    if fs.len() == 0 {
        let tailv = if f.len() == 0 {
            seq![]
        } else {
            seq![literal_val(f) as Int]
        };
        assert(whole[0] == f);
        assert(whole.skip(1) =~= fs);
        assert(fields_vals(whole) == tailv + fields_vals(fs));
        assert(fields_vals(fs) =~= Seq::<Int>::empty());
        assert(tailv + fields_vals(fs) =~= fields_vals(fs) + tailv);
    } else {
        let headv = if fs[0].len() == 0 {
            seq![]
        } else {
            seq![literal_val(fs[0]) as Int]
        };
        let tailv = if f.len() == 0 {
            seq![]
        } else {
            seq![literal_val(f) as Int]
        };
        assert(whole[0] == fs[0]);
        assert(whole.skip(1) =~= fs.skip(1) + seq![f]);
        lemma_fields_vals_push(fs.skip(1), f);
        assert(fields_vals(whole) == headv + (fields_vals(fs.skip(1)) + tailv));
        assert(fields_vals(fs) == headv + fields_vals(fs.skip(1)));
        assert(headv + (fields_vals(fs.skip(1)) + tailv) =~= (headv + fields_vals(fs.skip(1)))
            + tailv);
    }
}

/// Parse a whole program source: comma- or line-break-separated signed
/// decimal fields, empty fields skipped. Fails, without saying which field
/// was at fault, exactly when some nonempty field is not a literal in
/// range.
pub(crate) fn parse_code(s: &str) -> (r: Result<Vec<Int>, VmError>)
    ensures
        match r {
            Ok(v) => code_ok(s.spec_bytes()) && v@ == code_val(s.spec_bytes()),
            Err(e) => !code_ok(s.spec_bytes()) && e == VmError::SourceParse,
        },
{
    let bytes = s.as_bytes();
    let ghost sq = bytes@;
    let n = bytes.len();
    let mut out: Vec<Int> = Vec::new();
    let mut st: usize = 0;
    let mut i: usize = 0;
    let ghost mut done: Seq<Seq<u8>> = seq![];
    proof {
        assert(sq.skip(0) =~= sq);
        assert(done + split_fields(sq) =~= split_fields(sq));
    }
    while i < n
        invariant
            0 <= st <= i <= n == sq.len(),
            bytes@ == sq,
            sq == s.spec_bytes(),
            forall|k: int| st <= k < i ==> !is_sep(#[trigger] sq[k]),
            split_fields(sq) == done + split_fields(sq.skip(st as int)),
            fields_ok(done),
            out@ == fields_vals(done),
        decreases n - i,
    {
        let b = bytes[i];
        if b == 44 || b == 10 || b == 13 {
            let ghost f = sq.subrange(st as int, i as int);
            proof {
                let tail = sq.skip(st as int);
                assert forall|k: int| 0 <= k < i - st implies !is_sep(#[trigger] tail[k]) by {
                    assert(tail[k] == sq[k + st]);
                }
                assert(is_sep(tail[i - st]));
                lemma_split_at_first_sep(tail, i - st);
                assert(tail.take(i - st) =~= f);
                assert(tail.skip(i - st + 1) =~= sq.skip(i + 1));
                assert(done + (seq![f] + split_fields(sq.skip(i + 1))) =~= (done + seq![f])
                    + split_fields(sq.skip(i + 1)));
            }
            if i > st {
                match parse_range(bytes, st, i) {
                    Some(v) => {
                        out.push(v);
                        proof {
                            assert(literal_val(f) as Int == v);
                        }
                    },
                    None => {
                        proof {
                            let rest = split_fields(sq.skip(i + 1));
                            assert(split_fields(sq) == done + (seq![f] + rest));
                            assert((seq![f] + rest)[0] == f);
                            assert(split_fields(sq)[done.len() as int] == f);
                            assert(f.len() > 0 && !is_int_literal(f));
                        }
                        return Err(VmError::SourceParse);
                    },
                }
            }
            proof {
                lemma_fields_vals_push(done, f);
                let done2 = done + seq![f];
                assert forall|k: int|
                    0 <= k < done2.len() && (#[trigger] done2[k]).len() > 0 implies is_int_literal(
                    done2[k]) by {
                    if k < done.len() {
                        assert(done2[k] == done[k]);
                    } else {
                        assert(done2[k] == f);
                    }
                }
                assert(fields_ok(done2));
                assert(out@ =~= fields_vals(done2));
                done = done2;
            }
            st = i + 1;
        }
        i = i + 1;
    }
    // The text past the last separator is the final field.
    let ghost f = sq.skip(st as int);
    proof {
        let tail = sq.skip(st as int);
        assert forall|k: int| 0 <= k < n - st implies !is_sep(#[trigger] tail[k]) by {
            assert(tail[k] == sq[k + st]);
        }
        lemma_split_at_first_sep(tail, n - st);
        assert(sq.subrange(st as int, n as int) =~= f);
    }
    if st < n {
        match parse_range(bytes, st, n) {
            Some(v) => {
                out.push(v);
                proof {
                    assert(literal_val(f) as Int == v);
                }
            },
            None => {
                proof {
                    assert(split_fields(sq) == done + seq![f]);
                    assert(split_fields(sq)[done.len() as int] == f);
                    assert(f.len() > 0 && !is_int_literal(f));
                }
                return Err(VmError::SourceParse);
            },
        }
    }
    proof {
        lemma_fields_vals_push(done, f);
        let done2 = done + seq![f];
        assert forall|k: int|
            0 <= k < done2.len() && (#[trigger] done2[k]).len() > 0 implies is_int_literal(
            done2[k]) by {
            if k < done.len() {
                assert(done2[k] == done[k]);
            } else {
                assert(done2[k] == f);
            }
        }
        assert(fields_ok(done2));
        assert(out@ =~= fields_vals(done2));
        assert(split_fields(sq) == done2);
    }
    Ok(out)
}

/// The decimal digits of a non-negative number, most significant first.
pub open spec fn dec_digits(n: int) -> Seq<u8>
    recommends
        n >= 0,
    decreases n,
{
    if n < 10 {
        seq![(48 + n) as u8]
    } else {
        dec_digits(n / 10) + seq![(48 + n % 10) as u8]
    }
}

/// The decimal rendering of a signed number: a `-` for negatives, then the
/// digits of its magnitude.
pub open spec fn dec_bytes(n: int) -> Seq<u8> {
    if n < 0 {
        seq![45u8] + dec_digits(-n)
    } else {
        dec_digits(n)
    }
}

/// Append the decimal rendering of `n` to `out`.
pub fn push_int(out: &mut Vec<u8>, n: Int)
    ensures
        final(out)@ == old(out)@ + dec_bytes(n as int),
{
    let ghost prefix = out@;
    if n < 0 {
        out.push(45);
    }
    let mut m: u64 = if n < 0 {
        (-(n as i128)) as u64
    } else {
        n as u64
    };
    let ghost mag = m as int;
    let mut tmp: Vec<u8> = Vec::new();
    if m == 0 {
        tmp.push(48);
    } else {
        while m > 0
            invariant_except_break
                m > 0,
                dec_digits(mag) == dec_digits(m as int) + tmp@,
            invariant
                0 <= m <= mag,
            ensures
                tmp@ == dec_digits(mag),
            decreases m,
        {
            let d = (48 + (m % 10) as u8) as u8;
            let ghost before = tmp@;
            tmp.insert(0, d);
            proof {
                assert(tmp@ =~= seq![d] + before);
                if m >= 10 {
                    assert(dec_digits(m as int) == dec_digits(m as int / 10) + seq![d]);
                    assert(dec_digits(m as int / 10) + (seq![d] + before) =~= (dec_digits(
                        m as int / 10,
                    ) + seq![d]) + before);
                } else {
                    assert(dec_digits(m as int) =~= seq![d]);
                    assert(dec_digits(m as int) + before =~= seq![d] + before);
                }
            }
            m = m / 10;
            if m == 0 {
                break;
            }
        }
    }
    let mut k: usize = 0;
    while k < tmp.len()
        invariant
            0 <= k <= tmp@.len(),
            tmp@ == dec_digits(mag),
            out@ == prefix + (if n < 0 {
                seq![45u8]
            } else {
                Seq::<u8>::empty()
            }) + tmp@.take(k as int),
        decreases tmp@.len() - k,
    {
        out.push(tmp[k]);
        proof {
            assert(tmp@.take(k + 1) =~= tmp@.take(k as int).push(tmp@[k as int]));
        }
        k = k + 1;
    }
    proof {
        assert(tmp@.take(tmp@.len() as int) =~= tmp@);
        if n < 0 {
            assert(mag == -(n as int));
            assert(out@ =~= prefix + dec_bytes(n as int));
        } else {
            assert(out@ =~= prefix + dec_bytes(n as int));
        }
    }
}

/// The decimal rendering of `n`, as the output capability writes it.
pub fn int_to_text(n: Int) -> (v: Vec<u8>)
    ensures
        v@ == dec_bytes(n as int),
{
    let mut v: Vec<u8> = Vec::new();
    push_int(&mut v, n);
    proof {
        assert(v@ =~= dec_bytes(n as int));
    }
    v
}

/// Parse the bytes `[from, to)` of `bytes` as the machine reads input
/// text: surrounding ASCII whitespace ignored, then one signed decimal
/// literal.
pub(crate) fn parse_trimmed(bytes: &[u8], from: usize, to: usize) -> (r: Option<Int>)
    requires
        from <= to <= bytes@.len(),
    ensures
        r == spec_parse_int(bytes@.subrange(from as int, to as int)),
{
    let ghost sq = bytes@.subrange(from as int, to as int);
    let n = to;
    let mut lo: usize = from;
    while lo < n && (bytes[lo] == 32 || bytes[lo] == 9 || bytes[lo] == 10 || bytes[lo] == 13)
        invariant
            from <= lo <= n <= bytes@.len(),
            n == to,
            sq == bytes@.subrange(from as int, to as int),
            forall|j: int| from <= j < lo ==> is_ws(#[trigger] bytes@[j]),
        decreases n - lo,
    {
        lo = lo + 1;
    }
    let mut hi: usize = n;
    while hi > lo && (bytes[hi - 1] == 32 || bytes[hi - 1] == 9 || bytes[hi - 1] == 10 || bytes[hi
        - 1] == 13)
        invariant
            from <= lo <= hi <= n <= bytes@.len(),
            n == to,
            sq == bytes@.subrange(from as int, to as int),
            forall|j: int| from <= j < lo ==> is_ws(#[trigger] bytes@[j]),
            forall|j: int| hi <= j < n ==> is_ws(#[trigger] bytes@[j]),
        decreases hi,
    {
        hi = hi - 1;
    }
    proof {
        assert forall|j: int| 0 <= j < lo - from implies is_ws(#[trigger] sq[j]) by {
            assert(sq[j] == bytes@[j + from]);
        }
        lemma_trim_front_skip(sq, lo - from);
        let f = sq.skip(lo - from);
        if lo < hi {
            assert(f[0] == bytes@[lo as int]);
            assert(!is_ws(f[0]));
        }
        assert(trim_front(sq) == f);
        assert forall|j: int| (hi - lo) <= j < f.len() implies is_ws(#[trigger] f[j]) by {
            assert(f[j] == bytes@[j + lo]);
        }
        lemma_trim_back_take(f, hi - lo);
        let ft = f.take(hi - lo);
        if lo < hi {
            assert(ft.last() == bytes@[hi - 1]);
            assert(!is_ws(ft.last()));
        }
        assert(trim_back(ft) == ft);
        assert(trim(sq) =~= bytes@.subrange(lo as int, hi as int));
    }
    parse_range(bytes, lo, hi)
}

/// Parse input text as the machine reads it: surrounding ASCII whitespace
/// ignored, then one signed decimal literal.
pub fn parse_int(s: &str) -> (r: Option<Int>)
    ensures
        r == spec_parse_int(s.spec_bytes()),
{
    let bytes = s.as_bytes();
    proof {
        assert(bytes@.subrange(0, bytes@.len() as int) =~= s.spec_bytes());
    }
    parse_trimmed(bytes, 0, bytes.len())
}

/// Where the line beginning at `pos` ends: one past its newline byte, or
/// the end of the text.
pub open spec fn line_end(s: Seq<u8>, pos: int) -> int
    recommends
        0 <= pos <= s.len(),
    decreases s.len() - pos,
    when 0 <= pos <= s.len()
{
    if pos >= s.len() {
        pos
    } else if s[pos] == 10 {
        pos + 1
    } else {
        line_end(s, pos + 1)
    }
}

/// The line beginning at `pos`, its newline byte included.
pub open spec fn next_line(s: Seq<u8>, pos: int) -> Seq<u8> {
    s.subrange(pos, line_end(s, pos))
}

pub proof fn lemma_line_end_bounds(s: Seq<u8>, pos: int)
    requires
        0 <= pos <= s.len(),
    ensures
        pos <= line_end(s, pos) <= s.len(),
    decreases s.len() - pos,
{
    if pos < s.len() && s[pos] != 10 {
        lemma_line_end_bounds(s, pos + 1);
    }
}

/// The bytes an output sink accumulates for a sequence of emitted values:
/// each value rendered in decimal with a trailing newline, in order.
pub open spec fn out_lines(outs: Seq<Int>) -> Seq<u8>
    decreases outs.len(),
{
    if outs.len() == 0 {
        seq![]
    } else {
        out_lines(outs.drop_last()) + dec_bytes(outs.last() as int) + seq![10u8]
    }
}

/// Where a line feed stands after consuming `k` lines from `pos`.
pub open spec fn feed_after(text: Seq<u8>, pos: int, k: nat) -> int
    decreases k,
{
    if k == 0 {
        pos
    } else {
        feed_after(text, line_end(text, pos), (k - 1) as nat)
    }
}

/// Whether each of the `k` lines from `pos` parses as an integer.
pub open spec fn feed_parses(text: Seq<u8>, pos: int, k: nat) -> bool
    decreases k,
{
    k == 0 || (spec_parse_int(next_line(text, pos)) is Some && feed_parses(
        text,
        line_end(text, pos),
        (k - 1) as nat,
    ))
}

/// The values of the `k` successive lines from `pos`, assuming each parses.
pub open spec fn feed_vals(text: Seq<u8>, pos: int, k: nat) -> Seq<Int>
    decreases k,
{
    if k == 0 {
        seq![]
    } else {
        seq![spec_parse_int(next_line(text, pos))->0] + feed_vals(
            text,
            line_end(text, pos),
            (k - 1) as nat,
        )
    }
}

/// Consuming one more line extends the consumed values at the end and moves
/// the feed to the end of that line.
pub proof fn lemma_feed_snoc(text: Seq<u8>, pos: int, k: nat)
    ensures
        feed_after(text, pos, k + 1) == line_end(text, feed_after(text, pos, k)),
        feed_parses(text, pos, k) && spec_parse_int(next_line(text, feed_after(text, pos, k)))
            is Some ==> feed_parses(text, pos, k + 1),
        feed_vals(text, pos, k + 1) == feed_vals(text, pos, k) + seq![
            spec_parse_int(next_line(text, feed_after(text, pos, k)))->0,
        ],
    decreases k,
{
    let le = line_end(text, pos);
    if k == 0 {
        assert(feed_after(text, pos, 1) == feed_after(text, le, 0));
        assert(feed_after(text, le, 0) == le);
        assert(feed_after(text, pos, 0) == pos);
        assert(feed_parses(text, le, 0));
        assert(feed_vals(text, le, 0) =~= Seq::<Int>::empty());
        assert(feed_vals(text, pos, 0) =~= Seq::<Int>::empty());
        assert(feed_vals(text, pos, 1) == seq![spec_parse_int(next_line(text, pos))->0]
            + feed_vals(text, le, 0));
        assert(feed_vals(text, pos, 1) =~= feed_vals(text, pos, 0) + seq![
            spec_parse_int(next_line(text, feed_after(text, pos, 0)))->0,
        ]);
    } else {
        lemma_feed_snoc(text, le, (k - 1) as nat);
        assert(feed_after(text, pos, k + 1) == feed_after(text, le, k));
        assert(feed_after(text, pos, k) == feed_after(text, le, (k - 1) as nat));
        let head = seq![spec_parse_int(next_line(text, pos))->0];
        let tail = seq![spec_parse_int(next_line(text, feed_after(text, pos, k)))->0];
        assert(feed_vals(text, pos, k + 1) == head + feed_vals(text, le, k));
        assert(feed_vals(text, pos, k) == head + feed_vals(text, le, (k - 1) as nat));
        assert(head + (feed_vals(text, le, (k - 1) as nat) + tail) =~= (head + feed_vals(
            text,
            le,
            (k - 1) as nat,
        )) + tail);
    }
}

/// Scanning past bytes that are not newlines does not move the line's end.
pub(crate) proof fn lemma_line_end_from(s: Seq<u8>, pos: int, j: int)
    requires
        0 <= pos <= j <= s.len(),
        forall|k: int| pos <= k < j ==> s[k] != 10,
    ensures
        line_end(s, pos) == line_end(s, j),
    decreases j - pos,
{
    if pos < j {
        lemma_line_end_from(s, pos + 1, j);
    }
}

} // verus!

//! Parsing integers with an SI magnitude suffix.
//!
//! Counts are entered as either a plain signed integer ("1500") or a
//! decimal number with a magnitude suffix ("1.5k", "2M", "0.5b"): the
//! suffixes k/K, m/M, g/G/b/B and T scale by a thousand, a million, a
//! billion and a trillion.  The scaled value is truncated toward zero;
//! fractional digits beyond the suffix's zeros are past the truncation
//! point and do not contribute.  The grammar of the number part is an
//! optional sign, digits, and at most one decimal point with at least
//! one digit overall; the plain form takes no decimal point.

use vstd::prelude::*;

verus! {

use vstd::string::StringSliceAdditionalSpecFns;

/// Why an input was rejected: it does not fit the grammar, or its value
/// does not fit an `i64`.
#[derive(Clone, Copy, Debug, PartialEq, Eq, Structural)]
pub enum SiError {
    Malformed,
    OutOfRange,
}

pub open spec fn pow10(e: nat) -> int
    decreases e,
{
    if e == 0 {
        1
    } else {
        10 * pow10((e - 1) as nat)
    }
}

pub open spec fn is_digit(b: u8) -> bool {
    48 <= b <= 57
}

pub open spec fn digit_val(b: u8) -> int {
    b - 48
}

pub open spec fn all_digits(s: Seq<u8>) -> bool {
    forall|i: int| 0 <= i < s.len() ==> is_digit(#[trigger] s[i])
}

/// The value of a digit string, most significant first.
pub open spec fn digits_val(s: Seq<u8>) -> int
    decreases s.len(),
{
    if s.len() == 0 {
        0
    } else {
        digits_val(s.drop_last()) * 10 + digit_val(s.last())
    }
}

/// The scaling exponent of a suffix byte, if it is one.
pub open spec fn suffix_exp(b: u8) -> Option<nat> {
    if b == 107 || b == 75 {  // k K
        Option::Some(3nat)
    } else if b == 109 || b == 77 {  // m M
        Option::Some(6nat)
    } else if b == 103 || b == 71 || b == 98 || b == 66 {  // g G b B
        Option::Some(9nat)
    } else if b == 84 {  // T
        Option::Some(12nat)
    } else {
        Option::None
    }
}

pub open spec fn sign_of(s: Seq<u8>) -> int {
    if s.len() > 0 && s[0] == 45 {
        -1
    } else {
        1
    }
}

/// The number with a leading sign stripped.
pub open spec fn body_of(s: Seq<u8>) -> Seq<u8> {
    if s.len() > 0 && (s[0] == 45 || s[0] == 43) {
        s.drop_first()
    } else {
        s
    }
}

/// `k` is the position of the first decimal point, or the length.
pub open spec fn is_split(s: Seq<u8>, k: int) -> bool {
    &&& 0 <= k <= s.len()
    &&& (k == s.len() || s[k] == 46)
    &&& forall|i: int| 0 <= i < k ==> s[i] != 46
}

pub open spec fn split_of(s: Seq<u8>) -> int {
    choose|k: int| is_split(s, k)
}

pub open spec fn ipart_of(s: Seq<u8>) -> Seq<u8> {
    s.take(split_of(s))
}

pub open spec fn frac_of(s: Seq<u8>) -> Seq<u8> {
    if split_of(s) == s.len() {
        Seq::empty()
    } else {
        s.skip(split_of(s) + 1)
    }
}

/// A well-formed unsigned decimal: digits around at most one point,
/// with at least one digit.
pub open spec fn dec_wf(s: Seq<u8>) -> bool {
    &&& is_split(s, split_of(s))
    &&& all_digits(ipart_of(s))
    &&& all_digits(frac_of(s))
    &&& ipart_of(s).len() + frac_of(s).len() > 0
}

/// The first `e` fractional digits as an integer, zero-padded: exactly
/// the fractional contribution after scaling by `10^e` and truncating.
pub open spec fn scaled_frac(frac: Seq<u8>, e: nat) -> int {
    if frac.len() >= e {
        digits_val(frac.take(e as int))
    } else {
        digits_val(frac) * pow10((e - frac.len()) as nat)
    }
}

/// The unsigned decimal scaled by `10^e`, truncated toward zero.
pub open spec fn dec_value(s: Seq<u8>, e: nat) -> int {
    digits_val(ipart_of(s)) * pow10(e) + scaled_frac(frac_of(s), e)
}

/// What a byte string denotes: a plain signed integer when it ends in a
/// digit, a signed decimal scaled by its suffix otherwise; `None` when
/// it fits neither form.
pub open spec fn si_value(s: Seq<u8>) -> Option<int> {
    if s.len() == 0 {
        Option::None
    } else if is_digit(s.last()) {
        let b = body_of(s);
        if b.len() > 0 && all_digits(b) {
            Option::Some(sign_of(s) * digits_val(b))
        } else {
            Option::None
        }
    } else {
        match suffix_exp(s.last()) {
            Option::None => Option::None,
            Option::Some(e) => {
                let p = s.drop_last();
                let b = body_of(p);
                if dec_wf(b) {
                    Option::Some(sign_of(p) * dec_value(b, e))
                } else {
                    Option::None
                }
            },
        }
    }
}

proof fn lemma_split_unique(s: Seq<u8>, k1: int, k2: int)
    requires
        is_split(s, k1),
        is_split(s, k2),
    ensures
        k1 == k2,
{
    if k1 < k2 {
        assert(s[k1] != 46);
    }
    if k2 < k1 {
        assert(s[k2] != 46);
    }
}

proof fn lemma_digits_val_nonneg(s: Seq<u8>)
    requires
        all_digits(s),
    ensures
        digits_val(s) >= 0,
    decreases s.len(),
{
    if s.len() > 0 {
        assert(all_digits(s.drop_last())) by {
            assert forall|i: int| 0 <= i < s.drop_last().len() implies is_digit(
                #[trigger] s.drop_last()[i],
            ) by {
                assert(s.drop_last()[i] == s[i]);
            }
        }
        lemma_digits_val_nonneg(s.drop_last());
    }
}

/// More digits only grow the value.
proof fn lemma_digits_val_prefix(s: Seq<u8>, t: int)
    requires
        all_digits(s),
        0 <= t <= s.len(),
    ensures
        digits_val(s) >= digits_val(s.take(t)),
    decreases s.len() - t,
{
    if t < s.len() {
        lemma_digits_val_prefix(s, t + 1);
        assert(s.take(t + 1).drop_last() =~= s.take(t));
        assert(s.take(t + 1).last() == s[t]);
        assert(all_digits(s.take(t))) by {
            assert forall|i: int| 0 <= i < t implies is_digit(#[trigger] s.take(t)[i]) by {
                assert(s.take(t)[i] == s[i]);
            }
        }
        lemma_digits_val_nonneg(s.take(t));
        assert(digits_val(s.take(t + 1)) >= digits_val(s.take(t)));
    } else {
        assert(s.take(t) =~= s);
    }
}

proof fn lemma_pow10_pos(e: nat)
    ensures
        pow10(e) >= 1,
    decreases e,
{
    if e > 0 {
        lemma_pow10_pos((e - 1) as nat);
    }
}

/// Accumulates the value of a run of digit bytes; reports an overflow
/// past `2^63` instead of a value.
fn scan_digits(bytes: &[u8], lo: usize, hi: usize) -> (r: (u128, bool))
    requires
        lo <= hi <= bytes@.len(),
        all_digits(bytes@.subrange(lo as int, hi as int)),
    ensures
        ({
            let seg = bytes@.subrange(lo as int, hi as int);
            &&& !r.1 ==> r.0 == digits_val(seg) && r.0 <= 0x8000_0000_0000_0000u128
            &&& r.1 ==> digits_val(seg) > 0x8000_0000_0000_0000
        }),
{
    let ghost seg = bytes@.subrange(lo as int, hi as int);
    let mut acc: u128 = 0;
    let mut over = false;
    let mut t: usize = lo;
    proof {
        assert(seg.take(0) =~= Seq::<u8>::empty());
    }
    while t < hi
        invariant
            lo <= t <= hi <= bytes@.len(),
            seg == bytes@.subrange(lo as int, hi as int),
            all_digits(seg),
            !over ==> acc == digits_val(seg.take(t - lo)) && acc <= 0x8000_0000_0000_0000u128,
            over ==> digits_val(seg.take(t - lo)) > 0x8000_0000_0000_0000,
        decreases hi - t,
    {
        let b = bytes[t];
        proof {
            assert(seg[t - lo] == b);
            assert(is_digit(b));
            assert(seg.take(t - lo + 1).drop_last() =~= seg.take(t - lo));
            assert(seg.take(t - lo + 1).last() == b);
            assert(all_digits(seg.take(t - lo))) by {
                assert forall|i: int| 0 <= i < t - lo implies is_digit(
                    #[trigger] seg.take(t - lo)[i],
                ) by {
                    assert(seg.take(t - lo)[i] == seg[i]);
                }
            }
            lemma_digits_val_nonneg(seg.take(t - lo));
        }
        if !over {
            let d = (b - 48) as u128;
            acc = acc * 10 + d;
            if acc > 0x8000_0000_0000_0000u128 {
                over = true;
            }
        }
        t = t + 1;
    }
    proof {
        assert(seg.take(hi - lo) =~= seg);
    }
    (acc, over)
}

/// `10^e` for exponents up to the largest suffix.
fn pow10_exec(e: usize) -> (r: u128)
    requires
        e <= 12,
    ensures
        r == pow10(e as nat),
        1 <= r <= 1000000000000,
{
    let mut r: u128 = 1;
    let mut k: usize = 0;
    while k < e
        invariant
            k <= e <= 12,
            r == pow10(k as nat),
            r <= 1000000000000,
        decreases e - k,
    {
        proof {
            lemma_pow10_values();
            assert(pow10((k + 1) as nat) == 10 * pow10(k as nat));
            assert(pow10((k + 1) as nat) <= 1000000000000);
        }
        r = r * 10;
        k = k + 1;
    }
    proof {
        lemma_pow10_pos(e as nat);
    }
    r
}

/// Turns a checked magnitude and sign into the result: the value must
/// fit an `i64`.
fn signed_result(magnitude: u128, negative: bool, ghost_value: Ghost<int>) -> (r: Result<
    i64,
    SiError,
>)
    requires
        ghost_value@ == if negative {
            -(magnitude as int)
        } else {
            magnitude as int
        },
    ensures
        match r {
            Result::Ok(v) => v as int == ghost_value@ && i64::MIN <= ghost_value@ <= i64::MAX,
            Result::Err(e) => e == SiError::OutOfRange && !(i64::MIN <= ghost_value@
                <= i64::MAX),
        },
{
    if negative {
        if magnitude > 0x8000_0000_0000_0000u128 {
            Result::Err(SiError::OutOfRange)
        } else if magnitude == 0x8000_0000_0000_0000u128 {
            Result::Ok(i64::MIN)
        } else {
            Result::Ok(-(magnitude as i64))
        }
    } else {
        if magnitude > 0x7fff_ffff_ffff_ffffu128 {
            Result::Err(SiError::OutOfRange)
        } else {
            Result::Ok(magnitude as i64)
        }
    }
}

/// The plain form: an optional sign and digits only.
#[verifier::rlimit(100)]
fn parse_plain(bytes: &[u8]) -> (r: Result<i64, SiError>)
    requires
        bytes@.len() >= 1,
        is_digit(bytes@.last()),
    ensures
        match r {
            Result::Ok(v) => si_value(bytes@) == Option::Some(v as int),
            Result::Err(e) => match si_value(bytes@) {
                Option::None => e == SiError::Malformed,
                Option::Some(v) => e == SiError::OutOfRange && !(i64::MIN <= v <= i64::MAX),
            },
        },
{
    let ghost whole = bytes@;
    let n = bytes.len();
    {
        let negative = bytes[0] == 45;
        let start: usize = if bytes[0] == 45 || bytes[0] == 43 {
            1
        } else {
            0
        };
        let ghost body = body_of(whole);
        proof {
            assert(body =~= whole.subrange(start as int, n as int));
        }
        if start >= n {
            proof {
                assert(whole[0] == whole.last());
                assert(false);
            }
            return Result::Err(SiError::Malformed);
        }
        // Validate the digits.
        let mut t: usize = start;
        while t < n
            invariant
                start <= t <= n == bytes@.len(),
                whole == bytes@,
                n >= 1,
                start >= 1 ==> (whole[0] == 45 || whole[0] == 43),
                start == 0 ==> !(whole[0] == 45 || whole[0] == 43),
                is_digit(whole.last()),
                body == body_of(whole),
                body == whole.subrange(start as int, n as int),
                forall|i: int| start <= i < t ==> is_digit(#[trigger] bytes@[i]),
            decreases n - t,
        {
            let b = bytes[t];
            if !(48 <= b && b <= 57) {
                proof {
                    assert(!is_digit(body[t - start]));
                    assert(!all_digits(body));
                }
                return Result::Err(SiError::Malformed);
            }
            t = t + 1;
        }
        proof {
            assert(all_digits(body)) by {
                assert forall|i: int| 0 <= i < body.len() implies is_digit(#[trigger] body[i]) by {
                    assert(body[i] == bytes@[start + i]);
                }
            }
        }
        let (acc, over) = scan_digits(bytes, start, n);
        proof {
            assert(body == bytes@.subrange(start as int, n as int));
            lemma_digits_val_nonneg(body);
        }
        if over {
            return Result::Err(SiError::OutOfRange);
        }
        signed_result(
            acc,
            negative,
            Ghost(if negative {
                -(acc as int)
            } else {
                acc as int
            }),
        )
    }
}

/// The suffixed form: a signed decimal scaled by `10^e`.
#[verifier::rlimit(100)]
fn parse_suffixed(bytes: &[u8], e: usize) -> (r: Result<i64, SiError>)
    requires
        bytes@.len() >= 1,
        !is_digit(bytes@.last()),
        suffix_exp(bytes@.last()) == Option::Some(e as nat),
    ensures
        match r {
            Result::Ok(v) => si_value(bytes@) == Option::Some(v as int),
            Result::Err(e2) => match si_value(bytes@) {
                Option::None => e2 == SiError::Malformed,
                Option::Some(v) => e2 == SiError::OutOfRange && !(i64::MIN <= v <= i64::MAX),
            },
        },
{
    let ghost whole = bytes@;
    let n = bytes.len();
    {
        let m = n - 1;  // the number part is bytes[0..m]
        let ghost prefix = whole.drop_last();
        let negative = m > 0 && bytes[0] == 45;
        let start: usize = if m > 0 && (bytes[0] == 45 || bytes[0] == 43) {
            1
        } else {
            0
        };
        let ghost body = body_of(prefix);
        proof {
            assert(prefix =~= whole.subrange(0, m as int));
            assert(body =~= whole.subrange(start as int, m as int));
        }
        if start >= m {
            proof {
                lemma_split_exists(body);
                assert(body.len() == 0);
                assert(ipart_of(body).len() + frac_of(body).len() == 0);
            }
            return Result::Err(SiError::Malformed);
        }
        // One pass: find the decimal point and validate every byte.
        let mut dot: Option<usize> = Option::None;
        let mut t: usize = start;
        while t < m
            invariant
                start <= t <= m < n == bytes@.len(),
                whole == bytes@,
                m == n - 1,
                !is_digit(whole.last()),
                prefix == whole.drop_last(),
                body == body_of(prefix),
                body == whole.subrange(start as int, m as int),
                match dot {
                    Option::None => forall|i: int| start <= i < t ==> is_digit(#[trigger] bytes@[i]),
                    Option::Some(d) => {
                        &&& start <= d < t
                        &&& bytes@[d as int] == 46
                        &&& forall|i: int| start <= i < d ==> is_digit(#[trigger] bytes@[i])
                        &&& forall|i: int| d < i < t ==> is_digit(#[trigger] bytes@[i])
                    },
                },
            decreases m - t,
        {
            let b = bytes[t];
            if 48 <= b && b <= 57 {
            } else if b == 46 {
                match dot {
                    Option::None => {
                        dot = Option::Some(t);
                    },
                    Option::Some(d) => {
                        // a second point: the fraction holds a non-digit
                        proof {
                            let k = (d - start) as int;
                            assert(is_split(body, k)) by {
                                assert(body[k] == bytes@[d as int]);
                                assert forall|i: int| 0 <= i < k implies body[i] != 46 by {
                                    assert(body[i] == bytes@[start + i]);
                                }
                            }
                            lemma_split_exists(body);
                            lemma_split_unique(body, split_of(body), k);
                            assert(frac_of(body)[t - d - 1] == bytes@[t as int]);
                            assert(!is_digit(frac_of(body)[t - d - 1]));
                            assert(!all_digits(frac_of(body)));
                        }
                        return Result::Err(SiError::Malformed);
                    },
                }
            } else {
                // neither digit nor point
                proof {
                    match dot {
                        Option::None => {
                            lemma_split_exists(body);
                            let k = split_of(body);
                            // no point lies at or before the bad byte
                            if k <= t - start {
                                assert(t - start < body.len());
                                if k < body.len() {
                                    assert(body[k] == bytes@[start + k]);
                                    assert(body[k] == 46);
                                    if k < t - start {
                                        assert(is_digit(bytes@[start + k]));
                                    }
                                    assert(bytes@[t as int] != 46);
                                }
                                assert(false);
                            }
                            assert(ipart_of(body)[t - start] == bytes@[t as int]);
                            assert(!is_digit(ipart_of(body)[t - start]));
                            assert(!all_digits(ipart_of(body)));
                        },
                        Option::Some(d) => {
                            let k = (d - start) as int;
                            assert(is_split(body, k)) by {
                                assert(body[k] == bytes@[d as int]);
                                assert forall|i: int| 0 <= i < k implies body[i] != 46 by {
                                    assert(body[i] == bytes@[start + i]);
                                }
                            }
                            lemma_split_exists(body);
                            lemma_split_unique(body, split_of(body), k);
                            assert(frac_of(body)[t - d - 1] == bytes@[t as int]);
                            assert(!is_digit(frac_of(body)[t - d - 1]));
                            assert(!all_digits(frac_of(body)));
                        },
                    }
                }
                return Result::Err(SiError::Malformed);
            }
            t = t + 1;
        }
        // The split position and both digit runs are now known.
        let ksplit: usize = match dot {
            Option::Some(d) => d,
            Option::None => m,
        };
        proof {
            lemma_split_exists(body);
            let k = (ksplit - start) as int;
            assert(is_split(body, k)) by {
                assert forall|i: int| 0 <= i < k implies body[i] != 46 by {
                    assert(body[i] == bytes@[start + i]);
                }
                if k < body.len() {
                    assert(body[k] == bytes@[ksplit as int]);
                }
            }
            lemma_split_unique(body, split_of(body), k);
            assert(ipart_of(body) =~= whole.subrange(start as int, ksplit as int));
            if ksplit < m {
                assert(frac_of(body) =~= whole.subrange(ksplit + 1, m as int));
            } else {
                assert(frac_of(body) =~= Seq::<u8>::empty());
            }
            assert(all_digits(ipart_of(body))) by {
                assert forall|i: int| 0 <= i < ipart_of(body).len() implies is_digit(
                    #[trigger] ipart_of(body)[i],
                ) by {
                    assert(ipart_of(body)[i] == bytes@[start + i]);
                }
            }
            assert(all_digits(frac_of(body))) by {
                assert forall|i: int| 0 <= i < frac_of(body).len() implies is_digit(
                    #[trigger] frac_of(body)[i],
                ) by {
                    assert(frac_of(body)[i] == bytes@[ksplit + 1 + i]);
                }
            }
        }
        if ksplit == start && ksplit + 1 >= m {
            // a bare point with no digits at all
            proof {
                assert(ipart_of(body).len() == 0);
                assert(frac_of(body).len() == 0);
            }
            return Result::Err(SiError::Malformed);
        }
        proof {
            assert(dec_wf(body));
        }
        // Integer part.
        let (iacc, iover) = scan_digits(bytes, start, ksplit);
        proof {
            lemma_digits_val_nonneg(ipart_of(body));
            lemma_pow10_pos(e as nat);
        }
        if iover {
            proof {
                let ip = digits_val(ipart_of(body));
                let fr = scaled_frac(frac_of(body), e as nat);
                assert(fr >= 0) by {
                    if frac_of(body).len() >= e {
                        assert(all_digits(frac_of(body).take(e as int))) by {
                            assert forall|i: int| 0 <= i < e implies is_digit(
                                #[trigger] frac_of(body).take(e as int)[i],
                            ) by {
                                assert(frac_of(body).take(e as int)[i] == frac_of(body)[i]);
                            }
                        }
                        lemma_digits_val_nonneg(frac_of(body).take(e as int));
                    } else {
                        lemma_digits_val_nonneg(frac_of(body));
                        lemma_pow10_pos((e - frac_of(body).len()) as nat);
                        assert(digits_val(frac_of(body)) * pow10(
                            (e - frac_of(body).len()) as nat,
                        ) >= 0) by (nonlinear_arith)
                            requires
                                digits_val(frac_of(body)) >= 0,
                                pow10((e - frac_of(body).len()) as nat) >= 1,
                        {}
                    }
                }
                assert(ip * pow10(e as nat) >= ip) by (nonlinear_arith)
                    requires
                        ip >= 0,
                        pow10(e as nat) >= 1,
                {}
                assert(dec_value(body, e as nat) > 0x8000_0000_0000_0000);
            }
            return Result::Err(SiError::OutOfRange);
        }
        // Fractional part, limited to the first `e` digits.
        let flen = if ksplit < m {
            m - ksplit - 1
        } else {
            0
        };
        let fracval: u128 = if flen >= e {
            let (facc, fover) = scan_digits(bytes, ksplit + 1, ksplit + 1 + e);
            proof {
                assert(bytes@.subrange(ksplit + 1, ksplit + 1 + e) =~= frac_of(body).take(
                    e as int,
                ));
                if fover {
                    // e digits stay far below 2^63
                    assert(all_digits(frac_of(body).take(e as int))) by {
                        assert forall|i: int| 0 <= i < e implies is_digit(
                            #[trigger] frac_of(body).take(e as int)[i],
                        ) by {
                            assert(frac_of(body).take(e as int)[i] == frac_of(body)[i]);
                        }
                    }
                    lemma_digits_bound(frac_of(body).take(e as int));
                    lemma_pow10_values();
                    assert(false);
                }
            }
            facc
        } else {
            let (facc, fover) = if ksplit < m {
                scan_digits(bytes, ksplit + 1, m)
            } else {
                (0u128, false)
            };
            proof {
                if ksplit < m {
                    assert(bytes@.subrange(ksplit + 1, m as int) =~= frac_of(body));
                    if fover {
                        lemma_digits_bound(frac_of(body));
                        lemma_pow10_values();
                        lemma_pow10_mono(frac_of(body).len() as nat, 12);
                        assert(false);
                    }
                } else {
                    assert(frac_of(body) =~= Seq::<u8>::empty());
                }
            }
            let mult = pow10_exec(e - flen);
            proof {
                lemma_digits_bound(frac_of(body));
                lemma_pow10_values();
                lemma_pow10_mono(frac_of(body).len() as nat, 12);
                assert(flen == frac_of(body).len());
                assert(facc * mult == digits_val(frac_of(body)) * pow10((e - flen) as nat));
                assert(facc * mult <= 1000000000000u128 * 1000000000000u128) by (nonlinear_arith)
                    requires
                        0 <= facc <= 1000000000000u128,
                        0 <= mult <= 1000000000000u128,
                {}
            }
            facc * mult
        };
        let factor = pow10_exec(e);
        proof {
            assert(iacc * factor <= 0x8000_0000_0000_0000u128 * 1000000000000u128) by (
            nonlinear_arith)
                requires
                    0 <= iacc <= 0x8000_0000_0000_0000u128,
                    0 <= factor <= 1000000000000u128,
            {}
        }
        let magnitude = iacc * factor + fracval;
        proof {
            assert(magnitude as int == dec_value(body, e as nat));
        }
        signed_result(
            magnitude,
            negative,
            Ghost(if negative {
                -(magnitude as int)
            } else {
                magnitude as int
            }),
        )
    }
}

/// Parses a count with an optional SI magnitude suffix.  `Ok` holds the
/// denoted value exactly; `Malformed` rejects anything outside the
/// grammar, `OutOfRange` a value beyond `i64`.
pub fn si_parse(s: &str) -> (r: Result<i64, SiError>)
    ensures
        match r {
            Result::Ok(v) => si_value(s.spec_bytes()) == Option::Some(v as int),
            Result::Err(e) => match si_value(s.spec_bytes()) {
                Option::None => e == SiError::Malformed,
                Option::Some(v) => e == SiError::OutOfRange && !(i64::MIN <= v <= i64::MAX),
            },
        },
{
    let bytes = s.as_bytes();
    let n = bytes.len();
    if n == 0 {
        return Result::Err(SiError::Malformed);
    }
    let last = bytes[n - 1];
    if 48 <= last && last <= 57 {
        parse_plain(bytes)
    } else if last == 107 || last == 75 {
        parse_suffixed(bytes, 3)
    } else if last == 109 || last == 77 {
        parse_suffixed(bytes, 6)
    } else if last == 103 || last == 71 || last == 98 || last == 66 {
        parse_suffixed(bytes, 9)
    } else if last == 84 {
        parse_suffixed(bytes, 12)
    } else {
        Result::Err(SiError::Malformed)
    }
}

/// The value of a digit run is below `10^len`.
proof fn lemma_digits_bound(s: Seq<u8>)
    requires
        all_digits(s),
    ensures
        0 <= digits_val(s) < pow10(s.len() as nat),
    decreases s.len(),
{
    if s.len() == 0 {
    } else {
        assert(all_digits(s.drop_last())) by {
            assert forall|i: int| 0 <= i < s.drop_last().len() implies is_digit(
                #[trigger] s.drop_last()[i],
            ) by {
                assert(s.drop_last()[i] == s[i]);
            }
        }
        lemma_digits_bound(s.drop_last());
        assert(pow10(s.len() as nat) == 10 * pow10((s.len() - 1) as nat));
    }
}

/// The concrete powers of ten up to the largest suffix.
proof fn lemma_pow10_values()
    ensures
        pow10(0) == 1,
        pow10(3) == 1000,
        pow10(6) == 1000000,
        pow10(9) == 1000000000,
        pow10(12) == 1000000000000,
        forall|e: nat| e <= 12 ==> #[trigger] pow10(e) <= 1000000000000,
{
    assert(pow10(0) == 1);
    assert(pow10(1) == 10);
    assert(pow10(2) == 100);
    assert(pow10(3) == 1000);
    assert(pow10(4) == 10000);
    assert(pow10(5) == 100000);
    assert(pow10(6) == 1000000);
    assert(pow10(7) == 10000000);
    assert(pow10(8) == 100000000);
    assert(pow10(9) == 1000000000);
    assert(pow10(10) == 10000000000);
    assert(pow10(11) == 100000000000);
    assert(pow10(12) == 1000000000000);
    assert forall|e: nat| e <= 12 implies #[trigger] pow10(e) <= 1000000000000 by {
        lemma_pow10_mono(e, 12);
    }
}

proof fn lemma_pow10_mono(a: nat, b: nat)
    requires
        a <= b,
    ensures
        pow10(a) <= pow10(b),
    decreases b,
{
    if a < b {
        lemma_pow10_mono(a, (b - 1) as nat);
        lemma_pow10_pos((b - 1) as nat);
    }
}

/// A split position always exists: the first decimal point, or the end.
proof fn lemma_split_exists(s: Seq<u8>)
    ensures
        is_split(s, split_of(s)),
    decreases s.len(),
{
    if s.len() == 0 {
        assert(is_split(s, 0));
    } else if s[0] == 46 {
        assert(is_split(s, 0));
    } else {
        lemma_split_exists(s.drop_first());
        let k1 = split_of(s.drop_first());
        assert(is_split(s, k1 + 1)) by {
            if k1 + 1 < s.len() {
                assert(s[k1 + 1] == s.drop_first()[k1]);
            }
            assert forall|i: int| 0 <= i < k1 + 1 implies s[i] != 46 by {
                if i >= 1 {
                    assert(s.drop_first()[i - 1] == s[i]);
                }
            }
        }
    }
    assert(exists|k: int| is_split(s, k));
}

} // verus!

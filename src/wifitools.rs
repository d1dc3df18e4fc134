use vstd::prelude::*;
use vstd::string::StrSliceExecFns;

use crate::field::Sample;

verus! {

/// One network seen by a scan: its name and its signal level in dBm, as the
/// scanner reports it (`"-67"`, `"-67.00"`).
pub struct Network {
    pub ssid: String,
    pub signal_level: String,
}

/// Signal strengths are fixed point: `STRENGTH_ONE` stands for 1.0.
pub const STRENGTH_ONE: u32 = 1000;

/// The level, in hundredths of a dBm, that maps to strength 0.
pub const WEAKEST_LEVEL: i64 = -10000;

/// The level, in hundredths of a dBm, that maps to strength `STRENGTH_ONE`.
pub const STRONGEST_LEVEL: i64 = -3500;

/// The largest integer part, in dBm, that a signal level may have.
pub const MAX_LEVEL_DBM: u64 = 1_000_000_000;

pub open spec fn is_digit(c: char) -> bool {
    '0' <= c <= '9'
}

pub open spec fn digit_value(c: char) -> int {
    c as int - '0' as int
}

pub open spec fn all_digits(s: Seq<char>) -> bool {
    forall|i: int| 0 <= i < s.len() ==> is_digit(#[trigger] s[i])
}

/// The number written by the decimal digits `s` (0 for none).
pub open spec fn digits_value(s: Seq<char>) -> int
    decreases s.len(),
{
    if s.len() == 0 {
        0
    } else {
        digits_value(s.drop_last()) * 10 + digit_value(s.last())
    }
}

/// The number of leading decimal digits of `s`.
pub open spec fn digit_run(s: Seq<char>) -> int
    decreases s.len(),
{
    if s.len() == 0 || !is_digit(s[0]) {
        0
    } else {
        1 + digit_run(s.skip(1))
    }
}

/// The length of the sign that `s` starts with (`-` or `+`), 0 or 1.
pub open spec fn sign_len(s: Seq<char>) -> int {
    if s.len() > 0 && (s[0] == '-' || s[0] == '+') {
        1
    } else {
        0
    }
}

/// The text after the sign.
pub open spec fn unsigned_part(s: Seq<char>) -> Seq<char> {
    s.skip(sign_len(s))
}

/// The digits before the decimal point.
pub open spec fn integer_digits(s: Seq<char>) -> Seq<char> {
    unsigned_part(s).take(digit_run(unsigned_part(s)))
}

/// The digits after the decimal point (none if there is no point).
pub open spec fn fraction_digits(s: Seq<char>) -> Seq<char> {
    let u = unsigned_part(s);
    let n = digit_run(u);
    if n < u.len() {
        u.skip(n + 1)
    } else {
        Seq::empty()
    }
}

/// A signal level as text: an optional sign, at least one digit, and
/// optionally a decimal point followed by digits.
pub open spec fn level_well_formed(s: Seq<char>) -> bool {
    let u = unsigned_part(s);
    let n = digit_run(u);
    &&& n >= 1
    &&& n == u.len() || (u[n] == '.' && all_digits(u.skip(n + 1)))
}

/// The first two digits after the point, as hundredths.
pub open spec fn hundredths(f: Seq<char>) -> int {
    (if f.len() > 0 {
        digit_value(f[0]) * 10
    } else {
        0
    }) + (if f.len() > 1 {
        digit_value(f[1])
    } else {
        0
    })
}

/// The level `s` writes, in hundredths of a dBm; digits past the second
/// after the point are dropped.
pub open spec fn level_value(s: Seq<char>) -> int {
    let m = digits_value(integer_digits(s)) * 100 + hundredths(fraction_digits(s));
    if sign_len(s) == 1 && s[0] == '-' {
        -m
    } else {
        m
    }
}

proof fn lemma_digit_run_bounds(s: Seq<char>)
    ensures
        0 <= digit_run(s) <= s.len(),
        all_digits(s.take(digit_run(s))),
        digit_run(s) < s.len() ==> !is_digit(s[digit_run(s)]),
    decreases s.len(),
{
    if s.len() > 0 && is_digit(s[0]) {
        let t = s.skip(1);
        lemma_digit_run_bounds(t);
        assert forall|i: int| 0 <= i < digit_run(s) implies is_digit(
            #[trigger] s.take(digit_run(s))[i],
        ) by {
            if i > 0 {
                assert(s.take(digit_run(s))[i] == t.take(digit_run(t))[i - 1]);
            }
        }
        if digit_run(s) < s.len() {
            assert(s[digit_run(s)] == t[digit_run(t)]);
        }
    }
}

/// A longer run of digits never writes a smaller number.
proof fn lemma_digits_value_grows(s: Seq<char>, i: int, j: int)
    requires
        0 <= i <= j <= s.len(),
        all_digits(s.take(j)),
    ensures
        digits_value(s.take(i)) <= digits_value(s.take(j)),
        digits_value(s.take(i)) >= 0,
    decreases j - i,
{
    if i < j {
        lemma_digits_value_grows(s, i, j - 1);
        assert(s.take(j).drop_last() =~= s.take(j - 1));
        assert(is_digit(s.take(j)[j - 1]));
    } else {
        lemma_digits_value_nonneg(s.take(j));
    }
}

proof fn lemma_digits_value_nonneg(s: Seq<char>)
    requires
        all_digits(s),
    ensures
        digits_value(s) >= 0,
    decreases s.len(),
{
    if s.len() > 0 {
        assert(is_digit(s[s.len() - 1]));
        assert forall|i: int| 0 <= i < s.len() - 1 implies is_digit(#[trigger] s.drop_last()[i]) by {
            assert(is_digit(s[i]));
        }
        lemma_digits_value_nonneg(s.drop_last());
    }
}

/// Parses a signal level such as `"-67.00"` into hundredths of a dBm.
/// `None` for text that is not a level, or whose integer part exceeds
/// `MAX_LEVEL_DBM`.
pub fn parse_signal_level(text: &str) -> (r: Option<i64>)
    ensures
        r is Some <==> level_well_formed(text@) && digits_value(integer_digits(text@))
            <= MAX_LEVEL_DBM,
        r matches Some(v) ==> v == level_value(text@),
{
    let ghost s = text@;
    let len = text.unicode_len();
    let mut pos: usize = 0;
    let mut negative = false;
    if len > 0 {
        let c = text.get_char(0);
        if c == '-' || c == '+' {
            negative = c == '-';
            pos = 1;
        }
    }
    let ghost u = unsigned_part(s);
    let start = pos;
    proof {
        lemma_digit_run_bounds(u);
        assert(u =~= s.skip(start as int));
    }
    let ghost n = digit_run(u);
    // integer part
    let mut acc: u64 = 0;
    loop
        invariant
            s == text@,
            len == s.len(),
            u == s.skip(start as int),
            u == unsigned_part(s),
            start <= pos <= len,
            n == digit_run(u),
            0 <= n <= u.len(),
            all_digits(u.take(n)),
            n < u.len() ==> !is_digit(u[n]),
            pos - start <= n,
            acc == digits_value(u.take(pos - start)),
            acc <= MAX_LEVEL_DBM,
        ensures
            pos - start == n,
            acc == digits_value(u.take(n)),
        decreases len - pos,
    {
        if pos == len {
            break;
        }
        let c = text.get_char(pos);
        proof {
            assert(u[pos - start] == c);
            if pos - start < n {
                assert(u.take(n)[pos - start] == c);
            }
        }
        if !('0' <= c && c <= '9') {
            break;
        }
        proof {
            assert(u.take(pos - start + 1).drop_last() =~= u.take(pos - start));
            assert(u.take(pos - start + 1).last() == c);
        }
        let d = (c as u32 - '0' as u32) as u64;
        if acc > (MAX_LEVEL_DBM - d) / 10 {
            proof {
                lemma_digits_value_grows(u, pos - start + 1, n);
                assert(u.take(n) =~= integer_digits(s));
            }
            return None;
        }
        acc = acc * 10 + d;
        pos = pos + 1;
    }
    proof {
        assert(u.take(n) =~= integer_digits(s));
    }
    if pos == start {
        return None;
    }
    // fraction
    let mut cents: u64 = 0;
    if pos < len {
        if text.get_char(pos) != '.' {
            proof {
                assert(u[n] == s[pos as int]);
            }
            return None;
        }
        let frac_start = pos + 1;
        let ghost f = u.skip(n + 1);
        proof {
            assert(u[n] == s[pos as int]);
            assert(f =~= s.skip(frac_start as int));
        }
        let mut k = frac_start;
        while k < len
            invariant
                s == text@,
                len == s.len(),
                frac_start <= k <= len,
                f == s.skip(frac_start as int),
                u == unsigned_part(s),
                n == digit_run(u),
                n < u.len(),
                u[n] == '.',
                f == u.skip(n + 1),
                all_digits(f.take(k - frac_start)),
            decreases len - k,
        {
            let c = text.get_char(k);
            if !('0' <= c && c <= '9') {
                proof {
                    assert(f[k - frac_start] == c);
                    assert(!is_digit(f[k - frac_start]));
                }
                return None;
            }
            proof {
                assert forall|i: int| 0 <= i < k + 1 - frac_start implies is_digit(
                    #[trigger] f.take(k + 1 - frac_start)[i],
                ) by {
                    if i < k - frac_start {
                        assert(f.take(k + 1 - frac_start)[i] == f.take(k - frac_start)[i]);
                    } else {
                        assert(f[i] == c);
                    }
                }
            }
            k = k + 1;
        }
        proof {
            assert(f.take(len - frac_start) =~= f);
            assert(f == fraction_digits(s));
        }
        if frac_start < len {
            let d1 = text.get_char(frac_start);
            proof {
                assert(f[0] == d1);
                assert(is_digit(f[0]));
            }
            cents = (d1 as u32 - '0' as u32) as u64 * 10;
            if frac_start + 1 < len {
                let d2 = text.get_char(frac_start + 1);
                proof {
                    assert(f[1] == d2);
                    assert(is_digit(f[1]));
                }
                cents = cents + (d2 as u32 - '0' as u32) as u64;
            }
        }
    } else {
        proof {
            assert(fraction_digits(s) =~= Seq::<char>::empty());
        }
    }
    let magnitude: i64 = (acc * 100 + cents) as i64;
    proof {
        assert(sign_len(s) == start);
        if start == 1 {
            assert(negative == (s[0] == '-'));
        }
    }
    if negative {
        Some(-magnitude)
    } else {
        Some(magnitude)
    }
}

/// The strength of a signal level `level` (hundredths of a dBm): where it
/// lies between `WEAKEST_LEVEL` and `STRONGEST_LEVEL`, in units of
/// `STRENGTH_ONE`, rounded down and clamped to `[0, STRENGTH_ONE]`.
pub open spec fn strength_of_level(level: int) -> int {
    let q = ((level - WEAKEST_LEVEL) * STRENGTH_ONE) / (STRONGEST_LEVEL - WEAKEST_LEVEL);
    if q < 0 {
        0
    } else if q > STRENGTH_ONE {
        STRENGTH_ONE as int
    } else {
        q
    }
}

/// The strength of signal level `level`, by `strength_of_level`.
pub fn level_strength(level: i64) -> (r: u32)
    ensures
        r == strength_of_level(level as int),
        r <= STRENGTH_ONE,
{
    let above: i128 = level as i128 - WEAKEST_LEVEL as i128;
    if above <= 0 {
        proof {
            assert((above * 1000) / 6500 <= 0) by (nonlinear_arith)
                requires
                    above <= 0,
            ;
        }
        return 0;
    }
    let q: i128 = (above * STRENGTH_ONE as i128) / (STRONGEST_LEVEL as i128 - WEAKEST_LEVEL as i128);
    if q > STRENGTH_ONE as i128 {
        STRENGTH_ONE
    } else {
        q as u32
    }
}

/// The strength of network `ssid` in a scan: the first network of that name
/// whose level parses gives it; 0 if there is none.
pub open spec fn strength_in(networks: Seq<Network>, ssid: Seq<char>) -> int
    decreases networks.len(),
{
    if networks.len() == 0 {
        0
    } else if networks[0].ssid@ == ssid && level_well_formed(networks[0].signal_level@)
        && digits_value(integer_digits(networks[0].signal_level@)) <= MAX_LEVEL_DBM {
        strength_of_level(level_value(networks[0].signal_level@))
    } else {
        strength_in(networks.skip(1), ssid)
    }
}

/// The strength, in units of `STRENGTH_ONE`, of network `ssid` in the scan
/// `networks`, by `strength_in`.
pub fn strength_by_ssid(networks: &Vec<Network>, ssid: &String) -> (r: u32)
    ensures
        r == strength_in(networks@, ssid@),
        r <= STRENGTH_ONE,
{
    let n = networks.len();
    let mut i: usize = 0;
    proof {
        assert(networks@.skip(0) =~= networks@);
    }
    while i < n
        invariant
            n == networks@.len(),
            i <= n,
            strength_in(networks@, ssid@) == strength_in(networks@.skip(i as int), ssid@),
        decreases n - i,
    {
        let net = &networks[i];
        proof {
            assert(networks@.skip(i as int).len() > 0);
            assert(networks@.skip(i as int)[0] == networks@[i as int]);
            assert(networks@.skip(i as int).skip(1) =~= networks@.skip(i + 1));
        }
        if net.ssid == *ssid {
            match parse_signal_level(net.signal_level.as_str()) {
                Some(level) => {
                    return level_strength(level);
                },
                None => {},
            }
        }
        i = i + 1;
    }
    0
}

/// A recorded measurement: the network it was taken of, and where and how
/// strong it was.
pub struct Measurement {
    pub ssid: String,
    pub sample: Sample,
}

/// The samples of the measurements taken of network `ssid`, in order; those
/// of all measurements when `ssid` is empty.
pub open spec fn selected_samples(measurements: Seq<Measurement>, ssid: Seq<char>) -> Seq<Sample>
    decreases measurements.len(),
{
    if measurements.len() == 0 {
        Seq::empty()
    } else {
        let rest = selected_samples(measurements.drop_last(), ssid);
        if ssid.len() == 0 || measurements.last().ssid@ == ssid {
            rest.push(measurements.last().sample)
        } else {
            rest
        }
    }
}

/// The samples to draw the heatmap of network `ssid` from, by
/// `selected_samples`.
pub fn select_samples(measurements: &Vec<Measurement>, ssid: &String) -> (r: Vec<Sample>)
    ensures
        r@ == selected_samples(measurements@, ssid@),
{
    let every = ssid.as_str().is_empty();
    let n = measurements.len();
    let mut out: Vec<Sample> = Vec::new();
    for i in 0..n
        invariant
            n == measurements@.len(),
            every == (ssid@.len() == 0),
            out@ == selected_samples(measurements@.take(i as int), ssid@),
    {
        proof {
            assert(measurements@.take(i + 1).drop_last() =~= measurements@.take(i as int));
            assert(measurements@.take(i + 1).last() == measurements@[i as int]);
        }
        let m = &measurements[i];
        if every || m.ssid == *ssid {
            out.push(m.sample);
        }
    }
    proof {
        assert(measurements@.take(n as int) =~= measurements@);
    }
    out
}

} // verus!

//! The wire protocol: a payload is a newline-separated list of records,
//! each `name|kind`, where the name escapes `\` and `|` and the kind is a
//! counter, timing or gauge clause. Parsing is all-or-nothing: a payload
//! with any malformed record, or trailing bytes, yields no events.

use crate::metrics::GaugeOperation;
use crate::metrics::Metric;
use crate::metrics::MetricKind;
use crate::metrics::MetricModel;
use crate::metrics::TimerResolution;
use vstd::prelude::*;

verus! {

/// A digit on the wire.
pub open spec fn is_digit(c: char) -> bool {
    48 <= c as u32 && c as u32 <= 57
}

/// The numeric value of a digit.
pub open spec fn digit_val(c: char) -> int {
    c as u32 - 48
}

/// How many digits stand at the front of the input.
pub open spec fn digit_run_len(s: Seq<char>) -> int
    decreases s.len(),
{
    if s.len() > 0 && is_digit(s[0]) {
        1 + digit_run_len(s.skip(1))
    } else {
        0
    }
}

/// The value of a digit string, most significant digit first.
pub open spec fn digits_val(ds: Seq<char>) -> int
    decreases ds.len(),
{
    if ds.len() == 0 {
        0
    } else {
        digits_val(ds.drop_last()) * 10 + digit_val(ds.last())
    }
}

/// Decode the name at the front: plain characters up to an unescaped `|`
/// or the end, with `\\` and `\|` the only escapes. Yields the decoded
/// name and the rest of the input, or nothing on a bad escape.
pub open spec fn spec_parse_name(s: Seq<char>) -> Option<(Seq<char>, Seq<char>)>
    decreases s.len(),
{
    if s.len() == 0 {
        Some((Seq::empty(), s))
    } else if s[0] == '|' {
        Some((Seq::empty(), s))
    } else if s[0] == '\\' {
        if s.len() >= 2 && (s[1] == '\\' || s[1] == '|') {
            match spec_parse_name(s.skip(2)) {
                Some(p) => Some((seq![s[1]] + p.0, p.1)),
                None => None,
            }
        } else {
            None
        }
    } else {
        match spec_parse_name(s.skip(1)) {
            Some(p) => Some((seq![s[0]] + p.0, p.1)),
            None => None,
        }
    }
}

/// Decode an unsigned decimal at the front: one or more digits whose value
/// fits an unsigned 64-bit integer; the whole digit run is taken.
pub open spec fn spec_parse_u64(s: Seq<char>) -> Option<(u64, Seq<char>)> {
    let k = digit_run_len(s);
    if k == 0 {
        None
    } else if digits_val(s.take(k)) > u64::MAX {
        None
    } else {
        Some((digits_val(s.take(k)) as u64, s.skip(k)))
    }
}

/// Appends a character to a name being decoded.
///
/// Relies on `String::push`: the string afterwards is the string before
/// with the character appended.
#[verifier::external_body]
fn push_char(s: &mut String, c: char)
    ensures
        final(s)@ == old(s)@.push(c),
{
    s.push(c);
}

/// All characters of the input as a vector.
fn str_chars(s: &str) -> (r: Vec<char>)
    ensures
        r@ == s@,
{
    let n = s.unicode_len();
    let mut r: Vec<char> = Vec::new();
    let mut i: usize = 0;
    while i < n
        invariant
            i <= n,
            n == s@.len(),
            r@ == s@.take(i as int),
        decreases n - i,
    {
        let c = s.get_char(i);
        r.push(c);
        proof {
            assert(r@ =~= s@.take(i + 1));
        }
        i += 1;
    }
    proof {
        assert(s@.take(n as int) =~= s@);
    }
    r
}

/// Decode the name starting at `start`; on success the returned position
/// stands on the `|` separator or at the end of the input.
fn parse_name(chars: &Vec<char>, start: usize) -> (r: Option<(String, usize)>)
    requires
        start <= chars@.len(),
    ensures
        match r {
            Some(p) => start <= p.1 <= chars@.len() && spec_parse_name(
                chars@.skip(start as int),
            ) == Some((p.0@, chars@.skip(p.1 as int))),
            None => spec_parse_name(chars@.skip(start as int)) is None,
        },
{
    let n = chars.len();
    let mut i: usize = start;
    let mut name = String::new();
    loop
        invariant
            start <= i <= n,
            n == chars@.len(),
            match spec_parse_name(chars@.skip(i as int)) {
                Some(p) => spec_parse_name(chars@.skip(start as int)) == Some(
                    (name@ + p.0, p.1),
                ),
                None => spec_parse_name(chars@.skip(start as int)) is None,
            },
        decreases n - i,
    {
        if i >= n || chars[i] == '|' {
            proof {
                assert(spec_parse_name(chars@.skip(i as int)) == Some(
                    (Seq::<char>::empty(), chars@.skip(i as int)),
                ));
                assert(name@ + Seq::<char>::empty() =~= name@);
            }
            return Some((name, i));
        }
        let c = chars[i];
        if c == '\\' {
            if i + 1 < n && (chars[i + 1] == '\\' || chars[i + 1] == '|') {
                let e = chars[i + 1];
                proof {
                    let suffix = chars@.skip(i as int);
                    assert(suffix[0] == c);
                    assert(suffix[1] == e);
                    assert(suffix.skip(2) =~= chars@.skip(i + 2));
                    match spec_parse_name(chars@.skip(i + 2)) {
                        Some(p) => {
                            assert(spec_parse_name(suffix) == Some((seq![e] + p.0, p.1)));
                            assert(name@ + (seq![e] + p.0) =~= name@.push(e) + p.0);
                        },
                        None => {},
                    }
                }
                push_char(&mut name, e);
                i += 2;
            } else {
                proof {
                    let suffix = chars@.skip(i as int);
                    assert(suffix[0] == c);
                    if i + 1 < n {
                        assert(suffix[1] == chars@[i + 1]);
                    }
                    assert(spec_parse_name(suffix) is None);
                }
                return None;
            }
        } else {
            proof {
                let suffix = chars@.skip(i as int);
                assert(suffix[0] == c);
                assert(suffix.skip(1) =~= chars@.skip(i + 1));
                match spec_parse_name(chars@.skip(i + 1)) {
                    Some(p) => {
                        assert(spec_parse_name(suffix) == Some((seq![c] + p.0, p.1)));
                        assert(name@ + (seq![c] + p.0) =~= name@.push(c) + p.0);
                    },
                    None => {},
                }
            }
            push_char(&mut name, c);
            i += 1;
        }
    }
}

/// Whether the character is a decimal digit.
fn digit_char(c: char) -> (r: bool)
    ensures
        r == is_digit(c),
{
    let u = c as u32;
    48 <= u && u <= 57
}

/// Decode an unsigned decimal starting at `start`.
fn parse_u64_at(chars: &Vec<char>, start: usize) -> (r: Option<(u64, usize)>)
    requires
        start <= chars@.len(),
    ensures
        match r {
            Some(p) => start < p.1 <= chars@.len() && spec_parse_u64(
                chars@.skip(start as int),
            ) == Some((p.0, chars@.skip(p.1 as int))),
            None => spec_parse_u64(chars@.skip(start as int)) is None,
        },
{
    let n = chars.len();
    let mut i: usize = start;
    let mut val: u64 = 0;
    let mut over = false;
    while i < n && digit_char(chars[i])
        invariant
            start <= i <= n,
            n == chars@.len(),
            forall|j: int| start <= j < i ==> is_digit(chars@[j]),
            digit_run_len(chars@.skip(start as int)) == (i - start) + digit_run_len(
                chars@.skip(i as int),
            ),
            !over ==> val == digits_val(chars@.subrange(start as int, i as int)),
            over ==> digits_val(chars@.subrange(start as int, i as int)) > u64::MAX,
        decreases n - i,
    {
        let c = chars[i];
        let d: u64 = (c as u32 - 48) as u64;
        proof {
            let suffix = chars@.skip(i as int);
            assert(suffix[0] == c);
            assert(suffix.skip(1) =~= chars@.skip(i + 1));
            assert(digit_run_len(suffix) == 1 + digit_run_len(chars@.skip(i + 1)));
            let ds = chars@.subrange(start as int, i + 1);
            assert(ds.drop_last() =~= chars@.subrange(start as int, i as int));
            assert(ds.last() == c);
        }
        if !over {
            if val > (u64::MAX - d) / 10 {
                over = true;
                proof {
                    let q = ((u64::MAX - d) / 10) as int;
                    assert((u64::MAX - d) as int == q * 10 + ((u64::MAX - d) as int - q * 10));
                    assert(0 <= (u64::MAX - d) as int - q * 10 < 10);
                    assert((val as int) * 10 + d > u64::MAX) by (nonlinear_arith)
                        requires
                            (val as int) > q,
                            (u64::MAX - d) as int >= q * 10,
                            (u64::MAX - d) as int - q * 10 < 10,
                            0 <= d,
                            0 <= q,
                    ;
                }
            } else {
                proof {
                    let q = ((u64::MAX - d) / 10) as int;
                    assert((val as int) * 10 + d <= u64::MAX) by (nonlinear_arith)
                        requires
                            (val as int) <= q,
                            q * 10 <= (u64::MAX - d) as int,
                            0 <= d,
                            0 <= q,
                            d <= u64::MAX,
                    ;
                }
                val = val * 10 + d;
            }
        } else {
            proof {
                let prev = digits_val(chars@.subrange(start as int, i as int));
                assert(prev * 10 + d > u64::MAX) by (nonlinear_arith)
                    requires
                        prev > u64::MAX,
                        0 <= d,
                ;
            }
        }
        i += 1;
    }
    proof {
        let suffix = chars@.skip(i as int);
        if i < n {
            assert(suffix[0] == chars@[i as int]);
        }
        assert(digit_run_len(suffix) == 0);
        assert(chars@.subrange(start as int, i as int) =~= chars@.skip(start as int).take(
            (i - start) as int,
        ));
        assert(chars@.skip(i as int) =~= chars@.skip(start as int).skip((i - start) as int));
    }
    if i == start {
        return None;
    }
    if over {
        return None;
    }
    Some((val, i))
}

/// Decode a timing unit tag: `ns`, `ms`, `us` or `s`.
pub open spec fn spec_parse_unit(s: Seq<char>) -> Option<(TimerResolution, Seq<char>)> {
    if s.len() >= 2 && s[0] == 'n' && s[1] == 's' {
        Some((TimerResolution::NanoSeconds, s.skip(2)))
    } else if s.len() >= 2 && s[0] == 'm' && s[1] == 's' {
        Some((TimerResolution::MilliSeconds, s.skip(2)))
    } else if s.len() >= 2 && s[0] == 'u' && s[1] == 's' {
        Some((TimerResolution::MicroSeconds, s.skip(2)))
    } else if s.len() >= 1 && s[0] == 's' {
        Some((TimerResolution::Seconds, s.skip(1)))
    } else {
        None
    }
}

/// Decode a timing clause after its `t|` tag: a duration, optionally
/// followed by `|` and a unit; without a unit the duration is taken as
/// milliseconds.
pub open spec fn spec_parse_timing(s: Seq<char>) -> Option<(MetricKind, Seq<char>)> {
    match spec_parse_u64(s) {
        None => None,
        Some(p) => {
            if p.1.len() >= 1 && p.1[0] == '|' {
                match spec_parse_unit(p.1.skip(1)) {
                    Some(q) => Some((MetricKind::Timing(p.0, q.0), q.1)),
                    None => Some((MetricKind::Timing(p.0, TimerResolution::MilliSeconds), p.1)),
                }
            } else {
                Some((MetricKind::Timing(p.0, TimerResolution::MilliSeconds), p.1))
            }
        },
    }
}

/// Decode a gauge shift clause: a sign, `=`, and a magnitude that must
/// fit a signed 64-bit integer.
pub open spec fn spec_parse_modify(s: Seq<char>) -> Option<(MetricKind, Seq<char>)> {
    if s.len() >= 2 && (s[0] == '+' || s[0] == '-') && s[1] == '=' {
        match spec_parse_u64(s.skip(2)) {
            Some(p) => {
                if p.0 <= i64::MAX as u64 {
                    let d = if s[0] == '-' {
                        -(p.0 as int)
                    } else {
                        p.0 as int
                    };
                    Some((MetricKind::Gauge(GaugeOperation::Modify(d as i64)), p.1))
                } else {
                    None
                }
            },
            None => None,
        }
    } else {
        None
    }
}

/// Decode a gauge clause after its `g|` tag: `x` removes the gauge, an
/// optionally negated decimal assigns a level, a signed `=` clause shifts
/// it. An assignment must fit a signed 64-bit integer.
pub open spec fn spec_parse_gauge(s: Seq<char>) -> Option<(MetricKind, Seq<char>)> {
    if s.len() >= 1 && s[0] == 'x' {
        Some((MetricKind::Gauge(GaugeOperation::Remove), s.skip(1)))
    } else {
        let neg = s.len() >= 1 && s[0] == '-';
        let t = if neg {
            s.skip(1)
        } else {
            s
        };
        match spec_parse_u64(t) {
            Some(p) => {
                if neg && p.0 <= 0x8000_0000_0000_0000u64 {
                    Some((MetricKind::Gauge(GaugeOperation::Assign((-(p.0 as int)) as i64)), p.1))
                } else if !neg && p.0 <= i64::MAX as u64 {
                    Some((MetricKind::Gauge(GaugeOperation::Assign(p.0 as i64)), p.1))
                } else {
                    spec_parse_modify(s)
                }
            },
            None => spec_parse_modify(s),
        }
    }
}

/// Decode a kind clause: counter, timing or gauge, by its tag.
pub open spec fn spec_parse_kind(s: Seq<char>) -> Option<(MetricKind, Seq<char>)> {
    if s.len() >= 2 && s[0] == 'c' && s[1] == '|' {
        match spec_parse_u64(s.skip(2)) {
            Some(p) => Some((MetricKind::Counter(p.0), p.1)),
            None => None,
        }
    } else if s.len() >= 2 && s[0] == 't' && s[1] == '|' {
        spec_parse_timing(s.skip(2))
    } else if s.len() >= 2 && s[0] == 'g' && s[1] == '|' {
        spec_parse_gauge(s.skip(2))
    } else {
        None
    }
}

/// Decode one record: a name, the `|` separator, and a kind clause.
pub open spec fn spec_parse_record(s: Seq<char>) -> Option<(MetricModel, Seq<char>)> {
    match spec_parse_name(s) {
        None => None,
        Some(p) => {
            if p.1.len() >= 1 && p.1[0] == '|' {
                match spec_parse_kind(p.1.skip(1)) {
                    Some(q) => Some((MetricModel { name: p.0, kind: q.0 }, q.1)),
                    None => None,
                }
            } else {
                None
            }
        },
    }
}

/// Decode a whole payload: records separated by single line feeds, with
/// nothing left over. The guard on the recursion only bounds it: a record
/// always consumes at least one character.
pub open spec fn spec_parse_records(s: Seq<char>) -> Option<Seq<MetricModel>>
    decreases s.len(),
{
    match spec_parse_record(s) {
        None => None,
        Some(p) => {
            if p.1.len() == 0 {
                Some(seq![p.0])
            } else if p.1[0] == '\n' && p.1.len() < s.len() {
                match spec_parse_records(p.1.skip(1)) {
                    Some(ms) => Some(seq![p.0] + ms),
                    None => None,
                }
            } else {
                None
            }
        },
    }
}

/// The events a payload carries: all of its records, or none at all when
/// any record is malformed or trailing bytes remain.
pub open spec fn spec_parse_protocol(s: Seq<char>) -> Seq<MetricModel> {
    match spec_parse_records(s) {
        Some(ms) => ms,
        None => Seq::empty(),
    }
}

/// The images of a sequence of decoded events.
pub open spec fn views_of(ms: Seq<Metric>) -> Seq<MetricModel> {
    Seq::new(ms.len(), |i: int| ms[i]@)
}

/// A name as it stands on the wire: every `\` and `|` preceded by `\`.
pub open spec fn spec_encode_name(s: Seq<char>) -> Seq<char>
    decreases s.len(),
{
    if s.len() == 0 {
        Seq::empty()
    } else if s[0] == '\\' || s[0] == '|' {
        seq!['\\', s[0]] + spec_encode_name(s.skip(1))
    } else {
        seq![s[0]] + spec_encode_name(s.skip(1))
    }
}

/// Escape a name for the wire.
pub fn encode_name(name: &str) -> (r: String)
    ensures
        r@ == spec_encode_name(name@),
{
    let chars = str_chars(name);
    let n = chars.len();
    let mut out = String::new();
    let mut i: usize = 0;
    proof {
        assert(name@.skip(0) =~= name@);
        assert(Seq::<char>::empty() + spec_encode_name(name@) =~= spec_encode_name(name@));
    }
    while i < n
        invariant
            i <= n,
            n == chars@.len(),
            chars@ == name@,
            spec_encode_name(name@) == out@ + spec_encode_name(name@.skip(i as int)),
        decreases n - i,
    {
        let c = chars[i];
        proof {
            assert(name@.skip(i as int)[0] == c);
            assert(name@.skip(i as int).skip(1) =~= name@.skip(i + 1));
        }
        if c == '\\' || c == '|' {
            proof {
                assert(out@ + (seq!['\\', c] + spec_encode_name(name@.skip(i + 1)))
                    =~= out@.push('\\').push(c) + spec_encode_name(name@.skip(i + 1)));
            }
            push_char(&mut out, '\\');
            push_char(&mut out, c);
        } else {
            proof {
                assert(out@ + (seq![c] + spec_encode_name(name@.skip(i + 1))) =~= out@.push(c)
                    + spec_encode_name(name@.skip(i + 1)));
            }
            push_char(&mut out, c);
        }
        i += 1;
    }
    proof {
        assert(name@.skip(n as int) =~= Seq::<char>::empty());
        assert(out@ + Seq::<char>::empty() =~= out@);
    }
    out
}

/// Law: an encoded name always decodes back to itself, leaving whatever
/// follows it - the record's separator and kind, or nothing - untouched.
pub proof fn lemma_name_round_trip(s: Seq<char>, t: Seq<char>)
    requires
        t.len() == 0 || t[0] == '|',
    ensures
        spec_parse_name(spec_encode_name(s) + t) == Some((s, t)),
    decreases s.len(),
{
    let e = spec_encode_name(s);
    let w = e + t;
    if s.len() == 0 {
        assert(w =~= t);
    } else {
        let rest_enc = spec_encode_name(s.skip(1));
        lemma_name_round_trip(s.skip(1), t);
        if s[0] == '\\' || s[0] == '|' {
            assert(w[0] == '\\');
            assert(w[1] == s[0]);
            assert(w.skip(2) =~= rest_enc + t);
            assert(seq![s[0]] + s.skip(1) =~= s);
        } else {
            assert(w[0] == s[0]);
            assert(w.skip(1) =~= rest_enc + t);
            assert(seq![s[0]] + s.skip(1) =~= s);
        }
    }
}

/// Decode a timing unit tag starting at `start`.
fn parse_unit(chars: &Vec<char>, start: usize) -> (r: Option<(TimerResolution, usize)>)
    requires
        start <= chars@.len(),
    ensures
        match r {
            Some(p) => start < p.1 <= chars@.len() && spec_parse_unit(
                chars@.skip(start as int),
            ) == Some((p.0, chars@.skip(p.1 as int))),
            None => spec_parse_unit(chars@.skip(start as int)) is None,
        },
{
    let n = chars.len();
    proof {
        let suffix = chars@.skip(start as int);
        if start < n {
            assert(suffix[0] == chars@[start as int]);
            assert(suffix.skip(1) =~= chars@.skip(start + 1));
        }
        if n - start >= 2 {
            assert(suffix[1] == chars@[start + 1]);
            assert(suffix.skip(2) =~= chars@.skip(start + 2));
        }
    }
    if n - start >= 2 && chars[start] == 'n' && chars[start + 1] == 's' {
        Some((TimerResolution::NanoSeconds, start + 2))
    } else if n - start >= 2 && chars[start] == 'm' && chars[start + 1] == 's' {
        Some((TimerResolution::MilliSeconds, start + 2))
    } else if n - start >= 2 && chars[start] == 'u' && chars[start + 1] == 's' {
        Some((TimerResolution::MicroSeconds, start + 2))
    } else if start < n && chars[start] == 's' {
        Some((TimerResolution::Seconds, start + 1))
    } else {
        None
    }
}

/// Decode a timing clause starting at `start`, after its `t|` tag.
fn parse_timing(chars: &Vec<char>, start: usize) -> (r: Option<(MetricKind, usize)>)
    requires
        start <= chars@.len(),
    ensures
        match r {
            Some(p) => start < p.1 <= chars@.len() && spec_parse_timing(
                chars@.skip(start as int),
            ) == Some((p.0, chars@.skip(p.1 as int))),
            None => spec_parse_timing(chars@.skip(start as int)) is None,
        },
{
    let n = chars.len();
    match parse_u64_at(chars, start) {
        None => None,
        Some((v, end)) => {
            proof {
                let rest = chars@.skip(end as int);
                if end < n {
                    assert(rest[0] == chars@[end as int]);
                    assert(rest.skip(1) =~= chars@.skip(end + 1));
                }
            }
            if end < n && chars[end] == '|' {
                match parse_unit(chars, end + 1) {
                    Some((res, end2)) => Some((MetricKind::Timing(v, res), end2)),
                    None => Some((MetricKind::Timing(v, TimerResolution::MilliSeconds), end)),
                }
            } else {
                Some((MetricKind::Timing(v, TimerResolution::MilliSeconds), end))
            }
        },
    }
}

/// Decode a gauge shift clause starting at `start`.
fn parse_modify(chars: &Vec<char>, start: usize) -> (r: Option<(MetricKind, usize)>)
    requires
        start <= chars@.len(),
    ensures
        match r {
            Some(p) => start < p.1 <= chars@.len() && spec_parse_modify(
                chars@.skip(start as int),
            ) == Some((p.0, chars@.skip(p.1 as int))),
            None => spec_parse_modify(chars@.skip(start as int)) is None,
        },
{
    let n = chars.len();
    proof {
        let suffix = chars@.skip(start as int);
        if start < n {
            assert(suffix[0] == chars@[start as int]);
        }
        if n - start >= 2 {
            assert(suffix[1] == chars@[start + 1]);
            assert(suffix.skip(2) =~= chars@.skip(start + 2));
        }
    }
    if n - start >= 2 && (chars[start] == '+' || chars[start] == '-') && chars[start + 1] == '=' {
        let negative = chars[start] == '-';
        match parse_u64_at(chars, start + 2) {
            Some((m, end)) => {
                if m <= 0x7FFF_FFFF_FFFF_FFFFu64 {
                    let d: i64 = if negative {
                        -(m as i64)
                    } else {
                        m as i64
                    };
                    Some((MetricKind::Gauge(GaugeOperation::Modify(d)), end))
                } else {
                    None
                }
            },
            None => None,
        }
    } else {
        None
    }
}

/// Decode a gauge clause starting at `start`, after its `g|` tag.
fn parse_gauge(chars: &Vec<char>, start: usize) -> (r: Option<(MetricKind, usize)>)
    requires
        start <= chars@.len(),
    ensures
        match r {
            Some(p) => start < p.1 <= chars@.len() && spec_parse_gauge(
                chars@.skip(start as int),
            ) == Some((p.0, chars@.skip(p.1 as int))),
            None => spec_parse_gauge(chars@.skip(start as int)) is None,
        },
{
    let n = chars.len();
    proof {
        let suffix = chars@.skip(start as int);
        if start < n {
            assert(suffix[0] == chars@[start as int]);
            assert(suffix.skip(1) =~= chars@.skip(start + 1));
        }
    }
    if start < n && chars[start] == 'x' {
        return Some((MetricKind::Gauge(GaugeOperation::Remove), start + 1));
    }
    let negative = start < n && chars[start] == '-';
    let digits_start = if negative {
        start + 1
    } else {
        start
    };
    match parse_u64_at(chars, digits_start) {
        Some((m, end)) => {
            if negative && m <= 0x8000_0000_0000_0000u64 {
                let v: i64 = if m == 0x8000_0000_0000_0000u64 {
                    i64::MIN
                } else {
                    -(m as i64)
                };
                Some((MetricKind::Gauge(GaugeOperation::Assign(v)), end))
            } else if !negative && m <= 0x7FFF_FFFF_FFFF_FFFFu64 {
                Some((MetricKind::Gauge(GaugeOperation::Assign(m as i64)), end))
            } else {
                parse_modify(chars, start)
            }
        },
        None => parse_modify(chars, start),
    }
}

/// Decode a kind clause starting at `start`.
fn parse_kind(chars: &Vec<char>, start: usize) -> (r: Option<(MetricKind, usize)>)
    requires
        start <= chars@.len(),
    ensures
        match r {
            Some(p) => start < p.1 <= chars@.len() && spec_parse_kind(
                chars@.skip(start as int),
            ) == Some((p.0, chars@.skip(p.1 as int))),
            None => spec_parse_kind(chars@.skip(start as int)) is None,
        },
{
    let n = chars.len();
    proof {
        let suffix = chars@.skip(start as int);
        if start < n {
            assert(suffix[0] == chars@[start as int]);
        }
        if n - start >= 2 {
            assert(suffix[1] == chars@[start + 1]);
            assert(suffix.skip(2) =~= chars@.skip(start + 2));
        }
    }
    if n - start >= 2 && chars[start] == 'c' && chars[start + 1] == '|' {
        match parse_u64_at(chars, start + 2) {
            Some((v, end)) => Some((MetricKind::Counter(v), end)),
            None => None,
        }
    } else if n - start >= 2 && chars[start] == 't' && chars[start + 1] == '|' {
        parse_timing(chars, start + 2)
    } else if n - start >= 2 && chars[start] == 'g' && chars[start + 1] == '|' {
        parse_gauge(chars, start + 2)
    } else {
        None
    }
}

/// Decode one record starting at `start`.
fn parse_record(chars: &Vec<char>, start: usize) -> (r: Option<(Metric, usize)>)
    requires
        start <= chars@.len(),
    ensures
        match r {
            Some(p) => start < p.1 <= chars@.len() && spec_parse_record(
                chars@.skip(start as int),
            ) == Some((p.0@, chars@.skip(p.1 as int))),
            None => spec_parse_record(chars@.skip(start as int)) is None,
        },
{
    let n = chars.len();
    match parse_name(chars, start) {
        None => None,
        Some((name, sep)) => {
            proof {
                let rest = chars@.skip(sep as int);
                if sep < n {
                    assert(rest[0] == chars@[sep as int]);
                    assert(rest.skip(1) =~= chars@.skip(sep + 1));
                }
            }
            if sep < n && chars[sep] == '|' {
                match parse_kind(chars, sep + 1) {
                    Some((kind, end)) => Some((Metric { name, kind }, end)),
                    None => None,
                }
            } else {
                None
            }
        },
    }
}

/// Decode a whole payload into its metric events. A payload with any
/// malformed record, an oversized number, or trailing bytes yields no
/// events at all.
pub fn parse_protocol(input: &str) -> (r: Vec<Metric>)
    ensures
        views_of(r@) == spec_parse_protocol(input@),
{
    let chars = str_chars(input);
    let n = chars.len();
    let mut out: Vec<Metric> = Vec::new();
    let mut pos: usize = 0;
    proof {
        assert(chars@.skip(0) =~= chars@);
        assert(views_of(out@) + spec_parse_protocol(chars@) =~= spec_parse_protocol(chars@));
    }
    loop
        invariant
            pos <= n,
            n == chars@.len(),
            chars@ == input@,
            match spec_parse_records(chars@.skip(pos as int)) {
                Some(ms) => spec_parse_records(chars@) == Some(views_of(out@) + ms),
                None => spec_parse_records(chars@) is None,
            },
        decreases n - pos,
    {
        match parse_record(&chars, pos) {
            None => {
                proof {
                    assert(views_of(Seq::<Metric>::empty()) =~= Seq::<MetricModel>::empty());
                }
                return Vec::new();
            },
            Some((m, end)) => {
                let ghost prev = out@;
                out.push(m);
                proof {
                    assert(views_of(prev).push(m@) =~= views_of(out@));
                }
                if end == n {
                    proof {
                        assert(chars@.skip(end as int).len() == 0);
                        assert(spec_parse_records(chars@.skip(pos as int)) == Some(seq![m@]));
                        assert(views_of(prev) + seq![m@] =~= views_of(out@));
                    }
                    return out;
                }
                if chars[end] == '\n' {
                    proof {
                        let rest = chars@.skip(end as int);
                        assert(rest[0] == chars@[end as int]);
                        assert(rest.skip(1) =~= chars@.skip(end + 1));
                        assert(rest.len() < chars@.skip(pos as int).len());
                        match spec_parse_records(chars@.skip(end + 1)) {
                            Some(ms2) => {
                                assert(spec_parse_records(chars@.skip(pos as int)) == Some(
                                    seq![m@] + ms2,
                                ));
                                assert(views_of(prev) + (seq![m@] + ms2) =~= views_of(out@)
                                    + ms2);
                            },
                            None => {
                                assert(spec_parse_records(chars@.skip(pos as int)) is None);
                            },
                        }
                    }
                    pos = end + 1;
                } else {
                    proof {
                        let rest = chars@.skip(end as int);
                        assert(rest[0] == chars@[end as int]);
                        assert(spec_parse_records(chars@.skip(pos as int)) is None);
                        assert(views_of(Seq::<Metric>::empty()) =~= Seq::<MetricModel>::empty());
                    }
                    return Vec::new();
                }
            },
        }
    }
}

} // verus!

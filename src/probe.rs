use vstd::prelude::*;

verus! {

/// Why the duration of an input could not be determined.
#[derive(Debug, Clone, Copy, PartialEq, Eq, Structural)]
pub enum ProbeError {
    /// The inspection tool could not be run.
    ToolFailed,
    /// The tool's diagnostic output holds no duration line.
    DurationNotFound,
    /// The duration field is not of the form `HH:MM:SS[.fraction]`, or its
    /// value does not fit in a `usize`.
    Unparseable,
}

pub open spec fn is_digit(b: u8) -> bool {
    48 <= b <= 57
}

/// Value of a run of decimal digits.
pub open spec fn digits_value(s: Seq<u8>) -> nat
    decreases s.len(),
{
    if s.len() == 0 {
        0
    } else {
        digits_value(s.drop_last()) * 10 + (s.last() - 48) as nat
    }
}

/// Number of digits in `s` from position `i` on, up to the first non-digit.
pub open spec fn digit_run(s: Seq<u8>, i: int) -> nat
    decreases s.len() - i,
{
    if 0 <= i < s.len() && is_digit(s[i]) {
        1 + digit_run(s, i + 1)
    } else {
        0
    }
}

/// Length of `s` once its trailing commas are removed.
pub open spec fn stripped_len(s: Seq<u8>) -> nat
    decreases s.len(),
{
    if s.len() > 0 && s.last() == 44 {
        stripped_len(s.drop_last())
    } else {
        s.len()
    }
}

/// Seconds in a time stamp `H:M:S` or `H:M:S.F` (each of `H`, `M`, `S` one
/// or more digits, `F` zero or more), the fraction dropped; `None` when `t`
/// has another shape.
pub open spec fn hms_value(t: Seq<u8>) -> Option<nat> {
    let a = digit_run(t, 0) as int;
    let b = digit_run(t, a + 1) as int;
    let c = digit_run(t, a + b + 2) as int;
    let e = a + b + 2 + c;
    if a > 0 && a < t.len() && t[a] == 58 && b > 0 && a + 1 + b < t.len() && t[a + 1 + b] == 58
        && c > 0 && (e == t.len() || (t[e] == 46 && forall|k: int|
        e < k < t.len() ==> is_digit(#[trigger] t[k]))) {
        Some(
            digits_value(t.subrange(0, a)) * 3600 + digits_value(t.subrange(a + 1, a + 1 + b)) * 60
                + digits_value(t.subrange(a + b + 2, e)),
        )
    } else {
        None
    }
}

/// Seconds in a duration field as the inspection tool prints it: a time stamp
/// possibly followed by commas.
pub open spec fn timestamp_seconds(token: Seq<u8>) -> Option<nat> {
    hms_value(token.take(stripped_len(token) as int))
}

proof fn lemma_stripped_len_bound(s: Seq<u8>)
    ensures
        stripped_len(s) <= s.len(),
    decreases s.len(),
{
    if s.len() > 0 && s.last() == 44 {
        lemma_stripped_len_bound(s.drop_last());
    }
}

proof fn lemma_digit_run_bound(s: Seq<u8>, i: int)
    requires
        0 <= i <= s.len(),
    ensures
        i + digit_run(s, i) <= s.len(),
        forall|k: int| i <= k < i + digit_run(s, i) ==> is_digit(#[trigger] s[k]),
        i + digit_run(s, i) < s.len() ==> !is_digit(s[i + digit_run(s, i)]),
    decreases s.len() - i,
{
    if i < s.len() && is_digit(s[i]) {
        lemma_digit_run_bound(s, i + 1);
    }
}

/// Reads the digits of `s` from `start` on. Returns where they end and their
/// value, `None` when it does not fit in a `usize`.
fn scan_digits(s: &Vec<u8>, start: usize) -> (r: (usize, Option<usize>))
    requires
        start <= s.len(),
    ensures
        r.0 == start + digit_run(s@, start as int),
        r.1 matches Some(v) ==> v as nat == digits_value(s@.subrange(start as int, r.0 as int)),
        r.1 is None ==> digits_value(s@.subrange(start as int, r.0 as int)) > usize::MAX,
{
    let mut i: usize = start;
    let mut acc: Option<usize> = Some(0);
    proof {
        assert(s@.subrange(start as int, start as int) =~= Seq::<u8>::empty());
    }
    while i < s.len() && 48 <= s[i] && s[i] <= 57
        invariant
            start <= i <= s.len(),
            digit_run(s@, start as int) == (i - start) + digit_run(s@, i as int),
            acc matches Some(v) ==> v as nat == digits_value(s@.subrange(start as int, i as int)),
            acc is None ==> digits_value(s@.subrange(start as int, i as int)) > usize::MAX,
        decreases s.len() - i,
    {
        let d: usize = (s[i] - 48) as usize;
        proof {
            let p = s@.subrange(start as int, i as int);
            let q = s@.subrange(start as int, i + 1);
            assert(q.drop_last() =~= p);
            assert(q.last() == s@[i as int]);
            assert(digits_value(q) == digits_value(p) * 10 + d);
        }
        acc = match acc {
            Some(v) => {
                if v <= (usize::MAX - d) / 10 {
                    assert(v * 10 + d <= usize::MAX) by (nonlinear_arith)
                        requires
                            v <= (usize::MAX - d) / 10,
                            d <= 9,
                    ;
                    Some(v * 10 + d)
                } else {
                    assert(v * 10 + d > usize::MAX) by (nonlinear_arith)
                        requires
                            v > (usize::MAX - d) / 10,
                            d <= 9,
                    ;
                    None
                }
            },
            None => None,
        };
        i = i + 1;
    }
    (i, acc)
}

/// Parses the duration field printed by the inspection tool (for example
/// `01:02:03.45,`) into whole seconds.
pub fn parse_timestamp(token: &Vec<u8>) -> (r: Result<usize, ProbeError>)
    ensures
        match timestamp_seconds(token@) {
            Some(v) => if v <= usize::MAX {
                r == Ok::<usize, ProbeError>(v as usize)
            } else {
                r == Err::<usize, ProbeError>(ProbeError::Unparseable)
            },
            None => r == Err::<usize, ProbeError>(ProbeError::Unparseable),
        },
{
    let mut n: usize = token.len();
    proof {
        assert(token@.take(token.len() as int) =~= token@);
    }
    while n > 0 && token[n - 1] == 44
        invariant
            n <= token.len(),
            stripped_len(token@.take(n as int)) == stripped_len(token@),
        decreases n,
    {
        proof {
            assert(token@.take(n as int).drop_last() =~= token@.take(n - 1));
        }
        n = n - 1;
    }
    proof {
        assert(token@.take(n as int) =~= token@.take(n as int).take(n as int));
        if n > 0 {
            assert(token@.take(n as int).last() != 44);
        }
        assert(stripped_len(token@.take(n as int)) == n);
    }
    let mut t: Vec<u8> = Vec::new();
    let mut j: usize = 0;
    while j < n
        invariant
            j <= n <= token.len(),
            t@ =~= token@.take(j as int),
        decreases n - j,
    {
        t.push(token[j]);
        j = j + 1;
    }
    proof {
        assert(t@ =~= token@.take(stripped_len(token@) as int));
    }
    parse_hms(&t)
}

/// Parses a time stamp `H:M:S[.F]` into whole seconds.
fn parse_hms(t: &Vec<u8>) -> (r: Result<usize, ProbeError>)
    ensures
        match hms_value(t@) {
            Some(v) => if v <= usize::MAX {
                r == Ok::<usize, ProbeError>(v as usize)
            } else {
                r == Err::<usize, ProbeError>(ProbeError::Unparseable)
            },
            None => r == Err::<usize, ProbeError>(ProbeError::Unparseable),
        },
{
    let ghost tv = t@;
    let len = t.len();
    let (ea, ha) = scan_digits(&t, 0);
    proof {
        lemma_digit_run_bound(tv, 0);
    }
    if ea == 0 || ea >= len || t[ea] != 58 {
        return Err(ProbeError::Unparseable);
    }
    let (eb, mb) = scan_digits(&t, ea + 1);
    proof {
        lemma_digit_run_bound(tv, ea + 1);
    }
    if eb == ea + 1 || eb >= len || t[eb] != 58 {
        return Err(ProbeError::Unparseable);
    }
    let (ec, sc) = scan_digits(&t, eb + 1);
    proof {
        lemma_digit_run_bound(tv, eb + 1);
    }
    if ec == eb + 1 {
        return Err(ProbeError::Unparseable);
    }
    if ec < len {
        if t[ec] != 46 {
            return Err(ProbeError::Unparseable);
        }
        let mut k: usize = ec + 1;
        while k < len
            invariant
                ec < k <= len,
                len == tv.len(),
                t@ == tv,
                forall|m: int| ec < m < k ==> is_digit(#[trigger] tv[m]),
                ea as int == digit_run(tv, 0),
                eb as int == ea + 1 + digit_run(tv, ea + 1),
                ec as int == eb + 1 + digit_run(tv, eb + 1),
            decreases len - k,
        {
            if t[k] < 48 || t[k] > 57 {
                assert(!is_digit(tv[k as int]));
                return Err(ProbeError::Unparseable);
            }
            k = k + 1;
        }
    }
    proof {
        let hv = digits_value(tv.subrange(0, ea as int));
        let mv = digits_value(tv.subrange(ea + 1, eb as int));
        let sv = digits_value(tv.subrange(eb + 1, ec as int));
        assert(hms_value(tv) == Some(hv * 3600 + mv * 60 + sv));
        assert(hv * 3600 + mv * 60 + sv >= hv + mv + sv) by (nonlinear_arith);
    }
    match (ha, mb, sc) {
        (Some(h), Some(m), Some(s)) => {
            let total: u128 = (h as u128) * 3600 + (m as u128) * 60 + (s as u128);
            if total <= usize::MAX as u128 {
                Ok(total as usize)
            } else {
                Err(ProbeError::Unparseable)
            }
        },
        _ => Err(ProbeError::Unparseable),
    }
}


/// The marker of the duration line: `Duration`.
pub open spec fn marker() -> Seq<u8> {
    seq![68u8, 117u8, 114u8, 97u8, 116u8, 105u8, 111u8, 110u8]
}

/// ASCII white space: space, tab, line feed, vertical tab, form feed, return.
pub open spec fn is_space(b: u8) -> bool {
    b == 32 || (9 <= b <= 13)
}

/// `s[a..b]` holds the marker.
pub open spec fn has_marker(s: Seq<u8>, a: int, b: int) -> bool {
    exists|k: int| a <= k && k + 8 <= b && #[trigger] s.subrange(k, k + 8) == marker()
}

/// Bounds of the first line, from the one that starts at `start` on, that holds
/// the marker; `pos` is how far the current line has been read. Lines end at a
/// line feed or at the end of the text.
pub open spec fn find_line(s: Seq<u8>, start: int, pos: int) -> Option<(int, int)>
    decreases s.len() - pos,
{
    if pos >= s.len() {
        if has_marker(s, start, s.len() as int) {
            Some((start, s.len() as int))
        } else {
            None
        }
    } else if s[pos] == 10 {
        if has_marker(s, start, pos) {
            Some((start, pos))
        } else {
            find_line(s, pos + 1, pos + 1)
        }
    } else {
        find_line(s, start, pos + 1)
    }
}

/// First position from `i` on, before `e`, whose byte is not of the class
/// `space` (white space when `space` holds, other bytes when not).
pub open spec fn skip_class(s: Seq<u8>, i: int, e: int, space: bool) -> int
    decreases e - i,
{
    if 0 <= i < e && i < s.len() && is_space(s[i]) == space {
        skip_class(s, i + 1, e, space)
    } else {
        i
    }
}

/// The second white-space separated field of `s[a..b]`, empty when there is
/// none.
pub open spec fn second_field(s: Seq<u8>, a: int, b: int) -> Seq<u8> {
    let p0 = skip_class(s, a, b, true);
    let p1 = skip_class(s, p0, b, false);
    let p2 = skip_class(s, p1, b, true);
    let p3 = skip_class(s, p2, b, false);
    s.subrange(p2, p3)
}

/// Duration in whole seconds that the inspection tool's diagnostic output
/// reports: `None` when no line holds the marker, `Some(None)` when the
/// line's duration field is not a time stamp.
pub open spec fn reported_duration(s: Seq<u8>) -> Option<Option<nat>> {
    match find_line(s, 0, 0) {
        None => None,
        Some((a, b)) => Some(timestamp_seconds(second_field(s, a, b))),
    }
}

proof fn lemma_skip_class_bound(s: Seq<u8>, i: int, e: int, space: bool)
    ensures
        skip_class(s, i, e, space) >= i,
        i <= e && e <= s.len() ==> skip_class(s, i, e, space) <= e,
    decreases e - i,
{
    if 0 <= i < e && i < s.len() && is_space(s[i]) == space {
        lemma_skip_class_bound(s, i + 1, e, space);
    }
}

proof fn lemma_find_line_bound(s: Seq<u8>, start: int, pos: int)
    requires
        0 <= start <= pos,
    ensures
        find_line(s, start, pos) matches Some((a, b)) ==> 0 <= a <= b <= s.len(),
    decreases s.len() - pos,
{
    if pos >= s.len() {
    } else if s[pos] == 10 {
        if !has_marker(s, start, pos) {
            lemma_find_line_bound(s, pos + 1, pos + 1);
        }
    } else {
        lemma_find_line_bound(s, start, pos + 1);
    }
}

/// Whether `s[a..b]` holds the marker.
fn contains_marker(s: &Vec<u8>, a: usize, b: usize) -> (r: bool)
    requires
        a <= b <= s.len(),
    ensures
        r == has_marker(s@, a as int, b as int),
{
    if b - a < 8 {
        return false;
    }
    let mut k: usize = a;
    while b - k >= 8
        invariant
            a <= k <= b,
            b <= s.len(),
            forall|m: int| a <= m < k && m + 8 <= b ==> #[trigger] s@.subrange(m, m + 8) != marker(),
        decreases b - k,
    {
        if s[k] == 68 && s[k + 1] == 117 && s[k + 2] == 114 && s[k + 3] == 97 && s[k + 4] == 116
            && s[k + 5] == 105 && s[k + 6] == 111 && s[k + 7] == 110 {
            assert(s@.subrange(k as int, k + 8) =~= marker());
            return true;
        }
        assert(k + 8 <= b);
        assert(s@.subrange(k as int, k + 8) != marker()) by {
            let w = s@.subrange(k as int, k + 8);
            if w == marker() {
                assert(w[0] == 68 && w[1] == 117 && w[2] == 114 && w[3] == 97);
                assert(w[4] == 116 && w[5] == 105 && w[6] == 111 && w[7] == 110);
            }
        }
        k = k + 1;
    }
    false
}

/// Bounds of the first line of `s` that holds the marker.
fn locate_duration_line(s: &Vec<u8>) -> (r: Option<(usize, usize)>)
    ensures
        r matches Some((a, b)) ==> find_line(s@, 0, 0) == Some((a as int, b as int)),
        r is None ==> find_line(s@, 0, 0) is None,
{
    let mut start: usize = 0;
    let mut pos: usize = 0;
    while pos < s.len()
        invariant
            start <= pos <= s.len(),
            find_line(s@, 0, 0) == find_line(s@, start as int, pos as int),
        decreases s.len() - pos,
    {
        if s[pos] == 10 {
            if contains_marker(s, start, pos) {
                return Some((start, pos));
            }
            start = pos + 1;
        }
        pos = pos + 1;
    }
    if contains_marker(s, start, pos) {
        Some((start, pos))
    } else {
        None
    }
}

/// Position of the first byte from `i` on, before `e`, that is not of the
/// class `space`.
fn skip_bytes(s: &Vec<u8>, i: usize, e: usize, space: bool) -> (r: usize)
    requires
        i <= e <= s.len(),
    ensures
        r as int == skip_class(s@, i as int, e as int, space),
        i <= r <= e,
{
    let mut k: usize = i;
    proof {
        lemma_skip_class_bound(s@, i as int, e as int, space);
    }
    while k < e && ((s[k] == 32 || (9 <= s[k] && s[k] <= 13)) == space)
        invariant
            i <= k <= e,
            e <= s.len(),
            skip_class(s@, i as int, e as int, space) == skip_class(s@, k as int, e as int, space),
        decreases e - k,
    {
        k = k + 1;
    }
    k
}

/// Reads the duration that the inspection tool's diagnostic output reports:
/// the second field of the first line that holds `Duration`, as a time stamp
/// `H:M:S[.F]` possibly followed by commas, in whole seconds.
pub fn parse_probe_output(output: &Vec<u8>) -> (r: Result<usize, ProbeError>)
    ensures
        match reported_duration(output@) {
            None => r == Err::<usize, ProbeError>(ProbeError::DurationNotFound),
            Some(Some(v)) => if v <= usize::MAX {
                r == Ok::<usize, ProbeError>(v as usize)
            } else {
                r == Err::<usize, ProbeError>(ProbeError::Unparseable)
            },
            Some(None) => r == Err::<usize, ProbeError>(ProbeError::Unparseable),
        },
{
    proof {
        lemma_find_line_bound(output@, 0, 0);
    }
    match locate_duration_line(output) {
        None => Err(ProbeError::DurationNotFound),
        Some((a, b)) => {
            let p0 = skip_bytes(output, a, b, true);
            let p1 = skip_bytes(output, p0, b, false);
            let p2 = skip_bytes(output, p1, b, true);
            let p3 = skip_bytes(output, p2, b, false);
            let mut field: Vec<u8> = Vec::new();
            let mut k: usize = p2;
            while k < p3
                invariant
                    p2 <= k <= p3,
                    p3 <= output.len(),
                    field@ =~= output@.subrange(p2 as int, k as int),
                decreases p3 - k,
            {
                field.push(output[k]);
                k = k + 1;
            }
            parse_timestamp(&field)
        },
    }
}

} // verus!

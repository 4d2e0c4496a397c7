//! Parsing and formatting of sizes and tool-output lines.
//!
//! All arithmetic is exact: a human-readable size such as `3.5G` is read as
//! a decimal number and scaled by the binary unit with round-half-up on the
//! exact rational value, and `format_size` renders one decimal digit with
//! round-half-to-even.  Whitespace means ASCII space, tab, line feed or
//! carriage return.

use vstd::prelude::*;

verus! {

/// ASCII whitespace.
pub open spec fn is_ws(c: char) -> bool {
    c == ' ' || c == '\t' || c == '\n' || c == '\r'
}

/// ASCII decimal digit.
pub open spec fn is_digit(c: char) -> bool {
    48 <= c as u32 <= 57
}

/// Value of an ASCII digit.
pub open spec fn digit_val(c: char) -> int {
    c as u32 - 48
}

/// First index in `[i, end)` holding a non-whitespace character, else `end`.
pub open spec fn skip_ws_from(s: Seq<char>, i: int, end: int) -> int
    decreases end - i,
{
    if i < 0 || i >= end {
        end
    } else if is_ws(s[i]) {
        skip_ws_from(s, i + 1, end)
    } else {
        i
    }
}

/// Largest `b <= end0` such that `s[b - 1]` is not whitespace, else `0`.
pub open spec fn trim_end_idx(s: Seq<char>, end0: int) -> int
    decreases end0,
{
    if end0 <= 0 {
        0
    } else if is_ws(s[end0 - 1]) {
        trim_end_idx(s, end0 - 1)
    } else {
        end0
    }
}

/// First index in `[i, end)` holding a whitespace character, else `end`.
pub open spec fn scan_to_ws(s: Seq<char>, i: int, end: int) -> int
    decreases end - i,
{
    if i < 0 || i >= end {
        end
    } else if is_ws(s[i]) {
        i
    } else {
        scan_to_ws(s, i + 1, end)
    }
}

/// First index in `[i, end)` whose character is neither a digit nor `.`,
/// else `end`.
pub open spec fn scan_num_end(s: Seq<char>, i: int, end: int) -> int
    decreases end - i,
{
    if i < 0 || i >= end {
        end
    } else if is_digit(s[i]) || s[i] == '.' {
        scan_num_end(s, i + 1, end)
    } else {
        i
    }
}

/// First index of `.` in `[i, end)`, else `end`.
pub open spec fn first_dot(s: Seq<char>, i: int, end: int) -> int
    decreases end - i,
{
    if i < 0 || i >= end {
        end
    } else if s[i] == '.' {
        i
    } else {
        first_dot(s, i + 1, end)
    }
}

/// Number of `.` characters in `[i, end)`.
pub open spec fn count_dots(s: Seq<char>, i: int, end: int) -> int
    decreases end - i,
{
    if i < 0 || i >= end {
        0
    } else {
        (if s[i] == '.' {
            1int
        } else {
            0int
        }) + count_dots(s, i + 1, end)
    }
}

/// All characters of `[i, end)` are digits.
pub open spec fn all_digits(s: Seq<char>, i: int, end: int) -> bool {
    forall|j: int| i <= j < end ==> is_digit(#[trigger] s[j])
}

/// Value of the digit string `s[i .. end]`, read left to right.
pub open spec fn digits_val(s: Seq<char>, i: int, end: int) -> int
    decreases end - i,
{
    if i < 0 || i >= end {
        0
    } else {
        digits_val(s, i, end - 1) * 10 + digit_val(s[end - 1])
    }
}

pub proof fn lemma_digits_val_nonneg(s: Seq<char>, i: int, end: int)
    requires
        all_digits(s, i, end),
    ensures
        digits_val(s, i, end) >= 0,
    decreases end - i,
{
    if i >= 0 && i < end {
        lemma_digits_val_nonneg(s, i, end - 1);
    }
}

/// A decimal unsigned 64-bit number: nonempty, digits only, in range.
pub open spec fn parse_u64_spec(s: Seq<char>, i: int, end: int) -> Option<u64> {
    if i < end && all_digits(s, i, end) && digits_val(s, i, end) <= u64::MAX {
        Option::Some(digits_val(s, i, end) as u64)
    } else {
        Option::None
    }
}

/// What a stat-style line `"<size> <path>"` parses to: the decimal byte size
/// before the first space, and the rest trimmed of surrounding whitespace.
pub open spec fn parse_stat_line_spec(s: Seq<char>) -> Option<(u64, Seq<char>)> {
    let n = s.len() as int;
    let sp = first_space(s, 0, n);
    if sp == n {
        Option::None
    } else {
        match parse_u64_spec(s, 0, sp) {
            Option::None => Option::None,
            Option::Some(v) => {
                let a = skip_ws_from(s, sp, n);
                let b = trim_end_idx(s, n);
                if a >= b {
                    Option::Some((v, Seq::empty()))
                } else {
                    Option::Some((v, s.subrange(a, b)))
                }
            },
        }
    }
}

/// First index of a space character in `[i, end)`, else `end`.
pub open spec fn first_space(s: Seq<char>, i: int, end: int) -> int
    decreases end - i,
{
    if i < 0 || i >= end {
        end
    } else if s[i] == ' ' {
        i
    } else {
        first_space(s, i + 1, end)
    }
}

/// What a size-summary line `"<kilobytes>\t<name>"` parses to: the leading
/// whitespace-delimited token as a kilobyte count scaled to bytes, and the
/// rest (which may contain spaces) trimmed of surrounding whitespace and
/// kept verbatim.  Lines whose size is missing, non-numeric, or would
/// overflow when scaled, and lines with no name, parse to nothing.
pub open spec fn parse_du_line_spec(s: Seq<char>) -> Option<(u64, Seq<char>)> {
    let n = s.len() as int;
    let a0 = skip_ws_from(s, 0, n);
    let t1 = scan_to_ws(s, a0, n);
    if a0 == t1 {
        Option::None
    } else {
        match parse_u64_spec(s, a0, t1) {
            Option::None => Option::None,
            Option::Some(kb) => {
                if kb > u64::MAX / 1024 {
                    Option::None
                } else {
                    let a1 = skip_ws_from(s, t1, n);
                    let b = trim_end_idx(s, n);
                    if a1 >= b {
                        Option::None
                    } else {
                        Option::Some(((kb * 1024) as u64, s.subrange(a1, b)))
                    }
                }
            },
        }
    }
}

/// Exec scan: first non-whitespace index in `[i, end)` of `s`.
fn skip_ws_exec(s: &str, i: usize, end: usize) -> (r: usize)
    requires
        i <= end,
        end <= s@.len(),
    ensures
        r == skip_ws_from(s@, i as int, end as int),
        i <= r <= end,
{
    let mut j: usize = i;
    while j < end
        invariant
            i <= j <= end,
            end <= s@.len(),
            skip_ws_from(s@, i as int, end as int) == skip_ws_from(s@, j as int, end as int),
        decreases end - j,
    {
        let c = s.get_char(j);
        if !(c == ' ' || c == '\t' || c == '\n' || c == '\r') {
            return j;
        }
        j = j + 1;
    }
    j
}

/// Exec scan: trim trailing whitespace, returning the end of the kept part.
fn trim_end_exec(s: &str, end0: usize) -> (r: usize)
    requires
        end0 <= s@.len(),
    ensures
        r == trim_end_idx(s@, end0 as int),
        r <= end0,
{
    let mut j: usize = end0;
    while j > 0
        invariant
            j <= end0 <= s@.len(),
            trim_end_idx(s@, end0 as int) == trim_end_idx(s@, j as int),
        decreases j,
    {
        let c = s.get_char(j - 1);
        if !(c == ' ' || c == '\t' || c == '\n' || c == '\r') {
            return j;
        }
        j = j - 1;
    }
    j
}

/// Exec scan: first whitespace character in `[i, end)`.
fn scan_to_ws_exec(s: &str, i: usize, end: usize) -> (r: usize)
    requires
        i <= end,
        end <= s@.len(),
    ensures
        r == scan_to_ws(s@, i as int, end as int),
        i <= r <= end,
{
    let mut j: usize = i;
    while j < end
        invariant
            i <= j <= end,
            end <= s@.len(),
            scan_to_ws(s@, i as int, end as int) == scan_to_ws(s@, j as int, end as int),
        decreases end - j,
    {
        let c = s.get_char(j);
        if c == ' ' || c == '\t' || c == '\n' || c == '\r' {
            return j;
        }
        j = j + 1;
    }
    j
}

/// Exec scan: first space in `[i, end)`.
fn first_space_exec(s: &str, i: usize, end: usize) -> (r: usize)
    requires
        i <= end,
        end <= s@.len(),
    ensures
        r == first_space(s@, i as int, end as int),
        i <= r <= end,
{
    let mut j: usize = i;
    while j < end
        invariant
            i <= j <= end,
            end <= s@.len(),
            first_space(s@, i as int, end as int) == first_space(s@, j as int, end as int),
        decreases end - j,
    {
        if s.get_char(j) == ' ' {
            return j;
        }
        j = j + 1;
    }
    j
}

/// Clamp bound for decimal accumulation: one more than the largest `u64`.
pub open spec fn digit_clamp() -> int {
    0x10000000000000000
}

/// Accumulate the decimal value of the digits in `[i, end)`, clamped at one
/// above `u64::MAX` so that overflow is detected exactly.
fn digits_val_clamped(s: &str, i: usize, end: usize) -> (r: u128)
    requires
        i <= end,
        end <= s@.len(),
        all_digits(s@, i as int, end as int),
    ensures
        digits_val(s@, i as int, end as int) <= digit_clamp() ==> r == digits_val(
            s@,
            i as int,
            end as int,
        ),
        digits_val(s@, i as int, end as int) > digit_clamp() ==> r == digit_clamp(),
        r <= digit_clamp(),
{
    let mut acc: u128 = 0;
    let mut j: usize = i;
    while j < end
        invariant
            i <= j <= end,
            end <= s@.len(),
            all_digits(s@, i as int, end as int),
            acc <= digit_clamp(),
            digits_val(s@, i as int, j as int) <= digit_clamp() ==> acc == digits_val(
                s@,
                i as int,
                j as int,
            ),
            digits_val(s@, i as int, j as int) > digit_clamp() ==> acc == digit_clamp(),
        decreases end - j,
    {
        let c = s.get_char(j);
        let u: u32 = c as u32;
        proof {
            assert(is_digit(s@[j as int]));
            lemma_digits_val_nonneg(s@, i as int, j as int);
            assert(digits_val(s@, i as int, (j + 1) as int) == digits_val(s@, i as int, j as int)
                * 10 + digit_val(s@[j as int]));
        }
        let d: u128 = (u - 48) as u128;
        let cand: u128 = acc * 10 + d;
        if cand > 0x10000000000000000u128 {
            acc = 0x10000000000000000u128;
        } else {
            acc = cand;
        }
        j = j + 1;
    }
    acc
}

/// Parse the digits in `[i, end)` as a `u64`, rejecting empty or
/// non-numeric input and values out of range.
fn parse_u64_range(s: &str, i: usize, end: usize) -> (r: Option<u64>)
    requires
        i <= end,
        end <= s@.len(),
    ensures
        r == parse_u64_spec(s@, i as int, end as int),
{
    if i == end {
        return Option::None;
    }
    let mut j: usize = i;
    while j < end
        invariant
            i <= j <= end,
            end <= s@.len(),
            all_digits(s@, i as int, j as int),
        decreases end - j,
    {
        let c = s.get_char(j);
        let u: u32 = c as u32;
        if !(48 <= u && u <= 57) {
            proof {
                assert(!is_digit(s@[j as int]));
            }
            return Option::None;
        }
        j = j + 1;
    }
    let acc = digits_val_clamped(s, i, end);
    if acc > u64::MAX as u128 {
        proof {
            if digits_val(s@, i as int, end as int) <= u64::MAX {
                assert(acc == digits_val(s@, i as int, end as int));
            }
        }
        Option::None
    } else {
        proof {
            if digits_val(s@, i as int, end as int) > digit_clamp() {
                assert(acc == digit_clamp());
            }
        }
        Option::Some(acc as u64)
    }
}

/// Parse one line of indexed-search size output: `"<bytes> <path>"`, the
/// byte count a decimal `u64` before the first space, the path the trimmed
/// remainder.  Malformed lines yield `None` and are skipped by callers.
pub fn parse_stat_line(line: &str) -> (r: Option<(u64, String)>)
    ensures
        r is Some <==> parse_stat_line_spec(line@) is Some,
        r is Some ==> r->Some_0.0 == parse_stat_line_spec(line@)->Some_0.0,
        r is Some ==> r->Some_0.1@ == parse_stat_line_spec(line@)->Some_0.1,
{
    let n: usize = line.unicode_len();
    let sp = first_space_exec(line, 0, n);
    if sp == n {
        return Option::None;
    }
    let v = match parse_u64_range(line, 0, sp) {
        Option::Some(v) => v,
        Option::None => {
            return Option::None;
        },
    };
    let a = skip_ws_exec(line, sp, n);
    let b = trim_end_exec(line, n);
    if a >= b {
        let empty = String::new();
        proof {
            assert(empty@ =~= Seq::<char>::empty());
        }
        Option::Some((v, empty))
    } else {
        let sub = line.substring_char(a, b);
        Option::Some((v, String::from_str(sub)))
    }
}

/// Parse one line of recursive size-summary output: a leading
/// whitespace-delimited kilobyte count, then the entry name, which may
/// contain spaces and is kept verbatim after trimming surrounding
/// whitespace.  The kilobyte count is scaled to bytes; lines that are
/// empty, non-numeric, nameless or would overflow yield `None`.
pub fn parse_du_line(line: &str) -> (r: Option<(u64, String)>)
    ensures
        r is Some <==> parse_du_line_spec(line@) is Some,
        r is Some ==> r->Some_0.0 == parse_du_line_spec(line@)->Some_0.0,
        r is Some ==> r->Some_0.1@ == parse_du_line_spec(line@)->Some_0.1,
{
    let n: usize = line.unicode_len();
    let a0 = skip_ws_exec(line, 0, n);
    let t1 = scan_to_ws_exec(line, a0, n);
    if a0 == t1 {
        return Option::None;
    }
    let kb = match parse_u64_range(line, a0, t1) {
        Option::Some(v) => v,
        Option::None => {
            return Option::None;
        },
    };
    if kb > u64::MAX / 1024 {
        return Option::None;
    }
    let a1 = skip_ws_exec(line, t1, n);
    let b = trim_end_exec(line, n);
    if a1 >= b {
        return Option::None;
    }
    let sub = line.substring_char(a1, b);
    Option::Some((kb * 1024, String::from_str(sub)))
}

/// Ten to the `k`.
pub open spec fn pow10(k: int) -> int
    decreases k,
{
    if k <= 0 {
        1
    } else {
        10 * pow10(k - 1)
    }
}

/// 1024 to the `k`.
pub open spec fn pow1024(k: int) -> int
    decreases k,
{
    if k <= 0 {
        1
    } else {
        1024 * pow1024(k - 1)
    }
}

/// The multiplier a single unit letter denotes, `0` for an unknown letter.
pub open spec fn letter_mult(c: char) -> int {
    if c == 'B' || c == 'b' {
        1
    } else if c == 'K' || c == 'k' {
        1024
    } else if c == 'M' || c == 'm' {
        0x100000
    } else if c == 'G' || c == 'g' {
        0x40000000
    } else if c == 'T' || c == 't' {
        0x10000000000
    } else if c == 'P' || c == 'p' {
        0x4000000000000
    } else {
        0
    }
}

/// The multiplier of the unit written in `s[i .. end]`: empty or `B` means
/// bytes, a known letter optionally followed by `B` means its binary
/// multiple, anything else falls back to bytes.
pub open spec fn unit_mult(s: Seq<char>, i: int, end: int) -> int {
    if end - i <= 0 {
        1
    } else if end - i == 1 {
        if letter_mult(s[i]) != 0 {
            letter_mult(s[i])
        } else {
            1
        }
    } else if end - i == 2 && (s[i + 1] == 'B' || s[i + 1] == 'b') && letter_mult(s[i]) > 1 {
        letter_mult(s[i])
    } else {
        1
    }
}

/// Number of fractional digits kept when reading a decimal size; further
/// digits are ignored.
pub open spec fn frac_precision() -> int {
    12
}

/// What a human-readable size such as `294M`, `3.5G` or `0B` denotes in
/// bytes: the decimal number before the unit (at most one dot, fractional
/// digits beyond the kept precision ignored) scaled by the unit's binary
/// multiplier, rounded half up, saturated at `u64::MAX`.  Blank input, a
/// leading non-number and a number with two dots denote `0`.
pub open spec fn parse_human_size_spec(s: Seq<char>) -> u64 {
    let n = s.len() as int;
    let a = skip_ws_from(s, 0, n);
    let b = trim_end_idx(s, n);
    if a >= b {
        0u64
    } else {
        let ne = scan_num_end(s, a, b);
        if ne == a {
            0u64
        } else if count_dots(s, a, ne) > 1 {
            0u64
        } else {
            let fd = first_dot(s, a, ne);
            let ip = digits_val(s, a, fd);
            let fstart = if fd < ne {
                fd + 1
            } else {
                ne
            };
            let fend = if ne < fstart + frac_precision() {
                ne
            } else {
                fstart + frac_precision()
            };
            let den = pow10(fend - fstart);
            let frac = digits_val(s, fstart, fend);
            let mult = unit_mult(s, skip_ws_from(s, ne, b), b);
            let val = ip * mult + (frac * mult + den / 2) / den;
            if val > u64::MAX {
                u64::MAX
            } else {
                val as u64
            }
        }
    }
}

proof fn lemma_scan_num_end_props(s: Seq<char>, i: int, end: int)
    requires
        0 <= i <= end <= s.len(),
    ensures
        i <= scan_num_end(s, i, end) <= end,
        forall|j: int|
            i <= j < scan_num_end(s, i, end) ==> is_digit(#[trigger] s[j]) || s[j] == '.',
    decreases end - i,
{
    if i < end && (is_digit(s[i]) || s[i] == '.') {
        lemma_scan_num_end_props(s, i + 1, end);
    }
}

proof fn lemma_first_dot_props(s: Seq<char>, i: int, end: int)
    requires
        0 <= i <= end <= s.len(),
    ensures
        i <= first_dot(s, i, end) <= end,
        forall|j: int| i <= j < first_dot(s, i, end) ==> #[trigger] s[j] != '.',
        first_dot(s, i, end) < end ==> s[first_dot(s, i, end)] == '.',
    decreases end - i,
{
    if i < end && s[i] != '.' {
        lemma_first_dot_props(s, i + 1, end);
    }
}

proof fn lemma_digits_val_bound(s: Seq<char>, i: int, end: int)
    requires
        0 <= i,
        all_digits(s, i, end),
    ensures
        0 <= digits_val(s, i, end) < pow10(end - i),
    decreases end - i,
{
    if i >= end {
    } else {
        lemma_digits_val_bound(s, i, end - 1);
        assert(is_digit(s[end - 1]));
        assert(digit_val(s[end - 1]) <= 9);
        assert(pow10(end - i) == 10 * pow10(end - i - 1));
        assert(digits_val(s, i, end) == digits_val(s, i, end - 1) * 10 + digit_val(s[end - 1]));
    }
}

/// Exec table for small powers of ten.
fn pow10_exec(k: usize) -> (r: u64)
    requires
        k <= 12,
    ensures
        r == pow10(k as int),
        1 <= r <= 0xE8D4A51000,
{
    proof {
        reveal_with_fuel(pow10, 14);
    }
    match k {
        0 => 1,
        1 => 10,
        2 => 100,
        3 => 1000,
        4 => 10000,
        5 => 100000,
        6 => 1000000,
        7 => 10000000,
        8 => 100000000,
        9 => 1000000000,
        10 => 10000000000,
        11 => 100000000000,
        _ => 1000000000000,
    }
}

/// The multiplier of the unit written in `[i, end)` of `s`.
fn unit_mult_exec(s: &str, i: usize, end: usize) -> (r: u64)
    requires
        i <= end,
        end <= s@.len(),
    ensures
        r == unit_mult(s@, i as int, end as int),
        1 <= r <= 0x4000000000000,
{
    if end - i == 0 {
        return 1;
    }
    let c = s.get_char(i);
    let lm: u64 = if c == 'B' || c == 'b' {
        1
    } else if c == 'K' || c == 'k' {
        1024
    } else if c == 'M' || c == 'm' {
        0x100000
    } else if c == 'G' || c == 'g' {
        0x40000000
    } else if c == 'T' || c == 't' {
        0x10000000000
    } else if c == 'P' || c == 'p' {
        0x4000000000000
    } else {
        0
    };
    if end - i == 1 {
        if lm != 0 {
            lm
        } else {
            1
        }
    } else if end - i == 2 {
        let c2 = s.get_char(i + 1);
        if (c2 == 'B' || c2 == 'b') && lm > 1 {
            lm
        } else {
            1
        }
    } else {
        1
    }
}

/// Parse a human-readable size such as `4.0K`, `294M` or `3.5G` into bytes.
/// The number is read exactly; the result is the decimal value times the
/// unit's binary multiplier, rounded half up, saturated at `u64::MAX`.
/// Blank or malformed input yields `0`.
pub fn parse_human_size(size_str: &str) -> (r: u64)
    ensures
        r == parse_human_size_spec(size_str@),
{
    let s = size_str;
    let n: usize = s.unicode_len();
    let a = skip_ws_exec(s, 0, n);
    let b = trim_end_exec(s, n);
    if a >= b {
        return 0;
    }
    // End of the leading number: digits and dots.
    let mut ne: usize = a;
    let mut dots: usize = 0;
    let mut fd: usize = b;
    let mut fd_found: bool = false;
    let mut done: bool = false;
    while ne < b && !done
        invariant
            a <= ne <= b <= n,
            n == s@.len(),
            dots <= ne - a,
            scan_num_end(s@, a as int, b as int) == scan_num_end(s@, ne as int, b as int),
            dots == count_dots(s@, a as int, ne as int),
            fd_found ==> a <= fd < ne && first_dot(s@, a as int, ne as int) == fd,
            !fd_found ==> first_dot(s@, a as int, ne as int) == ne,
            forall|j: int| a <= j < ne ==> is_digit(#[trigger] s@[j]) || s@[j] == '.',
            done ==> ne < b && !(is_digit(s@[ne as int]) || s@[ne as int] == '.'),
        decreases b - ne + (if done {
            0int
        } else {
            1int
        }),
    {
        let c = s.get_char(ne);
        let u: u32 = c as u32;
        let isd = 48 <= u && u <= 57;
        if !(isd || c == '.') {
            done = true;
        } else {
            proof {
                lemma_count_dots_snoc(s@, a as int, ne as int);
                lemma_first_dot_snoc(s@, a as int, ne as int);
            }
            if c == '.' {
                dots = dots + 1;
                if !fd_found {
                    fd = ne;
                    fd_found = true;
                }
            }
            ne = ne + 1;
        }
    }
    proof {
        assert(scan_num_end(s@, a as int, b as int) == ne) by {
            if done {
                assert(scan_num_end(s@, ne as int, b as int) == ne);
            } else {
                assert(ne == b);
            }
        }
    }
    if ne == a {
        return 0;
    }
    if dots > 1 {
        return 0;
    }
    let fdx: usize = if fd_found {
        fd
    } else {
        ne
    };
    proof {
        assert(first_dot(s@, a as int, ne as int) == fdx);
        lemma_first_dot_props(s@, a as int, ne as int);
        assert(all_digits(s@, a as int, fdx as int));
    }
    let fstart: usize = if fdx < ne {
        fdx + 1
    } else {
        ne
    };
    let fend: usize = if ne - fstart < 12 {
        ne
    } else {
        fstart + 12
    };
    proof {
        assert(all_digits(s@, fstart as int, fend as int)) by {
            assert forall|j: int| fstart <= j < fend implies is_digit(#[trigger] s@[j]) by {
                lemma_count_dots_no_dot(s@, a as int, ne as int, j);
            }
        }
        lemma_digits_val_bound(s@, fstart as int, fend as int);
        reveal_with_fuel(pow10, 14);
        lemma_pow10_mono(fend - fstart as int, 12);
    }
    let ip128 = digits_val_clamped(s, a, fdx);
    let frac128 = digits_val_clamped(s, fstart, fend);
    let den: u64 = pow10_exec(fend - fstart);
    let u0 = skip_ws_exec(s, ne, b);
    let mult: u64 = unit_mult_exec(s, u0, b);
    proof {
        lemma_digits_val_nonneg(s@, a as int, fdx as int);
        assert(frac128 == digits_val(s@, fstart as int, fend as int));
        assert((ip128 as int) * (mult as int) <= 0x10000000000000000 * 0x4000000000000) by (
        nonlinear_arith)
            requires
                0 <= ip128 <= 0x10000000000000000,
                0 <= mult <= 0x4000000000000,
        ;
        assert((frac128 as int) * (mult as int) <= 0xE8D4A51000 * 0x4000000000000) by (
        nonlinear_arith)
            requires
                0 <= frac128 <= 0xE8D4A51000,
                0 <= mult <= 0x4000000000000,
        ;
    }
    let ipm: u128 = ip128 * (mult as u128);
    let fracm: u128 = frac128 * (mult as u128) + (den as u128) / 2;
    let rounded: u128 = fracm / (den as u128);
    let val128: u128 = ipm + rounded;
    proof {
        let ip = digits_val(s@, a as int, fdx as int);
        let fracv = digits_val(s@, fstart as int, fend as int);
        let denv = pow10(fend - fstart);
        let multv = unit_mult(s@, u0 as int, b as int);
        let val = ip * multv + (fracv * multv + denv / 2) / denv;
        assert(rounded >= 0);
        if ip > 0x10000000000000000 {
            assert(ip128 == 0x10000000000000000);
            assert((fracv * multv + denv / 2) / denv >= 0) by (nonlinear_arith)
                requires
                    fracv >= 0,
                    multv >= 1,
                    denv >= 1,
            ;
            assert(val >= ip * multv) by {
                assert(ip * multv + (fracv * multv + denv / 2) / denv >= ip * multv);
            }
            assert(ip * multv >= ip * 1 == ip) by (nonlinear_arith)
                requires
                    multv >= 1,
                    ip >= 0,
            ;
            assert((ip128 as int) * (mult as int) >= 0x10000000000000000) by (nonlinear_arith)
                requires
                    ip128 == 0x10000000000000000,
                    mult >= 1,
            ;
            assert(val > u64::MAX);
            assert(val128 > u64::MAX);
        } else {
            assert(ip128 == ip);
            assert(val128 == val);
        }
    }
    if val128 > 0xFFFFFFFFFFFFFFFFu128 {
        u64::MAX
    } else {
        val128 as u64
    }
}

proof fn lemma_pow10_mono(a: int, b: int)
    requires
        a <= b,
    ensures
        pow10(a) <= pow10(b),
        pow10(a) >= 1,
    decreases b - a,
{
    lemma_pow10_self(a);
    if a < b {
        lemma_pow10_mono(a, b - 1);
        lemma_pow10_self(b - 1);
        if b > 0 {
            assert(pow10(b) == 10 * pow10(b - 1));
        }
    }
}

proof fn lemma_pow10_self(a: int)
    ensures
        pow10(a) >= 1,
    decreases a,
{
    if a > 0 {
        lemma_pow10_self(a - 1);
    }
}

/// Appending one character on the right adds its dot count.
proof fn lemma_count_dots_snoc(s: Seq<char>, i: int, m: int)
    requires
        0 <= i <= m < s.len(),
    ensures
        count_dots(s, i, m + 1) == count_dots(s, i, m) + (if s[m] == '.' {
            1int
        } else {
            0int
        }),
    decreases m - i,
{
    if i < m {
        lemma_count_dots_snoc(s, i + 1, m);
        assert(count_dots(s, i, m + 1) == (if s[i] == '.' {
            1int
        } else {
            0int
        }) + count_dots(s, i + 1, m + 1));
        assert(count_dots(s, i, m) == (if s[i] == '.' {
            1int
        } else {
            0int
        }) + count_dots(s, i + 1, m));
    } else {
        assert(count_dots(s, m + 1, m + 1) == 0);
        assert(count_dots(s, m, m) == 0);
        assert(count_dots(s, m, m + 1) == (if s[m] == '.' {
            1int
        } else {
            0int
        }) + count_dots(s, m + 1, m + 1));
    }
}

/// Extending the range on the right keeps the first dot if one was seen,
/// else moves to the new character.
proof fn lemma_first_dot_snoc(s: Seq<char>, i: int, m: int)
    requires
        0 <= i <= m < s.len(),
    ensures
        first_dot(s, i, m) < m ==> first_dot(s, i, m + 1) == first_dot(s, i, m),
        first_dot(s, i, m) == m && s[m] == '.' ==> first_dot(s, i, m + 1) == m,
        first_dot(s, i, m) == m && s[m] != '.' ==> first_dot(s, i, m + 1) == m + 1,
    decreases m - i,
{
    lemma_first_dot_props(s, i, m);
    if i < m && s[i] != '.' {
        lemma_first_dot_snoc(s, i + 1, m);
        assert(first_dot(s, i, m + 1) == first_dot(s, i + 1, m + 1));
        assert(first_dot(s, i, m) == first_dot(s, i + 1, m));
    } else if i == m {
        assert(first_dot(s, m + 1, m + 1) == m + 1);
        assert(first_dot(s, m, m + 1) == (if s[m] == '.' {
            m
        } else {
            first_dot(s, m + 1, m + 1)
        }));
        assert(first_dot(s, m, m) == m);
    }
}

/// In a range with at most one dot, characters after the first dot that
/// are digit-or-dot are digits.
proof fn lemma_count_dots_no_dot(s: Seq<char>, i: int, end: int, j: int)
    requires
        0 <= i <= end <= s.len(),
        count_dots(s, i, end) <= 1,
        first_dot(s, i, end) < j < end,
        is_digit(s[j]) || s[j] == '.',
    ensures
        is_digit(s[j]),
    decreases end - i,
{
    if s[j] == '.' {
        lemma_first_dot_props(s, i, end);
        let fd = first_dot(s, i, end);
        assert(s[fd] == '.');
        lemma_count_dots_two(s, i, end, fd, j);
    }
}

/// Two distinct dots make the dot count at least two.
proof fn lemma_count_dots_two(s: Seq<char>, i: int, end: int, j1: int, j2: int)
    requires
        0 <= i <= end <= s.len(),
        i <= j1 < j2 < end,
        s[j1] == '.',
        s[j2] == '.',
    ensures
        count_dots(s, i, end) >= 2,
    decreases end - i,
{
    if i < j1 {
        lemma_count_dots_two(s, i + 1, end, j1, j2);
    } else {
        lemma_count_dots_one(s, i + 1, end, j2);
    }
}

/// A dot in the range makes the dot count at least one.
proof fn lemma_count_dots_one(s: Seq<char>, i: int, end: int, j: int)
    requires
        0 <= i <= end <= s.len(),
        i <= j < end,
        s[j] == '.',
    ensures
        count_dots(s, i, end) >= 1,
    decreases end - i,
{
    if i < j {
        lemma_count_dots_one(s, i + 1, end, j);
    } else {
        lemma_count_dots_nonneg(s, i + 1, end);
    }
}

proof fn lemma_count_dots_nonneg(s: Seq<char>, i: int, end: int)
    ensures
        count_dots(s, i, end) >= 0,
    decreases end - i,
{
    if 0 <= i && i < end {
        lemma_count_dots_nonneg(s, i + 1, end);
    }
}

/// The character for decimal digit `d`.
pub open spec fn digit_char(d: int) -> char {
    if d == 0 {
        '0'
    } else if d == 1 {
        '1'
    } else if d == 2 {
        '2'
    } else if d == 3 {
        '3'
    } else if d == 4 {
        '4'
    } else if d == 5 {
        '5'
    } else if d == 6 {
        '6'
    } else if d == 7 {
        '7'
    } else if d == 8 {
        '8'
    } else {
        '9'
    }
}

/// The decimal rendering of a non-negative number.
pub open spec fn decimal_seq(m: int) -> Seq<char>
    decreases m,
{
    if m < 10 {
        seq![digit_char(m)]
    } else {
        decimal_seq(m / 10).push(digit_char(m % 10))
    }
}

/// The unit index a size falls in: the largest binary power of 1024 not
/// above it, capped at terabytes.
pub open spec fn size_unit_idx(n: int) -> int {
    if n < 1024 {
        0
    } else if n < 0x100000 {
        1
    } else if n < 0x40000000 {
        2
    } else if n < 0x10000000000 {
        3
    } else {
        4
    }
}

/// The unit suffix for unit index `u`.
pub open spec fn unit_suffix(u: int) -> Seq<char> {
    if u == 0 {
        seq!['B']
    } else if u == 1 {
        seq!['K', 'B']
    } else if u == 2 {
        seq!['M', 'B']
    } else if u == 3 {
        seq!['G', 'B']
    } else {
        seq!['T', 'B']
    }
}

/// What `format_size` renders: the size scaled to its unit with one
/// fractional digit, rounded half to even on the exact rational value,
/// followed by the unit suffix.
pub open spec fn format_size_spec(n: int) -> Seq<char> {
    let u = size_unit_idx(n);
    let den = pow1024(u);
    let q = (n * 10) / den;
    let r = (n * 10) % den;
    let tenths = q + (if 2 * r > den || (2 * r == den && q % 2 == 1) {
        1int
    } else {
        0int
    });
    decimal_seq(tenths / 10) + seq!['.', digit_char(tenths % 10)] + unit_suffix(u)
}

/// A one-character string for decimal digit `d`.
fn digit_str(d: u64) -> (r: &'static str)
    requires
        d < 10,
    ensures
        r@ == seq![digit_char(d as int)],
{
    proof {
        reveal_strlit("0");
        reveal_strlit("1");
        reveal_strlit("2");
        reveal_strlit("3");
        reveal_strlit("4");
        reveal_strlit("5");
        reveal_strlit("6");
        reveal_strlit("7");
        reveal_strlit("8");
        reveal_strlit("9");
    }
    let r = match d {
        0 => "0",
        1 => "1",
        2 => "2",
        3 => "3",
        4 => "4",
        5 => "5",
        6 => "6",
        7 => "7",
        8 => "8",
        _ => "9",
    };
    proof {
        assert(r@ =~= seq![digit_char(d as int)]);
    }
    r
}

/// Render `m` in decimal.
pub fn u64_to_decimal(m: u64) -> (r: String)
    ensures
        r@ == decimal_seq(m as int),
    decreases m,
{
    if m < 10 {
        String::from_str(digit_str(m))
    } else {
        let mut head = u64_to_decimal(m / 10);
        head.append(digit_str(m % 10));
        proof {
            assert(head@ =~= decimal_seq(m as int));
        }
        head
    }
}

/// Format a byte count for people: one fractional digit and the binary
/// unit, as in `1.5KB` or `0.0B`.
pub fn format_size(size: u64) -> (r: String)
    ensures
        r@ == format_size_spec(size as int),
{
    let u: usize;
    let den: u64;
    if size < 1024 {
        u = 0;
        den = 1;
    } else if size < 0x100000 {
        u = 1;
        den = 1024;
    } else if size < 0x40000000 {
        u = 2;
        den = 0x100000;
    } else if size < 0x10000000000 {
        u = 3;
        den = 0x40000000;
    } else {
        u = 4;
        den = 0x10000000000;
    }
    proof {
        reveal_with_fuel(pow1024, 6);
        assert(den == pow1024(u as int));
    }
    let num: u128 = (size as u128) * 10;
    let q128: u128 = num / (den as u128);
    let r128: u128 = num % (den as u128);
    proof {
        assert(q128 <= num);
        assert(r128 < den);
        if u >= 1 {
            assert((q128 as int) == (num as int) / (den as int));
            assert(num < 0x100000000000000000 * (den as u128)) by (nonlinear_arith)
                requires
                    num <= 0xFFFFFFFFFFFFFFFF * 10,
                    den >= 1024,
            ;
            assert(q128 < 0x100000000000000000) by (nonlinear_arith)
                requires
                    num < 0x100000000000000000 * (den as u128),
                    den >= 1,
                    q128 == (num as int) / (den as int),
            ;
        }
    }
    let q: u64 = if q128 > 0xFFFFFFFFFFFFFFFFu128 {
        proof {
            assert(false) by {
                if u == 0 {
                    assert(den == 1 && size < 1024);
                } else {
                    assert(den >= 1024);
                    assert(q128 * (den as u128) <= num) by (nonlinear_arith)
                        requires
                            q128 == (num as int) / (den as int),
                            den >= 1,
                            num >= 0,
                    ;
                    assert(q128 * (den as u128) >= q128 * 1024) by (nonlinear_arith)
                        requires
                            den >= 1024,
                            q128 >= 0,
                    ;
                }
            }
        }
        0
    } else {
        q128 as u64
    };
    let rr: u64 = r128 as u64;
    let bump: u64 = if 2 * (rr as u128) > den as u128 || (2 * (rr as u128) == den as u128 && q % 2
        == 1) {
        1
    } else {
        0
    };
    let tenths: u64 = q + bump;
    let mut out = u64_to_decimal(tenths / 10);
    let dot = ".";
    proof {
        reveal_strlit(".");
    }
    out.append(dot);
    out.append(digit_str(tenths % 10));
    let suffix: &'static str = match u {
        0 => "B",
        1 => "KB",
        2 => "MB",
        3 => "GB",
        _ => "TB",
    };
    proof {
        reveal_strlit("B");
        reveal_strlit("KB");
        reveal_strlit("MB");
        reveal_strlit("GB");
        reveal_strlit("TB");
        assert(suffix@ =~= unit_suffix(u as int));
    }
    out.append(suffix);
    proof {
        assert(out@ =~= format_size_spec(size as int));
    }
    out
}

} // verus!

use vstd::prelude::*;
use vstd::string::StrSliceExecFns;

verus! {

/// Character classes the tokenizer distinguishes.
#[derive(Debug, Clone, Copy, PartialEq, Eq, Structural)]
pub enum CharClass {
    /// Letters, digits, `_`, `-`, `!`: the characters of a name token.
    Word,
    /// `0`, `1`, `#`: the characters of a ternary pattern.
    Pattern,
    /// Decimal digits.
    Digit,
}

pub open spec fn spec_char_in_class(c: char, cls: CharClass) -> bool {
    match cls {
        CharClass::Word => {
            let u = c as u32;
            (97 <= u && u <= 122) || (65 <= u && u <= 90) || (48 <= u && u <= 57) || c == '_' || c
                == '-' || c == '!'
        },
        CharClass::Pattern => c == '0' || c == '1' || c == '#',
        CharClass::Digit => {
            let u = c as u32;
            48 <= u && u <= 57
        },
    }
}

pub fn char_in_class(c: char, cls: CharClass) -> (b: bool)
    ensures
        b == spec_char_in_class(c, cls),
{
    match cls {
        CharClass::Word => {
            let u = c as u32;
            (97 <= u && u <= 122) || (65 <= u && u <= 90) || (48 <= u && u <= 57) || c == '_' || c
                == '-' || c == '!'
        },
        CharClass::Pattern => c == '0' || c == '1' || c == '#',
        CharClass::Digit => {
            let u = c as u32;
            48 <= u && u <= 57
        },
    }
}

pub open spec fn spec_is_line_ws(c: char) -> bool {
    c == ' ' || c == '\t'
}

pub open spec fn spec_is_line_break(c: char) -> bool {
    c == '\n' || c == '\r'
}

/// Where the whitespace run that starts at `i` ends. Whitespace is
/// spaces and tabs, `//` comments (running to the end of their line),
/// and, when `nl` is set, line breaks. `in_comment` carries the scanner
/// through a comment body.
pub open spec fn spec_ws_end_at(s: Seq<char>, nl: bool, i: int, in_comment: bool) -> int
    decreases s.len() - i, (if in_comment {
        1int
    } else {
        0int
    }),
{
    if !(0 <= i < s.len()) {
        i
    } else if in_comment {
        if spec_is_line_break(s[i]) {
            spec_ws_end_at(s, nl, i, false)
        } else {
            spec_ws_end_at(s, nl, i + 1, true)
        }
    } else {
        if spec_is_line_ws(s[i]) || (nl && spec_is_line_break(s[i])) {
            spec_ws_end_at(s, nl, i + 1, false)
        } else if s[i] == '/' && i + 1 < s.len() && s[i + 1] == '/' {
            spec_ws_end_at(s, nl, i + 2, true)
        } else {
            i
        }
    }
}

pub open spec fn spec_ws_end(s: Seq<char>, nl: bool, i: int) -> int {
    spec_ws_end_at(s, nl, i, false)
}

pub proof fn lemma_ws_end_bounds(s: Seq<char>, nl: bool, i: int, in_comment: bool)
    requires
        0 <= i <= s.len(),
    ensures
        i <= spec_ws_end_at(s, nl, i, in_comment) <= s.len(),
    decreases s.len() - i, (if in_comment {
        1int
    } else {
        0int
    }),
{
    if 0 <= i < s.len() {
        if in_comment {
            if spec_is_line_break(s[i]) {
                lemma_ws_end_bounds(s, nl, i, false);
            } else {
                lemma_ws_end_bounds(s, nl, i + 1, true);
            }
        } else {
            if spec_is_line_ws(s[i]) || (nl && spec_is_line_break(s[i])) {
                lemma_ws_end_bounds(s, nl, i + 1, false);
            } else if s[i] == '/' && i + 1 < s.len() && s[i + 1] == '/' {
                lemma_ws_end_bounds(s, nl, i + 2, true);
            }
        }
    }
}

/// Skips the body of a comment that starts at `j0`: the position of the
/// next line break, or the end of the input.
fn comment_end(s: &str, n: usize, nl: bool, j0: usize) -> (j: usize)
    requires
        n == s@.len(),
        j0 <= n,
    ensures
        j0 <= j <= n,
        spec_ws_end_at(s@, nl, j0 as int, true) == spec_ws_end_at(s@, nl, j as int, false),
{
    let mut j: usize = j0;
    while j < n
        invariant
            j0 <= j <= n,
            n == s@.len(),
            spec_ws_end_at(s@, nl, j0 as int, true) == spec_ws_end_at(s@, nl, j as int, true),
        decreases n - j,
    {
        let c = s.get_char(j);
        if c == '\n' || c == '\r' {
            proof {
                assert(spec_ws_end_at(s@, nl, j as int, true) == spec_ws_end_at(
                    s@,
                    nl,
                    j as int,
                    false,
                ));
            }
            return j;
        }
        j = j + 1;
    }
    j
}

/// Skips whitespace and comments from `i`.
pub fn ws_end(s: &str, n: usize, nl: bool, i: usize) -> (j: usize)
    requires
        n == s@.len(),
        i <= n,
    ensures
        i <= j <= n,
        j == spec_ws_end(s@, nl, i as int),
{
    let mut j: usize = i;
    loop
        invariant
            i <= j <= n,
            n == s@.len(),
            spec_ws_end(s@, nl, i as int) == spec_ws_end_at(s@, nl, j as int, false),
        ensures
            i <= j <= n,
            j == spec_ws_end(s@, nl, i as int),
        decreases n - j,
    {
        if j >= n {
            break ;
        }
        let c = s.get_char(j);
        if c == ' ' || c == '\t' || (nl && (c == '\n' || c == '\r')) {
            j = j + 1;
        } else if c == '/' && j + 1 < n && s.get_char(j + 1) == '/' {
            j = comment_end(s, n, nl, j + 2);
        } else {
            proof {
                assert(spec_ws_end_at(s@, nl, j as int, false) == j as int);
            }
            break ;
        }
    }
    j
}

/// Where the run of `cls` characters that starts at `i` ends.
pub open spec fn spec_scan(s: Seq<char>, cls: CharClass, i: int) -> int
    decreases s.len() - i,
{
    if 0 <= i < s.len() && spec_char_in_class(s[i], cls) {
        spec_scan(s, cls, i + 1)
    } else {
        i
    }
}

pub proof fn lemma_scan_bounds(s: Seq<char>, cls: CharClass, i: int)
    requires
        0 <= i <= s.len(),
    ensures
        i <= spec_scan(s, cls, i) <= s.len(),
        forall|k: int| i <= k < spec_scan(s, cls, i) ==> spec_char_in_class(#[trigger] s[k], cls),
        spec_scan(s, cls, i) < s.len() ==> !spec_char_in_class(s[spec_scan(s, cls, i)], cls),
    decreases s.len() - i,
{
    if 0 <= i < s.len() && spec_char_in_class(s[i], cls) {
        lemma_scan_bounds(s, cls, i + 1);
    }
}

/// Scans the run of `cls` characters that starts at `i`.
pub fn scan(s: &str, n: usize, cls: CharClass, i: usize) -> (j: usize)
    requires
        n == s@.len(),
        i <= n,
    ensures
        i <= j <= n,
        j == spec_scan(s@, cls, i as int),
{
    let mut j: usize = i;
    while j < n
        invariant
            i <= j <= n,
            n == s@.len(),
            spec_scan(s@, cls, i as int) == spec_scan(s@, cls, j as int),
        decreases n - j,
    {
        let c = s.get_char(j);
        if !char_in_class(c, cls) {
            proof {
                assert(spec_scan(s@, cls, j as int) == j as int);
            }
            return j;
        }
        j = j + 1;
    }
    proof {
        assert(spec_scan(s@, cls, j as int) == j as int);
    }
    j
}

/// Copies out the characters `[i, e)` of `s`.
pub fn token(s: &str, i: usize, e: usize) -> (t: String)
    requires
        i <= e <= s@.len(),
    ensures
        t@ == s@.subrange(i as int, e as int),
{
    s.substring_char(i, e).to_owned()
}

/// The value of a decimal digit string, most significant digit first.
pub open spec fn spec_dec_val(digits: Seq<char>) -> int
    decreases digits.len(),
{
    if digits.len() == 0 {
        0
    } else {
        spec_dec_val(digits.drop_last()) * 10 + (digits.last() as u32 - 48)
    }
}

pub proof fn lemma_dec_val_nonneg(digits: Seq<char>)
    requires
        forall|k: int|
            0 <= k < digits.len() ==> spec_char_in_class(#[trigger] digits[k], CharClass::Digit),
    ensures
        spec_dec_val(digits) >= 0,
    decreases digits.len(),
{
    if digits.len() > 0 {
        lemma_dec_val_nonneg(digits.drop_last());
    }
}

pub proof fn lemma_dec_val_prefix(digits: Seq<char>, k: int)
    requires
        forall|m: int|
            0 <= m < digits.len() ==> spec_char_in_class(#[trigger] digits[m], CharClass::Digit),
        0 <= k <= digits.len(),
    ensures
        spec_dec_val(digits.take(k)) <= spec_dec_val(digits),
    decreases digits.len(),
{
    if k == digits.len() {
        assert(digits.take(k) =~= digits);
    } else if digits.len() > 0 {
        let d = digits.drop_last();
        assert(d.take(k) =~= digits.take(k));
        lemma_dec_val_prefix(d, k);
        lemma_dec_val_nonneg(d);
    }
}

/// Reads the decimal value of the digit run `[i, e)`, or `None` where it
/// exceeds `u32::MAX`.
pub fn parse_u32(s: &str, n: usize, i: usize, e: usize) -> (r: Option<u32>)
    requires
        n == s@.len(),
        i <= e <= n,
        forall|k: int| i <= k < e ==> spec_char_in_class(#[trigger] s@[k], CharClass::Digit),
    ensures
        r matches Some(v) ==> v as int == spec_dec_val(s@.subrange(i as int, e as int)),
        r is Some <==> spec_dec_val(s@.subrange(i as int, e as int)) <= u32::MAX,
{
    let ghost all = s@.subrange(i as int, e as int);
    let mut val: u64 = 0;
    let mut k: usize = i;
    while k < e
        invariant
            i <= k <= e <= n,
            n == s@.len(),
            forall|m: int| i <= m < e ==> spec_char_in_class(#[trigger] s@[m], CharClass::Digit),
            all == s@.subrange(i as int, e as int),
            val as int == spec_dec_val(all.take(k - i)),
            val <= u32::MAX as u64,
        decreases e - k,
    {
        let c = s.get_char(k);
        let d = (c as u32) - 48;
        let next: u64 = val * 10 + (d as u64);
        proof {
            let pre = all.take(k - i);
            let cur = all.take(k + 1 - i);
            assert(cur.drop_last() =~= pre);
            assert(cur.last() == s@[k as int]);
        }
        if next > u32::MAX as u64 {
            proof {
                lemma_dec_val_prefix(all, k + 1 - i);
            }
            return None;
        }
        val = next;
        k = k + 1;
    }
    proof {
        assert(all.take(e - i) =~= all);
    }
    Some(val as u32)
}

} // verus!

//! The line grammar of edge-list and adjacency-list files: a `#` starts a
//! comment, a line blank after that is skipped, the rest is trimmed and split
//! at the separator into trimmed fields, and node labels are decimal `i32`s.

use vstd::prelude::*;

verus! {

/// Unicode white space, as `str::trim` removes it.
pub open spec fn is_white(c: char) -> bool {
    ||| c == ' '
    ||| ('\u{9}' <= c && c <= '\u{d}')
    ||| c == '\u{85}'
    ||| c == '\u{a0}'
    ||| c == '\u{1680}'
    ||| ('\u{2000}' <= c && c <= '\u{200a}')
    ||| c == '\u{2028}'
    ||| c == '\u{2029}'
    ||| c == '\u{202f}'
    ||| c == '\u{205f}'
    ||| c == '\u{3000}'
}

fn white(c: char) -> (b: bool)
    ensures
        b == is_white(c),
{
    c == ' ' || ('\u{9}' <= c && c <= '\u{d}') || c == '\u{85}' || c == '\u{a0}' || c == '\u{1680}' || ('\u{2000}' <= c
        && c <= '\u{200a}') || c == '\u{2028}' || c == '\u{2029}' || c == '\u{202f}' || c == '\u{205f}' || c
        == '\u{3000}'
}

/// The position of the first `#` at or after `i`, or the length.
pub open spec fn hash_from(s: Seq<char>, i: int) -> int
    decreases s.len() - i,
{
    if i < 0 || i >= s.len() {
        s.len() as int
    } else if s[i] == '#' {
        i
    } else {
        hash_from(s, i + 1)
    }
}

/// The line without its comment.
pub open spec fn uncommented(s: Seq<char>) -> Seq<char> {
    s.take(hash_from(s, 0))
}

/// The first position at or after `i` that holds no white space, or the length.
pub open spec fn skip_white(s: Seq<char>, i: int) -> int
    decreases s.len() - i,
{
    if i < 0 || i >= s.len() {
        s.len() as int
    } else if is_white(s[i]) {
        skip_white(s, i + 1)
    } else {
        i
    }
}

/// The end of `s` up to `j` once white space is dropped back to `lo`.
pub open spec fn back_white(s: Seq<char>, lo: int, j: int) -> int
    decreases j - lo,
{
    if j <= lo {
        lo
    } else if is_white(s[j - 1]) {
        back_white(s, lo, j - 1)
    } else {
        j
    }
}

/// `s` without leading and trailing white space.
pub open spec fn trim(s: Seq<char>) -> Seq<char> {
    let a = skip_white(s, 0);
    s.subrange(a, back_white(s, a, s.len() as int))
}

/// The pieces of `t` between separators, the current one begun at `start`,
/// scanning from `i`.
pub open spec fn split_from(t: Seq<char>, sep: char, start: int, i: int) -> Seq<Seq<char>>
    decreases t.len() - i,
{
    if i < 0 || i >= t.len() {
        seq![t.subrange(start, t.len() as int)]
    } else if t[i] == sep {
        seq![t.subrange(start, i)] + split_from(t, sep, i + 1, i + 1)
    } else {
        split_from(t, sep, start, i + 1)
    }
}

/// The pieces of `t` between separators; a text without separator is one piece.
pub open spec fn split(t: Seq<char>, sep: char) -> Seq<Seq<char>> {
    split_from(t, sep, 0, 0)
}

/// The line holds nothing but white space before its comment.
pub open spec fn blank(line: Seq<char>) -> bool {
    trim(uncommented(line)).len() == 0
}

/// The trimmed fields of a line.
pub open spec fn fields(line: Seq<char>, sep: char) -> Seq<Seq<char>> {
    split(trim(uncommented(line)), sep).map_values(|p: Seq<char>| trim(p))
}

/// The characters of `line`.
pub fn line_chars(line: &str) -> (v: Vec<char>)
    ensures
        v@ == line@,
{
    let mut v: Vec<char> = Vec::new();
    proof {
        vstd::string::axiom_spec_iter(line);
    }
    for c in it: line.chars()
        invariant
            it.seq() == line@,
            v@ == line@.take(it.index() as int),
    {
        v.push(c);
    }
    v
}

/// `s[lo..hi]` as a vector.
fn slice_of(s: &Vec<char>, lo: usize, hi: usize) -> (r: Vec<char>)
    requires
        lo <= hi <= s@.len(),
    ensures
        r@ == s@.subrange(lo as int, hi as int),
{
    let mut r: Vec<char> = Vec::new();
    let mut k = lo;
    while k < hi
        invariant
            lo <= k <= hi,
            hi <= s@.len(),
            r@ == s@.subrange(lo as int, k as int),
        decreases hi - k,
    {
        r.push(s[k]);
        k = k + 1;
    }
    r
}

/// `s` without leading and trailing white space.
pub fn trimmed(s: &Vec<char>) -> (r: Vec<char>)
    ensures
        r@ == trim(s@),
{
    let mut a: usize = 0;
    while a < s.len() && white(s[a])
        invariant
            a <= s@.len(),
            skip_white(s@, a as int) == skip_white(s@, 0),
        decreases s@.len() - a,
    {
        a = a + 1;
    }
    let mut b: usize = s.len();
    while b > a && white(s[b - 1])
        invariant
            a <= b <= s@.len(),
            back_white(s@, a as int, b as int) == back_white(s@, a as int, s@.len() as int),
        decreases b,
    {
        b = b - 1;
    }
    slice_of(s, a, b)
}

/// The trimmed fields of `line` split at `sep`, after its comment is dropped;
/// `None` for a line that is blank after its comment is dropped.
pub fn record_fields(line: &Vec<char>, sep: char) -> (r: Option<Vec<Vec<char>>>)
    ensures
        r is None <==> blank(line@),
        r is Some ==> r.unwrap()@.map_values(|f: Vec<char>| f@) == fields(line@, sep),
{
    let mut h: usize = 0;
    while h < line.len() && line[h] != '#'
        invariant
            h <= line@.len(),
            hash_from(line@, h as int) == hash_from(line@, 0),
        decreases line@.len() - h,
    {
        h = h + 1;
    }
    let body = slice_of(line, 0, h);
    assert(body@ == uncommented(line@));
    let t = trimmed(&body);
    if t.len() == 0 {
        return None;
    }
    assert(t@ == trim(uncommented(line@)));
    let mut out: Vec<Vec<char>> = Vec::new();
    let mut start: usize = 0;
    let mut i: usize = 0;
    while i < t.len()
        invariant
            start <= i <= t@.len(),
            out@.map_values(|f: Vec<char>| f@) + split_from(t@, sep, start as int, i as int).map_values(
                |p: Seq<char>| trim(p),
            ) == fields(line@, sep),
        decreases t@.len() - i,
    {
        if t[i] == sep {
            let piece = slice_of(&t, start, i);
            let f = trimmed(&piece);
            let ghost before = out@;
            out.push(f);
            proof {
                let rest = split_from(t@, sep, (i + 1) as int, (i + 1) as int);
                assert(split_from(t@, sep, start as int, i as int) == seq![t@.subrange(start as int, i as int)]
                    + rest);
                assert(out@.map_values(|g: Vec<char>| g@) =~= before.map_values(|g: Vec<char>| g@).push(
                    trim(t@.subrange(start as int, i as int)),
                ));
                assert((seq![t@.subrange(start as int, i as int)] + rest).map_values(|p: Seq<char>| trim(p))
                    =~= seq![trim(t@.subrange(start as int, i as int))] + rest.map_values(|p: Seq<char>| trim(p)));
                assert(out@.map_values(|g: Vec<char>| g@) + rest.map_values(|p: Seq<char>| trim(p))
                    =~= before.map_values(|g: Vec<char>| g@) + (seq![t@.subrange(start as int, i as int)]
                    + rest).map_values(|p: Seq<char>| trim(p)));
            }
            start = i + 1;
        }
        i = i + 1;
    }
    let piece = slice_of(&t, start, i);
    let f = trimmed(&piece);
    let ghost before = out@;
    out.push(f);
    proof {
        assert(split_from(t@, sep, start as int, i as int) == seq![t@.subrange(start as int, t@.len() as int)]);
        assert(seq![t@.subrange(start as int, t@.len() as int)].map_values(|p: Seq<char>| trim(p))
            =~= seq![trim(t@.subrange(start as int, t@.len() as int))]);
        assert(out@.map_values(|g: Vec<char>| g@) =~= before.map_values(|g: Vec<char>| g@).push(
            trim(t@.subrange(start as int, t@.len() as int)),
        ));
    }
    Some(out)
}

/// Why a text is no decimal `i32`.
#[derive(Debug, Clone, Copy, PartialEq, Eq, Structural)]
pub enum IntError {
    /// The text is empty.
    Empty,
    /// A character is not a digit, or a sign stands alone.
    InvalidDigit,
    /// The value is above `i32::MAX`.
    PosOverflow,
    /// The value is below `i32::MIN`.
    NegOverflow,
}

impl IntError {
    /// The message that describes the error.
    pub fn message(&self) -> (s: String)
        ensures
            s@ == match *self {
                IntError::Empty => "cannot parse integer from empty string"@,
                IntError::InvalidDigit => "invalid digit found in string"@,
                IntError::PosOverflow => "number too large to fit in target type"@,
                IntError::NegOverflow => "number too small to fit in target type"@,
            },
    {
        match self {
            IntError::Empty => String::from_str("cannot parse integer from empty string"),
            IntError::InvalidDigit => String::from_str("invalid digit found in string"),
            IntError::PosOverflow => String::from_str("number too large to fit in target type"),
            IntError::NegOverflow => String::from_str("number too small to fit in target type"),
        }
    }
}

/// An ASCII decimal digit.
pub open spec fn is_digit(c: char) -> bool {
    '0' <= c && c <= '9'
}

/// The digits of `d` from `k` on, read onto `acc` (subtracted when `neg`),
/// stopping at the first character that is no digit or the first step that
/// leaves the `i32` range.
pub open spec fn read_digits(d: Seq<char>, neg: bool, k: int, acc: int) -> Result<int, IntError>
    decreases d.len() - k,
{
    if k < 0 || k >= d.len() {
        Ok(acc)
    } else if !is_digit(d[k]) {
        Err(IntError::InvalidDigit)
    } else {
        let v = if neg { acc * 10 - (d[k] as int - '0' as int) } else { acc * 10 + (d[k] as int - '0' as int) };
        if v > i32::MAX {
            Err(IntError::PosOverflow)
        } else if v < i32::MIN {
            Err(IntError::NegOverflow)
        } else {
            read_digits(d, neg, k + 1, v)
        }
    }
}

/// A decimal `i32`: an optional `+` or `-`, then one or more digits.
pub open spec fn parse_i32_spec(s: Seq<char>) -> Result<int, IntError> {
    if s.len() == 0 {
        Err(IntError::Empty)
    } else if s.len() == 1 && (s[0] == '+' || s[0] == '-') {
        Err(IntError::InvalidDigit)
    } else if s[0] == '+' {
        read_digits(s, false, 1, 0)
    } else if s[0] == '-' {
        read_digits(s, true, 1, 0)
    } else {
        read_digits(s, false, 0, 0)
    }
}

/// Reads `s` as a decimal `i32` label.
pub fn parse_label(s: &Vec<char>) -> (r: Result<i32, IntError>)
    ensures
        match parse_i32_spec(s@) {
            Ok(v) => r == Ok::<i32, IntError>(v as i32),
            Err(e) => r == Err::<i32, IntError>(e),
        },
        parse_i32_spec(s@) is Ok ==> i32::MIN <= parse_i32_spec(s@)->Ok_0 <= i32::MAX,
{
    if s.len() == 0 {
        return Err(IntError::Empty);
    }
    if s.len() == 1 && (s[0] == '+' || s[0] == '-') {
        return Err(IntError::InvalidDigit);
    }
    let neg = s[0] == '-';
    let mut k: usize = if s[0] == '+' || s[0] == '-' { 1 } else { 0 };
    let ghost k0 = k as int;
    let mut acc: i32 = 0;
    while k < s.len()
        invariant
            k <= s@.len(),
            s@.len() > 0,
            neg == (s@[0] == '-'),
            k0 == (if s@[0] == '+' || s@[0] == '-' { 1int } else { 0int }),
            parse_i32_spec(s@) == read_digits(s@, neg, k as int, acc as int),
        decreases s@.len() - k,
    {
        let c = s[k];
        if !('0' <= c && c <= '9') {
            return Err(IntError::InvalidDigit);
        }
        let d = (c as u32 - '0' as u32) as i32;
        assert(d == c as int - '0' as int);
        let wide = if neg { acc as i64 * 10 - d as i64 } else { acc as i64 * 10 + d as i64 };
        if wide > i32::MAX as i64 {
            return Err(IntError::PosOverflow);
        }
        if wide < i32::MIN as i64 {
            return Err(IntError::NegOverflow);
        }
        acc = wide as i32;
        k = k + 1;
    }
    Ok(acc)
}

} // verus!

use vstd::prelude::*;
use vstd::string::*;

use crate::error::ParseError;

verus! {

/// A file path and a line in it, taken from a `path:line` argument.
#[derive(Debug, PartialEq, Eq)]
pub struct FileLineArgument {
    pub filepath: String,
    pub line_number: u64,
}

impl FileLineArgument {
    /// A non-empty path and a line number of at least 1.
    pub open spec fn wf(&self) -> bool {
        self.filepath@.len() > 0 && self.line_number >= 1
    }
}

pub open spec fn is_digit(c: char) -> bool {
    '0' <= c && c <= '9'
}

pub open spec fn all_digits(s: Seq<char>) -> bool {
    forall|i: int| 0 <= i < s.len() ==> is_digit(#[trigger] s[i])
}

/// The number that the decimal digits `s` write.
pub open spec fn digits_value(s: Seq<char>) -> int
    decreases s.len(),
{
    if s.len() == 0 {
        0
    } else {
        digits_value(s.drop_last()) * 10 + (s.last() as int - '0' as int)
    }
}

/// `s` writes a line number: one or more decimal digits whose value is
/// positive and fits in a `u64`.
pub open spec fn is_line_number(s: Seq<char>) -> bool {
    s.len() > 0 && all_digits(s) && 1 <= digits_value(s) <= u64::MAX
}

pub open spec fn digit_char(d: nat) -> char {
    seq!['0', '1', '2', '3', '4', '5', '6', '7', '8', '9'][d as int]
}

/// `n` written in decimal, without leading zeros.
pub open spec fn decimal(n: nat) -> Seq<char>
    decreases n,
{
    if n < 10 {
        seq![digit_char(n)]
    } else {
        decimal(n / 10) + seq![digit_char(n % 10)]
    }
}

/// The position of the last `c` in `s`, or -1.
pub open spec fn last_index(s: Seq<char>, c: char) -> int
    decreases s.len(),
{
    if s.len() == 0 {
        -1
    } else if s.last() == c {
        s.len() - 1
    } else {
        last_index(s.drop_last(), c)
    }
}

proof fn lemma_last_index_bounds(s: Seq<char>, c: char)
    ensures
        -1 <= last_index(s, c) < s.len(),
        last_index(s, c) >= 0 ==> s[last_index(s, c)] == c,
    decreases s.len(),
{
    if s.len() > 0 && s.last() != c {
        lemma_last_index_bounds(s.drop_last(), c);
    }
}

proof fn lemma_digits_prefix_le(s: Seq<char>, i: int)
    requires
        0 <= i <= s.len(),
        all_digits(s),
    ensures
        0 <= digits_value(s.subrange(0, i)) <= digits_value(s),
    decreases s.len(),
{
    if s.len() > 0 {
        assert(all_digits(s.drop_last()));
        assert(is_digit(s[s.len() - 1]));
        if i == s.len() {
            assert(s.subrange(0, i) =~= s);
            lemma_digits_prefix_le(s.drop_last(), 0);
        } else {
            assert(s.drop_last().subrange(0, i) =~= s.subrange(0, i));
            lemma_digits_prefix_le(s.drop_last(), i);
        }
    } else {
        assert(s.subrange(0, i) =~= s);
    }
}

/// The position of the last `c` in `s`, if any.
fn rfind_char(s: &str, c: char) -> (r: Option<usize>)
    ensures
        s@.len() <= usize::MAX,
        match r {
            Some(k) => k as int == last_index(s@, c),
            None => last_index(s@, c) == -1,
        },
{
    let n = s.unicode_len();
    let mut i = n;
    assert(s@.subrange(0, i as int) =~= s@);
    while i > 0
        invariant
            i <= n == s@.len(),
            last_index(s@.subrange(0, i as int), c) == last_index(s@, c),
        decreases i,
    {
        assert(s@.subrange(0, i as int).last() == s@[i - 1]);
        if s.get_char(i - 1) == c {
            return Some(i - 1);
        }
        assert(s@.subrange(0, i as int).drop_last() =~= s@.subrange(0, i - 1));
        i = i - 1;
    }
    None
}

/// The line number that the characters of `s` from `from` to the end write.
fn parse_line_number(s: &str, from: usize) -> (r: Option<u64>)
    requires
        from <= s@.len(),
    ensures
        match r {
            Some(v) => is_line_number(s@.subrange(from as int, s@.len() as int)) && v
                == digits_value(s@.subrange(from as int, s@.len() as int)),
            None => !is_line_number(s@.subrange(from as int, s@.len() as int)),
        },
{
    let ghost x = s@.subrange(from as int, s@.len() as int);
    let n = s.unicode_len();
    if from == n {
        return None;
    }
    let mut v: u64 = 0;
    let mut i = from;
    assert(x.subrange(0, 0) =~= Seq::<char>::empty());
    while i < n
        invariant
            from <= i <= n == s@.len(),
            x == s@.subrange(from as int, s@.len() as int),
            all_digits(x.subrange(0, i - from)),
            v == digits_value(x.subrange(0, i - from)),
        decreases n - i,
    {
        let c = s.get_char(i);
        assert(x[i - from] == c);
        if c < '0' || c > '9' {
            assert(!is_digit(x[i - from]));
            return None;
        }
        let d = (c as u32 - '0' as u32) as u64;
        let ghost next = x.subrange(0, i - from + 1);
        assert(next.drop_last() =~= x.subrange(0, i - from));
        assert(next.last() == c);
        assert(all_digits(next));
        if v > (u64::MAX - d) / 10 {
            proof {
                if all_digits(x) {
                    lemma_digits_prefix_le(x, i - from + 1);
                }
            }
            return None;
        }
        v = v * 10 + d;
        i = i + 1;
    }
    assert(x.subrange(0, x.len() as int) =~= x);
    if v == 0 {
        return None;
    }
    Some(v)
}

/// Splits a `path:line` argument at the last `separator`. Refuses an
/// argument without `separator`, then one whose end is no line number, then
/// one whose path is empty.
pub fn parse_path_and_line(arg: &str, separator: char) -> (res: Result<
    FileLineArgument,
    ParseError,
>)
    ensures
        ({
            let k = last_index(arg@, separator);
            let path = arg@.subrange(0, k);
            let num = arg@.subrange(k + 1, arg@.len() as int);
            match res {
                Ok(f) => {
                    &&& 0 < k
                    &&& is_line_number(num)
                    &&& f.filepath@ == path
                    &&& f.line_number == digits_value(num)
                    &&& f.wf()
                },
                Err(e) => if k < 0 {
                    e == ParseError::MissingSeparator
                } else if !is_line_number(num) {
                    e == ParseError::InvalidLineNumber
                } else {
                    k == 0 && e == ParseError::EmptyPath
                },
            }
        }),
{
    proof {
        lemma_last_index_bounds(arg@, separator);
    }
    let k = match rfind_char(arg, separator) {
        Some(k) => k,
        None => return Err(ParseError::MissingSeparator),
    };
    let line_number = match parse_line_number(arg, k + 1) {
        Some(v) => v,
        None => return Err(ParseError::InvalidLineNumber),
    };
    if k == 0 {
        return Err(ParseError::EmptyPath);
    }
    let filepath = String::from_str(arg.substring_char(0, k));
    Ok(FileLineArgument { filepath, line_number })
}

/// The one-character string for the digit `d`.
fn digit_str(d: u64) -> (r: &'static str)
    requires
        d < 10,
    ensures
        r@ == seq![digit_char(d as nat)],
{
    let r = if d == 0 {
        "0"
    } else if d == 1 {
        "1"
    } else if d == 2 {
        "2"
    } else if d == 3 {
        "3"
    } else if d == 4 {
        "4"
    } else if d == 5 {
        "5"
    } else if d == 6 {
        "6"
    } else if d == 7 {
        "7"
    } else if d == 8 {
        "8"
    } else {
        "9"
    };
    proof {
        reveal_strlit("0");
        reveal_strlit("1");
        reveal_strlit("2");
        reveal_strlit("3");
        reveal_strlit("4");
        reveal_strlit("5");
        reveal_strlit("6");
        reveal_strlit("7");
        reveal_strlit("8");
        reveal_strlit("9");
    }
    assert(r@ =~= seq![digit_char(d as nat)]);
    r
}

/// `n` written in decimal.
pub fn to_decimal(n: u64) -> (r: String)
    ensures
        r@ == decimal(n as nat),
    decreases n,
{
    if n < 10 {
        String::from_str(digit_str(n))
    } else {
        let mut r = to_decimal(n / 10);
        r.append(digit_str(n % 10));
        r
    }
}

/// The page of commit `sha` in the repository at `base`: `base/commit/sha`.
pub fn commit_link(base: &str, sha: &str) -> (r: String)
    ensures
        r@ == base@ + "/commit/"@ + sha@,
{
    let mut r = String::from_str(base);
    r.append("/commit/");
    r.append(sha);
    r
}

/// The view of line `line` of `filepath` on `branch` in the repository at
/// `base`: `base/blob/branch/filepath#Lline`. Refuses an empty path.
pub fn line_link(base: &str, branch: &str, filepath: &str, line: u64) -> (res: Result<
    String,
    ParseError,
>)
    requires
        line >= 1,
    ensures
        match res {
            Ok(r) => filepath@.len() > 0 && r@ == base@ + "/blob/"@ + branch@ + "/"@ + filepath@
                + "#L"@ + decimal(line as nat),
            Err(e) => filepath@.len() == 0 && e == ParseError::EmptyPath,
        },
{
    if filepath.unicode_len() == 0 {
        return Err(ParseError::EmptyPath);
    }
    let mut r = String::from_str(base);
    r.append("/blob/");
    r.append(branch);
    r.append("/");
    r.append(filepath);
    r.append("#L");
    let number = to_decimal(line);
    r.append(number.as_str());
    Ok(r)
}

} // verus!

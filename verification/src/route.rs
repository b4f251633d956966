//! Routes: patterns that the path of a request is held against.

use vstd::prelude::*;
use crate::error::RepoError;
use crate::text::{chars_of, slice_string};

verus! {

/// Why a request is not answered.
#[derive(Debug)]
pub enum Error {
    /// What was asked for is not there; the text says what.
    NotFound(&'static str),
    InvalidRequest,
    InternalServer,
}

/// A fallible result that a server turns into an answer.
pub trait CouldFind {
    type Success;

    /// The result for a server: what was not found is named `name`, and
    /// any other failure is the server's.
    fn could_find(self, name: &'static str) -> Result<Self::Success, Error>;
}

impl<T> CouldFind for Result<T, RepoError> {
    type Success = T;

    fn could_find(self, name: &'static str) -> (r: Result<T, Error>)
        ensures
            match self {
                Ok(v) => r == Ok::<T, Error>(v),
                Err(RepoError::NotFound) => r == Err::<T, Error>(Error::NotFound(name)),
                Err(_) => r == Err::<T, Error>(Error::InternalServer),
            },
    {
        match self {
            Ok(v) => Ok(v),
            Err(RepoError::NotFound) => Err(Error::NotFound(name)),
            Err(_) => Err(Error::InternalServer),
        }
    }
}

/// One segment of a pattern.
#[derive(Debug)]
pub enum Segment {
    /// The segment is this text.
    Literal(String),
    /// The segment is taken as a text, whatever it is.
    Capture,
    /// The segment is taken as a whole number between `min` and `max`,
    /// written in decimal digits, with a sign before them or, if the number
    /// is not `signed`, at most a `+`.
    Number { signed: bool, min: i64, max: i64 },
}

/// What a segment of a path was taken as.
#[derive(Debug, PartialEq, Eq)]
pub enum Captured {
    Text(String),
    Number(i64),
}

pub ghost enum CapturedView {
    Text(Seq<char>),
    Number(int),
}

impl Captured {
    pub open spec fn view(&self) -> CapturedView {
        match self {
            Captured::Text(t) => CapturedView::Text(t@),
            Captured::Number(n) => CapturedView::Number(*n as int),
        }
    }
}

/// The views of the captures of `v`, in order.
pub open spec fn captured_views(v: Seq<Captured>) -> Seq<CapturedView> {
    Seq::new(v.len(), |i: int| v[i]@)
}

pub open spec fn is_digit(c: char) -> bool {
    '0' <= c <= '9'
}

pub open spec fn all_digits(s: Seq<char>) -> bool {
    forall|i: int| 0 <= i < s.len() ==> is_digit(#[trigger] s[i])
}

/// The number that the decimal digits `s` stand for.
pub open spec fn digits_value(s: Seq<char>) -> int
    decreases s.len(),
{
    if s.len() == 0 {
        0
    } else {
        digits_value(s.drop_last()) * 10 + (s.last() as int - '0' as int)
    }
}

/// The whole number that `s` is the decimal text of: digits, with a sign
/// before them or, if `signed` is false, at most a `+`.
pub open spec fn integer_of(s: Seq<char>, signed: bool) -> Option<int> {
    if s.len() > 0 && (s[0] == '+' || s[0] == '-') {
        let digits = s.drop_first();
        if digits.len() > 0 && all_digits(digits) && (s[0] == '+' || signed) {
            if s[0] == '-' {
                Some(-digits_value(digits))
            } else {
                Some(digits_value(digits))
            }
        } else {
            None
        }
    } else if s.len() > 0 && all_digits(s) {
        Some(digits_value(s))
    } else {
        None
    }
}

/// What the text `text` is taken as by the capturing segment `segment`.
pub open spec fn captured(segment: Segment, text: Seq<char>) -> Option<CapturedView> {
    match segment {
        Segment::Literal(_) => None,
        Segment::Capture => Some(CapturedView::Text(text)),
        Segment::Number { signed, min, max } => match integer_of(text, signed) {
            Some(n) => if min <= n <= max {
                Some(CapturedView::Number(n))
            } else {
                None
            },
            None => None,
        },
    }
}

/// What the path `url` gives when held against `pattern`: the captures in
/// order where it fits, nothing where it does not. The empty pattern fits
/// the path `/` alone. Each segment of a pattern fits a `/` and what
/// follows it: a literal its own text, a capture that is not the last
/// segment the text up to the next `/`, and a capture that is the last
/// segment all that is left.
pub open spec fn matched(pattern: Seq<Segment>, url: Seq<char>) -> Option<Seq<CapturedView>>
    decreases pattern.len(),
{
    if pattern.len() == 0 {
        if url == seq!['/'] {
            Some(Seq::empty())
        } else {
            None
        }
    } else if url.len() == 0 || url[0] != '/' {
        None
    } else {
        let rest = url.drop_first();
        let last = pattern.len() == 1;
        match pattern[0] {
            Segment::Literal(l) => if last {
                if rest == l@ {
                    Some(Seq::empty())
                } else {
                    None
                }
            } else if l@.is_prefix_of(rest) {
                matched(pattern.drop_first(), rest.skip(l@.len() as int))
            } else {
                None
            },
            _ => if last {
                match captured(pattern[0], rest) {
                    Some(c) => Some(seq![c]),
                    None => None,
                }
            } else if rest.contains('/') {
                let at = rest.index_of_first('/').unwrap();
                match captured(pattern[0], rest.take(at)) {
                    Some(c) => match matched(pattern.drop_first(), rest.skip(at)) {
                        Some(more) => Some(seq![c] + more),
                        None => None,
                    },
                    None => None,
                }
            } else {
                None
            },
        }
    }
}

/// Decimal digits stand for no negative number.
pub proof fn lemma_digits_nonnegative(s: Seq<char>)
    requires
        all_digits(s),
    ensures
        0 <= digits_value(s),
    decreases s.len(),
{
    if s.len() > 0 {
        assert(is_digit(s.last()));
        assert(all_digits(s.drop_last())) by {
            assert forall|i: int| 0 <= i < s.drop_last().len() implies is_digit(
                #[trigger] s.drop_last()[i],
            ) by {
                assert(is_digit(s[i]));
            }
        }
        lemma_digits_nonnegative(s.drop_last());
    }
}

/// The number that the characters of `s` from `from` on stand for as
/// decimal digits, where they are digits and the number is at most `limit`.
fn read_digits(s: &Vec<char>, from: usize, limit: u64) -> (r: Option<u64>)
    requires
        from <= s.len(),
        limit <= 0x8000_0000_0000_0000,
    ensures
        match r {
            Some(n) => from < s.len() && all_digits(s@.skip(from as int)) && n == digits_value(
                s@.skip(from as int),
            ) && n <= limit,
            None => !(from < s.len() && all_digits(s@.skip(from as int)) && digits_value(
                s@.skip(from as int),
            ) <= limit),
        },
{
    if from >= s.len() {
        return None;
    }
    let ghost digits = s@.skip(from as int);
    let mut n: u64 = 0;
    let mut i: usize = from;
    let mut over = false;
    assert(digits.take(0) =~= Seq::<char>::empty());
    while i < s.len()
        invariant
            from <= i <= s.len(),
            digits == s@.skip(from as int),
            all_digits(digits.take(i - from)),
            limit <= 0x8000_0000_0000_0000,
            !over ==> n == digits_value(digits.take(i - from)) && n <= limit,
            over ==> digits_value(digits.take(i - from)) > limit,
        decreases s.len() - i,
    {
        let c = s[i];
        proof {
            assert(digits[i - from] == c);
            assert(digits.take(i - from + 1).drop_last() =~= digits.take(i - from));
            assert(digits.take(i - from + 1).last() == c);
        }
        if !(c >= '0' && c <= '9') {
            proof {
                if all_digits(digits) {
                    assert(is_digit(digits[i - from]));
                }
            }
            return None;
        }
        proof {
            assert forall|k: int| 0 <= k < i - from + 1 implies is_digit(
                #[trigger] digits.take(i - from + 1)[k],
            ) by {
                if k < i - from {
                    assert(is_digit(digits.take(i - from)[k]));
                }
            }
            lemma_digits_nonnegative(digits.take(i - from));
        }
        let d = (c as u32 - '0' as u32) as u64;
        if over || d > limit || n > (limit - d) / 10 {
            proof {
                assert(digits_value(digits.take(i - from + 1)) > limit) by (nonlinear_arith)
                    requires
                        digits_value(digits.take(i - from + 1)) == digits_value(
                            digits.take(i - from),
                        ) * 10 + d,
                        0 <= d <= 9,
                        limit >= 0,
                        0 <= digits_value(digits.take(i - from)),
                        over ==> digits_value(digits.take(i - from)) > limit,
                        !over ==> n == digits_value(digits.take(i - from)) && (d > limit || n > (
                        limit - d) / 10),
                {
                }
            }
            over = true;
        } else {
            assert(n * 10 + d <= limit) by (nonlinear_arith)
                requires
                    n <= (limit - d) / 10,
                    0 <= d <= limit,
            {
            }
            n = n * 10 + d;
        }
        i += 1;
    }
    assert(digits.take(s.len() - from) =~= digits);
    if over {
        None
    } else {
        Some(n)
    }
}

/// The whole number between `min` and `max` that `part` is the decimal
/// text of, if it is the text of one.
pub fn read_integer(part: &Vec<char>, signed: bool, min: i64, max: i64) -> (r: Option<i64>)
    ensures
        match r {
            Some(n) => integer_of(part@, signed) == Some(n as int) && min <= n <= max,
            None => integer_of(part@, signed) is None || !(min <= integer_of(part@, signed)->0
                <= max),
        },
{
    let negative = part.len() > 0 && part[0] == '-';
    let has_sign = part.len() > 0 && (part[0] == '+' || part[0] == '-');
    if negative && !signed {
        return None;
    }
    let start: usize = if has_sign {
        1
    } else {
        0
    };
    proof {
        if has_sign {
            assert(part@.skip(1) =~= part@.drop_first());
        } else {
            assert(part@.skip(0) =~= part@);
        }
    }
    let limit: u64 = if negative {
        0x8000_0000_0000_0000
    } else {
        0x7fff_ffff_ffff_ffff
    };
    match read_digits(part, start, limit) {
        None => None,
        Some(n) => {
            let value: i64 = if negative {
                if n == 0x8000_0000_0000_0000 {
                    i64::MIN
                } else {
                    -(n as i64)
                }
            } else {
                n as i64
            };
            if min <= value && value <= max {
                Some(value)
            } else {
                None
            }
        },
    }
}

/// What the characters of `s` from `from` up to `to` are taken as by the
/// capturing segment `segment`.
fn capture(segment: &Segment, s: &Vec<char>, from: usize, to: usize) -> (r: Option<Captured>)
    requires
        from <= to <= s.len(),
    ensures
        match r {
            Some(c) => captured(*segment, s@.subrange(from as int, to as int)) == Some(c@),
            None => captured(*segment, s@.subrange(from as int, to as int)) is None,
        },
{
    let ghost text = s@.subrange(from as int, to as int);
    match segment {
        Segment::Literal(_) => None,
        Segment::Capture => Some(Captured::Text(slice_string(s, from, to))),
        Segment::Number { signed, min, max } => {
            let mut part: Vec<char> = Vec::new();
            let mut i: usize = from;
            while i < to
                invariant
                    from <= i <= to,
                    to <= s.len(),
                    part@ == s@.subrange(from as int, i as int),
                decreases to - i,
            {
                part.push(s[i]);
                assert(s@.subrange(from as int, i + 1) =~= s@.subrange(from as int, i as int).push(
                    s@[i as int],
                ));
                i += 1;
            }
            assert(part@ == text);
            match read_integer(&part, *signed, *min, *max) {
                Some(n) => Some(Captured::Number(n)),
                None => None,
            }
        },
    }
}

/// Holds what is left of a path, from position `pos` on, against what is
/// left of a pattern, from segment `k` on.
fn match_from(pattern: &Vec<Segment>, k: usize, url: &Vec<char>, pos: usize) -> (r: Option<
    Vec<Captured>,
>)
    requires
        k <= pattern.len(),
        pos <= url.len(),
    ensures
        match r {
            Some(found) => matched(pattern@.skip(k as int), url@.skip(pos as int)) == Some(
                captured_views(found@),
            ),
            None => matched(pattern@.skip(k as int), url@.skip(pos as int)) is None,
        },
    decreases pattern.len() - k,
{
    let ghost p = pattern@.skip(k as int);
    let ghost u = url@.skip(pos as int);
    if k == pattern.len() {
        if url.len() - pos == 1 && url[pos] == '/' {
            assert(u =~= seq!['/']);
            let found: Vec<Captured> = Vec::new();
            assert(captured_views(found@) =~= Seq::<CapturedView>::empty());
            return Some(found);
        } else {
            proof {
                if u == seq!['/'] {
                    assert(u.len() == 1);
                    assert(u[0] == url@[pos as int]);
                }
            }
            return None;
        }
    }
    if pos >= url.len() || url[pos] != '/' {
        proof {
            if pos < url.len() {
                assert(u[0] == url@[pos as int]);
            }
        }
        return None;
    }
    assert(u[0] == url@[pos as int]);
    let ghost rest = u.drop_first();
    assert(rest =~= url@.skip(pos + 1));
    assert(p[0] == pattern@[k as int]);
    assert(p.drop_first() =~= pattern@.skip(k + 1));
    let last = k + 1 == pattern.len();
    let begin = pos + 1;
    match &pattern[k] {
        Segment::Literal(l) => {
            let text = chars_of(l.as_str());
            if text.len() > url.len() - begin {
                proof {
                    if last {
                        assert(rest.len() != l@.len());
                    }
                }
                return None;
            }
            let ghost fits = if last {
                rest == l@
            } else {
                l@.is_prefix_of(rest)
            };
            assert(!fits ==> matched(p, u) is None);
            let mut i: usize = 0;
            while i < text.len()
                invariant
                    i <= text.len(),
                    begin + text.len() <= url.len(),
                    text@ == l@,
                    !fits ==> matched(p, u) is None,
                    fits == if last {
                        rest == l@
                    } else {
                        l@.is_prefix_of(rest)
                    },
                    p == pattern@.skip(k as int),
                    u == url@.skip(pos as int),
                    rest == url@.skip(begin as int),
                    forall|j: int| 0 <= j < i ==> url@[begin + j] == text@[j],
                decreases text.len() - i,
            {
                if url[begin + i] != text[i] {
                    assert(rest[i as int] != l@[i as int]);
                    assert(rest.subrange(0, l@.len() as int)[i as int] != l@[i as int]);
                    return None;
                }
                i += 1;
            }
            assert(l@ =~= rest.subrange(0, l@.len() as int));
            if last {
                if begin + text.len() == url.len() {
                    assert(rest =~= l@);
                    let found: Vec<Captured> = Vec::new();
                    assert(captured_views(found@) =~= Seq::<CapturedView>::empty());
                    Some(found)
                } else {
                    None
                }
            } else {
                assert(rest.skip(l@.len() as int) =~= url@.skip(begin + text.len()));
                match_from(pattern, k + 1, url, begin + text.len())
            }
        },
        segment => {
            if last {
                assert(url@.subrange(begin as int, url.len() as int) =~= rest);
                match capture(segment, url, begin, url.len()) {
                    Some(c) => {
                        let mut found: Vec<Captured> = Vec::new();
                        found.push(c);
                        assert(captured_views(found@) =~= seq![c@]);
                        Some(found)
                    },
                    None => None,
                }
            } else {
                let mut end: usize = begin;
                while end < url.len() && url[end] != '/'
                    invariant
                        begin <= end <= url.len(),
                        forall|j: int| begin <= j < end ==> url@[j] != '/',
                    decreases url.len() - end,
                {
                    end += 1;
                }
                if end == url.len() {
                    proof {
                        if rest.contains('/') {
                            let j = rest.index_of('/');
                            assert(url@[begin + j] == '/');
                        }
                    }
                    return None;
                }
                proof {
                    assert(rest[end - begin] == '/');
                    rest.index_of_first_ensures('/');
                    let at = rest.index_of_first('/').unwrap();
                    if at < end - begin {
                        assert(url@[begin + at] == '/');
                    }
                    assert(at == end - begin);
                    assert(rest.take(at) =~= url@.subrange(begin as int, end as int));
                    assert(rest.skip(at) =~= url@.skip(end as int));
                }
                match capture(segment, url, begin, end) {
                    None => None,
                    Some(c) => match match_from(pattern, k + 1, url, end) {
                        None => None,
                        Some(more) => {
                            let mut found = more;
                            let ghost views = captured_views(found@);
                            found.insert(0, c);
                            assert(captured_views(found@) =~= seq![c@] + views);
                            Some(found)
                        },
                    },
                }
            }
        },
    }
}

/// Holds the path `url` against `pattern`, and gives what the capturing
/// segments took, in order. A path that does not fit is a route that is
/// not found.
pub fn match_path(pattern: &Vec<Segment>, url: &str) -> (r: Result<Vec<Captured>, Error>)
    ensures
        match r {
            Ok(found) => matched(pattern@, url@) == Some(captured_views(found@)),
            Err(Error::NotFound(what)) => matched(pattern@, url@) is None && what@ == "Route"@,
            Err(_) => false,
        },
{
    let chars = chars_of(url);
    assert(pattern@.skip(0) =~= pattern@);
    assert(chars@.skip(0) =~= chars@);
    match match_from(pattern, 0, &chars, 0) {
        Some(found) => Ok(found),
        None => Err(Error::NotFound("Route")),
    }
}

} // verus!

//! Text primitives: strings as sequences of characters.

use vstd::prelude::*;
use vstd::string::StringExecFns;
use vstd::utf8::{decode_utf8, valid_utf8};
use crate::ordered::{lemma_lex_after_prefix, lemma_order_total, order_of, path_lt, text_lt};

verus! {

/// `std::string::String::push` appends one character to the end of the string.
pub assume_specification[ String::push ](s: &mut String, c: char)
    ensures
        final(s)@ == old(s)@.push(c),
;

/// `std::string::FromUtf8Error`, with which `String::from_utf8` rejects
/// bytes. Nothing is claimed of what it holds.
#[verifier::external_type_specification]
#[verifier::external_body]
pub struct ExFromUtf8Error(std::string::FromUtf8Error);

/// `std::string::String::from_utf8` makes a string of the bytes where they
/// are valid UTF-8, and fails where they are not.
pub assume_specification[ String::from_utf8 ](vec: Vec<u8>) -> (r: Result<
    String,
    std::string::FromUtf8Error,
>)
    ensures
        r is Ok == valid_utf8(vec@),
        r is Ok ==> r->Ok_0@ == decode_utf8(vec@),
;

/// The characters of `s`, in order.
pub fn chars_of(s: &str) -> (out: Vec<char>)
    ensures
        out@ == s@,
{
    let mut out: Vec<char> = Vec::new();
    for c in it: s.chars()
        invariant
            out@ == it.seq().take(it.index() as int),
            it.seq() == s@,
    {
        out.push(c);
    }
    out
}

/// The characters of `s` after its last `sep`; all of `s` where it holds none.
pub open spec fn open_run(s: Seq<char>, sep: char) -> Seq<char>
    decreases s.len(),
{
    if s.len() == 0 {
        Seq::empty()
    } else if s.last() == sep {
        Seq::empty()
    } else {
        open_run(s.drop_last(), sep).push(s.last())
    }
}

/// The non-empty runs of `s` between separators that a later `sep` closes,
/// in order.
pub open spec fn closed_runs(s: Seq<char>, sep: char) -> Seq<Seq<char>>
    decreases s.len(),
{
    if s.len() == 0 {
        Seq::empty()
    } else if s.last() == sep && open_run(s.drop_last(), sep).len() > 0 {
        closed_runs(s.drop_last(), sep).push(open_run(s.drop_last(), sep))
    } else {
        closed_runs(s.drop_last(), sep)
    }
}

/// The non-empty pieces into which the separator `sep` cuts `s`, in order.
pub open spec fn pieces(s: Seq<char>, sep: char) -> Seq<Seq<char>> {
    if open_run(s, sep).len() > 0 {
        closed_runs(s, sep).push(open_run(s, sep))
    } else {
        closed_runs(s, sep)
    }
}

/// The views of the strings of `v`, in order.
pub open spec fn texts(v: Seq<String>) -> Seq<Seq<char>> {
    Seq::new(v.len(), |i: int| v[i]@)
}

/// Cuts `s` at every `sep` and keeps the non-empty pieces.
pub fn split_pieces(s: &Vec<char>, sep: char) -> (out: Vec<String>)
    ensures
        texts(out@) == pieces(s@, sep),
        forall|i: int| 0 <= i < out.len() ==> (#[trigger] out[i])@.len() > 0,
{
    let mut out: Vec<String> = Vec::new();
    let mut run = String::new();
    let mut run_len: usize = 0;
    let mut i: usize = 0;
    assert(s@.take(0) =~= Seq::<char>::empty());
    while i < s.len()
        invariant
            i <= s.len(),
            texts(out@) =~= closed_runs(s@.take(i as int), sep),
            run@ == open_run(s@.take(i as int), sep),
            run_len == run@.len(),
            run_len <= i,
            forall|j: int| 0 <= j < out.len() ==> (#[trigger] out[j])@.len() > 0,
        decreases s.len() - i,
    {
        let c = s[i];
        proof {
            assert(s@.take(i + 1).drop_last() =~= s@.take(i as int));
            assert(s@.take(i + 1).last() == c);
        }
        if c == sep {
            if run_len > 0 {
                out.push(run);
            }
            run = String::new();
            run_len = 0;
        } else {
            run.push(c);
            run_len += 1;
        }
        i += 1;
    }
    assert(s@.take(s.len() as int) =~= s@);
    if run_len > 0 {
        out.push(run);
    }
    assert(texts(out@) =~= pieces(s@, sep));
    out
}

/// Whether `s` begins with the character `c`.
pub fn begins_with(s: &Vec<char>, c: char) -> (r: bool)
    ensures
        r == (s@.len() > 0 && s@[0] == c),
{
    s.len() > 0 && s[0] == c
}

/// The first position of `c` in `s`, if it occurs.
pub fn find_char(s: &Vec<char>, c: char) -> (r: Option<usize>)
    ensures
        match r {
            Some(i) => i < s@.len() && s@[i as int] == c && !s@.take(i as int).contains(c),
            None => !s@.contains(c),
        },
{
    let mut i: usize = 0;
    while i < s.len()
        invariant
            i <= s.len(),
            !s@.take(i as int).contains(c),
        decreases s.len() - i,
    {
        if s[i] == c {
            return Some(i);
        }
        assert(s@.take(i + 1) =~= s@.take(i as int).push(s@[i as int]));
        i += 1;
    }
    assert(s@.take(s.len() as int) =~= s@);
    None
}

/// The string made of the characters of `s` from position `from` up to,
/// not including, position `to`.
pub fn slice_string(s: &Vec<char>, from: usize, to: usize) -> (out: String)
    requires
        from <= to <= s.len(),
    ensures
        out@ == s@.subrange(from as int, to as int),
{
    let mut out = String::new();
    let mut i: usize = from;
    while i < to
        invariant
            from <= i <= to,
            to <= s.len(),
            out@ == s@.subrange(from as int, i as int),
        decreases to - i,
    {
        out.push(s[i]);
        assert(s@.subrange(from as int, i + 1) =~= s@.subrange(from as int, i as int).push(
            s@[i as int],
        ));
        i += 1;
    }
    out
}

/// The components, each with a `/` before it, one after the other.
pub open spec fn slashed(components: Seq<Seq<char>>) -> Seq<char>
    decreases components.len(),
{
    if components.len() == 0 {
        Seq::empty()
    } else {
        slashed(components.drop_last()) + seq!['/'] + components.last()
    }
}

/// Appends to `out` each component with a `/` before it.
pub fn push_slashed(out: &mut String, components: &Vec<String>)
    ensures
        final(out)@ == old(out)@ + slashed(texts(components@)),
{
    let ghost start = out@;
    let mut i: usize = 0;
    assert(texts(components@).take(0) =~= Seq::<Seq<char>>::empty());
    assert(out@ =~= start + slashed(texts(components@).take(0)));
    while i < components.len()
        invariant
            i <= components.len(),
            out@ == start + slashed(texts(components@).take(i as int)),
        decreases components.len() - i,
    {
        proof {
            let t = texts(components@);
            assert(t.take(i + 1).drop_last() =~= t.take(i as int));
            assert(t.take(i + 1).last() == components@[i as int]@);
            assert(start + slashed(t.take(i + 1)) =~= (start + slashed(t.take(i as int))) + seq![
                '/',
            ] + components@[i as int]@);
        }
        out.push('/');
        out.append(components[i].as_str());
        i += 1;
    }
    assert(texts(components@).take(components.len() as int) =~= texts(components@));
}

/// A copy of each string of `v`, in order.
pub fn clone_strings(v: &Vec<String>) -> (out: Vec<String>)
    ensures
        texts(out@) == texts(v@),
        out@.len() == v@.len(),
{
    let mut out: Vec<String> = Vec::new();
    let mut i: usize = 0;
    while i < v.len()
        invariant
            i <= v.len(),
            out@.len() == i,
            forall|j: int| 0 <= j < i ==> (#[trigger] out@[j])@ == v@[j]@,
        decreases v.len() - i,
    {
        out.push(v[i].clone());
        i += 1;
    }
    assert(texts(out@) =~= texts(v@));
    out
}

/// The runs of `s` that a later `sep` closes, in order, empty ones too.
pub open spec fn ended_runs(s: Seq<char>, sep: char) -> Seq<Seq<char>>
    decreases s.len(),
{
    if s.len() == 0 {
        Seq::empty()
    } else if s.last() == sep {
        ended_runs(s.drop_last(), sep).push(open_run(s.drop_last(), sep))
    } else {
        ended_runs(s.drop_last(), sep)
    }
}

/// The parts into which the separator `sep` cuts `s`, in order, empty ones
/// too: one more than there are separators.
pub open spec fn parts(s: Seq<char>, sep: char) -> Seq<Seq<char>> {
    ended_runs(s, sep).push(open_run(s, sep))
}

/// The line without the carriage return at its end, if it has one there.
pub open spec fn without_return(line: Seq<char>) -> Seq<char> {
    if line.len() > 0 && line.last() == '\r' {
        line.drop_last()
    } else {
        line
    }
}

/// The lines of `s`: those that a line break ends, each without the
/// carriage return before the line break, if there is one, and what
/// follows the last line break, if anything does.
pub open spec fn lines(s: Seq<char>) -> Seq<Seq<char>> {
    let ended = Seq::new(
        ended_runs(s, '\n').len(),
        |i: int| without_return(ended_runs(s, '\n')[i]),
    );
    if open_run(s, '\n').len() > 0 {
        ended.push(open_run(s, '\n'))
    } else {
        ended
    }
}

/// Cuts `s` at every `sep`.
pub fn split_parts(s: &Vec<char>, sep: char) -> (out: Vec<String>)
    ensures
        texts(out@) == parts(s@, sep),
        out@.len() >= 1,
{
    let mut out: Vec<String> = Vec::new();
    let mut run = String::new();
    let mut i: usize = 0;
    assert(s@.take(0) =~= Seq::<char>::empty());
    while i < s.len()
        invariant
            i <= s.len(),
            texts(out@) =~= ended_runs(s@.take(i as int), sep),
            run@ == open_run(s@.take(i as int), sep),
        decreases s.len() - i,
    {
        let c = s[i];
        proof {
            assert(s@.take(i + 1).drop_last() =~= s@.take(i as int));
            assert(s@.take(i + 1).last() == c);
        }
        if c == sep {
            out.push(run);
            run = String::new();
        } else {
            run.push(c);
        }
        i += 1;
    }
    assert(s@.take(s.len() as int) =~= s@);
    out.push(run);
    assert(texts(out@) =~= parts(s@, sep));
    out
}

/// Cuts `s` into its lines.
pub fn split_lines(s: &Vec<char>) -> (out: Vec<String>)
    ensures
        texts(out@) == lines(s@),
{
    let mut all = split_parts(s, '\n');
    let last = all.pop().unwrap();
    let ghost ended = ended_runs(s@, '\n');
    proof {
        let whole = parts(s@, '\n');
        assert(texts(all@) =~= whole.drop_last()) by {
            assert forall|i: int| 0 <= i < all@.len() implies texts(all@)[i] == whole.drop_last()[i] by {
                assert(whole[i] == whole.drop_last()[i]);
            }
        }
        assert(whole.drop_last() =~= ended);
        assert(last@ == whole.last());
    }
    let mut out: Vec<String> = Vec::new();
    let mut i: usize = 0;
    while i < all.len()
        invariant
            i <= all.len(),
            texts(all@) == ended,
            out.len() == i,
            forall|k: int| 0 <= k < i ==> (#[trigger] out[k])@ == without_return(ended[k]),
        decreases all.len() - i,
    {
        let line = chars_of(all[i].as_str());
        proof {
            assert(texts(all@)[i as int] == all@[i as int]@);
        }
        if line.len() > 0 && line[line.len() - 1] == '\r' {
            out.push(slice_string(&line, 0, line.len() - 1));
            assert(line@.subrange(0, line.len() - 1) =~= line@.drop_last());
        } else {
            out.push(slice_string(&line, 0, line.len()));
            assert(line@.subrange(0, line.len() as int) =~= line@);
        }
        i += 1;
    }
    if !last.as_str().is_empty() {
        out.push(last);
    }
    assert(texts(out@) =~= lines(s@));
    out
}

/// Whether `s` holds the characters of `lit` from position `from` on.
pub fn holds_text_at(s: &Vec<char>, from: usize, lit: &str) -> (r: bool)
    requires
        from <= s.len(),
    ensures
        r == lit@.is_prefix_of(s@.skip(from as int)),
{
    let l = chars_of(lit);
    if l.len() > s.len() - from {
        return false;
    }
    let mut i: usize = 0;
    while i < l.len()
        invariant
            i <= l.len(),
            from + l.len() <= s.len(),
            l@ == lit@,
            forall|j: int| 0 <= j < i ==> s@[from + j] == l@[j],
        decreases l.len() - i,
    {
        if s[from + i] != l[i] {
            assert(s@.skip(from as int).subrange(0, l@.len() as int)[i as int] != l@[i as int]);
            return false;
        }
        i += 1;
    }
    assert(l@ =~= s@.skip(from as int).subrange(0, l@.len() as int));
    true
}

/// A text that ends its last line, with one more line that holds no line
/// break and does not end with a carriage return, has the lines it had and
/// that line.
pub proof fn lemma_lines_after_append(s: Seq<char>, line: Seq<char>)
    requires
        !line.contains('\n'),
        line.len() == 0 || line.last() != '\r',
        s.len() == 0 || s.last() == '\n',
    ensures
        lines(s + line + seq!['\n']) == lines(s).push(line),
{
    let whole = s + line + seq!['\n'];
    assert(whole.drop_last() =~= s + line);
    lemma_lines_of_unended(s, line);
    assert(open_run(s, '\n').len() == 0);
    assert(open_run(whole, '\n').len() == 0);
    assert(ended_runs(whole, '\n') =~= ended_runs(s, '\n').push(line));
    assert(lines(whole) =~= lines(s).push(line));
}

/// What line break free characters after a text that ends its last line
/// add: no ended line, and themselves as what follows the last line break.
pub proof fn lemma_lines_of_unended(s: Seq<char>, line: Seq<char>)
    requires
        !line.contains('\n'),
        s.len() == 0 || s.last() == '\n',
    ensures
        ended_runs(s + line, '\n') == ended_runs(s, '\n'),
        open_run(s + line, '\n') == line,
    decreases line.len(),
{
    if line.len() == 0 {
        assert(s + line =~= s);
        assert(open_run(s, '\n') =~= line);
    } else {
        let shorter = line.drop_last();
        assert(line[line.len() - 1] == line.last());
        assert(line.contains(line.last()));
        if shorter.contains('\n') {
            let i = shorter.index_of('\n');
            assert(line[i] == '\n');
        }
        lemma_lines_of_unended(s, shorter);
        assert((s + line).drop_last() =~= s + shorter);
        assert(open_run(s + line, '\n') =~= line);
    }
}

/// Whether no component holds a `/`.
pub open spec fn no_slash(components: Seq<Seq<char>>) -> bool {
    forall|i: int| 0 <= i < components.len() ==> !(#[trigger] components[i]).contains('/')
}

/// Whether `a` begins `b`, and what follows it in `b` begins with a
/// character that sorts before `/`.
pub open spec fn cuts_short(a: Seq<char>, b: Seq<char>) -> bool {
    a.len() < b.len() && b.take(a.len() as int) == a && (b[a.len() as int] as int) < ('/' as int)
}

/// Whether the paths `p` and `q` are the same up to position `k`, where
/// the component of one begins that of the other, a character that sorts
/// before `/` follows, and the path with the shorter component goes on.
pub open spec fn clash_at(p: Seq<Seq<char>>, q: Seq<Seq<char>>, k: int) -> bool {
    &&& 0 <= k < p.len()
    &&& k < q.len()
    &&& p.take(k) == q.take(k)
    &&& (cuts_short(p[k], q[k]) && k + 1 < p.len()) || (cuts_short(q[k], p[k]) && k + 1 < q.len())
}

/// Whether the order of the paths `p` and `q` is not that of their texts:
/// see `clash_at`.
pub open spec fn clash(p: Seq<Seq<char>>, q: Seq<Seq<char>>) -> bool {
    exists|k: int| #[trigger] clash_at(p, q, k)
}

/// The slashed components begin with a `/`, the first component, and the
/// other components slashed.
pub proof fn lemma_slashed_first(components: Seq<Seq<char>>)
    requires
        components.len() > 0,
    ensures
        slashed(components) == seq!['/'] + components[0] + slashed(components.drop_first()),
    decreases components.len(),
{
    if components.len() == 1 {
        assert(components.drop_last() =~= Seq::<Seq<char>>::empty());
        assert(components.drop_first() =~= Seq::<Seq<char>>::empty());
        assert(slashed(components) =~= seq!['/'] + components[0] + slashed(
            components.drop_first(),
        ));
    } else {
        let front = components.drop_last();
        lemma_slashed_first(front);
        assert(front.drop_first() =~= components.drop_first().drop_last());
        assert(components.drop_first().last() == components.last());
        assert(front[0] == components[0]);
        assert(slashed(components) =~= seq!['/'] + components[0] + slashed(
            components.drop_first(),
        ));
    }
}

/// Texts that begin alike are ordered as what follows the common
/// beginning is.
pub proof fn lemma_text_lt_after_prefix(x: Seq<char>, a: Seq<char>, b: Seq<char>)
    ensures
        text_lt(x + a, x + b) == text_lt(a, b),
{
    lemma_order_total::<char>();
    lemma_lex_after_prefix(x, a, b, order_of::<char>());
}

/// Components slashed one after the other are those of the first part
/// slashed, then those of the second part slashed.
pub proof fn lemma_slashed_parts(first: Seq<Seq<char>>, second: Seq<Seq<char>>)
    ensures
        slashed(first + second) == slashed(first) + slashed(second),
    decreases second.len(),
{
    if second.len() == 0 {
        assert(first + second =~= first);
        assert(slashed(first) + slashed(second) =~= slashed(first));
    } else {
        assert((first + second).drop_last() =~= first + second.drop_last());
        assert((first + second).last() == second.last());
        lemma_slashed_parts(first, second.drop_last());
        assert(slashed(first + second) =~= slashed(first) + slashed(second));
    }
}

/// Two components without a `/`, each followed by nothing or by a `/` and
/// more, are ordered as texts as the components are, and as what follows
/// them where the components are the same, unless one begins the other,
/// a character that sorts before `/` follows, and the shorter one is
/// followed by more.
pub proof fn lemma_text_lt_of_components(a: Seq<char>, p: Seq<char>, b: Seq<char>, q: Seq<char>)
    requires
        !a.contains('/'),
        !b.contains('/'),
        p.len() == 0 || p[0] == '/',
        q.len() == 0 || q[0] == '/',
        !(cuts_short(a, b) && p.len() > 0),
        !(cuts_short(b, a) && q.len() > 0),
    ensures
        text_lt(a + p, b + q) == (text_lt(a, b) || (a == b && text_lt(p, q))),
    decreases a.len(),
{
    if a.len() == 0 {
        assert(a + p =~= p);
        if b.len() == 0 {
            assert(b + q =~= q);
            assert(a =~= b);
        } else {
            assert((b + q)[0] == b[0]);
            assert(b.contains(b[0]));
            assert(b.take(0) =~= a);
        }
    } else if b.len() == 0 {
        assert(b + q =~= q);
        assert((a + p)[0] == a[0]);
        assert(a.contains(a[0]));
        assert(a.take(0) =~= b);
    } else {
        assert((a + p)[0] == a[0]);
        assert((b + q)[0] == b[0]);
        if a[0] == b[0] {
            let a1 = a.drop_first();
            let b1 = b.drop_first();
            assert((a + p).drop_first() =~= a1 + p);
            assert((b + q).drop_first() =~= b1 + q);
            assert(!a1.contains('/')) by {
                if a1.contains('/') {
                    let i = a1.index_of('/');
                    assert(a[i + 1] == '/');
                }
            }
            assert(!b1.contains('/')) by {
                if b1.contains('/') {
                    let i = b1.index_of('/');
                    assert(b[i + 1] == '/');
                }
            }
            if cuts_short(a1, b1) {
                assert(b.take(a.len() as int) =~= seq![b[0]] + b1.take(a1.len() as int));
                assert(a =~= seq![a[0]] + a1);
                assert(b[a.len() as int] == b1[a1.len() as int]);
                assert(cuts_short(a, b));
            }
            if cuts_short(b1, a1) {
                assert(a.take(b.len() as int) =~= seq![a[0]] + a1.take(b1.len() as int));
                assert(b =~= seq![b[0]] + b1);
                assert(a[b.len() as int] == a1[b1.len() as int]);
                assert(cuts_short(b, a));
            }
            lemma_text_lt_of_components(a1, p, b1, q);
            if a1 == b1 {
                assert(a =~= seq![a[0]] + a1);
                assert(b =~= seq![b[0]] + b1);
            }
        }
    }
}

/// Paths whose components hold no `/` are ordered as their texts are,
/// unless they clash.
pub proof fn lemma_path_order_is_text_order(p: Seq<Seq<char>>, q: Seq<Seq<char>>)
    requires
        no_slash(p),
        no_slash(q),
        !clash(p, q),
    ensures
        path_lt(p, q) == text_lt(slashed(p), slashed(q)),
    decreases p.len(),
{
    if p.len() == 0 {
        if q.len() > 0 {
            lemma_slashed_first(q);
        }
    } else if q.len() == 0 {
        lemma_slashed_first(p);
    } else {
        lemma_slashed_first(p);
        lemma_slashed_first(q);
        let p1 = p.drop_first();
        let q1 = q.drop_first();
        let sp = slashed(p1);
        let sq = slashed(q1);
        assert(no_slash(p1)) by {
            assert forall|i: int| 0 <= i < p1.len() implies !(#[trigger] p1[i]).contains('/') by {
                assert(p1[i] == p[i + 1]);
            }
        }
        assert(no_slash(q1)) by {
            assert forall|i: int| 0 <= i < q1.len() implies !(#[trigger] q1[i]).contains('/') by {
                assert(q1[i] == q[i + 1]);
            }
        }
        if p1.len() > 0 {
            lemma_slashed_first(p1);
        }
        if q1.len() > 0 {
            lemma_slashed_first(q1);
        }
        assert(p.take(0) =~= q.take(0));
        assert(!clash_at(p, q, 0));
        if p[0] == q[0] {
            assert(!clash(p1, q1)) by {
                if clash(p1, q1) {
                    let k = choose|k: int| #[trigger] clash_at(p1, q1, k);
                    assert(p.take(k + 1) =~= seq![p[0]] + p1.take(k));
                    assert(q.take(k + 1) =~= seq![q[0]] + q1.take(k));
                    assert(p1[k] == p[k + 1] && q1[k] == q[k + 1]);
                    assert(clash_at(p, q, k + 1));
                }
            }
            lemma_path_order_is_text_order(p1, q1);
        }
        lemma_text_lt_of_components(p[0], sp, q[0], sq);
        lemma_text_lt_after_prefix(seq!['/'], p[0] + sp, q[0] + sq);
        assert(slashed(p) =~= seq!['/'] + (p[0] + sp));
        assert(slashed(q) =~= seq!['/'] + (q[0] + sq));
    }
}

/// Paths that begin alike are ordered as their texts are, as long as what
/// follows the common beginning holds no `/` and does not clash.
pub proof fn lemma_order_below_is_text_order(
    base: Seq<Seq<char>>,
    p: Seq<Seq<char>>,
    q: Seq<Seq<char>>,
)
    requires
        no_slash(p),
        no_slash(q),
        !clash(p, q),
    ensures
        path_lt(base + p, base + q) == text_lt(slashed(base + p), slashed(base + q)),
{
    lemma_order_total::<String>();
    lemma_lex_after_prefix(base, p, q, order_of::<String>());
    lemma_slashed_parts(base, p);
    lemma_slashed_parts(base, q);
    lemma_text_lt_after_prefix(slashed(base), slashed(p), slashed(q));
    lemma_path_order_is_text_order(p, q);
}

/// Paths at or below a base that stand in the order of paths stand in the
/// order of their texts, as long as no component below the base holds a
/// `/` and no two of the paths clash below the base.
pub proof fn lemma_paths_in_text_order(paths: Seq<Seq<Seq<char>>>, base: Seq<Seq<char>>)
    requires
        forall|k: int|
            0 <= k < paths.len() ==> base.len() <= (#[trigger] paths[k]).len() && paths[k].take(
                base.len() as int,
            ) == base && no_slash(paths[k].skip(base.len() as int)),
        forall|i: int, j: int|
            0 <= i < j < paths.len() ==> path_lt(#[trigger] paths[i], #[trigger] paths[j])
                || paths[i] == paths[j],
        forall|i: int, j: int|
            0 <= i < j < paths.len() ==> !clash(
                (#[trigger] paths[i]).skip(base.len() as int),
                (#[trigger] paths[j]).skip(base.len() as int),
            ),
    ensures
        forall|i: int, j: int|
            0 <= i < j < paths.len() ==> text_lt(
                slashed(#[trigger] paths[i]),
                slashed(#[trigger] paths[j]),
            ) || paths[i] == paths[j],
{
    assert forall|i: int, j: int| 0 <= i < j < paths.len() implies text_lt(
        slashed(#[trigger] paths[i]),
        slashed(#[trigger] paths[j]),
    ) || paths[i] == paths[j] by {
        let n = base.len() as int;
        let p = paths[i];
        let q = paths[j];
        assert(p =~= base + p.skip(n));
        assert(q =~= base + q.skip(n));
        lemma_order_below_is_text_order(base, p.skip(n), q.skip(n));
    }
}

/// No piece holds the separator.
pub proof fn lemma_pieces_hold_no_separator(s: Seq<char>, sep: char)
    ensures
        forall|i: int| 0 <= i < pieces(s, sep).len() ==> !(#[trigger] pieces(s, sep)[i]).contains(sep),
        !open_run(s, sep).contains(sep),
        forall|i: int|
            0 <= i < closed_runs(s, sep).len() ==> !(#[trigger] closed_runs(s, sep)[i]).contains(
                sep,
            ),
    decreases s.len(),
{
    if s.len() > 0 {
        let d = s.drop_last();
        lemma_pieces_hold_no_separator(d, sep);
        let run = open_run(s, sep);
        let before = open_run(d, sep);
        assert(!run.contains(sep)) by {
            if run.contains(sep) {
                let i = run.index_of(sep);
                if i < before.len() {
                    assert(before[i] == sep);
                    assert(before.contains(sep));
                }
            }
        }
        let closed = closed_runs(s, sep);
        assert forall|i: int| 0 <= i < closed.len() implies !(#[trigger] closed[i]).contains(
            sep,
        ) by {
            if i < closed_runs(d, sep).len() {
                assert(closed[i] == closed_runs(d, sep)[i]);
            } else {
                assert(closed[i] == before);
            }
        }
        assert forall|i: int| 0 <= i < pieces(s, sep).len() implies !(#[trigger] pieces(
            s,
            sep,
        )[i]).contains(sep) by {
            if i < closed.len() {
                assert(pieces(s, sep)[i] == closed[i]);
            } else {
                assert(pieces(s, sep)[i] == run);
            }
        }
    }
}

} // verus!

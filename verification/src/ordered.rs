//! Strict total orders, and the lexicographic order they induce on sequences.

use vstd::prelude::*;
use crate::text::chars_of;

verus! {

/// A type whose values are ordered through a mathematical key.
///
/// `before` is a strict total order on keys: irreflexive, transitive, and
/// any two distinct keys are related one way or the other.
pub trait Ordered: Sized {
    type Key;

    spec fn key(&self) -> Self::Key;

    spec fn before(a: Self::Key, b: Self::Key) -> bool;

    proof fn lemma_irreflexive(a: Self::Key)
        ensures
            !Self::before(a, a),
    ;

    proof fn lemma_transitive(a: Self::Key, b: Self::Key, c: Self::Key)
        requires
            Self::before(a, b),
            Self::before(b, c),
        ensures
            Self::before(a, c),
    ;

    proof fn lemma_connected(a: Self::Key, b: Self::Key)
        ensures
            a == b || Self::before(a, b) || Self::before(b, a),
    ;

    fn precedes(&self, other: &Self) -> (r: bool)
        ensures
            r == Self::before(self.key(), other.key()),
    ;
}

/// Whether `lt` is a strict total order.
pub open spec fn strict_total<T>(lt: spec_fn(T, T) -> bool) -> bool {
    &&& forall|a: T| !#[trigger] lt(a, a)
    &&& forall|a: T, b: T, c: T| #[trigger] lt(a, b) && #[trigger] lt(b, c) ==> lt(a, c)
    &&& forall|a: T, b: T| a == b || #[trigger] lt(a, b) || lt(b, a)
}

/// Strict lexicographic order on sequences: the first position at which the
/// two differ decides, and a proper prefix comes first.
pub open spec fn lex_lt<T>(a: Seq<T>, b: Seq<T>, lt: spec_fn(T, T) -> bool) -> bool
    decreases a.len(),
{
    if b.len() == 0 {
        false
    } else if a.len() == 0 {
        true
    } else if lt(a[0], b[0]) {
        true
    } else if a[0] == b[0] {
        lex_lt(a.drop_first(), b.drop_first(), lt)
    } else {
        false
    }
}

pub proof fn lemma_lex_irreflexive<T>(a: Seq<T>, lt: spec_fn(T, T) -> bool)
    requires
        strict_total(lt),
    ensures
        !lex_lt(a, a, lt),
    decreases a.len(),
{
    if a.len() > 0 {
        lemma_lex_irreflexive(a.drop_first(), lt);
    }
}

pub proof fn lemma_lex_transitive<T>(a: Seq<T>, b: Seq<T>, c: Seq<T>, lt: spec_fn(T, T) -> bool)
    requires
        strict_total(lt),
        lex_lt(a, b, lt),
        lex_lt(b, c, lt),
    ensures
        lex_lt(a, c, lt),
    decreases a.len(),
{
    if a.len() > 0 && b.len() > 0 && c.len() > 0 {
        if a[0] == b[0] && b[0] == c[0] {
            lemma_lex_transitive(a.drop_first(), b.drop_first(), c.drop_first(), lt);
        } else {
            assert(lt(a[0], b[0]) || a[0] == b[0]);
            assert(lt(b[0], c[0]) || b[0] == c[0]);
            assert(lt(a[0], c[0]));
        }
    }
}

pub proof fn lemma_lex_connected<T>(a: Seq<T>, b: Seq<T>, lt: spec_fn(T, T) -> bool)
    requires
        strict_total(lt),
    ensures
        a == b || lex_lt(a, b, lt) || lex_lt(b, a, lt),
    decreases a.len(),
{
    if a.len() == 0 || b.len() == 0 {
        if a.len() == 0 && b.len() == 0 {
            assert(a =~= b);
        }
    } else if a[0] == b[0] {
        lemma_lex_connected(a.drop_first(), b.drop_first(), lt);
        if a.drop_first() == b.drop_first() {
            assert(a =~= seq![a[0]] + a.drop_first());
            assert(b =~= seq![b[0]] + b.drop_first());
        }
    } else {
        assert(lt(a[0], b[0]) || lt(b[0], a[0]));
    }
}

/// Sequences that begin alike are ordered as what follows the common
/// beginning is.
pub proof fn lemma_lex_after_prefix<T>(x: Seq<T>, a: Seq<T>, b: Seq<T>, lt: spec_fn(T, T) -> bool)
    requires
        strict_total(lt),
    ensures
        lex_lt(x + a, x + b, lt) == lex_lt(a, b, lt),
    decreases x.len(),
{
    if x.len() == 0 {
        assert(x + a =~= a);
        assert(x + b =~= b);
    } else {
        assert((x + a).drop_first() =~= x.drop_first() + a);
        assert((x + b).drop_first() =~= x.drop_first() + b);
        assert((x + a)[0] == (x + b)[0]);
        assert(!lt(x[0], x[0]));
        lemma_lex_after_prefix(x.drop_first(), a, b, lt);
    }
}

/// A proper prefix comes before the sequence it is a prefix of.
pub proof fn lemma_lex_prefix<T>(a: Seq<T>, b: Seq<T>, lt: spec_fn(T, T) -> bool)
    requires
        strict_total(lt),
        a.len() < b.len(),
        a =~= b.take(a.len() as int),
    ensures
        lex_lt(a, b, lt),
    decreases a.len(),
{
    if a.len() > 0 {
        assert(a[0] == b.take(a.len() as int)[0]);
        assert(a.drop_first() =~= b.drop_first().take(a.len() - 1));
        lemma_lex_prefix(a.drop_first(), b.drop_first(), lt);
    }
}

/// The order of `T`, as a relation on keys.
pub open spec fn order_of<T: Ordered>() -> spec_fn(T::Key, T::Key) -> bool {
    |a: T::Key, b: T::Key| T::before(a, b)
}

pub proof fn lemma_order_total<T: Ordered>()
    ensures
        strict_total(order_of::<T>()),
{
    let lt = order_of::<T>();
    assert forall|a: T::Key| !#[trigger] lt(a, a) by {
        T::lemma_irreflexive(a);
    }
    assert forall|a: T::Key, b: T::Key, c: T::Key| #[trigger] lt(a, b) && #[trigger] lt(b, c)
        implies lt(a, c) by {
        T::lemma_transitive(a, b, c);
    }
    assert forall|a: T::Key, b: T::Key| a == b || #[trigger] lt(a, b) || lt(b, a) by {
        T::lemma_connected(a, b);
    }
}

/// The keys of the items of `items`, in order.
pub open spec fn keys_of<T: Ordered>(items: Seq<T>) -> Seq<T::Key> {
    Seq::new(items.len(), |i: int| items[i].key())
}

/// Characters are ordered by code point.
impl Ordered for char {
    type Key = char;

    open spec fn key(&self) -> char {
        *self
    }

    open spec fn before(a: char, b: char) -> bool {
        (a as int) < (b as int)
    }

    proof fn lemma_irreflexive(a: char) {
    }

    proof fn lemma_transitive(a: char, b: char, c: char) {
    }

    proof fn lemma_connected(a: char, b: char) {
    }

    fn precedes(&self, other: &char) -> (r: bool) {
        *self < *other
    }
}

/// Vectors are ordered lexicographically by the order of their items.
impl<T: Ordered> Ordered for Vec<T> {
    type Key = Seq<T::Key>;

    open spec fn key(&self) -> Seq<T::Key> {
        keys_of(self@)
    }

    open spec fn before(a: Seq<T::Key>, b: Seq<T::Key>) -> bool {
        lex_lt(a, b, order_of::<T>())
    }

    proof fn lemma_irreflexive(a: Seq<T::Key>) {
        lemma_order_total::<T>();
        lemma_lex_irreflexive(a, order_of::<T>());
    }

    proof fn lemma_transitive(a: Seq<T::Key>, b: Seq<T::Key>, c: Seq<T::Key>) {
        lemma_order_total::<T>();
        lemma_lex_transitive(a, b, c, order_of::<T>());
    }

    proof fn lemma_connected(a: Seq<T::Key>, b: Seq<T::Key>) {
        lemma_order_total::<T>();
        lemma_lex_connected(a, b, order_of::<T>());
    }

    fn precedes(&self, other: &Vec<T>) -> (r: bool) {
        let ghost a = keys_of(self@);
        let ghost b = keys_of(other@);
        let ghost lt = order_of::<T>();
        let mut i: usize = 0;
        proof {
            assert(a.skip(0) =~= a);
            assert(b.skip(0) =~= b);
        }
        while i < self.len() && i < other.len()
            invariant
                i <= self.len(),
                i <= other.len(),
                a == keys_of(self@),
                b == keys_of(other@),
                lt == order_of::<T>(),
                lex_lt(a, b, lt) == lex_lt(a.skip(i as int), b.skip(i as int), lt),
            decreases self.len() - i,
        {
            proof {
                assert(a.skip(i as int)[0] == self@[i as int].key());
                assert(b.skip(i as int)[0] == other@[i as int].key());
                assert(a.skip(i as int).drop_first() =~= a.skip(i + 1));
                assert(b.skip(i as int).drop_first() =~= b.skip(i + 1));
                T::lemma_irreflexive(self@[i as int].key());
                T::lemma_connected(self@[i as int].key(), other@[i as int].key());
                if T::before(self@[i as int].key(), other@[i as int].key())
                    && T::before(other@[i as int].key(), self@[i as int].key()) {
                    T::lemma_transitive(
                        self@[i as int].key(),
                        other@[i as int].key(),
                        self@[i as int].key(),
                    );
                }
            }
            if self[i].precedes(&other[i]) {
                return true;
            }
            if other[i].precedes(&self[i]) {
                return false;
            }
            i += 1;
        }
        i < other.len()
    }
}

/// Lexicographic order on texts, character by character.
pub open spec fn text_lt(a: Seq<char>, b: Seq<char>) -> bool {
    lex_lt(a, b, order_of::<char>())
}

/// Lexicographic order on paths, component by component.
pub open spec fn path_lt(a: Seq<Seq<char>>, b: Seq<Seq<char>>) -> bool {
    lex_lt(a, b, order_of::<String>())
}

/// Strings are ordered lexicographically, character by character.
impl Ordered for String {
    type Key = Seq<char>;

    open spec fn key(&self) -> Seq<char> {
        self@
    }

    open spec fn before(a: Seq<char>, b: Seq<char>) -> bool {
        text_lt(a, b)
    }

    proof fn lemma_irreflexive(a: Seq<char>) {
        Vec::<char>::lemma_irreflexive(a);
    }

    proof fn lemma_transitive(a: Seq<char>, b: Seq<char>, c: Seq<char>) {
        Vec::<char>::lemma_transitive(a, b, c);
    }

    proof fn lemma_connected(a: Seq<char>, b: Seq<char>) {
        Vec::<char>::lemma_connected(a, b);
    }

    fn precedes(&self, other: &String) -> (r: bool) {
        let a = chars_of(self.as_str());
        let b = chars_of(other.as_str());
        proof {
            assert(keys_of(a@) =~= self@);
            assert(keys_of(b@) =~= other@);
        }
        a.precedes(&b)
    }
}

/// Whether no item of `s` comes before an item that stands earlier in `s`.
pub open spec fn ascending<T: Ordered>(s: Seq<T>) -> bool {
    forall|i: int, j: int|
        0 <= i < j < s.len() ==> !T::before(#[trigger] s[j].key(), #[trigger] s[i].key())
}

/// Whether no item of `s` comes before an item that stands later in `s`.
pub open spec fn descending<T: Ordered>(s: Seq<T>) -> bool {
    forall|i: int, j: int|
        0 <= i < j < s.len() ==> !T::before(#[trigger] s[i].key(), #[trigger] s[j].key())
}

/// The position of an item of `v` that no other item comes before, or, if
/// `greatest`, that comes before no other item.
fn extreme<T: Ordered>(v: &Vec<T>, greatest: bool) -> (best: usize)
    requires
        v.len() > 0,
    ensures
        best < v.len(),
        forall|j: int|
            0 <= j < v.len() ==> if greatest {
                !T::before(v@[best as int].key(), #[trigger] v@[j].key())
            } else {
                !T::before(#[trigger] v@[j].key(), v@[best as int].key())
            },
{
    let mut best: usize = 0;
    let mut k: usize = 1;
    proof {
        T::lemma_irreflexive(v@[0].key());
    }
    while k < v.len()
        invariant
            best < k <= v.len(),
            forall|j: int|
                0 <= j < k ==> if greatest {
                    !T::before(v@[best as int].key(), #[trigger] v@[j].key())
                } else {
                    !T::before(#[trigger] v@[j].key(), v@[best as int].key())
                },
        decreases v.len() - k,
    {
        let better = if greatest {
            v[best].precedes(&v[k])
        } else {
            v[k].precedes(&v[best])
        };
        if better {
            proof {
                T::lemma_irreflexive(v@[k as int].key());
                assert forall|j: int| 0 <= j < k + 1 implies if greatest {
                    !T::before(v@[k as int].key(), #[trigger] v@[j].key())
                } else {
                    !T::before(#[trigger] v@[j].key(), v@[k as int].key())
                } by {
                    if j < k {
                        if greatest && T::before(v@[k as int].key(), v@[j].key()) {
                            T::lemma_transitive(
                                v@[best as int].key(),
                                v@[k as int].key(),
                                v@[j].key(),
                            );
                        }
                        if !greatest && T::before(v@[j].key(), v@[k as int].key()) {
                            T::lemma_transitive(
                                v@[j].key(),
                                v@[k as int].key(),
                                v@[best as int].key(),
                            );
                        }
                    }
                }
            }
            best = k;
        }
        k += 1;
    }
    best
}

/// The items of `v` put in order: ascending, or, if `greatest_first`,
/// descending.
pub fn sorted<T: Ordered>(v: Vec<T>, greatest_first: bool) -> (out: Vec<T>)
    ensures
        out@.to_multiset() == v@.to_multiset(),
        if greatest_first {
            descending(out@)
        } else {
            ascending(out@)
        },
{
    let mut rest = v;
    let mut out: Vec<T> = Vec::new();
    proof {
        broadcast use vstd::seq_lib::group_to_multiset_ensures;

        assert(out@.to_multiset().add(rest@.to_multiset()) =~= v@.to_multiset());
    }
    while rest.len() > 0
        invariant
            out@.to_multiset().add(rest@.to_multiset()) == v@.to_multiset(),
            if greatest_first {
                descending(out@)
            } else {
                ascending(out@)
            },
            forall|i: int, j: int|
                0 <= i < out@.len() && 0 <= j < rest@.len() ==> if greatest_first {
                    !T::before(#[trigger] out@[i].key(), #[trigger] rest@[j].key())
                } else {
                    !T::before(#[trigger] rest@[j].key(), #[trigger] out@[i].key())
                },
        decreases rest.len(),
    {
        let best = extreme(&rest, greatest_first);
        let ghost before_rest = rest@;
        let ghost before_out = out@;
        let x = rest.remove(best);
        out.push(x);
        proof {
            broadcast use vstd::seq_lib::group_to_multiset_ensures;

            assert(rest@ == before_rest.remove(best as int));
            assert(out@ == before_out.push(x));
            assert(out@.to_multiset().add(rest@.to_multiset()) =~= before_out.to_multiset().add(
                before_rest.to_multiset(),
            ));
            assert forall|i: int, j: int|
                0 <= i < out@.len() && 0 <= j < rest@.len() implies if greatest_first {
                !T::before(#[trigger] out@[i].key(), #[trigger] rest@[j].key())
            } else {
                !T::before(#[trigger] rest@[j].key(), #[trigger] out@[i].key())
            } by {
                let j0 = if j < best { j } else { j + 1 };
                assert(rest@[j] == before_rest[j0]);
                if i < before_out.len() {
                    assert(out@[i] == before_out[i]);
                }
            }
            if greatest_first {
                assert forall|i: int, j: int| 0 <= i < j < out@.len() implies !T::before(
                    #[trigger] out@[i].key(),
                    #[trigger] out@[j].key(),
                ) by {
                    if j < before_out.len() {
                        assert(out@[i] == before_out[i] && out@[j] == before_out[j]);
                    } else {
                        assert(out@[i] == before_out[i]);
                        assert(out@[j] == before_rest[best as int]);
                    }
                }
            } else {
                assert forall|i: int, j: int| 0 <= i < j < out@.len() implies !T::before(
                    #[trigger] out@[j].key(),
                    #[trigger] out@[i].key(),
                ) by {
                    if j < before_out.len() {
                        assert(out@[i] == before_out[i] && out@[j] == before_out[j]);
                    } else {
                        assert(out@[i] == before_out[i]);
                        assert(out@[j] == before_rest[best as int]);
                    }
                }
            }
        }
    }
    proof {
        broadcast use vstd::seq_lib::group_to_multiset_ensures;

        assert(rest@ =~= Seq::<T>::empty());
        assert(out@.to_multiset() =~= v@.to_multiset());
    }
    out
}

} // verus!

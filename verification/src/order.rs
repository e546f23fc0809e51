//! Sorting texts, and pairs of texts, by their bytes.
use vstd::prelude::*;
use vstd::string::*;
use vstd::utf8::*;

verus! {

/// Whether `a` comes before `b`, or is `b`, where the first byte in which they
/// differ decides and a prefix comes first.
pub open spec fn bytes_le(a: Seq<u8>, b: Seq<u8>) -> bool
    decreases a.len(),
{
    a.len() == 0 || (b.len() > 0 && (a[0] < b[0] || (a[0] == b[0] && bytes_le(
        a.drop_first(),
        b.drop_first(),
    ))))
}

/// Texts are ordered by their UTF-8 bytes.
pub open spec fn text_le(a: Seq<char>, b: Seq<char>) -> bool {
    bytes_le(encode_utf8(a), encode_utf8(b))
}

proof fn lemma_bytes_total(a: Seq<u8>, b: Seq<u8>)
    ensures
        bytes_le(a, b) || bytes_le(b, a),
        bytes_le(a, b) && bytes_le(b, a) ==> a == b,
    decreases a.len(),
{
    if a.len() > 0 && b.len() > 0 {
        lemma_bytes_total(a.drop_first(), b.drop_first());
        if bytes_le(a, b) && bytes_le(b, a) {
            assert(a =~= seq![a[0]] + a.drop_first());
            assert(b =~= seq![b[0]] + b.drop_first());
        }
    } else if a.len() == 0 && b.len() == 0 {
        assert(a =~= b);
    }
}

proof fn lemma_bytes_transitive(a: Seq<u8>, b: Seq<u8>, c: Seq<u8>)
    requires
        bytes_le(a, b),
        bytes_le(b, c),
    ensures
        bytes_le(a, c),
    decreases a.len(),
{
    if a.len() > 0 && a[0] == b[0] && b[0] == c[0] {
        lemma_bytes_transitive(a.drop_first(), b.drop_first(), c.drop_first());
    }
}

/// Texts that come before each other are the same.
pub proof fn lemma_text_le(a: Seq<char>, b: Seq<char>)
    ensures
        text_le(a, b) && text_le(b, a) ==> a == b,
{
    lemma_bytes_total(encode_utf8(a), encode_utf8(b));
    if text_le(a, b) && text_le(b, a) {
        crate::text::lemma_encode_injective(a, b);
    }
}

/// Whether `a` comes before `b`, or is `b`.
fn at_most(a: &str, b: &str) -> (r: bool)
    ensures
        r == text_le(a@, b@),
{
    let x = a.as_bytes();
    let y = b.as_bytes();
    let mut i: usize = 0;
    assert(x@.skip(0) =~= x@);
    assert(y@.skip(0) =~= y@);
    while i < x.len()
        invariant
            i <= x@.len(),
            i <= y@.len(),
            x@ == encode_utf8(a@),
            y@ == encode_utf8(b@),
            bytes_le(x@, y@) == bytes_le(x@.skip(i as int), y@.skip(i as int)),
        decreases x@.len() - i,
    {
        if i == y.len() {
            return false;
        }
        assert(x@.skip(i as int)[0] == x@[i as int]);
        assert(y@.skip(i as int)[0] == y@[i as int]);
        if x[i] != y[i] {
            return x[i] < y[i];
        }
        assert(x@.skip(i as int).drop_first() =~= x@.skip(i + 1));
        assert(y@.skip(i as int).drop_first() =~= y@.skip(i + 1));
        i = i + 1;
    }
    true
}

/// Values that can be sorted.
pub trait Ranked: View + Sized {
    /// Whether `a` comes before `b`, or is its equal.
    spec fn le(a: Self::V, b: Self::V) -> bool;

    proof fn le_total(a: Self::V, b: Self::V)
        ensures
            Self::le(a, b) || Self::le(b, a),
    ;

    proof fn le_transitive(a: Self::V, b: Self::V, c: Self::V)
        requires
            Self::le(a, b),
            Self::le(b, c),
        ensures
            Self::le(a, c),
    ;

    fn not_after(&self, other: &Self) -> (r: bool)
        ensures
            r == Self::le(self@, other@),
    ;
}

impl Ranked for String {
    open spec fn le(a: Seq<char>, b: Seq<char>) -> bool {
        text_le(a, b)
    }

    proof fn le_total(a: Seq<char>, b: Seq<char>) {
        lemma_bytes_total(encode_utf8(a), encode_utf8(b));
    }

    proof fn le_transitive(a: Seq<char>, b: Seq<char>, c: Seq<char>) {
        lemma_bytes_transitive(encode_utf8(a), encode_utf8(b), encode_utf8(c));
    }

    fn not_after(&self, other: &String) -> (r: bool) {
        at_most(self.as_str(), other.as_str())
    }
}

/// Pairs are ordered by their first texts and, where those are equal, by their
/// second ones.
pub open spec fn pair_le(a: (Seq<char>, Seq<char>), b: (Seq<char>, Seq<char>)) -> bool {
    if a.0 == b.0 {
        text_le(a.1, b.1)
    } else {
        text_le(a.0, b.0)
    }
}

impl Ranked for (String, String) {
    open spec fn le(a: (Seq<char>, Seq<char>), b: (Seq<char>, Seq<char>)) -> bool {
        pair_le(a, b)
    }

    proof fn le_total(a: (Seq<char>, Seq<char>), b: (Seq<char>, Seq<char>)) {
        lemma_bytes_total(encode_utf8(a.0), encode_utf8(b.0));
        lemma_bytes_total(encode_utf8(a.1), encode_utf8(b.1));
    }

    proof fn le_transitive(
        a: (Seq<char>, Seq<char>),
        b: (Seq<char>, Seq<char>),
        c: (Seq<char>, Seq<char>),
    ) {
        if a.0 == b.0 && b.0 == c.0 {
            lemma_bytes_transitive(encode_utf8(a.1), encode_utf8(b.1), encode_utf8(c.1));
        } else if a.0 == b.0 || b.0 == c.0 {
        } else {
            lemma_bytes_transitive(encode_utf8(a.0), encode_utf8(b.0), encode_utf8(c.0));
            if a.0 == c.0 {
                lemma_bytes_total(encode_utf8(a.0), encode_utf8(b.0));
                crate::text::lemma_encode_injective(a.0, b.0);
            }
        }
    }

    fn not_after(&self, other: &(String, String)) -> (r: bool) {
        if crate::text::same(self.0.as_str(), other.0.as_str()) {
            at_most(self.1.as_str(), other.1.as_str())
        } else {
            at_most(self.0.as_str(), other.0.as_str())
        }
    }
}

/// The views of a list's values.
pub open spec fn views<T: View>(list: Seq<T>) -> Seq<T::V> {
    list.map_values(|x: T| x@)
}

/// Whether no value comes before an earlier one.
pub open spec fn ordered<T: Ranked>(list: Seq<T::V>) -> bool {
    forall|i: int, j: int| 0 <= i < j < list.len() ==> T::le(#[trigger] list[i], #[trigger] list[j])
}

/// What comes later in an ordered list of pairs does not come before.
pub proof fn lemma_pairs_ordered(list: Seq<(Seq<char>, Seq<char>)>, i: int, j: int)
    requires
        ordered::<(String, String)>(list),
        0 <= i < j < list.len(),
    ensures
        pair_le(list[i], list[j]),
{
    assert(<(String, String) as Ranked>::le(list[i], list[j]));
}

/// Puts a value into its place in an ordered list.
fn place<T: Ranked>(list: &mut Vec<T>, x: T)
    requires
        ordered::<T>(views(old(list)@)),
    ensures
        ordered::<T>(views(final(list)@)),
        views(final(list)@).to_multiset() == views(old(list)@).to_multiset().insert(x@),
{
    let ghost before = views(list@);
    let mut i: usize = 0;
    while i < list.len() && list[i].not_after(&x)
        invariant
            i <= list@.len(),
            before == views(list@),
            forall|k: int| 0 <= k < i ==> T::le(#[trigger] before[k], x@),
        decreases list@.len() - i,
    {
        assert(before[i as int] == list@[i as int]@);
        i = i + 1;
    }
    proof {
        if i < list@.len() {
            assert(before[i as int] == list@[i as int]@);
            T::le_total(x@, before[i as int]);
            assert forall|k: int| i <= k < before.len() implies T::le(x@, #[trigger] before[k]) by {
                if k > i {
                    assert(T::le(before[i as int], before[k]));
                    T::le_transitive(x@, before[i as int], before[k]);
                }
            }
        }
    }
    list.insert(i, x);
    proof {
        assert(views(list@) =~= before.insert(i as int, x@));
        vstd::seq_lib::to_multiset_insert(before, i as int, x@);
        let after = before.insert(i as int, x@);
        assert forall|a: int, b: int| 0 <= a < b < after.len() implies T::le(
            #[trigger] after[a],
            #[trigger] after[b],
        ) by {
            if a < i && b < i {
                assert(after[a] == before[a] && after[b] == before[b]);
            } else if a < i && b == i {
                assert(after[a] == before[a] && after[b] == x@);
            } else if a < i {
                assert(after[a] == before[a] && after[b] == before[b - 1]);
            } else if a == i {
                assert(after[a] == x@ && after[b] == before[b - 1]);
            } else {
                assert(after[a] == before[a - 1] && after[b] == before[b - 1]);
            }
        }
    }
}

/// Sorts a list: the same values, each as often, in order.
pub fn sort<T: Ranked>(list: Vec<T>) -> (r: Vec<T>)
    ensures
        ordered::<T>(views(r@)),
        views(r@).to_multiset() == views(list@).to_multiset(),
        r@.len() == list@.len(),
{
    let ghost all = views(list@);
    let mut rest = list;
    let mut out: Vec<T> = Vec::new();
    proof {
        assert(views(out@) =~= Seq::<T::V>::empty());
        all.to_multiset_ensures();
        views(out@).to_multiset_ensures();
        assert(views(out@).to_multiset().add(views(rest@).to_multiset()) =~= all.to_multiset());
    }
    while rest.len() > 0
        invariant
            ordered::<T>(views(out@)),
            views(out@).to_multiset().add(views(rest@).to_multiset()) == all.to_multiset(),
            out@.len() + rest@.len() == all.len(),
        decreases rest@.len(),
    {
        let ghost before = rest@;
        let ghost placed = views(out@).to_multiset();
        match rest.pop() {
            Some(x) => {
                proof {
                    assert(views(before) =~= views(rest@).push(x@));
                    vstd::seq_lib::to_multiset_build(views(rest@), x@);
                }
                place(&mut out, x);
                proof {
                    views(out@).to_multiset_ensures();
                    assert(placed.insert(x@).add(views(rest@).to_multiset()) =~= placed.add(
                        views(before).to_multiset(),
                    ));
                    all.to_multiset_ensures();
                    views(rest@).to_multiset_ensures();
                }
            },
            None => {},
        }
    }
    proof {
        assert(views(rest@) =~= Seq::<T::V>::empty());
        views(rest@).to_multiset_ensures();
        assert(views(rest@).to_multiset() =~= vstd::multiset::Multiset::empty());
        assert(views(out@).to_multiset() =~= all.to_multiset());
    }
    out
}

/// Bytes are ordered as words are: the first byte in which they differ decides, whatever
/// follows it, and what goes on after another comes after it.
pub proof fn law_bytes_order(p: Seq<u8>, a: u8, s: Seq<u8>, b: u8, t: Seq<u8>)
    requires
        a < b,
    ensures
        bytes_le(p + seq![a] + s, p + seq![b] + t),
        !bytes_le(p + seq![b] + t, p + seq![a] + s),
        bytes_le(p, p + s),
        s.len() > 0 ==> !bytes_le(p + s, p),
    decreases p.len(),
{
    let x = p + seq![a] + s;
    let y = p + seq![b] + t;
    if p.len() > 0 {
        let q = p.drop_first();
        law_bytes_order(q, a, s, b, t);
        assert(x.drop_first() =~= q + seq![a] + s);
        assert(y.drop_first() =~= q + seq![b] + t);
        assert((p + s).drop_first() =~= q + s);
        assert(x[0] == p[0] && y[0] == p[0] && (p + s)[0] == p[0]);
    } else {
        assert(x[0] == a && y[0] == b);
    }
}

/// Texts are ordered as their bytes are, and pairs by their first texts and then by their
/// second ones.
pub proof fn law_order(a: (Seq<char>, Seq<char>), b: (Seq<char>, Seq<char>))
    ensures
        text_le(a.0, b.0) <==> bytes_le(encode_utf8(a.0), encode_utf8(b.0)),
        a.0 == b.0 ==> (pair_le(a, b) <==> text_le(a.1, b.1)),
        a.0 != b.0 ==> (pair_le(a, b) <==> text_le(a.0, b.0)),
        text_le(a.0, b.0) || text_le(b.0, a.0),
        text_le(a.0, b.0) && text_le(b.0, a.0) ==> a.0 == b.0,
{
    lemma_bytes_total(encode_utf8(a.0), encode_utf8(b.0));
    lemma_text_le(a.0, b.0);
}

} // verus!

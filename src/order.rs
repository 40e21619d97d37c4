//! Lexicographic order on byte strings, and sorting by it.
use vstd::prelude::*;
use vstd::multiset::Multiset;

verus! {

/// `a` comes strictly before `b` in byte-wise lexicographic order
/// (a proper prefix comes first).
pub open spec fn lex_lt(a: Seq<u8>, b: Seq<u8>) -> bool
    decreases a.len(),
{
    if a.len() == 0 {
        b.len() > 0
    } else if b.len() == 0 {
        false
    } else if a[0] != b[0] {
        a[0] < b[0]
    } else {
        lex_lt(a.drop_first(), b.drop_first())
    }
}

/// `a` comes before `b` or equals it.
pub open spec fn lex_le(a: Seq<u8>, b: Seq<u8>) -> bool {
    !lex_lt(b, a)
}

/// Compares two byte strings.
pub fn bytes_lt(a: &[u8], b: &[u8]) -> (r: bool)
    ensures
        r == lex_lt(a@, b@),
{
    let mut i: usize = 0;
    assert(a@.skip(0) =~= a@);
    assert(b@.skip(0) =~= b@);
    while i < a.len() && i < b.len()
        invariant
            0 <= i <= a@.len(),
            i <= b@.len(),
            lex_lt(a@, b@) == lex_lt(a@.skip(i as int), b@.skip(i as int)),
        decreases a@.len() - i,
    {
        if a[i] != b[i] {
            return a[i] < b[i];
        }
        assert(a@.skip(i as int).drop_first() =~= a@.skip(i + 1));
        assert(b@.skip(i as int).drop_first() =~= b@.skip(i + 1));
        i = i + 1;
    }
    i < b.len()
}

/// No byte string comes before itself.
pub proof fn lemma_lex_irreflexive(a: Seq<u8>)
    ensures
        !lex_lt(a, a),
    decreases a.len(),
{
    if a.len() > 0 {
        lemma_lex_irreflexive(a.drop_first());
    }
}

/// Of two distinct byte strings, one comes before the other.
pub proof fn lemma_lex_total(a: Seq<u8>, b: Seq<u8>)
    ensures
        a == b || lex_lt(a, b) || lex_lt(b, a),
    decreases a.len(),
{
    if a.len() > 0 && b.len() > 0 && a[0] == b[0] {
        lemma_lex_total(a.drop_first(), b.drop_first());
        if a.drop_first() == b.drop_first() {
            assert(a =~= seq![a[0]] + a.drop_first());
            assert(b =~= seq![b[0]] + b.drop_first());
        }
    } else if a.len() == 0 && b.len() == 0 {
        assert(a =~= b);
    }
}

/// Two byte strings do not each come before the other.
pub proof fn lemma_lex_asymmetric(a: Seq<u8>, b: Seq<u8>)
    ensures
        !(lex_lt(a, b) && lex_lt(b, a)),
    decreases a.len(),
{
    if a.len() > 0 && b.len() > 0 && a[0] == b[0] {
        lemma_lex_asymmetric(a.drop_first(), b.drop_first());
    }
}

/// The order is transitive.
pub proof fn lemma_lex_transitive(a: Seq<u8>, b: Seq<u8>, c: Seq<u8>)
    requires
        lex_lt(a, b),
        lex_lt(b, c),
    ensures
        lex_lt(a, c),
    decreases a.len(),
{
    if a.len() > 0 && b.len() > 0 && c.len() > 0 && a[0] == b[0] && b[0] == c[0] {
        lemma_lex_transitive(a.drop_first(), b.drop_first(), c.drop_first());
    }
}

/// Two byte strings each of which comes before or equals the other are equal.
pub proof fn lemma_lex_antisymmetric(a: Seq<u8>, b: Seq<u8>)
    requires
        lex_le(a, b),
        lex_le(b, a),
    ensures
        a == b,
{
    lemma_lex_total(a, b);
}

/// "Before or equal" is transitive.
pub proof fn lemma_lex_le_transitive(a: Seq<u8>, b: Seq<u8>, c: Seq<u8>)
    requires
        lex_le(a, b),
        lex_le(b, c),
    ensures
        lex_le(a, c),
{
    lemma_lex_total(a, b);
    lemma_lex_total(b, c);
    lemma_lex_total(a, c);
    if lex_lt(c, a) {
        if a == b {
        } else if b == c {
        } else {
            lemma_lex_transitive(a, b, c);
            lemma_lex_asymmetric(a, c);
        }
    }
}

/// Each element comes before or equals every later one.
pub open spec fn is_sorted(s: Seq<Seq<u8>>) -> bool {
    forall|i: int, j: int| 0 <= i < j < s.len() ==> lex_le(#[trigger] s[i], #[trigger] s[j])
}

/// Where `x` goes into `s`: after the elements that do not come after it.
pub open spec fn insert_pos(s: Seq<Seq<u8>>, x: Seq<u8>) -> int
    decreases s.len(),
{
    if s.len() == 0 {
        0
    } else if lex_lt(x, s.last()) {
        insert_pos(s.drop_last(), x)
    } else {
        s.len() as int
    }
}

/// The byte strings of `s` in ascending order.
pub open spec fn sort_bytes(s: Seq<Seq<u8>>) -> Seq<Seq<u8>>
    decreases s.len(),
{
    if s.len() == 0 {
        s
    } else {
        let rest = sort_bytes(s.drop_first());
        rest.insert(insert_pos(rest, s[0]), s[0])
    }
}

proof fn lemma_insert_pos(s: Seq<Seq<u8>>, x: Seq<u8>)
    requires
        is_sorted(s),
    ensures
        0 <= insert_pos(s, x) <= s.len(),
        forall|j: int| 0 <= j < insert_pos(s, x) ==> lex_le(#[trigger] s[j], x),
        forall|j: int| insert_pos(s, x) <= j < s.len() ==> lex_lt(x, #[trigger] s[j]),
    decreases s.len(),
{
    if s.len() > 0 {
        let p = s.drop_last();
        assert(is_sorted(p));
        lemma_insert_pos(p, x);
        if lex_lt(x, s.last()) {
            assert forall|j: int| 0 <= j < insert_pos(s, x) implies lex_le(#[trigger] s[j], x) by {
                assert(s[j] == p[j]);
            }
            assert forall|j: int| insert_pos(s, x) <= j < s.len() implies lex_lt(x, #[trigger] s[j]) by {
                if j < s.len() - 1 {
                    assert(s[j] == p[j]);
                }
            }
        } else {
            assert forall|j: int| 0 <= j < s.len() implies lex_le(#[trigger] s[j], x) by {
                if j < s.len() - 1 {
                    lemma_lex_le_transitive(s[j], s.last(), x);
                }
            }
        }
    }
}

proof fn lemma_insert_sorted(s: Seq<Seq<u8>>, x: Seq<u8>)
    requires
        is_sorted(s),
    ensures
        is_sorted(s.insert(insert_pos(s, x), x)),
        s.insert(insert_pos(s, x), x).to_multiset() == s.to_multiset().insert(x),
{
    let p = insert_pos(s, x);
    lemma_insert_pos(s, x);
    let t = s.insert(p, x);
    s.insert_ensures(p, x);
    assert forall|i: int, j: int| 0 <= i < j < t.len() implies lex_le(#[trigger] t[i], #[trigger] t[j]) by {
        if j < p {
        } else if j == p {
            assert(t[i] == s[i]);
        } else if i < p {
            assert(t[j] == s[j - 1]);
            lemma_lex_asymmetric(x, s[j - 1]);
            lemma_lex_le_transitive(s[i], x, s[j - 1]);
        } else if i == p {
            lemma_lex_asymmetric(x, s[j - 1]);
        } else {
        }
    }
    assert(t.remove(p) =~= s);
    broadcast use vstd::seq_lib::group_to_multiset_ensures;
    assert(t.remove(p).to_multiset() =~= t.to_multiset().remove(x));
    assert(t.to_multiset().count(x) > 0) by {
        assert(t.contains(x) ) by { assert(t[p] == x); }
    }
    assert(t.to_multiset() =~= s.to_multiset().insert(x));
}

/// The sorted sequence is in ascending order and holds the same strings.
pub proof fn lemma_sort_bytes(s: Seq<Seq<u8>>)
    ensures
        is_sorted(sort_bytes(s)),
        sort_bytes(s).to_multiset() == s.to_multiset(),
    decreases s.len(),
{
    broadcast use vstd::seq_lib::group_to_multiset_ensures;
    if s.len() > 0 {
        let rest = sort_bytes(s.drop_first());
        lemma_sort_bytes(s.drop_first());
        lemma_insert_sorted(rest, s[0]);
        assert(s =~= seq![s[0]] + s.drop_first());
        vstd::seq_lib::lemma_multiset_commutative(seq![s[0]], s.drop_first());
        assert(seq![s[0]].to_multiset() =~= Multiset::empty().insert(s[0])) by {
            assert(seq![s[0]] =~= Seq::<Seq<u8>>::empty().push(s[0]));
        }
    }
}

/// A sequence in ascending order is fixed by which strings it holds.
pub proof fn lemma_sorted_unique(a: Seq<Seq<u8>>, b: Seq<Seq<u8>>)
    requires
        is_sorted(a),
        is_sorted(b),
        a.to_multiset() == b.to_multiset(),
    ensures
        a == b,
    decreases a.len(),
{
    broadcast use vstd::seq_lib::group_to_multiset_ensures;
    assert(a.len() == b.len()) by {
        assert(a.len() == a.to_multiset().len());
        assert(b.len() == b.to_multiset().len());
    }
    if a.len() > 0 {
        let x = a.last();
        let y = b.last();
        assert(a.contains(x));
        assert(b.contains(y));
        assert(b.to_multiset().count(x) > 0);
        assert(a.to_multiset().count(y) > 0);
        let i = choose|i: int| 0 <= i < b.len() && b[i] == x;
        let j = choose|j: int| 0 <= j < a.len() && a[j] == y;
        if i < b.len() - 1 {
            assert(lex_le(b[i], b[b.len() - 1]));
        }
        if j < a.len() - 1 {
            assert(lex_le(a[j], a[a.len() - 1]));
        }
        if j == a.len() - 1 {
            lemma_lex_irreflexive(y);
        }
        if i == b.len() - 1 {
            lemma_lex_irreflexive(x);
        }
        lemma_lex_antisymmetric(x, y);
        let pa = a.drop_last();
        let pb = b.drop_last();
        assert(a =~= pa.push(x));
        assert(b =~= pb.push(x));
        assert(pa.to_multiset() =~= pb.to_multiset()) by {
            assert(pa.to_multiset().insert(x) == pb.to_multiset().insert(x));
            assert forall|v: Seq<u8>| pa.to_multiset().count(v) == pb.to_multiset().count(v) by {
                assert(pa.to_multiset().insert(x).count(v) == pb.to_multiset().insert(x).count(v));
            }
        }
        lemma_sorted_unique(pa, pb);
    } else {
        assert(a =~= b);
    }
}

/// What a list of byte buffers holds.
pub open spec fn views(v: Seq<Vec<u8>>) -> Seq<Seq<u8>> {
    v.map_values(|b: Vec<u8>| b@)
}

/// Sorts byte strings into ascending lexicographic order.
pub fn sort_byte_strings(v: Vec<Vec<u8>>) -> (r: Vec<Vec<u8>>)
    ensures
        views(r@) == sort_bytes(views(v@)),
        is_sorted(views(r@)),
        views(r@).to_multiset() == views(v@).to_multiset(),
{
    let ghost all = views(v@);
    let ghost n = v@.len();
    let mut rest = v;
    let mut out: Vec<Vec<u8>> = Vec::new();
    assert(all.subrange(n as int, n as int) =~= Seq::<Seq<u8>>::empty());
    assert(views(out@) =~= Seq::<Seq<u8>>::empty());
    while rest.len() > 0
        invariant
            n == all.len(),
            rest@.len() <= n,
            views(rest@) == all.subrange(0, rest@.len() as int),
            views(out@) == sort_bytes(all.subrange(rest@.len() as int, n as int)),
        decreases rest@.len(),
    {
        let ghost k = rest@.len();
        let ghost before = views(out@);
        let ghost r0 = rest@;
        let x = rest.pop().unwrap();
        assert(x@ == all[k - 1]) by {
            assert(x == r0[k - 1]);
            assert(views(r0)[k - 1] == all.subrange(0, k as int)[k - 1]);
        }
        assert(views(rest@) =~= all.subrange(0, k - 1));
        let mut pos: usize = out.len();
        assert(before.subrange(0, pos as int) =~= before);
        while pos > 0 && bytes_lt(x.as_slice(), out[pos - 1].as_slice())
            invariant
                before == views(out@),
                0 <= pos <= out@.len(),
                insert_pos(before, x@) == insert_pos(before.subrange(0, pos as int), x@),
            decreases pos,
        {
            assert(before.subrange(0, pos as int).drop_last() =~= before.subrange(0, pos - 1));
            pos = pos - 1;
        }
        out.insert(pos, x);
        assert(all.subrange(k - 1, n as int).drop_first() =~= all.subrange(k as int, n as int));
        assert(views(out@) =~= before.insert(pos as int, x@));
    }
    assert(all.subrange(0, n as int) =~= all);
    proof {
        lemma_sort_bytes(all);
    }
    out
}

} // verus!

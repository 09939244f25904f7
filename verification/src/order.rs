use vstd::prelude::*;
use vstd::relations::{sorted_by, total_ordering};

verus! {

/// `a` comes before `b` in the order of their characters' code points, compared
/// from the first on (the order of their UTF-8 bytes), a proper prefix first.
pub open spec fn chars_lt(a: Seq<char>, b: Seq<char>) -> bool
    decreases a.len(),
{
    if a.len() == 0 {
        b.len() > 0
    } else if b.len() == 0 {
        false
    } else if a[0] != b[0] {
        a[0] < b[0]
    } else {
        chars_lt(a.drop_first(), b.drop_first())
    }
}

pub open spec fn chars_le(a: Seq<char>, b: Seq<char>) -> bool {
    a == b || chars_lt(a, b)
}

pub open spec fn chars_leq() -> spec_fn(Seq<char>, Seq<char>) -> bool {
    |a: Seq<char>, b: Seq<char>| chars_le(a, b)
}

proof fn lemma_split_first(a: Seq<char>)
    requires
        a.len() > 0,
    ensures
        a == seq![a[0]] + a.drop_first(),
{
    assert(a =~= seq![a[0]] + a.drop_first());
}

pub proof fn lemma_lt_irreflexive(a: Seq<char>)
    ensures
        !chars_lt(a, a),
    decreases a.len(),
{
    if a.len() > 0 {
        lemma_lt_irreflexive(a.drop_first());
    }
}

pub proof fn lemma_lt_asymmetric(a: Seq<char>, b: Seq<char>)
    requires
        chars_lt(a, b),
    ensures
        !chars_lt(b, a),
    decreases a.len(),
{
    if a.len() > 0 && b.len() > 0 && a[0] == b[0] {
        lemma_lt_asymmetric(a.drop_first(), b.drop_first());
    }
}

pub proof fn lemma_lt_transitive(a: Seq<char>, b: Seq<char>, c: Seq<char>)
    requires
        chars_lt(a, b),
        chars_lt(b, c),
    ensures
        chars_lt(a, c),
    decreases a.len(),
{
    if a.len() > 0 && b.len() > 0 && c.len() > 0 && a[0] == b[0] && b[0] == c[0] {
        lemma_lt_transitive(a.drop_first(), b.drop_first(), c.drop_first());
    }
}

pub proof fn lemma_lt_total(a: Seq<char>, b: Seq<char>)
    ensures
        a == b || chars_lt(a, b) || chars_lt(b, a),
    decreases a.len(),
{
    if a.len() > 0 && b.len() > 0 {
        if a[0] == b[0] {
            lemma_lt_total(a.drop_first(), b.drop_first());
            if a.drop_first() == b.drop_first() {
                lemma_split_first(a);
                lemma_split_first(b);
            }
        }
    } else if a.len() == 0 && b.len() == 0 {
        assert(a =~= b);
    }
}

/// Of two texts that differ within their first `x.len()` characters, the
/// order of those decides, whatever follows.
pub proof fn lemma_lt_head(x: Seq<char>, y: Seq<char>, u: Seq<char>, v: Seq<char>)
    requires
        x.len() == y.len(),
        chars_lt(x, y),
    ensures
        chars_lt(x + u, y + v),
    decreases x.len(),
{
    assert(x.len() > 0);
    assert((x + u)[0] == x[0] && (y + v)[0] == y[0]);
    if x[0] == y[0] {
        assert((x + u).drop_first() =~= x.drop_first() + u);
        assert((y + v).drop_first() =~= y.drop_first() + v);
        lemma_lt_head(x.drop_first(), y.drop_first(), u, v);
    }
}

/// A common start does not change the order.
pub proof fn lemma_lt_common_start(x: Seq<char>, u: Seq<char>, v: Seq<char>)
    requires
        chars_lt(u, v),
    ensures
        chars_lt(x + u, x + v),
    decreases x.len(),
{
    if x.len() > 0 {
        assert((x + u)[0] == x[0] && (x + v)[0] == x[0]);
        assert((x + u).drop_first() =~= x.drop_first() + u);
        assert((x + v).drop_first() =~= x.drop_first() + v);
        lemma_lt_common_start(x.drop_first(), u, v);
    } else {
        assert(x + u =~= u);
        assert(x + v =~= v);
    }
}

/// The order of names is a total order.
pub proof fn lemma_chars_le_total_ordering()
    ensures
        total_ordering(chars_leq()),
{
    assert forall|a: Seq<char>, b: Seq<char>, c: Seq<char>|
        #[trigger] chars_le(a, b) && #[trigger] chars_le(b, c) implies chars_le(a, c) by {
        if a != b && b != c {
            lemma_lt_transitive(a, b, c);
        }
    }
    assert forall|a: Seq<char>, b: Seq<char>|
        #[trigger] chars_le(a, b) && #[trigger] chars_le(b, a) implies a == b by {
        if a != b {
            lemma_lt_asymmetric(a, b);
        }
    }
    assert forall|a: Seq<char>, b: Seq<char>| #[trigger] chars_le(a, b) || chars_le(b, a) by {
        lemma_lt_total(a, b);
    }
}

/// Whether `a` comes before `b`.
pub fn chars_lt_exec(a: &[char], b: &[char]) -> (r: bool)
    ensures
        r == chars_lt(a@, b@),
{
    let mut i: usize = 0;
    assert(a@.skip(0) =~= a@);
    assert(b@.skip(0) =~= b@);
    while i < a.len() && i < b.len() && a[i] == b[i]
        invariant
            i <= a@.len(),
            i <= b@.len(),
            chars_lt(a@, b@) == chars_lt(a@.skip(i as int), b@.skip(i as int)),
        decreases a.len() - i,
    {
        assert(a@.skip(i as int).drop_first() =~= a@.skip(i + 1));
        assert(b@.skip(i as int).drop_first() =~= b@.skip(i + 1));
        i = i + 1;
    }
    if i == a.len() {
        i < b.len()
    } else if i == b.len() {
        false
    } else {
        a[i] < b[i]
    }
}

pub open spec fn names_view(v: Seq<Vec<char>>) -> Seq<Seq<char>> {
    v.map_values(|x: Vec<char>| x@)
}

/// Puts `x` into the sorted list `v` after every name that does not come
/// after it.
pub fn insert_sorted(v: &mut Vec<Vec<char>>, x: Vec<char>)
    requires
        sorted_by(names_view(old(v)@), chars_leq()),
    ensures
        sorted_by(names_view(final(v)@), chars_leq()),
        names_view(final(v)@).to_multiset() == names_view(old(v)@).to_multiset().insert(x@),
{
    proof {
        lemma_chars_le_total_ordering();
    }
    let ghost before = names_view(v@);
    let mut pos: usize = 0;
    while pos < v.len() && !chars_lt_exec(x.as_slice(), v[pos].as_slice())
        invariant
            pos <= v@.len(),
            names_view(v@) == before,
            forall|k: int| 0 <= k < pos ==> chars_le(#[trigger] before[k], x@),
        decreases v.len() - pos,
    {
        proof {
            lemma_lt_total(x@, before[pos as int]);
        }
        pos = pos + 1;
    }
    let ghost xv = x@;
    v.insert(pos, x);
    let ghost after = names_view(v@);
    assert(after =~= before.insert(pos as int, xv));
    proof {
        vstd::seq_lib::to_multiset_insert(before, pos as int, xv);
        assert forall|i: int, j: int| 0 <= i < j < after.len() implies #[trigger] chars_le(
            after[i],
            after[j],
        ) by {
            if j < pos {
                assert(chars_leq()(before[i], before[j]));
            } else if j == pos {
                assert(chars_le(before[i], xv));
            } else if i < pos {
                assert(chars_le(before[i], xv));
                assert(chars_leq()(before[i], before[j - 1]));
            } else if i == pos {
                assert(chars_lt(xv, before[pos as int]));
                if j - 1 > pos {
                    assert(chars_leq()(before[pos as int], before[j - 1]));
                    if before[pos as int] != before[j - 1] {
                        lemma_lt_transitive(xv, before[pos as int], before[j - 1]);
                    }
                }
                assert(chars_le(xv, before[j - 1]));
            } else {
                assert(chars_leq()(before[i - 1], before[j - 1]));
            }
        }
    }
}

} // verus!

//! The order of texts by code point, and sorting by it.

use vstd::prelude::*;

verus! {

/// `a` and `b` agree before position `k`, and there `a` ends while `b` goes
/// on, or `a` holds the smaller code point.
pub open spec fn decided_at(a: Seq<char>, b: Seq<char>, k: int) -> bool {
    &&& 0 <= k <= a.len()
    &&& k <= b.len()
    &&& forall|j: int| 0 <= j < k ==> a[j] == b[j]
    &&& (k == a.len() && k < b.len()) || (k < a.len() && k < b.len() && (a[k] as int) < (
    b[k] as int))
}

/// `a` comes strictly before `b` in lexicographic order by code point, which
/// is also the order of their UTF-8 bytes.
pub open spec fn precedes(a: Seq<char>, b: Seq<char>) -> bool {
    exists|k: int| decided_at(a, b, k)
}

/// Each text of `s` comes strictly before all that follow it.
pub open spec fn ascending(s: Seq<Seq<char>>) -> bool {
    forall|i: int, j: int| 0 <= i < j < s.len() ==> precedes(s[i], s[j])
}

/// No text comes before itself.
pub proof fn lemma_precedes_irreflexive(a: Seq<char>)
    ensures
        !precedes(a, a),
{
}

/// The order is transitive.
pub proof fn lemma_precedes_transitive(a: Seq<char>, b: Seq<char>, c: Seq<char>)
    requires
        precedes(a, b),
        precedes(b, c),
    ensures
        precedes(a, c),
{
    let k1 = choose|k: int| decided_at(a, b, k);
    let k2 = choose|k: int| decided_at(b, c, k);
    let k = if k1 <= k2 {
        k1
    } else {
        k2
    };
    assert(decided_at(a, c, k));
}

proof fn lemma_total_from(a: Seq<char>, b: Seq<char>, k: int)
    requires
        a != b,
        0 <= k <= a.len(),
        k <= b.len(),
        forall|j: int| 0 <= j < k ==> a[j] == b[j],
    ensures
        precedes(a, b) || precedes(b, a),
    decreases a.len() - k,
{
    if k == a.len() || k == b.len() {
        if k == a.len() && k == b.len() {
            assert(a =~= b);
        } else if k == a.len() {
            assert(decided_at(a, b, k));
        } else {
            assert(decided_at(b, a, k));
        }
    } else if a[k] != b[k] {
        if (a[k] as int) < (b[k] as int) {
            assert(decided_at(a, b, k));
        } else {
            assert(decided_at(b, a, k));
        }
    } else {
        lemma_total_from(a, b, k + 1);
    }
}

/// Of two different texts one comes before the other.
pub proof fn lemma_precedes_total(a: Seq<char>, b: Seq<char>)
    requires
        a != b,
    ensures
        precedes(a, b) || precedes(b, a),
{
    lemma_total_from(a, b, 0);
}

/// An ascending sequence lists a set of texts in one way only: two ascending
/// sequences with the same members are equal.
pub proof fn lemma_ascending_unique(a: Seq<Seq<char>>, b: Seq<Seq<char>>)
    requires
        ascending(a),
        ascending(b),
        a.to_set() == b.to_set(),
    ensures
        a == b,
    decreases a.len(),
{
    if a.len() == 0 {
        if b.len() > 0 {
            assert(b.contains(b[0]));
            assert(b.to_set().contains(b[0]));
            assert(a.to_set().contains(b[0]));
            assert(a.contains(b[0]));
        }
        assert(a =~= b);
    } else {
        assert(a.contains(a[0]));
        assert(a.to_set().contains(a[0]));
        assert(b.to_set().contains(a[0]));
        assert(b.contains(a[0]));
        let j = choose|j: int| 0 <= j < b.len() && b[j] == a[0];
        assert(b.contains(b[0]));
        assert(b.to_set().contains(b[0]));
        assert(a.to_set().contains(b[0]));
        assert(a.contains(b[0]));
        let i = choose|i: int| 0 <= i < a.len() && a[i] == b[0];
        lemma_precedes_irreflexive(a[0]);
        if j > 0 {
            assert(precedes(b[0], b[j]));
            if i > 0 {
                assert(precedes(a[0], a[i]));
                lemma_precedes_transitive(a[0], b[0], a[0]);
            }
        }
        assert(a[0] == b[0]);
        let ta = a.drop_first();
        let tb = b.drop_first();
        assert(ascending(ta)) by {
            assert forall|p: int, q: int| 0 <= p < q < ta.len() implies precedes(ta[p], ta[q]) by {
                assert(precedes(a[p + 1], a[q + 1]));
            }
        }
        assert(ascending(tb)) by {
            assert forall|p: int, q: int| 0 <= p < q < tb.len() implies precedes(tb[p], tb[q]) by {
                assert(precedes(b[p + 1], b[q + 1]));
            }
        }
        assert forall|x: Seq<char>| ta.to_set().contains(x) == tb.to_set().contains(x) by {
            if ta.to_set().contains(x) {
                lemma_tail_member(a, b, x);
            }
            if tb.to_set().contains(x) {
                lemma_tail_member(b, a, x);
            }
        }
        assert(ta.to_set() =~= tb.to_set());
        lemma_ascending_unique(ta, tb);
        assert(a =~= seq![a[0]] + ta);
        assert(b =~= seq![b[0]] + tb);
    }
}

proof fn lemma_tail_member(a: Seq<Seq<char>>, b: Seq<Seq<char>>, x: Seq<char>)
    requires
        ascending(a),
        ascending(b),
        a.to_set() == b.to_set(),
        a.len() > 0,
        b.len() > 0,
        a[0] == b[0],
        a.drop_first().to_set().contains(x),
    ensures
        b.drop_first().to_set().contains(x),
{
    let ta = a.drop_first();
    let tb = b.drop_first();
    assert(ta.contains(x));
    let p = choose|p: int| 0 <= p < ta.len() && ta[p] == x;
    assert(a[p + 1] == x);
    assert(precedes(a[0], a[p + 1]));
    lemma_precedes_irreflexive(x);
    assert(a.contains(x));
    assert(a.to_set().contains(x));
    assert(b.to_set().contains(x));
    assert(b.contains(x));
    let q = choose|q: int| 0 <= q < b.len() && b[q] == x;
    assert(q > 0);
    assert(tb[q - 1] == x);
    assert(tb.contains(x));
}

/// Whether the code point of `x` is smaller than that of `y`.
fn below(x: char, y: char) -> (r: bool)
    ensures
        r == ((x as int) < (y as int)),
{
    x < y
}

/// Whether `a` comes strictly before `b`.
pub fn comes_before(a: &Vec<char>, b: &Vec<char>) -> (r: bool)
    ensures
        r == precedes(a@, b@),
{
    let mut k: usize = 0;
    while k < a.len() && k < b.len()
        invariant
            k <= a.len(),
            k <= b.len(),
            forall|j: int| 0 <= j < k ==> a@[j] == b@[j],
        decreases a.len() - k,
    {
        if a[k] != b[k] {
            let r = below(a[k], b[k]);
            assert(r ==> decided_at(a@, b@, k as int));
            assert(!r ==> forall|m: int| !decided_at(a@, b@, m));
            return r;
        }
        k += 1;
    }
    let r = k == a.len() && k < b.len();
    assert(r ==> decided_at(a@, b@, k as int));
    assert(!r ==> forall|m: int| !decided_at(a@, b@, m));
    r
}

/// The views of the texts of `v`.
pub open spec fn views(v: Seq<Vec<char>>) -> Seq<Seq<char>> {
    Seq::new(v.len(), |i: int| v[i]@)
}

/// The texts of `v` in ascending order, each once.
pub fn sort(v: Vec<Vec<char>>) -> (out: Vec<Vec<char>>)
    ensures
        ascending(views(out@)),
        views(out@).to_set() == views(v@).to_set(),
{
    let mut rest = v;
    let mut out: Vec<Vec<char>> = Vec::new();
    assert(views(out@).to_set() + views(rest@).to_set() =~= views(v@).to_set());
    while rest.len() > 0
        invariant
            ascending(views(out@)),
            views(out@).to_set() + views(rest@).to_set() == views(v@).to_set(),
        decreases rest.len(),
    {
        let ghost before = rest@;
        let ghost sorted = out@;
        let x = rest.pop().unwrap();
        let mut p: usize = 0;
        while p < out.len() && comes_before(&out[p], &x)
            invariant
                p <= out.len(),
                forall|i: int| 0 <= i < p ==> precedes(#[trigger] out@[i]@, x@),
            decreases out.len() - p,
        {
            p += 1;
        }
        assert(views(before).to_set() =~= views(rest@).to_set().insert(x@)) by {
            lemma_views_push(rest@, x);
            assert(before =~= rest@.push(x));
        }
        if p < out.len() && !comes_before(&x, &out[p]) {
            proof {
                if out@[p as int]@ != x@ {
                    lemma_precedes_total(out@[p as int]@, x@);
                }
                assert(views(out@)[p as int] == x@);
                assert(views(out@).contains(x@));
                assert(views(out@).to_set().contains(x@));
                assert(views(out@).to_set() + views(rest@).to_set() =~= views(out@).to_set()
                    + views(before).to_set());
            }
        } else {
            out.insert(p, x);
            proof {
                lemma_views_insert(sorted, p as int, x);
                let s = views(sorted);
                let t = views(out@);
                assert forall|i: int, j: int| 0 <= i < j < t.len() implies precedes(t[i], t[j]) by {
                    if j < p {
                        assert(precedes(s[i], s[j]));
                    } else if j == p {
                        assert(precedes(sorted[i]@, x@));
                    } else if i < p {
                        assert(precedes(s[i], s[j - 1]));
                    } else if i == p {
                        assert(precedes(x@, s[p as int]));
                        if j - 1 > p {
                            assert(precedes(s[p as int], s[j - 1]));
                            lemma_precedes_transitive(x@, s[p as int], s[j - 1]);
                        }
                    } else {
                        assert(precedes(s[i - 1], s[j - 1]));
                    }
                }
                assert(t.to_set() + views(rest@).to_set() =~= s.to_set() + views(before).to_set());
            }
        }
    }
    assert(views(rest@).to_set() =~= Set::empty());
    assert(views(out@).to_set() + views(rest@).to_set() =~= views(out@).to_set());
    out
}

proof fn lemma_views_push(v: Seq<Vec<char>>, x: Vec<char>)
    ensures
        views(v.push(x)) == views(v).push(x@),
        views(v.push(x)).to_set() == views(v).to_set().insert(x@),
{
    let a = views(v.push(x));
    let b = views(v).push(x@);
    assert(a =~= b);
    assert forall|t: Seq<char>| a.to_set().contains(t) == views(v).to_set().insert(x@).contains(
        t,
    ) by {
        if a.contains(t) {
            let i = choose|i: int| 0 <= i < a.len() && a[i] == t;
            if i < v.len() {
                assert(views(v)[i] == t);
                assert(views(v).contains(t));
            }
        }
        if views(v).contains(t) {
            let i = choose|i: int| 0 <= i < views(v).len() && views(v)[i] == t;
            assert(a[i] == t);
        }
        if t == x@ {
            assert(a[v.len() as int] == t);
        }
    }
    assert(a.to_set() =~= views(v).to_set().insert(x@));
}

proof fn lemma_views_insert(v: Seq<Vec<char>>, p: int, x: Vec<char>)
    requires
        0 <= p <= v.len(),
    ensures
        views(v.insert(p, x)) == views(v).insert(p, x@),
        views(v.insert(p, x)).to_set() == views(v).to_set().insert(x@),
{
    let a = views(v.insert(p, x));
    let b = views(v).insert(p, x@);
    assert(a =~= b);
    assert forall|t: Seq<char>| a.to_set().contains(t) == views(v).to_set().insert(x@).contains(
        t,
    ) by {
        if a.contains(t) {
            let i = choose|i: int| 0 <= i < a.len() && a[i] == t;
            if i < p {
                assert(views(v)[i] == t);
                assert(views(v).contains(t));
            } else if i > p {
                assert(views(v)[i - 1] == t);
                assert(views(v).contains(t));
            }
        }
        if views(v).contains(t) {
            let i = choose|i: int| 0 <= i < views(v).len() && views(v)[i] == t;
            if i < p {
                assert(a[i] == t);
            } else {
                assert(a[i + 1] == t);
            }
        }
        if t == x@ {
            assert(a[p] == t);
        }
    }
    assert(a.to_set() =~= views(v).to_set().insert(x@));
}

} // verus!

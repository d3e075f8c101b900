//! Association lists: insertion-ordered maps from names to values, as mathematics.

use vstd::prelude::*;

verus! {

/// A name: a key of a variable map, or what a host or a group is called.
pub type Name = Seq<char>;

/// The position of the first entry under `k`, or the length of `s` where there is none.
pub open spec fn pos<V>(s: Seq<(Name, V)>, k: Name) -> int
    decreases s.len(),
{
    if s.len() == 0 {
        0
    } else if s[0].0 == k {
        0
    } else {
        1 + pos(s.drop_first(), k)
    }
}

/// `s` has an entry under `k`.
pub open spec fn holds<V>(s: Seq<(Name, V)>, k: Name) -> bool {
    pos(s, k) < s.len()
}

/// The value under `k`, where there is one.
pub open spec fn get<V>(s: Seq<(Name, V)>, k: Name) -> Option<V> {
    if holds(s, k) {
        Some(s[pos(s, k)].1)
    } else {
        None
    }
}

/// `s` with `v` under `k`: in the place of the entry that was there, else at the end.
pub open spec fn put<V>(s: Seq<(Name, V)>, k: Name, v: V) -> Seq<(Name, V)> {
    if holds(s, k) {
        s.update(pos(s, k), (k, v))
    } else {
        s.push((k, v))
    }
}

/// `s` without its entry under `k`; the last entry moves into the gap.
pub open spec fn cut<V>(s: Seq<(Name, V)>, k: Name) -> Seq<(Name, V)> {
    if holds(s, k) {
        s.update(pos(s, k), s.last()).drop_last()
    } else {
        s
    }
}

/// `s` with every entry of `t` put into it, in order: `t` wins where both have a key.
pub open spec fn overlay<V>(s: Seq<(Name, V)>, t: Seq<(Name, V)>) -> Seq<(Name, V)>
    decreases t.len(),
{
    if t.len() == 0 {
        s
    } else {
        put(overlay(s, t.drop_last()), t.last().0, t.last().1)
    }
}

/// The keys, in order.
pub open spec fn keys<V>(s: Seq<(Name, V)>) -> Seq<Name> {
    Seq::new(s.len(), |i: int| s[i].0)
}

/// No key stands twice.
pub open spec fn distinct<V>(s: Seq<(Name, V)>) -> bool {
    forall|i: int, j: int| 0 <= i < j < s.len() ==> (#[trigger] s[i]).0 != (#[trigger] s[j]).0
}

/// What `pos` means.
pub proof fn lemma_pos<V>(s: Seq<(Name, V)>, k: Name)
    ensures
        0 <= pos(s, k) <= s.len(),
        forall|j: int| 0 <= j < pos(s, k) ==> (#[trigger] s[j]).0 != k,
        pos(s, k) < s.len() ==> s[pos(s, k)].0 == k,
    decreases s.len(),
{
    if s.len() > 0 && s[0].0 != k {
        lemma_pos(s.drop_first(), k);
        assert forall|j: int| 0 <= j < pos(s, k) implies (#[trigger] s[j]).0 != k by {
            if j > 0 {
                assert(s.drop_first()[j - 1] == s[j]);
            }
        }
    }
}

/// A position with those properties is the one `pos` gives.
pub proof fn lemma_pos_unique<V>(s: Seq<(Name, V)>, k: Name, i: int)
    requires
        0 <= i <= s.len(),
        forall|j: int| 0 <= j < i ==> (#[trigger] s[j]).0 != k,
        i < s.len() ==> s[i].0 == k,
    ensures
        pos(s, k) == i,
{
    lemma_pos(s, k);
    let p = pos(s, k);
    if p < i {
        assert(s[p].0 != k);
    } else if i < p {
        assert(s[i].0 != k);
    }
}

/// `holds` says that some entry stands under the key.
pub proof fn lemma_has<V>(s: Seq<(Name, V)>, k: Name)
    ensures
        holds(s, k) <==> exists|i: int| 0 <= i < s.len() && (#[trigger] s[i]).0 == k,
        holds(s, k) <==> keys(s).contains(k),
{
    lemma_pos(s, k);
    if holds(s, k) {
        assert(keys(s)[pos(s, k)] == k);
    }
    if keys(s).contains(k) {
        let i = choose|i: int| 0 <= i < keys(s).len() && keys(s)[i] == k;
        assert(s[i].0 == k);
    }
}

/// What stands under a key after `put`: the new value under `k`, the old one elsewhere.
pub proof fn lemma_put_get<V>(s: Seq<(Name, V)>, k: Name, v: V, q: Name)
    ensures
        get(put(s, k, v), q) == (if q == k {
            Some(v)
        } else {
            get(s, q)
        }),
        holds(put(s, k, v), q) == (q == k || holds(s, q)),
{
    lemma_pos(s, k);
    lemma_pos(s, q);
    let t = put(s, k, v);
    let p = pos(s, q);
    if q == k {
        lemma_pos_unique(t, q, pos(s, k));
    } else if p < s.len() {
        assert(t[p] == s[p]);
        assert forall|j: int| 0 <= j < p implies (#[trigger] t[j]).0 != q by {
            assert(s[j].0 != q);
        }
        lemma_pos_unique(t, q, p);
    } else {
        assert forall|j: int| 0 <= j < t.len() implies (#[trigger] t[j]).0 != q by {
            if j < s.len() {
                assert(s[j].0 != q);
            }
        }
        lemma_pos_unique(t, q, t.len() as int);
    }
}

/// `put` keeps keys distinct.
pub proof fn lemma_put_distinct<V>(s: Seq<(Name, V)>, k: Name, v: V)
    requires
        distinct(s),
    ensures
        distinct(put(s, k, v)),
{
    lemma_pos(s, k);
    let t = put(s, k, v);
    assert forall|i: int, j: int| 0 <= i < j < t.len() implies (#[trigger] t[i]).0 != (
    #[trigger] t[j]).0 by {
        if holds(s, k) {
            assert(s[i].0 != s[j].0);
        } else if j < s.len() {
            assert(s[i].0 != s[j].0);
        } else {
            assert(s[i].0 != k);
        }
    }
}

/// What stands under a key after `cut`, where keys are distinct.
pub proof fn lemma_cut_get<V>(s: Seq<(Name, V)>, k: Name, q: Name)
    requires
        distinct(s),
    ensures
        distinct(cut(s, k)),
        get(cut(s, k), q) == (if q == k {
            None
        } else {
            get(s, q)
        }),
{
    lemma_pos(s, k);
    lemma_pos(s, q);
    let t = cut(s, k);
    let p = pos(s, k);
    let r = pos(s, q);
    if holds(s, k) {
        assert forall|i: int, j: int| 0 <= i < j < t.len() implies (#[trigger] t[i]).0 != (
        #[trigger] t[j]).0 by {
            let a = if i == p {
                s.len() - 1
            } else {
                i
            };
            let b = if j == p {
                s.len() - 1
            } else {
                j
            };
            assert(t[i] == s[a] && t[j] == s[b]);
            if a < b {
                assert(s[a].0 != s[b].0);
            } else {
                assert(s[b].0 != s[a].0);
            }
        }
        let w = if q == k {
            t.len() as int
        } else if r == s.len() {
            t.len() as int
        } else if r == s.len() - 1 {
            p
        } else {
            r
        };
        assert forall|j: int| 0 <= j < w implies (#[trigger] t[j]).0 != q by {
            let a = if j == p {
                s.len() - 1
            } else {
                j
            };
            assert(t[j] == s[a]);
            if q == k {
                if a < p {
                    assert(s[a].0 != s[p].0);
                } else {
                    assert(s[p].0 != s[a].0);
                }
            } else if r < s.len() {
                if a < r {
                    assert(s[a].0 != s[r].0);
                } else {
                    assert(s[r].0 != s[a].0);
                }
            } else {
                assert(s[a].0 != q);
            }
        }
        lemma_pos_unique(t, q, w);
    }
}

/// `overlay` keeps keys distinct.
pub proof fn lemma_overlay_distinct<V>(s: Seq<(Name, V)>, t: Seq<(Name, V)>)
    requires
        distinct(s),
    ensures
        distinct(overlay(s, t)),
    decreases t.len(),
{
    if t.len() > 0 {
        lemma_overlay_distinct(s, t.drop_last());
        lemma_put_distinct(overlay(s, t.drop_last()), t.last().0, t.last().1);
    }
}

/// What stands under a key after `overlay`: the value of `t` where `t` has the key, else
/// that of `s`.
pub proof fn lemma_overlay_get<V>(s: Seq<(Name, V)>, t: Seq<(Name, V)>, q: Name)
    requires
        distinct(t),
    ensures
        get(overlay(s, t), q) == (if holds(t, q) {
            get(t, q)
        } else {
            get(s, q)
        }),
    decreases t.len(),
{
    if t.len() > 0 {
        let u = t.drop_last();
        assert(distinct(u)) by {
            assert forall|i: int, j: int| 0 <= i < j < u.len() implies (#[trigger] u[i]).0 != (
            #[trigger] u[j]).0 by {
                assert(t[i].0 != t[j].0);
            }
        }
        lemma_overlay_get(s, u, q);
        lemma_put_get(overlay(s, u), t.last().0, t.last().1, q);
        lemma_pos(u, q);
        lemma_pos(t, q);
        let n = t.len() - 1;
        if q == t.last().0 {
            assert forall|j: int| 0 <= j < n implies (#[trigger] t[j]).0 != q by {
                assert(t[j].0 != t[n].0);
            }
            lemma_pos_unique(t, q, n);
        } else if holds(u, q) {
            assert forall|j: int| 0 <= j < pos(u, q) implies (#[trigger] t[j]).0 != q by {
                assert(u[j].0 != q);
            }
            assert(t[pos(u, q)] == u[pos(u, q)]);
            lemma_pos_unique(t, q, pos(u, q));
        } else {
            assert forall|j: int| 0 <= j < t.len() implies (#[trigger] t[j]).0 != q by {
                if j < n {
                    assert(u[j].0 != q);
                }
            }
            lemma_pos_unique(t, q, t.len() as int);
        }
    }
}

} // verus!

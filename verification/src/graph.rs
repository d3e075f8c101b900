//! Reachability in a finite directed graph of names, and the depth-first walk that
//! computes it.

use vstd::prelude::*;
use crate::assoc::Name;

verus! {

/// A graph: what each node points to, in order.
pub type Edges = Map<Name, Seq<Name>>;

/// What a node points to; nothing, for a node that the graph does not have.
pub open spec fn steps(e: Edges, n: Name) -> Seq<Name> {
    if e.dom().contains(n) {
        e[n]
    } else {
        Seq::empty()
    }
}

/// The nodes in the order in which a depth-first walk first meets them. `stack` holds what
/// is still to be looked at, the next node last; `acc` holds what has been met.
pub open spec fn walk(e: Edges, stack: Seq<Name>, acc: Seq<Name>) -> Seq<Name>
    decreases e.dom().difference(acc.to_set()).len(), stack.len(),
    when e.dom().finite()
{
    proof {
        if stack.len() > 0 && !acc.contains(stack.last()) {
            lemma_unseen_shrinks(e.dom(), acc, stack.last());
        }
    }
    if stack.len() == 0 {
        acc
    } else if acc.contains(stack.last()) {
        walk(e, stack.drop_last(), acc)
    } else {
        walk(e, stack.drop_last() + steps(e, stack.last()), acc.push(stack.last()))
    }
}

/// Meeting a node leaves fewer unmet nodes, or as many where the graph lacks the node.
pub proof fn lemma_unseen_shrinks(d: Set<Name>, acc: Seq<Name>, n: Name)
    requires
        d.finite(),
        !acc.contains(n),
    ensures
        d.contains(n) ==> d.difference(acc.push(n).to_set()).len() < d.difference(
            acc.to_set(),
        ).len(),
        !d.contains(n) ==> d.difference(acc.push(n).to_set()).len() == d.difference(
            acc.to_set(),
        ).len(),
{
    let a = d.difference(acc.to_set());
    let b = d.difference(acc.push(n).to_set());
    assert forall|x: Name| acc.push(n).contains(x) <==> (acc.contains(x) || x == n) by {
        if acc.contains(x) {
            let i = choose|i: int| 0 <= i < acc.len() && acc[i] == x;
            assert(acc.push(n)[i] == x);
        }
        if x == n {
            assert(acc.push(n)[acc.len() as int] == x);
        }
    }
    if d.contains(n) {
        assert(b =~= a.remove(n));
    } else {
        assert(b =~= a);
    }
}

/// `p` is a chain of nodes each of which points to the next.
pub open spec fn chain(e: Edges, p: Seq<Name>) -> bool {
    p.len() > 0 && forall|i: int|
        0 <= i < p.len() - 1 ==> steps(e, #[trigger] p[i]).contains(p[i + 1])
}

/// `b` can be reached from `a` along the edges (in no step, where they are the same).
pub open spec fn reaches(e: Edges, a: Name, b: Name) -> bool {
    exists|p: Seq<Name>| #[trigger] chain(e, p) && p[0] == a && p.last() == b
}

/// A node reaches itself.
pub proof fn lemma_reaches_self(e: Edges, a: Name)
    ensures
        reaches(e, a, a),
{
    let p = seq![a];
    assert(chain(e, p) && p[0] == a && p.last() == a);
}

/// One more step keeps a node within reach.
pub proof fn lemma_reaches_step(e: Edges, a: Name, b: Name, c: Name)
    requires
        reaches(e, a, b),
        steps(e, b).contains(c),
    ensures
        reaches(e, a, c),
{
    let p = choose|p: Seq<Name>| #[trigger] chain(e, p) && p[0] == a && p.last() == b;
    let q = p.push(c);
    assert forall|i: int| 0 <= i < q.len() - 1 implies steps(e, #[trigger] q[i]).contains(
        q[i + 1],
    ) by {
        if i < p.len() - 1 {
            assert(steps(e, p[i]).contains(p[i + 1]));
        }
    }
    assert(chain(e, q) && q[0] == a && q.last() == c);
}

/// A set that holds a node and is closed under the edges holds all that the node reaches.
pub proof fn lemma_closed_reaches(e: Edges, s: Set<Name>, a: Name, b: Name)
    requires
        s.contains(a),
        forall|x: Name, y: Name|
            #![trigger s.contains(x), steps(e, x).contains(y)]
            s.contains(x) && steps(e, x).contains(y) ==> s.contains(y),
        reaches(e, a, b),
    ensures
        s.contains(b),
{
    let p = choose|p: Seq<Name>| #[trigger] chain(e, p) && p[0] == a && p.last() == b;
    lemma_closed_chain(e, s, p, p.len() - 1);
}

proof fn lemma_closed_chain(e: Edges, s: Set<Name>, p: Seq<Name>, i: int)
    requires
        chain(e, p),
        s.contains(p[0]),
        0 <= i < p.len(),
        forall|x: Name, y: Name|
            #![trigger s.contains(x), steps(e, x).contains(y)]
            s.contains(x) && steps(e, x).contains(y) ==> s.contains(y),
    ensures
        s.contains(p[i]),
    decreases i,
{
    if i > 0 {
        lemma_closed_chain(e, s, p, i - 1);
        assert(steps(e, p[i - 1]).contains(p[i - 1 + 1]));
    }
}

/// What the walk keeps: it only adds to `acc`, it ends with everything that was on the
/// stack, nothing stands twice, and what it met is closed under the edges where whatever
/// it had met before led into `acc` or the stack.
proof fn lemma_walk(e: Edges, stack: Seq<Name>, acc: Seq<Name>)
    requires
        e.dom().finite(),
        acc.no_duplicates(),
        forall|x: Name, y: Name|
            #![trigger acc.contains(x), steps(e, x).contains(y)]
            acc.contains(x) && steps(e, x).contains(y) ==> acc.contains(y) || stack.contains(y),
    ensures
        walk(e, stack, acc).no_duplicates(),
        acc.is_prefix_of(walk(e, stack, acc)),
        forall|x: Name| acc.contains(x) ==> #[trigger] walk(e, stack, acc).contains(x),
        forall|x: Name| stack.contains(x) ==> #[trigger] walk(e, stack, acc).contains(x),
        forall|x: Name, y: Name|
            #![trigger walk(e, stack, acc).contains(x), steps(e, x).contains(y)]
            walk(e, stack, acc).contains(x) && steps(e, x).contains(y) ==> walk(
                e,
                stack,
                acc,
            ).contains(y),
    decreases e.dom().difference(acc.to_set()).len(), stack.len(),
{
    if stack.len() > 0 {
        let n = stack.last();
        let rest = stack.drop_last();
        assert forall|x: Name| stack.contains(x) implies x == n || rest.contains(x) by {
            let i = choose|i: int| 0 <= i < stack.len() && stack[i] == x;
            if i < rest.len() {
                assert(rest[i] == x);
            }
        }
        if acc.contains(n) {
            lemma_walk(e, rest, acc);
        } else {
            lemma_unseen_shrinks(e.dom(), acc, n);
            let next = rest + steps(e, n);
            let more = acc.push(n);
            assert forall|x: Name| rest.contains(x) implies next.contains(x) by {
                let i = choose|i: int| 0 <= i < rest.len() && rest[i] == x;
                assert(next[i] == x);
            }
            assert forall|x: Name| steps(e, n).contains(x) implies next.contains(x) by {
                let i = choose|i: int| 0 <= i < steps(e, n).len() && steps(e, n)[i] == x;
                assert(next[rest.len() + i] == x);
            }
            assert forall|x: Name| more.contains(x) <==> (acc.contains(x) || x == n) by {
                if acc.contains(x) {
                    let i = choose|i: int| 0 <= i < acc.len() && acc[i] == x;
                    assert(more[i] == x);
                }
                if x == n {
                    assert(more[acc.len() as int] == x);
                }
            }
            assert(more.no_duplicates());
            lemma_walk(e, next, more);
            assert(acc.is_prefix_of(more));
        }
    }
}

/// Every node the walk met is in `acc` or within reach of the stack.
proof fn lemma_walk_sound(e: Edges, stack: Seq<Name>, acc: Seq<Name>, x: Name)
    requires
        e.dom().finite(),
        walk(e, stack, acc).contains(x),
    ensures
        acc.contains(x) || exists|s: Name| #[trigger]
            stack.contains(s) && reaches(e, s, x),
    decreases e.dom().difference(acc.to_set()).len(), stack.len(),
{
    if stack.len() > 0 {
        let n = stack.last();
        let rest = stack.drop_last();
        assert(stack.contains(n));
        assert forall|y: Name| rest.contains(y) implies stack.contains(y) by {
            let i = choose|i: int| 0 <= i < rest.len() && rest[i] == y;
            assert(stack[i] == y);
        }
        if acc.contains(n) {
            lemma_walk_sound(e, rest, acc, x);
            if !acc.contains(x) {
                let s = choose|s: Name| #[trigger] rest.contains(s) && reaches(e, s, x);
                assert(stack.contains(s) && reaches(e, s, x));
            }
        } else {
            lemma_unseen_shrinks(e.dom(), acc, n);
            let next = rest + steps(e, n);
            lemma_walk_sound(e, next, acc.push(n), x);
            if acc.push(n).contains(x) {
                let i = choose|i: int| 0 <= i < acc.push(n).len() && acc.push(n)[i] == x;
                if i < acc.len() {
                    assert(acc[i] == x);
                } else {
                    lemma_reaches_self(e, n);
                    assert(stack.contains(n) && reaches(e, n, x));
                }
            } else {
                let s = choose|s: Name| #[trigger] next.contains(s) && reaches(e, s, x);
                let i = choose|i: int| 0 <= i < next.len() && next[i] == s;
                if i < rest.len() {
                    assert(rest[i] == s);
                    assert(stack.contains(s) && reaches(e, s, x));
                } else {
                    assert(steps(e, n)[i - rest.len()] == s);
                    lemma_reaches_from(e, n, s, x);
                    assert(stack.contains(n) && reaches(e, n, x));
                }
            }
        }
    }
}

/// A node reaches what its neighbours reach.
pub proof fn lemma_reaches_from(e: Edges, a: Name, b: Name, c: Name)
    requires
        steps(e, a).contains(b),
        reaches(e, b, c),
    ensures
        reaches(e, a, c),
{
    let p = choose|p: Seq<Name>| #[trigger] chain(e, p) && p[0] == b && p.last() == c;
    let q = seq![a] + p;
    assert forall|i: int| 0 <= i < q.len() - 1 implies steps(e, #[trigger] q[i]).contains(
        q[i + 1],
    ) by {
        if i > 0 {
            assert(q[i] == p[i - 1]);
            assert(q[i + 1] == p[i - 1 + 1]);
            assert(steps(e, p[i - 1]).contains(p[i - 1 + 1]));
        }
    }
    assert(chain(e, q) && q[0] == a && q.last() == c);
}

/// The walk from some nodes meets exactly what can be reached from them, each once.
pub proof fn lemma_walk_is_reach(e: Edges, stack: Seq<Name>)
    requires
        e.dom().finite(),
    ensures
        walk(e, stack, Seq::empty()).no_duplicates(),
        forall|x: Name|
            #[trigger] walk(e, stack, Seq::empty()).contains(x) <==> exists|s: Name| #[trigger]
                stack.contains(s) && reaches(e, s, x),
{
    let w = walk(e, stack, Seq::empty());
    lemma_walk(e, stack, Seq::empty());
    assert forall|x: Name| #[trigger] w.contains(x) <==> exists|s: Name| #[trigger]
        stack.contains(s) && reaches(e, s, x) by {
        if w.contains(x) {
            lemma_walk_sound(e, stack, Seq::empty(), x);
        }
        if exists|s: Name| #[trigger] stack.contains(s) && reaches(e, s, x) {
            let s = choose|s: Name| #[trigger] stack.contains(s) && reaches(e, s, x);
            assert forall|x: Name, y: Name|
                #![trigger w.to_set().contains(x), steps(e, x).contains(y)]
                w.to_set().contains(x) && steps(e, x).contains(y) implies w.to_set().contains(
                y,
            ) by {
                assert(w.contains(x));
            }
            assert(w.contains(s));
            lemma_closed_reaches(e, w.to_set(), s, x);
        }
    }
}

} // verus!

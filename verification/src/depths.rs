//! How deep groups lie: a group that is linked under another lies below it, and what is
//! below a group moves down with it. On a cycle of links each group pushes down once.

use vstd::prelude::*;
use vstd::set_lib::lemma_len_subset;
use crate::assoc::Name;
use crate::graph::{lemma_closed_reaches, lemma_reaches_from, lemma_reaches_self, lemma_reaches_step, lemma_unseen_shrinks, reaches, steps, Edges};

verus! {

/// How deep each group lies.
pub type Depths = Map<Name, nat>;

/// The depth below `d`; the largest depth is its own successor.
pub open spec fn below(d: nat) -> nat {
    if d < u32::MAX {
        d + 1
    } else {
        d
    }
}

/// The depths after everything below `g` moved down to lie below what it is linked under.
/// `open` are `g` and the groups on the way to it, which are not moved.
pub open spec fn sunk(ch: Edges, d: Depths, g: Name, open: Set<Name>) -> Depths
    decreases ch.dom().difference(open).len(), 1nat, 0nat,
    when ch.dom().finite()
{
    sunk_children(ch, d, g, steps(ch, g), open)
}

/// The depths after some of the groups linked under `g`, and everything below them, moved
/// down.
pub open spec fn sunk_children(
    ch: Edges,
    d: Depths,
    g: Name,
    cs: Seq<Name>,
    open: Set<Name>,
) -> Depths
    decreases ch.dom().difference(open).len(), 0nat, cs.len(),
    when ch.dom().finite()
{
    if cs.len() == 0 {
        d
    } else if open.contains(cs[0]) || !ch.dom().contains(cs[0]) || d[cs[0]] >= below(d[g]) {
        sunk_children(ch, d, g, cs.drop_first(), open)
    } else {
        proof {
            lemma_open(ch.dom(), open, cs[0]);
        }
        let e = sunk(ch, d.insert(cs[0], below(d[g])), cs[0], open.insert(cs[0]));
        sunk_children(ch, e, g, cs.drop_first(), open)
    }
}

/// Opening a group leaves fewer to open.
pub proof fn lemma_open(d: Set<Name>, open: Set<Name>, g: Name)
    requires
        d.finite(),
        d.contains(g),
        !open.contains(g),
    ensures
        d.difference(open.insert(g)).len() < d.difference(open).len(),
{
    let a = d.difference(open);
    assert(d.difference(open.insert(g)).subset_of(a.remove(g)));
    lemma_len_subset(d.difference(open.insert(g)), a.remove(g));
}

/// `e` is `d` with some depths larger, none of them those of open groups, and none beyond
/// `u32::MAX`.
pub open spec fn only_deeper(d: Depths, e: Depths, open: Set<Name>) -> bool {
    &&& d.dom() == e.dom()
    &&& forall|q: Name| #[trigger]
        d.dom().contains(q) ==> d[q] <= e[q] && (d[q] <= u32::MAX ==> e[q] <= u32::MAX)
    &&& forall|q: Name| #[trigger] open.contains(q) ==> e[q] == d[q]
}

/// Moving down makes no depth smaller and moves no open group.
pub proof fn lemma_sunk(ch: Edges, d: Depths, g: Name, open: Set<Name>)
    requires
        ch.dom().finite(),
        d.dom() == ch.dom(),
        open.contains(g),
        ch.dom().contains(g),
        d[g] <= u32::MAX,
    ensures
        only_deeper(d, sunk(ch, d, g, open), open),
    decreases ch.dom().difference(open).len(), 1nat, 0nat,
{
    lemma_sunk_children(ch, d, g, steps(ch, g), open);
}

/// The same for some of the groups linked under `g`.
pub proof fn lemma_sunk_children(
    ch: Edges,
    d: Depths,
    g: Name,
    cs: Seq<Name>,
    open: Set<Name>,
)
    requires
        ch.dom().finite(),
        d.dom() == ch.dom(),
        open.contains(g),
        ch.dom().contains(g),
        d[g] <= u32::MAX,
    ensures
        only_deeper(d, sunk_children(ch, d, g, cs, open), open),
    decreases ch.dom().difference(open).len(), 0nat, cs.len(),
{
    if cs.len() > 0 {
        let x = cs[0];
        if open.contains(x) || !ch.dom().contains(x) || d[x] >= below(d[g]) {
            lemma_sunk_children(ch, d, g, cs.drop_first(), open);
        } else {
            lemma_open(ch.dom(), open, x);
            let d1 = d.insert(x, below(d[g]));
            assert(d1.dom() =~= d.dom());
            lemma_sunk(ch, d1, x, open.insert(x));
            let e = sunk(ch, d1, x, open.insert(x));
            assert(open.insert(x).contains(g));
            lemma_sunk_children(ch, e, g, cs.drop_first(), open);
            assert forall|q: Name| #[trigger] open.contains(q) implies e[q] == d[q] by {
                assert(open.insert(x).contains(q));
            }
        }
    }
}

/// Every link into `within`, from a group other than those of `but`, leads down.
pub open spec fn leads_down(ch: Edges, d: Depths, within: Set<Name>, but: Set<Name>) -> bool {
    forall|u: Name, v: Name|
        #![trigger steps(ch, u).contains(v)]
        within.contains(v) && steps(ch, u).contains(v) && !but.contains(u) ==> d[v] >= below(d[u])
}

/// No group of `within` lies on a cycle of links.
pub open spec fn no_cycle(ch: Edges, within: Set<Name>) -> bool {
    forall|u: Name, v: Name|
        #![trigger steps(ch, u).contains(v)]
        within.contains(u) && steps(ch, u).contains(v) ==> !reaches(ch, v, u)
}

/// Links lead from `within` into it, and nowhere but to groups.
pub open spec fn closed(ch: Edges, within: Set<Name>) -> bool {
    forall|u: Name, v: Name|
        #![trigger steps(ch, u).contains(v)]
        within.contains(u) && steps(ch, u).contains(v) ==> within.contains(v) && ch.dom().contains(v)
}

/// Where no cycle is in the way, moving down leaves every link below `g` leading down.
pub proof fn lemma_sunk_leads_down(
    ch: Edges,
    d: Depths,
    g: Name,
    open: Set<Name>,
    within: Set<Name>,
)
    requires
        ch.dom().finite(),
        d.dom() == ch.dom(),
        open.contains(g),
        ch.dom().contains(g),
        d[g] <= u32::MAX,
        within.contains(g),
        no_cycle(ch, within),
        closed(ch, within),
        forall|o: Name| #[trigger] open.contains(o) ==> reaches(ch, o, g),
        leads_down(ch, d, within, open),
    ensures
        leads_down(ch, sunk(ch, d, g, open), within, open.remove(g)),
    decreases ch.dom().difference(open).len(), 1nat, 0nat,
{
    let cs = steps(ch, g);
    assert(cs.skip(0) =~= cs);
    lemma_children_lead_down(ch, d, g, 0, open, within);
    let e = sunk(ch, d, g, open);
    assert forall|u: Name, v: Name|
        #![trigger steps(ch, u).contains(v)]
        within.contains(v) && steps(ch, u).contains(v) && !open.remove(g).contains(
            u,
        ) implies e[v] >= below(e[u]) by {
        if u == g {
            let j = choose|j: int| 0 <= j < cs.len() && cs[j] == v;
            assert(e[cs[j]] >= below(e[g]));
        }
    }
}

/// The same for the groups linked under `g` from the `k`-th on.
pub proof fn lemma_children_lead_down(
    ch: Edges,
    d: Depths,
    g: Name,
    k: int,
    open: Set<Name>,
    within: Set<Name>,
)
    requires
        ch.dom().finite(),
        d.dom() == ch.dom(),
        open.contains(g),
        ch.dom().contains(g),
        d[g] <= u32::MAX,
        within.contains(g),
        no_cycle(ch, within),
        closed(ch, within),
        forall|o: Name| #[trigger] open.contains(o) ==> reaches(ch, o, g),
        leads_down(ch, d, within, open),
        0 <= k <= steps(ch, g).len(),
        forall|j: int| 0 <= j < k ==> d[#[trigger] steps(ch, g)[j]] >= below(d[g]),
    ensures
        ({
            let e = sunk_children(ch, d, g, steps(ch, g).skip(k), open);
            &&& leads_down(ch, e, within, open)
            &&& forall|j: int|
                0 <= j < steps(ch, g).len() ==> e[#[trigger] steps(ch, g)[j]] >= below(e[g])
        }),
    decreases ch.dom().difference(open).len(), 0nat, steps(ch, g).len() - k,
{
    let cs = steps(ch, g);
    let rest = cs.skip(k);
    if k < cs.len() {
        let x = cs[k];
        assert(rest[0] == x);
        assert(rest.drop_first() =~= cs.skip(k + 1));
        assert(cs.contains(x));
        assert(within.contains(x) && ch.dom().contains(x));
        if open.contains(x) {
            assert(reaches(ch, x, g));
            assert(false);
        }
        if d[x] >= below(d[g]) {
            lemma_children_lead_down(ch, d, g, k + 1, open, within);
        } else {
            lemma_open(ch.dom(), open, x);
            let d1 = d.insert(x, below(d[g]));
            let open1 = open.insert(x);
            assert(d1.dom() =~= d.dom());
            assert forall|o: Name| #[trigger] open1.contains(o) implies reaches(ch, o, x) by {
                if o == x {
                    lemma_reaches_self(ch, x);
                } else {
                    assert(open.contains(o));
                    lemma_reaches_step(ch, o, g, x);
                }
            }
            assert(leads_down(ch, d1, within, open1));
            lemma_sunk_leads_down(ch, d1, x, open1, within);
            lemma_sunk(ch, d1, x, open1);
            let e = sunk(ch, d1, x, open1);
            assert(open1.remove(x) =~= open);
            assert(open1.contains(g) && open1.contains(x));
            assert forall|j: int| 0 <= j < k + 1 implies e[#[trigger] cs[j]] >= below(e[g]) by {
                if j < k {
                    assert(cs.contains(cs[j]));
                    assert(d1.dom().contains(cs[j]));
                }
            }
            lemma_children_lead_down(ch, e, g, k + 1, open, within);
        }
    } else {
        assert(rest =~= Seq::empty());
    }
}

/// What can be reached from a group is closed.
pub proof fn lemma_reach_closed(ch: Edges, c: Name, within: Set<Name>)
    requires
        within == reach(ch, c),
        forall|u: Name, v: Name|
            #![trigger steps(ch, u).contains(v)]
            steps(ch, u).contains(v) ==> ch.dom().contains(v),
    ensures
        closed(ch, within),
        within.contains(c),
{
    lemma_reaches_self(ch, c);
    assert forall|u: Name, v: Name|
        #![trigger steps(ch, u).contains(v)]
        within.contains(u) && steps(ch, u).contains(v) implies within.contains(v)
        && ch.dom().contains(v) by {
        lemma_reaches_step(ch, c, u, v);
    }
}

/// Moving down moves only what can be reached.
pub proof fn lemma_sunk_reach(ch: Edges, d: Depths, g: Name, open: Set<Name>, q: Name)
    requires
        ch.dom().finite(),
        !reaches(ch, g, q),
    ensures
        sunk(ch, d, g, open)[q] == d[q],
    decreases ch.dom().difference(open).len(), 1nat, 0nat,
{
    lemma_reaches_self(ch, g);
    lemma_children_reach(ch, d, g, steps(ch, g), open, q);
}

proof fn lemma_children_reach(
    ch: Edges,
    d: Depths,
    g: Name,
    cs: Seq<Name>,
    open: Set<Name>,
    q: Name,
)
    requires
        ch.dom().finite(),
        !reaches(ch, g, q),
        forall|x: Name| #[trigger] cs.contains(x) ==> steps(ch, g).contains(x),
    ensures
        sunk_children(ch, d, g, cs, open)[q] == d[q],
    decreases ch.dom().difference(open).len(), 0nat, cs.len(),
{
    if cs.len() > 0 {
        let x = cs[0];
        let rest = cs.drop_first();
        assert(cs.contains(x));
        assert forall|y: Name| #[trigger] rest.contains(y) implies steps(ch, g).contains(y) by {
            let j = choose|j: int| 0 <= j < rest.len() && rest[j] == y;
            assert(cs.contains(cs[j + 1]));
        }
        if open.contains(x) || !ch.dom().contains(x) || d[x] >= below(d[g]) {
            lemma_children_reach(ch, d, g, rest, open, q);
        } else {
            lemma_open(ch.dom(), open, x);
            assert(!reaches(ch, x, q)) by {
                if reaches(ch, x, q) {
                    lemma_reaches_from(ch, g, x, q);
                }
            }
            lemma_reaches_self(ch, x);
            let d1 = d.insert(x, below(d[g]));
            lemma_sunk_reach(ch, d1, x, open.insert(x), q);
            lemma_children_reach(ch, sunk(ch, d1, x, open.insert(x)), g, rest, open, q);
        }
    }
}

// ---------------------------------------------------------------------------------------
// Cycles
// ---------------------------------------------------------------------------------------

/// What can be reached from a group.
pub open spec fn reach(ch: Edges, c: Name) -> Set<Name> {
    Set::new(|q: Name| reaches(ch, c, q))
}

/// A link from `u` to `v` closes a cycle.
pub open spec fn on_cycle(ch: Edges, u: Name, v: Name) -> bool {
    steps(ch, u).contains(v) && reaches(ch, v, u)
}

/// A cycle of links can be reached from `c`.
pub open spec fn cycle_below(ch: Edges, c: Name) -> bool {
    exists|u: Name, v: Name| #[trigger] on_cycle(ch, u, v) && reaches(ch, c, u)
}

/// A cycle below a child is below the parent.
pub proof fn lemma_cycle_below(ch: Edges, g: Name, x: Name)
    requires
        steps(ch, g).contains(x),
        cycle_below(ch, x),
    ensures
        cycle_below(ch, g),
{
    let (u, v) = choose|u: Name, v: Name| #[trigger] on_cycle(ch, u, v) && reaches(ch, x, u);
    lemma_reaches_from(ch, g, x, u);
    assert(on_cycle(ch, u, v));
}

/// What is below a cycle is not free of cycles.
pub proof fn lemma_cycle_found(ch: Edges, c: Name)
    requires
        cycle_below(ch, c),
    ensures
        !no_cycle(ch, reach(ch, c)),
{
    let (u, v) = choose|u: Name, v: Name| #[trigger] on_cycle(ch, u, v) && reaches(ch, c, u);
    assert(reach(ch, c).contains(u));
    assert(steps(ch, u).contains(v));
}

/// What can be reached from a closed set that is free of cycles is free of cycles.
pub proof fn lemma_closed_no_cycle(ch: Edges, done: Set<Name>, c: Name)
    requires
        closed(ch, done),
        no_cycle(ch, done),
        done.contains(c),
    ensures
        no_cycle(ch, reach(ch, c)),
{
    assert forall|u: Name, v: Name|
        #![trigger steps(ch, u).contains(v)]
        reach(ch, c).contains(u) && steps(ch, u).contains(v) implies !reaches(ch, v, u) by {
        lemma_closed_reaches(ch, done, c, u);
    }
}

/// A group whose children are all in a closed set that is free of cycles may join the set.
pub proof fn lemma_done(ch: Edges, done: Set<Name>, g: Name)
    requires
        closed(ch, done),
        no_cycle(ch, done),
        !done.contains(g),
        forall|k: int| 0 <= k < steps(ch, g).len() ==> done.contains(#[trigger] steps(ch, g)[k]),
        forall|k: int|
            0 <= k < steps(ch, g).len() ==> ch.dom().contains(#[trigger] steps(ch, g)[k]),
    ensures
        closed(ch, done.insert(g)),
        no_cycle(ch, done.insert(g)),
{
    assert forall|v: Name| #[trigger] steps(ch, g).contains(v) implies done.contains(v)
        && ch.dom().contains(v) && !reaches(ch, v, g) by {
        let k = choose|k: int| 0 <= k < steps(ch, g).len() && steps(ch, g)[k] == v;
        assert(done.contains(steps(ch, g)[k]));
        if reaches(ch, v, g) {
            lemma_closed_reaches(ch, done, v, g);
        }
    }
}

/// The depths after each of `cs` was moved down to depth `w` where it was above it, and the
/// stack with those that moved on top.
pub open spec fn push_children(d: Depths, cs: Seq<Name>, w: nat, stack: Seq<Name>) -> (
    Depths,
    Seq<Name>,
)
    decreases cs.len(),
{
    if cs.len() == 0 {
        (d, stack)
    } else {
        let (e, s) = push_children(d, cs.drop_last(), w, stack);
        let c = cs.last();
        if e.dom().contains(c) && e[c] < w {
            (e.insert(c, w), s.push(c))
        } else {
            (e, s)
        }
    }
}

/// The depths after the groups on the stack pushed what is below them down. Each group
/// pushes once, so that a cycle of links ends the walk.
pub open spec fn pushed(ch: Edges, d: Depths, stack: Seq<Name>, done: Seq<Name>) -> Depths
    decreases ch.dom().difference(done.to_set()).len(), stack.len(),
    when ch.dom().finite()
{
    proof {
        if stack.len() > 0 && !done.contains(stack.last()) {
            lemma_unseen_shrinks(ch.dom(), done, stack.last());
        }
    }
    if stack.len() == 0 {
        d
    } else {
        let g = stack.last();
        let rest = stack.drop_last();
        if done.contains(g) || !ch.dom().contains(g) {
            pushed(ch, d, rest, done)
        } else {
            let (e, s) = push_children(d, ch[g], below(d[g]), rest);
            pushed(ch, e, s, done.push(g))
        }
    }
}

/// The depths after `c` was moved and what is below it followed: everything, where no cycle
/// of links is among it; else each group pushes once.
pub open spec fn moved(ch: Edges, d: Depths, c: Name) -> Depths {
    if no_cycle(ch, reach(ch, c)) {
        sunk(ch, d, c, set![c])
    } else {
        pushed(ch, d, seq![c], Seq::empty())
    }
}

/// No depth is beyond `u32::MAX`.
pub open spec fn bounded(d: Depths) -> bool {
    forall|q: Name| #[trigger] d.dom().contains(q) ==> d[q] <= u32::MAX
}

/// Pushing children makes no depth smaller.
pub proof fn lemma_push_children(d: Depths, cs: Seq<Name>, w: nat, stack: Seq<Name>)
    requires
        w <= u32::MAX,
    ensures
        only_deeper(d, push_children(d, cs, w, stack).0, Set::empty()),
    decreases cs.len(),
{
    if cs.len() > 0 {
        lemma_push_children(d, cs.drop_last(), w, stack);
        assert(push_children(d, cs, w, stack).0.dom() =~= d.dom());
    }
}

/// Pushing down makes no depth smaller.
pub proof fn lemma_pushed(ch: Edges, d: Depths, stack: Seq<Name>, done: Seq<Name>)
    requires
        ch.dom().finite(),
        d.dom() == ch.dom(),
        bounded(d),
    ensures
        only_deeper(d, pushed(ch, d, stack, done), Set::empty()),
    decreases ch.dom().difference(done.to_set()).len(), stack.len(),
{
    if stack.len() > 0 {
        let g = stack.last();
        let rest = stack.drop_last();
        if done.contains(g) || !ch.dom().contains(g) {
            lemma_pushed(ch, d, rest, done);
        } else {
            lemma_unseen_shrinks(ch.dom(), done, g);
            lemma_push_children(d, ch[g], below(d[g]), rest);
            let (e, s) = push_children(d, ch[g], below(d[g]), rest);
            assert forall|q: Name| #[trigger] e.dom().contains(q) implies e[q] <= u32::MAX by {
                assert(d.dom().contains(q));
            }
            lemma_pushed(ch, e, s, done.push(g));
            let f = pushed(ch, e, s, done.push(g));
            assert forall|q: Name| #[trigger] d.dom().contains(q) implies d[q] <= f[q] && (d[q]
                <= u32::MAX ==> f[q] <= u32::MAX) by {
                assert(e.dom().contains(q));
            }
        }
    }
}

/// Pushing children moves those alone, and puts those alone on the stack.
proof fn lemma_push_children_reach(
    d: Depths,
    cs: Seq<Name>,
    w: nat,
    stack: Seq<Name>,
    q: Name,
)
    ensures
        !cs.contains(q) ==> push_children(d, cs, w, stack).0[q] == d[q],
        forall|x: Name| #[trigger]
            push_children(d, cs, w, stack).1.contains(x) ==> stack.contains(x) || cs.contains(x),
    decreases cs.len(),
{
    if cs.len() > 0 {
        let u = cs.drop_last();
        lemma_push_children_reach(d, u, w, stack, q);
        let (e, s) = push_children(d, u, w, stack);
        assert(forall|x: Name| #[trigger] u.contains(x) ==> cs.contains(x)) by {
            assert forall|x: Name| #[trigger] u.contains(x) implies cs.contains(x) by {
                let j = choose|j: int| 0 <= j < u.len() && u[j] == x;
                assert(cs[j] == x);
            }
        }
        assert(cs[cs.len() - 1] == cs.last());
        assert(cs.contains(cs.last()));
        assert forall|x: Name| #[trigger]
            push_children(d, cs, w, stack).1.contains(x) implies stack.contains(x) || cs.contains(
            x,
        ) by {
            let t = push_children(d, cs, w, stack).1;
            let j = choose|j: int| 0 <= j < t.len() && t[j] == x;
            if j < s.len() {
                assert(s[j] == x);
                assert(s.contains(x));
            }
        }
    }
}

/// Pushing down moves only what can be reached.
pub proof fn lemma_pushed_reach(
    ch: Edges,
    d: Depths,
    stack: Seq<Name>,
    done: Seq<Name>,
    q: Name,
)
    requires
        ch.dom().finite(),
        forall|x: Name| #[trigger] stack.contains(x) ==> !reaches(ch, x, q),
    ensures
        pushed(ch, d, stack, done)[q] == d[q],
    decreases ch.dom().difference(done.to_set()).len(), stack.len(),
{
    if stack.len() > 0 {
        let g = stack.last();
        let rest = stack.drop_last();
        assert(stack[stack.len() - 1] == g);
        assert(stack.contains(g));
        assert forall|x: Name| #[trigger] rest.contains(x) implies !reaches(ch, x, q) by {
            let j = choose|j: int| 0 <= j < rest.len() && rest[j] == x;
            assert(stack[j] == x);
            assert(stack.contains(x));
        }
        if done.contains(g) || !ch.dom().contains(g) {
            lemma_pushed_reach(ch, d, rest, done, q);
        } else {
            lemma_unseen_shrinks(ch.dom(), done, g);
            let cs = ch[g];
            lemma_push_children_reach(d, cs, below(d[g]), rest, q);
            let (e, s) = push_children(d, cs, below(d[g]), rest);
            assert forall|x: Name| #[trigger] cs.contains(x) implies !reaches(ch, x, q) by {
                if reaches(ch, x, q) {
                    assert(steps(ch, g).contains(x));
                    lemma_reaches_from(ch, g, x, q);
                }
            }
            if cs.contains(q) {
                lemma_reaches_self(ch, q);
                assert(false);
            }
            lemma_pushed_reach(ch, e, s, done.push(g), q);
        }
    }
}

/// Moving a group and what is below it makes no depth smaller, and moves only what can be
/// reached.
pub proof fn lemma_moved(ch: Edges, d: Depths, c: Name)
    requires
        ch.dom().finite(),
        d.dom() == ch.dom(),
        ch.dom().contains(c),
        bounded(d),
    ensures
        only_deeper(d, moved(ch, d, c), Set::empty()),
        forall|q: Name| !reaches(ch, c, q) ==> #[trigger] moved(ch, d, c)[q] == d[q],
{
    if no_cycle(ch, reach(ch, c)) {
        lemma_sunk(ch, d, c, set![c]);
        assert forall|q: Name| !reaches(ch, c, q) implies #[trigger] moved(ch, d, c)[q] == d[q] by {
            lemma_sunk_reach(ch, d, c, set![c], q);
        }
    } else {
        lemma_pushed(ch, d, seq![c], Seq::empty());
        assert forall|q: Name| !reaches(ch, c, q) implies #[trigger] moved(ch, d, c)[q] == d[q] by {
            assert(forall|x: Name| #[trigger] seq![c].contains(x) ==> x == c);
            lemma_pushed_reach(ch, d, seq![c], Seq::empty(), q);
        }
    }
}

} // verus!

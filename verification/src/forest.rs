//! Mathematical model of the assembly forest: children lists and the
//! postorder sequence of a subtree.
use vstd::prelude::*;
use vstd::set_lib::*;

verus! {

/// Children of every node: `Some(list)` where the list is known, `None` where it
/// is malformed.
pub type Kids = spec_fn(int) -> Option<Seq<int>>;

/// The link list that starts at `f` and follows `sibling`, while it stays inside
/// `0..n` and ends at `-1` within `fuel` steps.
pub open spec fn sib_list(sibling: Seq<i32>, n: int, f: int, fuel: nat) -> Option<Seq<int>>
    decreases fuel,
{
    if f == -1 {
        Some(Seq::empty())
    } else if fuel == 0 || !(0 <= f < n) || f >= sibling.len() {
        None
    } else {
        match sib_list(sibling, n, sibling[f] as int, (fuel - 1) as nat) {
            Some(t) => Some(seq![f] + t),
            None => None,
        }
    }
}

/// Children given by head pointers `child` and links `sibling` over `0..n`.
pub open spec fn list_kids(child: Seq<i32>, sibling: Seq<i32>, n: int) -> Kids {
    |p: int|
        if 0 <= p < n && p < child.len() {
            sib_list(sibling, n, child[p] as int, n as nat)
        } else {
            None
        }
}

/// Postorder of the subtree at `x`: the subtrees of its children in list order,
/// then `x` itself; `None` when a list is malformed or the depth exceeds `fuel`.
pub open spec fn subtree_post(kids: Kids, x: int, fuel: nat) -> Option<Seq<int>>
    decreases fuel, 0nat, 0nat,
{
    if fuel == 0 {
        None
    } else {
        match kids(x) {
            None => None,
            Some(l) => match forest_post(kids, l, (fuel - 1) as nat) {
                Some(s) => Some(s.push(x)),
                None => None,
            },
        }
    }
}

/// Concatenated postorders of the subtrees rooted at the nodes of `l`.
pub open spec fn forest_post(kids: Kids, l: Seq<int>, fuel: nat) -> Option<Seq<int>>
    decreases fuel, 1nat, l.len(),
{
    if l.len() == 0 {
        Some(Seq::empty())
    } else {
        match subtree_post(kids, l[0], fuel) {
            None => None,
            Some(a) => match forest_post(kids, l.drop_first(), fuel) {
                Some(b) => Some(a + b),
                None => None,
            },
        }
    }
}

/// More fuel does not change a result that was already defined.
pub proof fn lemma_subtree_post_mono(kids: Kids, x: int, fuel: nat)
    requires
        subtree_post(kids, x, fuel) is Some,
    ensures
        subtree_post(kids, x, fuel + 1) == subtree_post(kids, x, fuel),
    decreases fuel, 0nat, 0nat,
{
    let l = kids(x).unwrap();
    lemma_forest_post_mono(kids, l, (fuel - 1) as nat);
}

/// More fuel does not change a result that was already defined.
pub proof fn lemma_forest_post_mono(kids: Kids, l: Seq<int>, fuel: nat)
    requires
        forest_post(kids, l, fuel) is Some,
    ensures
        forest_post(kids, l, fuel + 1) == forest_post(kids, l, fuel),
    decreases fuel, 1nat, l.len(),
{
    if l.len() > 0 {
        lemma_subtree_post_mono(kids, l[0], fuel);
        lemma_forest_post_mono(kids, l.drop_first(), fuel);
    }
}

/// A subtree postorder is nonempty and ends at its root.
pub proof fn lemma_subtree_post_last(kids: Kids, x: int, fuel: nat)
    requires
        subtree_post(kids, x, fuel) is Some,
    ensures
        subtree_post(kids, x, fuel).unwrap().len() >= 1,
        subtree_post(kids, x, fuel).unwrap().last() == x,
{
}

/// The result only depends on the children of the nodes that it lists.
pub proof fn lemma_subtree_post_frame(k1: Kids, k2: Kids, x: int, fuel: nat)
    requires
        subtree_post(k1, x, fuel) is Some,
        forall|y: int| subtree_post(k1, x, fuel).unwrap().contains(y) ==> #[trigger] k2(y) == k1(y),
    ensures
        subtree_post(k2, x, fuel) == subtree_post(k1, x, fuel),
    decreases fuel, 0nat, 0nat,
{
    let s = subtree_post(k1, x, fuel).unwrap();
    assert(s.last() == x);
    assert(s.contains(x)) by { assert(s[s.len() - 1] == x); }
    let l = k1(x).unwrap();
    let t = forest_post(k1, l, (fuel - 1) as nat).unwrap();
    assert forall|y: int| t.contains(y) implies #[trigger] k2(y) == k1(y) by {
        let i = choose|i: int| 0 <= i < t.len() && t[i] == y;
        assert(s[i] == y);
    }
    lemma_forest_post_frame(k1, k2, l, (fuel - 1) as nat);
}

/// The result only depends on the children of the nodes that it lists.
pub proof fn lemma_forest_post_frame(k1: Kids, k2: Kids, l: Seq<int>, fuel: nat)
    requires
        forest_post(k1, l, fuel) is Some,
        forall|y: int| forest_post(k1, l, fuel).unwrap().contains(y) ==> #[trigger] k2(y) == k1(y),
    ensures
        forest_post(k2, l, fuel) == forest_post(k1, l, fuel),
    decreases fuel, 1nat, l.len(),
{
    if l.len() > 0 {
        let a = subtree_post(k1, l[0], fuel).unwrap();
        let b = forest_post(k1, l.drop_first(), fuel).unwrap();
        let s = a + b;
        assert forall|y: int| a.contains(y) implies #[trigger] k2(y) == k1(y) by {
            let i = choose|i: int| 0 <= i < a.len() && a[i] == y;
            assert(s[i] == y);
        }
        assert forall|y: int| b.contains(y) implies #[trigger] k2(y) == k1(y) by {
            let i = choose|i: int| 0 <= i < b.len() && b[i] == y;
            assert(s[a.len() + i] == y);
        }
        lemma_subtree_post_frame(k1, k2, l[0], fuel);
        lemma_forest_post_frame(k1, k2, l.drop_first(), fuel);
    }
}

/// A sequence without repetitions, drawn from `0..n`, has at most `n` entries.
pub proof fn lemma_nodup_len_bound(s: Seq<int>, n: int)
    requires
        s.no_duplicates(),
        0 <= n,
        forall|i: int| 0 <= i < s.len() ==> 0 <= #[trigger] s[i] < n,
    ensures
        s.len() <= n,
{
    s.unique_seq_to_set();
    lemma_int_range(0, n);
    assert(s.to_set().subset_of(set_int_range(0, n)));
    lemma_len_subset(s.to_set(), set_int_range(0, n));
}

} // verus!

verus! {

/// Every node listed in a defined subtree postorder has a defined list of children.
pub proof fn lemma_subtree_post_nodes(kids: Kids, x: int, fuel: nat)
    requires
        subtree_post(kids, x, fuel) is Some,
    ensures
        forall|y: int| subtree_post(kids, x, fuel).unwrap().contains(y) ==> (#[trigger] kids(y)) is Some,
    decreases fuel, 0nat, 0nat,
{
    let s = subtree_post(kids, x, fuel).unwrap();
    let l = kids(x).unwrap();
    let t = forest_post(kids, l, (fuel - 1) as nat).unwrap();
    lemma_forest_post_nodes(kids, l, (fuel - 1) as nat);
    assert forall|y: int| s.contains(y) implies (#[trigger] kids(y)) is Some by {
        let i = choose|i: int| 0 <= i < s.len() && s[i] == y;
        if i < t.len() {
            assert(t[i] == y);
        }
    }
}

/// Every node listed in a defined forest postorder has a defined list of children.
pub proof fn lemma_forest_post_nodes(kids: Kids, l: Seq<int>, fuel: nat)
    requires
        forest_post(kids, l, fuel) is Some,
    ensures
        forall|y: int| forest_post(kids, l, fuel).unwrap().contains(y) ==> (#[trigger] kids(y)) is Some,
        forest_post(kids, l, fuel).unwrap().len() >= l.len(),
    decreases fuel, 1nat, l.len(),
{
    if l.len() > 0 {
        let a = subtree_post(kids, l[0], fuel).unwrap();
        let b = forest_post(kids, l.drop_first(), fuel).unwrap();
        lemma_subtree_post_nodes(kids, l[0], fuel);
        lemma_forest_post_nodes(kids, l.drop_first(), fuel);
        let s = a + b;
        assert forall|y: int| s.contains(y) implies (#[trigger] kids(y)) is Some by {
            let i = choose|i: int| 0 <= i < s.len() && s[i] == y;
            if i < a.len() {
                assert(a[i] == y);
            } else {
                assert(b[i - a.len()] == y);
            }
        }
    }
}

/// What is still owed for the stack entries `stack[0..=top]`: the subtree
/// postorders of the entries, the top of the stack first.
pub open spec fn pending(kids: Kids, stack: Seq<i32>, top: int, fuel: nat) -> Option<Seq<int>>
    decreases top + 1,
{
    if top < 0 {
        Some(Seq::empty())
    } else {
        match subtree_post(kids, stack[top] as int, fuel) {
            None => None,
            Some(a) => match pending(kids, stack, top - 1, fuel) {
                Some(b) => Some(a + b),
                None => None,
            },
        }
    }
}

/// Pushing the nodes of `l` (the first one last) on top of `stack[0..=b]`
/// puts their postorders in front of what was owed.
pub proof fn lemma_pending_push(kids: Kids, stack: Seq<i32>, b: int, l: Seq<int>, fuel: nat)
    requires
        -1 <= b,
        b + l.len() < stack.len(),
        forall|j: int| 0 <= j < l.len() ==> stack[b + l.len() - j] as int == #[trigger] l[j],
        forest_post(kids, l, fuel) is Some,
        pending(kids, stack, b, fuel) is Some,
    ensures
        pending(kids, stack, b + l.len(), fuel) == Some(
            forest_post(kids, l, fuel).unwrap() + pending(kids, stack, b, fuel).unwrap(),
        ),
    decreases l.len(),
{
    if l.len() > 0 {
        let l1 = l.drop_first();
        assert forall|j: int| 0 <= j < l1.len() implies stack[b + l1.len() - j] as int == #[trigger] l1[j] by {
            assert(l1[j] == l[j + 1]);
        }
        lemma_pending_push(kids, stack, b, l1, fuel);
        assert(stack[b + l.len()] as int == l[0]);
        let a = subtree_post(kids, l[0], fuel).unwrap();
        let f1 = forest_post(kids, l1, fuel).unwrap();
        let p = pending(kids, stack, b, fuel).unwrap();
        assert(a + (f1 + p) == (a + f1) + p);
    }
}

/// What is owed only depends on the children of the nodes that it lists.
pub proof fn lemma_pending_frame(k1: Kids, k2: Kids, stack: Seq<i32>, top: int, fuel: nat)
    requires
        pending(k1, stack, top, fuel) is Some,
        forall|y: int| pending(k1, stack, top, fuel).unwrap().contains(y) ==> #[trigger] k2(y) == k1(y),
    ensures
        pending(k2, stack, top, fuel) == pending(k1, stack, top, fuel),
    decreases top + 1,
{
    if top >= 0 {
        let a = subtree_post(k1, stack[top] as int, fuel).unwrap();
        let b = pending(k1, stack, top - 1, fuel).unwrap();
        let s = a + b;
        assert forall|y: int| a.contains(y) implies #[trigger] k2(y) == k1(y) by {
            let i = choose|i: int| 0 <= i < a.len() && a[i] == y;
            assert(s[i] == y);
        }
        assert forall|y: int| b.contains(y) implies #[trigger] k2(y) == k1(y) by {
            let i = choose|i: int| 0 <= i < b.len() && b[i] == y;
            assert(s[a.len() + i] == y);
        }
        lemma_subtree_post_frame(k1, k2, stack[top] as int, fuel);
        lemma_pending_frame(k1, k2, stack, top - 1, fuel);
    }
}

/// What is owed only depends on `stack[0..=top]`.
pub proof fn lemma_pending_stack_frame(kids: Kids, s1: Seq<i32>, s2: Seq<i32>, top: int, fuel: nat)
    requires
        top < s1.len(),
        top < s2.len(),
        forall|h: int| 0 <= h <= top ==> s1[h] == s2[h],
    ensures
        pending(kids, s1, top, fuel) == pending(kids, s2, top, fuel),
    decreases top + 1,
{
    if top >= 0 {
        lemma_pending_stack_frame(kids, s1, s2, top - 1, fuel);
    }
}

/// Stack slots that postordering the subtree at `x` with an explicit stack
/// takes, the slot of `x` included: the children of `x` are pushed above it,
/// the first one on top, and each is worked off in turn.
pub open spec fn stack_need(kids: Kids, x: int, fuel: nat) -> int
    decreases fuel, 0nat, 0nat,
{
    if fuel == 0 {
        0
    } else {
        match kids(x) {
            None => 0,
            Some(l) => 1 + list_need(kids, l, (fuel - 1) as nat),
        }
    }
}

/// Slots above a parent that its children list `l` takes: the child `l[m]`
/// sits `l.len() - m` slots above the parent.
pub open spec fn list_need(kids: Kids, l: Seq<int>, fuel: nat) -> int
    decreases fuel, 1nat, l.len(),
{
    if l.len() == 0 {
        0
    } else {
        let a = l.len() - 1 + stack_need(kids, l[0], fuel);
        let b = list_need(kids, l.drop_first(), fuel);
        if a > b { a } else { b }
    }
}

/// Every entry `stack[p]`, `p <= top`, has the room it needs below `cap`.
pub open spec fn stack_room(kids: Kids, stack: Seq<i32>, top: int, fuel: nat, cap: int) -> bool
    decreases top + 1,
{
    if top < 0 {
        true
    } else {
        top + stack_need(kids, stack[top] as int, fuel) <= cap && stack_room(kids, stack, top - 1, fuel, cap)
    }
}

/// A defined subtree needs at least one slot and at most one per node.
pub proof fn lemma_stack_need_size(kids: Kids, x: int, fuel: nat)
    requires
        subtree_post(kids, x, fuel) is Some,
    ensures
        1 <= stack_need(kids, x, fuel) <= subtree_post(kids, x, fuel).unwrap().len(),
    decreases fuel, 0nat, 0nat,
{
    let l = kids(x).unwrap();
    lemma_list_need_size(kids, l, (fuel - 1) as nat);
}

/// A defined children list needs at most one slot per node of its subtrees,
/// and those subtrees have at least one node per child.
pub proof fn lemma_list_need_size(kids: Kids, l: Seq<int>, fuel: nat)
    requires
        forest_post(kids, l, fuel) is Some,
    ensures
        0 <= list_need(kids, l, fuel) <= forest_post(kids, l, fuel).unwrap().len(),
        l.len() <= forest_post(kids, l, fuel).unwrap().len(),
    decreases fuel, 1nat, l.len(),
{
    if l.len() > 0 {
        lemma_stack_need_size(kids, l[0], fuel);
        lemma_list_need_size(kids, l.drop_first(), fuel);
    }
}

/// More fuel does not change the need of a defined subtree.
pub proof fn lemma_stack_need_mono(kids: Kids, x: int, fuel: nat)
    requires
        subtree_post(kids, x, fuel) is Some,
    ensures
        stack_need(kids, x, fuel + 1) == stack_need(kids, x, fuel),
    decreases fuel, 0nat, 0nat,
{
    let l = kids(x).unwrap();
    lemma_list_need_mono(kids, l, (fuel - 1) as nat);
}

pub proof fn lemma_list_need_mono(kids: Kids, l: Seq<int>, fuel: nat)
    requires
        forest_post(kids, l, fuel) is Some,
    ensures
        list_need(kids, l, fuel + 1) == list_need(kids, l, fuel),
    decreases fuel, 1nat, l.len(),
{
    if l.len() > 0 {
        lemma_stack_need_mono(kids, l[0], fuel);
        lemma_list_need_mono(kids, l.drop_first(), fuel);
    }
}

/// The need only depends on the children of the nodes of the subtree.
pub proof fn lemma_stack_need_frame(k1: Kids, k2: Kids, x: int, fuel: nat)
    requires
        subtree_post(k1, x, fuel) is Some,
        forall|y: int| subtree_post(k1, x, fuel).unwrap().contains(y) ==> #[trigger] k2(y) == k1(y),
    ensures
        stack_need(k2, x, fuel) == stack_need(k1, x, fuel),
    decreases fuel, 0nat, 0nat,
{
    let l = k1(x).unwrap();
    let f = forest_post(k1, l, (fuel - 1) as nat).unwrap();
    let s = f.push(x);
    assert(s.contains(x)) by {
        assert(s[f.len() as int] == x);
    }
    assert forall|y: int| f.contains(y) implies #[trigger] k2(y) == k1(y) by {
        let i = choose|i: int| 0 <= i < f.len() && f[i] == y;
        assert(s[i] == y);
    }
    lemma_list_need_frame(k1, k2, l, (fuel - 1) as nat);
}

pub proof fn lemma_list_need_frame(k1: Kids, k2: Kids, l: Seq<int>, fuel: nat)
    requires
        forest_post(k1, l, fuel) is Some,
        forall|y: int| forest_post(k1, l, fuel).unwrap().contains(y) ==> #[trigger] k2(y) == k1(y),
    ensures
        list_need(k2, l, fuel) == list_need(k1, l, fuel),
    decreases fuel, 1nat, l.len(),
{
    if l.len() > 0 {
        let a = subtree_post(k1, l[0], fuel).unwrap();
        let b = forest_post(k1, l.drop_first(), fuel).unwrap();
        let s = a + b;
        assert forall|y: int| a.contains(y) implies #[trigger] k2(y) == k1(y) by {
            let i = choose|i: int| 0 <= i < a.len() && a[i] == y;
            assert(s[i] == y);
        }
        assert forall|y: int| b.contains(y) implies #[trigger] k2(y) == k1(y) by {
            let i = choose|i: int| 0 <= i < b.len() && b[i] == y;
            assert(s[a.len() + i] == y);
        }
        lemma_stack_need_frame(k1, k2, l[0], fuel);
        lemma_list_need_frame(k1, k2, l.drop_first(), fuel);
    }
}

/// Each child, `l.len() - 1 - m` slots below the top of the pushed list, has
/// its room inside what the list needs.
pub proof fn lemma_list_need_each(kids: Kids, l: Seq<int>, fuel: nat, m: int)
    requires
        0 <= m < l.len(),
    ensures
        l.len() - 1 - m + stack_need(kids, l[m], fuel) <= list_need(kids, l, fuel),
    decreases m,
{
    if m > 0 {
        lemma_list_need_each(kids, l.drop_first(), fuel, m - 1);
        assert(l.drop_first()[m - 1] == l[m]);
    }
}

/// The room of the entries only depends on the children of the nodes they owe.
pub proof fn lemma_stack_room_frame(k1: Kids, k2: Kids, stack: Seq<i32>, top: int, fuel: nat, cap: int)
    requires
        pending(k1, stack, top, fuel) is Some,
        forall|y: int| pending(k1, stack, top, fuel).unwrap().contains(y) ==> #[trigger] k2(y) == k1(y),
        stack_room(k1, stack, top, fuel, cap),
    ensures
        stack_room(k2, stack, top, fuel, cap),
    decreases top + 1,
{
    if top >= 0 {
        let a = subtree_post(k1, stack[top] as int, fuel).unwrap();
        let b = pending(k1, stack, top - 1, fuel).unwrap();
        let s = a + b;
        assert forall|y: int| a.contains(y) implies #[trigger] k2(y) == k1(y) by {
            let i = choose|i: int| 0 <= i < a.len() && a[i] == y;
            assert(s[i] == y);
        }
        assert forall|y: int| b.contains(y) implies #[trigger] k2(y) == k1(y) by {
            let i = choose|i: int| 0 <= i < b.len() && b[i] == y;
            assert(s[a.len() + i] == y);
        }
        lemma_stack_need_frame(k1, k2, stack[top] as int, fuel);
        lemma_stack_room_frame(k1, k2, stack, top - 1, fuel, cap);
    }
}

/// The room of the entries only depends on `stack[0..=top]`.
pub proof fn lemma_stack_room_stack_frame(kids: Kids, s1: Seq<i32>, s2: Seq<i32>, top: int, fuel: nat, cap: int)
    requires
        top < s1.len(),
        top < s2.len(),
        forall|h: int| 0 <= h <= top ==> s1[h] == s2[h],
        stack_room(kids, s1, top, fuel, cap),
    ensures
        stack_room(kids, s2, top, fuel, cap),
    decreases top + 1,
{
    if top >= 0 {
        lemma_stack_room_stack_frame(kids, s1, s2, top - 1, fuel, cap);
    }
}

/// Pushing the nodes of `l` (the first one last) above `stack[0..=b]` keeps
/// every entry's room when each pushed node has its own.
pub proof fn lemma_stack_room_push(kids: Kids, stack: Seq<i32>, b: int, l: Seq<int>, fuel: nat, cap: int)
    requires
        -1 <= b,
        b + l.len() < stack.len(),
        forall|j: int| 0 <= j < l.len() ==> stack[b + l.len() - j] as int == #[trigger] l[j],
        forall|j: int| 0 <= j < l.len() ==> b + l.len() - j + stack_need(kids, #[trigger] l[j], fuel) <= cap,
        stack_room(kids, stack, b, fuel, cap),
    ensures
        stack_room(kids, stack, b + l.len(), fuel, cap),
    decreases l.len(),
{
    if l.len() > 0 {
        let l1 = l.drop_first();
        assert forall|j: int| 0 <= j < l1.len() implies stack[b + l1.len() - j] as int == #[trigger] l1[j] by {
            assert(l1[j] == l[j + 1]);
        }
        assert forall|j: int| 0 <= j < l1.len() implies b + l1.len() - j + stack_need(kids, #[trigger] l1[j], fuel) <= cap by {
            assert(l1[j] == l[j + 1]);
        }
        lemma_stack_room_push(kids, stack, b, l1, fuel, cap);
        assert(stack[b + l.len()] as int == l[0]);
    }
}

/// Each child's subtree postorder is defined and lies inside the postorder
/// of the whole list.
pub proof fn lemma_forest_post_member(kids: Kids, l: Seq<int>, fuel: nat, j: int)
    requires
        forest_post(kids, l, fuel) is Some,
        0 <= j < l.len(),
    ensures
        subtree_post(kids, l[j], fuel) is Some,
        forall|y: int| subtree_post(kids, l[j], fuel).unwrap().contains(y) ==>
            forest_post(kids, l, fuel).unwrap().contains(y),
    decreases j,
{
    let a = subtree_post(kids, l[0], fuel).unwrap();
    let b = forest_post(kids, l.drop_first(), fuel).unwrap();
    let s = a + b;
    if j == 0 {
        assert forall|y: int| a.contains(y) implies s.contains(y) by {
            let i = choose|i: int| 0 <= i < a.len() && a[i] == y;
            assert(s[i] == y);
        }
    } else {
        lemma_forest_post_member(kids, l.drop_first(), fuel, j - 1);
        assert(l.drop_first()[j - 1] == l[j]);
        assert forall|y: int| b.contains(y) implies s.contains(y) by {
            let i = choose|i: int| 0 <= i < b.len() && b[i] == y;
            assert(s[a.len() + i] == y);
        }
    }
}

/// Each stack entry owes at least itself.
pub proof fn lemma_pending_len(kids: Kids, stack: Seq<i32>, top: int, fuel: nat)
    requires
        pending(kids, stack, top, fuel) is Some,
    ensures
        pending(kids, stack, top, fuel).unwrap().len() >= top + 1,
    decreases top + 1,
{
    if top >= 0 {
        lemma_pending_len(kids, stack, top - 1, fuel);
    }
}

} // verus!

verus! {

/// One step along a link list: the node at position `j` of the list `l` is `f`,
/// and the rest of the list follows `sibling[f]`.
pub proof fn lemma_sib_list_step(sibling: Seq<i32>, n: int, f: int, fuel: nat, l: Seq<int>, j: int)
    requires
        f != -1,
        0 <= j <= l.len(),
        sib_list(sibling, n, f, fuel) == Some(l.subrange(j, l.len() as int)),
    ensures
        j < l.len(),
        l[j] == f,
        0 <= f < n,
        f < sibling.len(),
        fuel >= 1,
        sib_list(sibling, n, sibling[f] as int, (fuel - 1) as nat) == Some(l.subrange(j + 1, l.len() as int)),
{
    let t = sib_list(sibling, n, sibling[f] as int, (fuel - 1) as nat).unwrap();
    let s = l.subrange(j, l.len() as int);
    assert(s == seq![f] + t);
    assert(s.len() >= 1);
    assert(s[0] == f);
    assert(t =~= l.subrange(j + 1, l.len() as int)) by {
        assert forall|q: int| 0 <= q < t.len() implies t[q] == l[j + 1 + q] by {
            assert(s[1 + q] == t[q]);
        }
    }
}

} // verus!

verus! {

/// `l` is the link list that starts at `head` and follows `sibling`: each entry
/// lies in `0..n` and links to the next one, and the last links to `-1`.
pub open spec fn linked(sibling: Seq<i32>, n: int, head: int, l: Seq<int>) -> bool {
    &&& (l.len() == 0 ==> head == -1)
    &&& (l.len() > 0 ==> head == l[0])
    &&& forall|q: int| 0 <= q < l.len() ==> 0 <= #[trigger] l[q] < n && l[q] < sibling.len()
    &&& forall|q: int| 0 <= q < l.len() - 1 ==> sibling[#[trigger] l[q]] as int == l[q + 1]
    &&& (l.len() > 0 ==> sibling[l[l.len() - 1]] == -1)
}

/// A linked list is what `sib_list` reads, given enough fuel.
pub proof fn lemma_linked_sib_list(sibling: Seq<i32>, n: int, head: int, l: Seq<int>, fuel: nat)
    requires
        linked(sibling, n, head, l),
        fuel >= l.len(),
    ensures
        sib_list(sibling, n, head, fuel) == Some(l),
    decreases l.len(),
{
    if l.len() > 0 {
        let l1 = l.drop_first();
        let h1 = sibling[l[0]] as int;
        assert(linked(sibling, n, h1, l1)) by {
            if l.len() > 1 {
                assert(sibling[l[0]] as int == l[1]);
            }
            assert forall|q: int| 0 <= q < l1.len() - 1 implies sibling[#[trigger] l1[q]] as int == l1[q + 1] by {
                assert(l1[q] == l[q + 1]);
                assert(sibling[l[q + 1]] as int == l[q + 2]);
            }
            if l1.len() > 0 {
                assert(l1[l1.len() - 1] == l[l.len() - 1]);
            }
            assert forall|q: int| 0 <= q < l1.len() implies 0 <= #[trigger] l1[q] < n && l1[q] < sibling.len() by {
                assert(l1[q] == l[q + 1]);
            }
        }
        lemma_linked_sib_list(sibling, n, h1, l1, (fuel - 1) as nat);
        assert(seq![l[0]] + l1 == l);
    }
}

/// A linked list stays linked when the links of its entries do not change.
pub proof fn lemma_linked_frame(s1: Seq<i32>, s2: Seq<i32>, n: int, head: int, l: Seq<int>)
    requires
        linked(s1, n, head, l),
        s2.len() == s1.len(),
        forall|q: int| 0 <= q < l.len() ==> s2[#[trigger] l[q]] == s1[l[q]],
    ensures
        linked(s2, n, head, l),
{
    if l.len() > 0 {
        assert(s2[l[l.len() - 1]] == s1[l[l.len() - 1]]);
    }
}

} // verus!

verus! {

/// Linking a new entry `x` in front of a linked list.
pub proof fn lemma_linked_cons(s1: Seq<i32>, s2: Seq<i32>, n: int, head: i32, l: Seq<int>, x: int)
    requires
        linked(s1, n, head as int, l),
        0 <= x < n,
        x < s1.len(),
        !l.contains(x),
        s2 == s1.update(x, head),
    ensures
        linked(s2, n, x, seq![x] + l),
{
    let m = seq![x] + l;
    assert forall|q: int| 0 <= q < l.len() implies s2[#[trigger] l[q]] == s1[l[q]] by {
        assert(l[q] != x);
    }
    lemma_linked_frame(s1, s2, n, head as int, l);
    assert forall|q: int| 0 <= q < m.len() - 1 implies s2[#[trigger] m[q]] as int == m[q + 1] by {
        if q > 0 {
            assert(m[q] == l[q - 1]);
        }
    }
    assert forall|q: int| 0 <= q < m.len() implies 0 <= #[trigger] m[q] < n && m[q] < s2.len() by {
        if q > 0 {
            assert(m[q] == l[q - 1]);
        }
    }
    if l.len() > 0 {
        assert(m[m.len() - 1] == l[l.len() - 1]);
    }
}

} // verus!

verus! {

/// The postorder of the subtree of `t[i]` is the stretch of `t` that ends at `i`.
pub open spec fn block_ends_at(kids: Kids, t: Seq<int>, i: int, fuel: nat) -> bool {
    subtree_post(kids, t[i], fuel) matches Some(u) && u.len() <= i + 1 && t.subrange(i + 1 - u.len(), i + 1) == u
}

/// In a subtree postorder, the postorder of each listed node's own subtree is
/// the stretch that ends at that node.
pub proof fn lemma_subtree_post_contig(kids: Kids, x: int, fuel: nat)
    requires
        subtree_post(kids, x, fuel) is Some,
    ensures
        ({
            let t = subtree_post(kids, x, fuel).unwrap();
            forall|i: int| 0 <= i < t.len() ==> #[trigger] block_ends_at(kids, t, i, fuel)
        }),
    decreases fuel, 0nat, 0nat,
{
    let t = subtree_post(kids, x, fuel).unwrap();
    let l = kids(x).unwrap();
    let f = forest_post(kids, l, (fuel - 1) as nat).unwrap();
    lemma_forest_post_contig(kids, l, (fuel - 1) as nat);
    assert forall|i: int| 0 <= i < t.len() implies #[trigger] block_ends_at(kids, t, i, fuel) by {
        if i == t.len() - 1 {
            assert(t[i] == x);
            assert(t.subrange(0, t.len() as int) == t);
        } else {
            assert(t[i] == f[i]);
            assert(block_ends_at(kids, f, i, (fuel - 1) as nat));
            let u = subtree_post(kids, f[i], (fuel - 1) as nat).unwrap();
            lemma_subtree_post_mono(kids, f[i], (fuel - 1) as nat);
            assert((fuel - 1) as nat + 1 == fuel);
            assert(t.subrange(i + 1 - u.len(), i + 1) =~= f.subrange(i + 1 - u.len(), i + 1));
        }
    }
}

/// In a forest postorder, the postorder of each listed node's own subtree is
/// the stretch that ends at that node.
pub proof fn lemma_forest_post_contig(kids: Kids, l: Seq<int>, fuel: nat)
    requires
        forest_post(kids, l, fuel) is Some,
    ensures
        ({
            let t = forest_post(kids, l, fuel).unwrap();
            forall|i: int| 0 <= i < t.len() ==> #[trigger] block_ends_at(kids, t, i, fuel)
        }),
    decreases fuel, 1nat, l.len(),
{
    if l.len() > 0 {
        let t = forest_post(kids, l, fuel).unwrap();
        let a = subtree_post(kids, l[0], fuel).unwrap();
        let b = forest_post(kids, l.drop_first(), fuel).unwrap();
        lemma_subtree_post_contig(kids, l[0], fuel);
        lemma_forest_post_contig(kids, l.drop_first(), fuel);
        assert forall|i: int| 0 <= i < t.len() implies #[trigger] block_ends_at(kids, t, i, fuel) by {
            if i < a.len() {
                assert(t[i] == a[i]);
                assert(block_ends_at(kids, a, i, fuel));
                let u = subtree_post(kids, a[i], fuel).unwrap();
                assert(t.subrange(i + 1 - u.len(), i + 1) =~= a.subrange(i + 1 - u.len(), i + 1));
            } else {
                let k = i - a.len();
                assert(t[i] == b[k]);
                assert(block_ends_at(kids, b, k, fuel));
                let u = subtree_post(kids, b[k], fuel).unwrap();
                assert(t.subrange(i + 1 - u.len(), i + 1) =~= b.subrange(k + 1 - u.len(), k + 1));
            }
        }
    }
}

} // verus!

verus! {

/// A forest postorder lists every root of the forest, and ends at the last one.
pub proof fn lemma_forest_post_lists(kids: Kids, l: Seq<int>, fuel: nat)
    requires
        forest_post(kids, l, fuel) is Some,
    ensures
        forall|q: int| 0 <= q < l.len() ==> forest_post(kids, l, fuel).unwrap().contains(#[trigger] l[q]),
        l.len() > 0 ==> forest_post(kids, l, fuel).unwrap().len() > 0
            && forest_post(kids, l, fuel).unwrap().last() == l.last(),
    decreases l.len(),
{
    if l.len() > 0 {
        let t = forest_post(kids, l, fuel).unwrap();
        let a = subtree_post(kids, l[0], fuel).unwrap();
        let l1 = l.drop_first();
        let b = forest_post(kids, l1, fuel).unwrap();
        lemma_forest_post_lists(kids, l1, fuel);
        lemma_subtree_post_last(kids, l[0], fuel);
        assert forall|q: int| 0 <= q < l.len() implies t.contains(#[trigger] l[q]) by {
            if q == 0 {
                assert(t[a.len() - 1] == l[0]);
            } else {
                assert(l1[q - 1] == l[q]);
                assert(b.contains(l1[q - 1]));
                let k = choose|k: int| 0 <= k < b.len() && b[k] == l[q];
                assert(t[a.len() + k] == l[q]);
            }
        }
        if l.len() == 1 {
            assert(b.len() == 0);
            assert(t == a);
        } else {
            assert(l1.last() == l.last());
        }
    }
}

} // verus!

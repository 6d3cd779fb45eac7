use vstd::prelude::*;
use crate::amd::EMPTY;
use crate::forest::{Kids, lemma_subtree_post_mono, stack_need, list_need, stack_room, lemma_stack_need_size, lemma_stack_need_mono, lemma_stack_need_frame, lemma_list_need_each, lemma_stack_room_frame, lemma_stack_room_stack_frame, lemma_stack_room_push, lemma_forest_post_member, lemma_subtree_post_frame, list_kids, sib_list, subtree_post, forest_post, pending, lemma_subtree_post_nodes, lemma_nodup_len_bound, lemma_subtree_post_last, lemma_forest_post_nodes, lemma_pending_len, lemma_pending_stack_frame, lemma_pending_frame, lemma_forest_post_mono, lemma_forest_post_frame, lemma_pending_push, lemma_sib_list_step};

verus! {

/// Nodes of the subtree at `root`, in postorder, for the children lists held in
/// `child`/`sibling` over `0..nn`.
pub open spec fn tree_order(child: Seq<i32>, sibling: Seq<i32>, nn: int, root: int) -> Option<Seq<int>> {
    subtree_post(list_kids(child, sibling, nn), root, nn as nat)
}

/// The postorders of the subtrees at the nodes of `l`, one after the other.
pub open spec fn trees_of(child: Seq<i32>, sibling: Seq<i32>, nn: int, l: Seq<int>) -> Seq<int>
    decreases l.len(),
{
    if l.len() == 0 {
        Seq::empty()
    } else {
        tree_order(child, sibling, nn, l[0]).unwrap() + trees_of(child, sibling, nn, l.drop_first())
    }
}

proof fn lemma_subtree_post_more_fuel(kids: Kids, x: int, f: nat, g: nat)
    requires
        subtree_post(kids, x, f) is Some,
        f <= g,
    ensures
        subtree_post(kids, x, g) == subtree_post(kids, x, f),
    decreases g - f,
{
    if f < g {
        lemma_subtree_post_mono(kids, x, f);
        lemma_subtree_post_more_fuel(kids, x, f + 1, g);
    }
}

proof fn lemma_forest_post_trees(child: Seq<i32>, sibling: Seq<i32>, nn: int, l: Seq<int>, f: nat)
    requires
        forest_post(list_kids(child, sibling, nn), l, f) is Some,
        f <= nn,
    ensures
        forall|j: int| 0 <= j < l.len() ==> (#[trigger] tree_order(child, sibling, nn, l[j])) is Some,
        forest_post(list_kids(child, sibling, nn), l, f).unwrap() == trees_of(child, sibling, nn, l),
    decreases l.len(),
{
    if l.len() > 0 {
        let kids = list_kids(child, sibling, nn);
        lemma_subtree_post_more_fuel(kids, l[0], f, nn as nat);
        lemma_forest_post_trees(child, sibling, nn, l.drop_first(), f);
        assert forall|j: int| 0 <= j < l.len() implies (#[trigger] tree_order(child, sibling, nn, l[j])) is Some by {
            if j > 0 {
                assert(l[j] == l.drop_first()[j - 1]);
            }
        }
    }
}

/// Law: the postorder of the subtree at `root` is the postorders of the
/// subtrees at its children, in list order, then `root`; so `post_tree` on
/// `root` numbers as its calls on the children, one after the other, then
/// gives `root` the next number.
pub proof fn lemma_tree_order_children(child: Seq<i32>, sibling: Seq<i32>, nn: int, root: int)
    requires
        tree_order(child, sibling, nn, root) is Some,
    ensures
        0 <= root < nn && root < child.len(),
        sib_list(sibling, nn, child[root] as int, nn as nat) is Some,
        ({
            let l = sib_list(sibling, nn, child[root] as int, nn as nat).unwrap();
            &&& forall|j: int| 0 <= j < l.len() ==> (#[trigger] tree_order(child, sibling, nn, l[j])) is Some
            &&& tree_order(child, sibling, nn, root).unwrap() == trees_of(child, sibling, nn, l).push(root)
        }),
{
    let kids = list_kids(child, sibling, nn);
    let l = sib_list(sibling, nn, child[root] as int, nn as nat).unwrap();
    assert(kids(root) == Some(l));
    lemma_forest_post_trees(child, sibling, nn, l, (nn - 1) as nat);
}

/// Postorders the subtree at `root` without recursion: the nodes of the subtree,
/// children before their parent and children in list order, get the numbers
/// `k, k+1, ...` in `order`; returns the next free number.  The child lists of
/// the numbered nodes are emptied; `stack` is workspace, and needs the room
/// that the walk takes (`stack_need`), at most one slot per node of the subtree.
pub fn post_tree(
    root: i32,
    k: i32,
    child: &mut [i32],
    sibling: &[i32],
    order: &mut [i32],
    stack: &mut [i32],
    nn: i32,
) -> (r: i32)
    requires
        0 <= nn <= old(child)@.len(),
        nn <= sibling@.len(),
        nn <= old(order)@.len(),
        tree_order(old(child)@, sibling@, nn as int, root as int) matches Some(t) && {
            &&& t.no_duplicates()
            &&& k + t.len() <= nn
            &&& stack_need(list_kids(old(child)@, sibling@, nn as int), root as int, nn as nat) <= old(stack)@.len()
        },
    ensures
        ({
            let t = tree_order(old(child)@, sibling@, nn as int, root as int).unwrap();
            &&& r == k + t.len()
            &&& final(order)@.len() == old(order)@.len()
            &&& forall|j: int| 0 <= j < t.len() ==> final(order)@[#[trigger] t[j]] == k + j
            &&& forall|x: int|
                0 <= x < old(order)@.len() && !t.contains(x) ==> #[trigger] final(order)@[x] == old(order)@[x]
            &&& final(child)@.len() == old(child)@.len()
            &&& forall|x: int| 0 <= x < old(child)@.len() ==>
                #[trigger] final(child)@[x] == (if t.contains(x) { EMPTY } else { old(child)@[x] })
            &&& final(stack)@.len() == old(stack)@.len()
        }),
{
    let ghost n = nn as int;
    let ghost fuel = nn as nat;
    let ghost t = tree_order(child@, sibling@, n, root as int).unwrap();
    let ghost k0 = k as int;
    let ghost child0 = child@;
    let ghost order0 = order@;
    proof {
        let kids = list_kids(child@, sibling@, n);
        lemma_subtree_post_nodes(kids, root as int, fuel);
        assert forall|j: int| 0 <= j < t.len() implies 0 <= #[trigger] t[j] < n by {
            assert(t.contains(t[j]));
            assert(kids(t[j]) is Some);
        }
        lemma_nodup_len_bound(t, n);
        lemma_subtree_post_last(kids, root as int, fuel);
        lemma_stack_need_size(kids, root as int, fuel);
    }
    let mut k = k;
    let mut head: i32 = 0;
    stack[0] = root;
    proof {
        let kids = list_kids(child@, sibling@, n);
        assert(pending(kids, stack@, -1, fuel) == Some(Seq::<int>::empty()));
        assert(stack@[0] == root);
        assert(stack_need(kids, stack@[0] as int, fuel) <= stack@.len());
        assert(stack_room(kids, stack@, -1, fuel, stack@.len() as int));
        assert(stack_room(kids, stack@, 0, fuel, stack@.len() as int));
        assert(t + Seq::<int>::empty() == t);
        assert(t.subrange(0, t.len() as int) == t);
    }
    while head >= 0
        invariant
            0 <= n == nn <= child@.len(),
            n <= sibling@.len(),
            n <= order@.len(),
            stack_room(list_kids(child@, sibling@, n), stack@, head as int, fuel, stack@.len() as int),
            fuel == n,
            child@.len() == child0.len(),
            order@.len() == order0.len(),
            stack@.len() == old(stack)@.len(),
            t.no_duplicates(),
            t.len() <= n,
            forall|j: int| 0 <= j < t.len() ==> 0 <= #[trigger] t[j] < n,
            k0 + t.len() <= n,
            k0 <= k <= k0 + t.len(),
            -1 <= head < n,
            head + 1 <= t.len() - (k - k0),
            pending(list_kids(child@, sibling@, n), stack@, head as int, fuel)
                == Some(t.subrange(k - k0, t.len() as int)),
            forall|j: int| 0 <= j < k - k0 ==> order@[#[trigger] t[j]] == k0 + j,
            forall|j: int| 0 <= j < k - k0 ==> child@[#[trigger] t[j]] == EMPTY,
            forall|x: int|
                0 <= x < order0.len() && !t.subrange(0, k - k0).contains(x)
                    ==> #[trigger] order@[x] == order0[x],
            forall|x: int| 0 <= x < child0.len() && !t.contains(x) ==> #[trigger] child@[x] == child0[x],
        decreases t.len() - (k - k0), t.len() - (k - k0) - (head + 1),
    {
        let ghost kc = list_kids(child@, sibling@, n);
        let ghost d = k - k0;
        let ghost order_start = order@;
        let ghost child_start = child@;
        let ghost rem = t.subrange(d, t.len() as int);
        proof {
            assert(subtree_post(kc, stack@[head as int] as int, fuel) is Some);
            lemma_stack_need_size(kc, stack@[head as int] as int, fuel);
            assert(head + stack_need(kc, stack@[head as int] as int, fuel) <= stack@.len());
        }
        let i = stack[head as usize];
        let ghost pi = subtree_post(kc, i as int, fuel).unwrap();
        let ghost rest = pending(kc, stack@, head - 1, fuel).unwrap();
        proof {
            assert(rem == pi + rest);
            lemma_subtree_post_last(kc, i as int, fuel);
            assert(pi[pi.len() - 1] == i as int);
            assert(rem[pi.len() - 1] == i as int);
            assert(t[d + pi.len() - 1] == i as int);
            assert(t.contains(i as int));
        }
        if child[i as usize] != EMPTY {
            let ghost l = sib_list(sibling@, n, child@[i as int] as int, fuel).unwrap();
            let ghost fl = forest_post(kc, l, (fuel - 1) as nat).unwrap();
            proof {
                assert(pi == fl.push(i as int));
                lemma_forest_post_nodes(kc, l, (fuel - 1) as nat);
                lemma_pending_len(kc, stack@, head - 1, fuel);
                assert(l.len() >= 1);
                // i has room for its children above it
                assert(kc(i as int) == Some(l));
                assert(stack_need(kc, i as int, fuel) == 1 + list_need(kc, l, (fuel - 1) as nat));
                lemma_forest_post_member(kc, l, (fuel - 1) as nat, 0);
                lemma_stack_need_size(kc, l[0], (fuel - 1) as nat);
                lemma_list_need_each(kc, l, (fuel - 1) as nat, 0);
                assert(head + l.len() < stack@.len());
            }
            let ghost head0 = head as int;
            // count the children, making room for them above i
            let mut f = child[i as usize];
            let ghost mut j: int = 0;
            while f != EMPTY
                invariant
                    0 <= j <= l.len(),
                    n == nn,
                    fuel == n,
                    head0 >= 0,
                    head == head0 + j,
                    head0 + l.len() < t.len(),
                    t.len() <= n,
                    n <= sibling@.len(),
                    sib_list(sibling@, n, f as int, (fuel - j) as nat) == Some(l.subrange(j, l.len() as int)),
                decreases l.len() - j,
            {
                proof {
                    lemma_sib_list_step(sibling@, n, f as int, (fuel - j) as nat, l, j);
                    assert((fuel - j) as nat >= 1);
                    assert(fuel - j >= 1);
                }
                let ghost f_old = f as int;
                head += 1;
                f = sibling[f as usize];
                proof {
                    assert(f as int == sibling@[f_old] as int);
                    assert(((fuel - j) as nat - 1) as nat == (fuel - (j + 1)) as nat);
                    j = j + 1;
                }
            }
            proof {
                assert(l.subrange(j, l.len() as int).len() == 0);
            }
            let ghost stack_before = stack@;
            let mut h = head;
            let mut f = child[i as usize];
            let ghost mut j: int = 0;
            while f != EMPTY
                invariant
                    0 <= j <= l.len(),
                    n == nn,
                    fuel == n,
                    head0 >= 0,
                    head == head0 + l.len(),
                    h == head - j,
                    head < stack@.len(),
                    head0 + l.len() < t.len(),
                    t.len() <= n,
                    n <= sibling@.len(),
                    stack@.len() == stack_before.len(),
                    sib_list(sibling@, n, f as int, (fuel - j) as nat) == Some(l.subrange(j, l.len() as int)),
                    forall|jj: int| 0 <= jj < j ==> stack@[head - jj] as int == #[trigger] l[jj],
                    forall|x: int| 0 <= x <= head - j ==> #[trigger] stack@[x] == stack_before[x],
                decreases l.len() - j,
            {
                proof {
                    lemma_sib_list_step(sibling@, n, f as int, (fuel - j) as nat, l, j);
                }
                stack[h as usize] = f;
                h -= 1;
                f = sibling[f as usize];
                proof {
                    j = j + 1;
                }
            }
            proof {
                assert(l.subrange(j, l.len() as int).len() == 0);
                assert(j == l.len());
            }
            let ghost child_before = child@;
            child[i as usize] = EMPTY;
            proof {
                assert(child_before == child_start);
                assert(child@ == child_before.update(i as int, EMPTY));
                assert(t[d + pi.len() - 1] == i as int);
                assert forall|jj: int| 0 <= jj < d implies child@[#[trigger] t[jj]] == EMPTY by {
                    assert(child_start[t[jj]] == EMPTY);
                    assert(t[jj] != t[d + pi.len() - 1]);
                    assert(child@[t[jj]] == child_before[t[jj]]);
                }
                let kc2 = list_kids(child@, sibling@, n);
                let s2 = stack@;
                assert(s2[head0] == i);
                // the children lists changed only at i
                assert forall|y: int| y != i as int implies #[trigger] kc2(y) == kc(y) by {
                    if 0 <= y < n && y < child@.len() {
                        assert(child@[y] == child_start[y]);
                    }
                }
                assert(kc2(i as int) == Some(Seq::<int>::empty()));
                // the rest of the stack is unchanged and does not list i
                lemma_pending_stack_frame(kc, stack_before, s2, head0 - 1, fuel);
                assert(rem.no_duplicates());
                assert forall|y: int| rest.contains(y) implies #[trigger] kc2(y) == kc(y) by {
                    let q = choose|q: int| 0 <= q < rest.len() && rest[q] == y;
                    assert(rem[pi.len() + q] == y);
                    assert(rem[pi.len() - 1] == i as int);
                }
                lemma_pending_frame(kc, kc2, s2, head0 - 1, fuel);
                // the children's subtrees do not list i either
                assert forall|y: int| fl.contains(y) implies #[trigger] kc2(y) == kc(y) by {
                    let q = choose|q: int| 0 <= q < fl.len() && fl[q] == y;
                    assert(rem[q] == y);
                    assert(rem[pi.len() - 1] == i as int);
                }
                lemma_forest_post_mono(kc, l, (fuel - 1) as nat);
                lemma_forest_post_frame(kc, kc2, l, fuel);
                // i now owes only itself
                assert(forest_post(kc2, Seq::<int>::empty(), (fuel - 1) as nat) == Some(Seq::<int>::empty()));
                assert(subtree_post(kc2, i as int, fuel) == Some(seq![i as int]));
                assert(pending(kc2, s2, head0, fuel) == Some(seq![i as int] + rest));
                lemma_pending_push(kc2, s2, head0, l, fuel);
                // every entry keeps its room
                lemma_stack_room_stack_frame(kc, stack_before, s2, head0 - 1, fuel, s2.len() as int);
                lemma_stack_room_frame(kc, kc2, s2, head0 - 1, fuel, s2.len() as int);
                assert(stack_need(kc, i as int, fuel) == 1 + list_need(kc, l, (fuel - 1) as nat));
                assert(head0 + stack_need(kc, i as int, fuel) <= s2.len());
                assert(stack_need(kc2, i as int, fuel) == 1 + list_need(kc2, Seq::<int>::empty(), (fuel - 1) as nat));
                assert(stack_room(kc2, s2, head0, fuel, s2.len() as int));
                assert forall|jj: int| 0 <= jj < l.len() implies
                    head0 + l.len() - jj + stack_need(kc2, #[trigger] l[jj], fuel) <= s2.len() by {
                    lemma_forest_post_member(kc, l, (fuel - 1) as nat, jj);
                    lemma_stack_need_mono(kc, l[jj], (fuel - 1) as nat);
                    lemma_subtree_post_mono(kc, l[jj], (fuel - 1) as nat);
                    let st = subtree_post(kc, l[jj], fuel).unwrap();
                    assert forall|y: int| st.contains(y) implies #[trigger] kc2(y) == kc(y) by {
                        assert(fl.contains(y));
                    }
                    lemma_stack_need_frame(kc, kc2, l[jj], fuel);
                    lemma_list_need_each(kc, l, (fuel - 1) as nat, jj);
                }
                lemma_stack_room_push(kc2, s2, head0, l, fuel, s2.len() as int);
                assert(fl + (seq![i as int] + rest) == pi + rest);
                lemma_pending_len(kc2, s2, head as int, fuel);
            }
        } else {
            proof {
                assert(kc(i as int) == Some(Seq::<int>::empty()));
                assert(forest_post(kc, Seq::<int>::empty(), (fuel - 1) as nat) == Some(Seq::<int>::empty()));
                assert(pi == seq![i as int]);
                assert(t[d] == i as int);
                assert(rem =~= seq![i as int] + rest);
                assert(rest =~= t.subrange(d + 1, t.len() as int)) by {
                    assert forall|q: int| 0 <= q < rest.len() implies rest[q] == t[d + 1 + q] by {
                        assert(rem[1 + q] == rest[q]);
                    }
                }
            }
            let ghost order_before = order@;
            assert(order_before == order_start);
            head -= 1;
            order[i as usize] = k;
            proof {
                assert forall|x: int|
                    0 <= x < order0.len() && !t.subrange(0, d + 1).contains(x)
                        implies #[trigger] order@[x] == order0[x] by {
                    assert(t.subrange(0, d + 1)[d] == i as int);
                    if t.subrange(0, d).contains(x) {
                        let q = choose|q: int| 0 <= q < d && t.subrange(0, d)[q] == x;
                        assert(t.subrange(0, d + 1)[q] == x);
                    }
                }
                assert forall|jj: int| 0 <= jj < d + 1 implies order@[#[trigger] t[jj]] == k0 + jj by {
                    if jj < d {
                        assert(t[jj] != t[d]);
                        assert(order_start[t[jj]] == k0 + jj);
                    } else {
                        assert(t[jj] == i as int);
                        assert(order@[i as int] == k);
                    }
                }
                assert forall|jj: int| 0 <= jj < d + 1 implies child@[#[trigger] t[jj]] == EMPTY by {
                    if jj == d {
                        assert(t[jj] == i as int);
                    }
                }
                lemma_pending_len(kc, stack@, head as int, fuel);
            }
            k += 1;
        }
    }
    proof {
        assert(t.subrange(0, t.len() as int) == t);
        assert forall|x: int| 0 <= x < child0.len() implies
            #[trigger] child@[x] == (if t.contains(x) { EMPTY } else { child0[x] }) by {
            if t.contains(x) {
                let q = choose|q: int| 0 <= q < t.len() && t[q] == x;
            }
        }
    }
    k
}

} // verus!

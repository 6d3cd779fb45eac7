use vstd::prelude::*;
use crate::amd::EMPTY;
use crate::post_tree::{post_tree, tree_order};
use crate::forest::{lemma_stack_need_size, block_ends_at, lemma_subtree_post_contig, lemma_forest_post_lists, lemma_subtree_post_last, Kids, subtree_post, forest_post, linked, list_kids, lemma_nodup_len_bound, lemma_linked_sib_list, lemma_subtree_post_frame, lemma_linked_cons, lemma_linked_frame};

verus! {

/// `j` is an element of the assembly forest: `nv[j] > 0`.
pub open spec fn is_elem(nv: Seq<i32>, n: int, j: int) -> bool {
    0 <= j < n && j < nv.len() && nv[j] > 0
}

/// The elements in `j..n` whose parent is `p`, in increasing order.
pub open spec fn kids_from(parent: Seq<i32>, nv: Seq<i32>, n: int, p: int, j: int) -> Seq<int>
    decreases n - j,
{
    if j >= n {
        Seq::empty()
    } else {
        let rest = kids_from(parent, nv, n, p, j + 1);
        if is_elem(nv, n, j) && j < parent.len() && parent[j] as int == p {
            seq![j] + rest
        } else {
            rest
        }
    }
}

/// Position in `l` of the child that the scan over `l[0..m]` picks as the
/// biggest front: the last one whose size is at least every size before it
/// and at least `-1`; `-1` when there is none.
pub open spec fn big_pos(l: Seq<int>, f_size: Seq<i32>, m: int) -> int
    decreases m,
{
    if m <= 0 {
        -1
    } else {
        let b = big_pos(l, f_size, m - 1);
        let best = if b == -1 { -1 } else { f_size[l[b]] as int };
        if f_size[l[m - 1]] as int >= best {
            m - 1
        } else {
            b
        }
    }
}

/// `l` with its entry at position `b` moved to the end.
pub open spec fn move_last(l: Seq<int>, b: int) -> Seq<int> {
    if b == l.len() - 1 {
        l
    } else {
        l.remove(b).push(l[b])
    }
}

/// The children of `p` in the order in which they are postordered: increasing,
/// except that for an element `p` the biggest child goes last.
pub open spec fn sorted_kids(parent: Seq<i32>, nv: Seq<i32>, f_size: Seq<i32>, n: int, p: int) -> Seq<int> {
    let l = kids_from(parent, nv, n, p, 0);
    if is_elem(nv, n, p) && l.len() > 0 {
        move_last(l, big_pos(l, f_size, l.len() as int))
    } else {
        l
    }
}

/// The children lists of the assembly forest.
pub open spec fn post_kids(parent: Seq<i32>, nv: Seq<i32>, f_size: Seq<i32>, n: int) -> Kids {
    |p: int| if 0 <= p < n { Some(sorted_kids(parent, nv, f_size, n, p)) } else { None }
}

/// `r` is a root of the assembly forest: an element without parent.
pub open spec fn is_root(parent: Seq<i32>, nv: Seq<i32>, n: int, r: int) -> bool {
    is_elem(nv, n, r) && r < parent.len() && parent[r] == -1
}

/// Postorders of the trees rooted at `0..i`, one after the other.
pub open spec fn roots_post(kids: Kids, parent: Seq<i32>, nv: Seq<i32>, n: int, i: int) -> Seq<int>
    decreases i,
{
    if i <= 0 {
        Seq::empty()
    } else {
        roots_post(kids, parent, nv, n, i - 1) + if is_root(parent, nv, n, i - 1) {
            subtree_post(kids, i - 1, n as nat).unwrap()
        } else {
            Seq::empty()
        }
    }
}

/// The postorder of the whole assembly forest.
pub open spec fn forest_order(parent: Seq<i32>, nv: Seq<i32>, f_size: Seq<i32>, n: int) -> Seq<int> {
    roots_post(post_kids(parent, nv, f_size, n), parent, nv, n, n)
}

/// `parent` applied `e` times to `x`; `-1` once outside `0..n`.
pub open spec fn anc(parent: Seq<i32>, n: int, x: int, e: nat) -> int
    decreases e,
{
    if e == 0 {
        x
    } else {
        let y = anc(parent, n, x, (e - 1) as nat);
        if 0 <= y < n && y < parent.len() {
            parent[y] as int
        } else {
            -1
        }
    }
}

/// What `postorder` needs of its input: every element's parent is `-1` or an
/// element, and an element with children has one whose size is at least `-1`.
pub open spec fn postorder_input(parent: Seq<i32>, nv: Seq<i32>, f_size: Seq<i32>, n: int) -> bool {
    &&& forall|j: int| #[trigger] is_elem(nv, n, j) ==>
        parent[j] == -1 || is_elem(nv, n, parent[j] as int)
    &&& forall|p: int, j: int| is_elem(nv, n, p) && is_elem(nv, n, j) && parent[j] as int == p ==>
        exists|x: int| #[trigger] is_elem(nv, n, x) && parent[x] as int == p && f_size[x] >= -1
}

/// Children lists once the lists of `0..i` have had their biggest child moved last.
pub open spec fn partly_sorted(parent: Seq<i32>, nv: Seq<i32>, f_size: Seq<i32>, n: int, p: int, i: int) -> Seq<int> {
    if p < i { sorted_kids(parent, nv, f_size, n, p) } else { kids_from(parent, nv, n, p, 0) }
}

// ---------------------------------------------------------------- lemmas

/// The entries of `kids_from` are exactly the elements in `j..n` with parent `p`,
/// in increasing order.
pub proof fn lemma_kids_from(parent: Seq<i32>, nv: Seq<i32>, n: int, p: int, j: int)
    requires
        n <= parent.len(),
        0 <= j,
    ensures
        ({
            let l = kids_from(parent, nv, n, p, j);
            &&& l.len() <= if n - j >= 0 { n - j } else { 0 }
            &&& forall|q: int| 0 <= q < l.len() ==>
                j <= #[trigger] l[q] < n && is_elem(nv, n, l[q]) && parent[l[q]] as int == p
            &&& forall|q1: int, q2: int| 0 <= q1 < q2 < l.len() ==> #[trigger] l[q1] < #[trigger] l[q2]
            &&& forall|x: int| j <= x < n && is_elem(nv, n, x) && parent[x] as int == p ==> #[trigger] l.contains(x)
            &&& l.no_duplicates()
        }),
    decreases n - j,
{
    let l = kids_from(parent, nv, n, p, j);
    if j < n {
        lemma_kids_from(parent, nv, n, p, j + 1);
        let rest = kids_from(parent, nv, n, p, j + 1);
        if is_elem(nv, n, j) && parent[j] as int == p {
            assert(l == seq![j] + rest);
            assert forall|x: int| j <= x < n && is_elem(nv, n, x) && parent[x] as int == p implies #[trigger] l.contains(x) by {
                if x == j {
                    assert(l[0] == j);
                } else {
                    assert(rest.contains(x));
                    let q = choose|q: int| 0 <= q < rest.len() && rest[q] == x;
                    assert(l[q + 1] == x);
                }
            }
            assert forall|q1: int, q2: int| 0 <= q1 < q2 < l.len() implies #[trigger] l[q1] < #[trigger] l[q2] by {
                if q1 > 0 {
                    assert(l[q1] == rest[q1 - 1]);
                }
                assert(l[q2] == rest[q2 - 1]);
            }
        }
    }
}

/// The scan picks a position inside `l[0..m]`, and picks one as soon as some
/// size there is at least `-1`.
pub proof fn lemma_big_pos(l: Seq<int>, f_size: Seq<i32>, m: int)
    requires
        0 <= m <= l.len(),
    ensures
        -1 <= big_pos(l, f_size, m) < m,
        (exists|q: int| 0 <= q < m && f_size[#[trigger] l[q]] >= -1) ==> big_pos(l, f_size, m) >= 0,
    decreases m,
{
    if m > 0 {
        lemma_big_pos(l, f_size, m - 1);
        if exists|q: int| 0 <= q < m && f_size[#[trigger] l[q]] >= -1 {
            let q = choose|q: int| 0 <= q < m && f_size[#[trigger] l[q]] >= -1;
            if q < m - 1 {
                assert(exists|q: int| 0 <= q < m - 1 && f_size[#[trigger] l[q]] >= -1);
            }
        }
    }
}

/// Law: the biggest child is the last position of `l[0..m]` whose size is
/// greatest, when that size is at least `-1`; with no size at least `-1`
/// there is none.
pub proof fn lemma_big_pos_greatest(l: Seq<int>, f_size: Seq<i32>, m: int)
    requires
        0 <= m <= l.len(),
    ensures
        big_pos(l, f_size, m) == -1 <==> forall|q: int| 0 <= q < m ==> f_size[#[trigger] l[q]] < -1,
        big_pos(l, f_size, m) != -1 ==> {
            let b = big_pos(l, f_size, m);
            &&& 0 <= b < m
            &&& f_size[l[b]] >= -1
            &&& forall|q: int| 0 <= q < m ==> f_size[#[trigger] l[q]] <= f_size[l[b]]
            &&& forall|q: int| b < q < m ==> f_size[#[trigger] l[q]] < f_size[l[b]]
        },
    decreases m,
{
    if m > 0 {
        lemma_big_pos_greatest(l, f_size, m - 1);
        lemma_big_pos(l, f_size, m - 1);
    }
}

/// Moving an entry to the end keeps the entries and their count.
pub proof fn lemma_move_last(l: Seq<int>, b: int)
    requires
        0 <= b < l.len(),
        l.no_duplicates(),
    ensures
        move_last(l, b).len() == l.len(),
        move_last(l, b).no_duplicates(),
        forall|x: int| #[trigger] move_last(l, b).contains(x) <==> l.contains(x),
        move_last(l, b)[l.len() - 1] == l[b],
{
    let m = move_last(l, b);
    if b != l.len() - 1 {
        let r = l.remove(b);
        assert(r =~= l.subrange(0, b) + l.subrange(b + 1, l.len() as int));
        assert forall|q: int| 0 <= q < r.len() implies #[trigger] r[q] == if q < b { l[q] } else { l[q + 1] } by {}
        assert forall|x: int| #[trigger] m.contains(x) <==> l.contains(x) by {
            if m.contains(x) {
                let q = choose|q: int| 0 <= q < m.len() && m[q] == x;
                if q == l.len() - 1 {
                    assert(l[b] == x);
                } else if q < b {
                    assert(l[q] == x);
                } else {
                    assert(l[q + 1] == x);
                }
            }
            if l.contains(x) {
                let q = choose|q: int| 0 <= q < l.len() && l[q] == x;
                if q == b {
                    assert(m[l.len() - 1] == x);
                } else if q < b {
                    assert(m[q] == x);
                } else {
                    assert(m[q - 1] == x);
                }
            }
        }
        assert forall|q1: int, q2: int| 0 <= q1 < m.len() && 0 <= q2 < m.len() && q1 != q2 implies m[q1] != m[q2] by {
            let i1 = if q1 == l.len() - 1 { b } else if q1 < b { q1 } else { q1 + 1 };
            let i2 = if q2 == l.len() - 1 { b } else if q2 < b { q2 } else { q2 + 1 };
            assert(m[q1] == l[i1]);
            assert(m[q2] == l[i2]);
        }
    }
}

} // verus!

verus! {

/// The children lists hold children of `p` only, once each.
pub proof fn lemma_partly_sorted(parent: Seq<i32>, nv: Seq<i32>, f_size: Seq<i32>, n: int, p: int, i: int)
    requires
        n <= parent.len(),
        postorder_input(parent, nv, f_size, n),
    ensures
        ({
            let l = partly_sorted(parent, nv, f_size, n, p, i);
            &&& forall|q: int| 0 <= q < l.len() ==> 0 <= #[trigger] l[q] < n && is_elem(nv, n, l[q]) && parent[l[q]] as int == p
            &&& l.no_duplicates()
        }),
{
    let k = kids_from(parent, nv, n, p, 0);
    lemma_kids_from(parent, nv, n, p, 0);
    if p < i && is_elem(nv, n, p) && k.len() > 0 {
        let b = big_pos(k, f_size, k.len() as int);
        assert(is_elem(nv, n, k[0]) && parent[k[0]] as int == p);
        let x = choose|x: int| #[trigger] is_elem(nv, n, x) && parent[x] as int == p && f_size[x] >= -1;
        assert(k.contains(x));
        let q = choose|q: int| 0 <= q < k.len() && k[q] == x;
        assert(f_size[k[q]] >= -1);
        lemma_big_pos(k, f_size, k.len() as int);
        lemma_move_last(k, b);
        let l = move_last(k, b);
        assert forall|q: int| 0 <= q < l.len() implies 0 <= #[trigger] l[q] < n && is_elem(nv, n, l[q]) && parent[l[q]] as int == p by {
            assert(l.contains(l[q]));
            assert(k.contains(l[q]));
        }
    }
}

/// Unlinking `l[b]` and relinking it after the last entry yields the list
/// `move_last(l, b)`.
pub proof fn lemma_move_last_linked(
    s1: Seq<i32>,
    s2: Seq<i32>,
    n: int,
    h1: int,
    h2: int,
    l: Seq<int>,
    b: int,
)
    requires
        linked(s1, n, h1, l),
        l.no_duplicates(),
        0 <= b < l.len() - 1,
        s2.len() == s1.len(),
        h2 == if b == 0 { l[1] } else { h1 },
        b > 0 ==> s2[l[b - 1]] as int == l[b + 1],
        s2[l[b]] == -1,
        s2[l[l.len() - 1]] as int == l[b],
        forall|q: int| 0 <= q < l.len() && q != b - 1 && q != b && q != l.len() - 1
            ==> s2[#[trigger] l[q]] == s1[l[q]],
    ensures
        linked(s2, n, h2, move_last(l, b)),
{
    let m = move_last(l, b);
    let len = l.len();
    lemma_move_last(l, b);
    assert forall|q: int| 0 <= q < m.len() implies #[trigger] m[q] == if q == len - 1 { l[b] } else if q < b { l[q] } else { l[q + 1] } by {}
    assert forall|q: int| 0 <= q < m.len() - 1 implies s2[#[trigger] m[q]] as int == m[q + 1] by {
        if q < b - 1 {
            assert(s2[l[q]] == s1[l[q]]);
            assert(s1[l[q]] as int == l[q + 1]);
        } else if q == b - 1 {
        } else if q < len - 2 {
            assert(q + 1 != len - 1);
            assert(l[q + 1] != l[b]);
            assert(l[q + 1] != l[len - 1]);
            if b > 0 {
                assert(l[q + 1] != l[b - 1]);
            }
            assert(s2[l[q + 1]] == s1[l[q + 1]]);
            assert(s1[l[q + 1]] as int == l[q + 2]);
        } else {
            assert(q == len - 2);
        }
    }
    assert forall|q: int| 0 <= q < m.len() implies 0 <= #[trigger] m[q] < n && m[q] < s2.len() by {
        if q == len - 1 {
            assert(0 <= l[b] < n);
        } else if q < b {
            assert(0 <= l[q] < n);
        } else {
            assert(0 <= l[q + 1] < n);
        }
    }
}

} // verus!

verus! {

/// Postorders the assembly forest given by `parent` over `0..nn`, where the
/// elements are the nodes with `nv[j] > 0`.  Each node's children are taken in
/// increasing order, except that the child with the biggest front `f_size`
/// goes last; the trees are taken by increasing root.  On return `order[j]` is
/// the position of `j` in that postorder, or `EMPTY` for a node that is not in
/// it.  `child`, `sibling` and `stack` are workspace.
pub fn postorder(
    nn: i32,
    parent: &[i32],
    nv: &[i32],
    f_size: &[i32],
    order: &mut [i32],
    child: &mut [i32],
    sibling: &mut [i32],
    stack: &mut [i32],
)
    requires
        nn <= parent@.len(),
        nn <= nv@.len(),
        nn <= f_size@.len(),
        nn <= old(order)@.len(),
        nn <= old(child)@.len(),
        nn <= old(sibling)@.len(),
        nn <= old(stack)@.len(),
        postorder_input(parent@, nv@, f_size@, nn as int),
    ensures
        ({
            let s = forest_order(parent@, nv@, f_size@, nn as int);
            &&& s.no_duplicates()
            &&& final(order)@.len() == old(order)@.len()
            &&& forall|j: int| 0 <= j < s.len() ==> final(order)@[#[trigger] s[j]] == j
            &&& forall|x: int| 0 <= x < nn && !s.contains(x) ==> #[trigger] final(order)@[x] == EMPTY
            &&& forall|x: int| 0 <= x < old(order)@.len() && x >= nn ==> #[trigger] final(order)@[x] == old(order)@[x]
            &&& final(child)@.len() == old(child)@.len()
            &&& final(sibling)@.len() == old(sibling)@.len()
            &&& final(stack)@.len() == old(stack)@.len()
        }),
{
    if nn <= 0 {
        return;
    }
    let ghost n = nn as int;
    let ghost pa = parent@;
    let ghost nvs = nv@;
    let ghost fs = f_size@;
    let mut j: i32 = 0;
    while j < nn
        invariant
            0 <= j <= nn,
            nn <= child@.len(),
            nn <= sibling@.len(),
            child@.len() == old(child)@.len(),
            sibling@.len() == old(sibling)@.len(),
            forall|x: int| 0 <= x < j ==> child@[x] == EMPTY && sibling@[x] == EMPTY,
        decreases nn - j,
    {
        child[j as usize] = EMPTY;
        sibling[j as usize] = EMPTY;
        j += 1;
    }
    // Place the children in link lists, in increasing order.
    let mut j: i32 = nn;
    proof {
        assert forall|p: int| 0 <= p < n implies linked(sibling@, n, child@[p] as int, #[trigger] kids_from(pa, nvs, n, p, n)) by {}
    }
    while j > 0
        invariant
            0 <= j <= nn,
            n == nn,
            pa == parent@,
            nvs == nv@,
            nn <= parent@.len(),
            nn <= nv@.len(),
            nn <= child@.len(),
            nn <= sibling@.len(),
            child@.len() == old(child)@.len(),
            sibling@.len() == old(sibling)@.len(),
            postorder_input(parent@, nv@, f_size@, n),
            forall|p: int| 0 <= p < n ==> linked(sibling@, n, child@[p] as int, #[trigger] kids_from(pa, nvs, n, p, j as int)),
        decreases j,
    {
        j -= 1;
        let ghost s1 = sibling@;
        let ghost c1 = child@;
        if nv[j as usize] > 0 {
            let p = parent[j as usize];
            if p != EMPTY {
                proof {
                    assert(is_elem(nvs, n, j as int));
                }
                sibling[j as usize] = child[p as usize];
                child[p as usize] = j;
                proof {
                    assert forall|pp: int| 0 <= pp < n implies linked(sibling@, n, child@[pp] as int, #[trigger] kids_from(pa, nvs, n, pp, j as int)) by {
                        lemma_kids_from(pa, nvs, n, pp, j + 1);
                        let old_l = kids_from(pa, nvs, n, pp, j + 1);
                        assert(linked(s1, n, c1[pp] as int, old_l));
                        assert(!old_l.contains(j as int)) by {
                            if old_l.contains(j as int) {
                                let q = choose|q: int| 0 <= q < old_l.len() && old_l[q] == j;
                            }
                        }
                        if pp == p as int {
                            assert(kids_from(pa, nvs, n, pp, j as int) == seq![j as int] + old_l);
                            lemma_linked_cons(s1, sibling@, n, c1[pp], old_l, j as int);
                        } else {
                            assert forall|q: int| 0 <= q < old_l.len() implies sibling@[#[trigger] old_l[q]] == s1[old_l[q]] by {}
                            lemma_linked_frame(s1, sibling@, n, c1[pp] as int, old_l);
                        }
                    }
                }
            }
        }
        proof {
            if !(nvs[j as int] > 0 && pa[j as int] != EMPTY) {
                assert forall|pp: int| 0 <= pp < n implies linked(sibling@, n, child@[pp] as int, #[trigger] kids_from(pa, nvs, n, pp, j as int)) by {
                    assert(kids_from(pa, nvs, n, pp, j as int) == kids_from(pa, nvs, n, pp, j + 1));
                }
            }
        }
    }
    // Place the largest child last in the list of children of each element.
    let mut i: i32 = 0;
    while i < nn
        invariant
            0 <= i <= nn,
            n == nn,
            pa == parent@,
            nvs == nv@,
            fs == f_size@,
            nn <= parent@.len(),
            nn <= nv@.len(),
            nn <= f_size@.len(),
            nn <= child@.len(),
            nn <= sibling@.len(),
            child@.len() == old(child)@.len(),
            sibling@.len() == old(sibling)@.len(),
            postorder_input(parent@, nv@, f_size@, n),
            forall|p: int| 0 <= p < n ==> linked(sibling@, n, child@[p] as int,
                #[trigger] partly_sorted(pa, nvs, fs, n, p, i as int)),
        decreases nn - i,
    {
        let ghost s1 = sibling@;
        let ghost c1 = child@;
        let ghost l = kids_from(pa, nvs, n, i as int, 0);
        proof {
            lemma_kids_from(pa, nvs, n, i as int, 0);
            assert(partly_sorted(pa, nvs, fs, n, i as int, i as int) == l);
        }
        if nv[i as usize] > 0 && child[i as usize] != EMPTY {
            // Find the biggest element in the child list.
            let mut fprev: i32 = EMPTY;
            let mut maxfrsize: i32 = EMPTY;
            let mut bigfprev: i32 = EMPTY;
            let mut bigf: i32 = EMPTY;
            let mut f = child[i as usize];
            let ghost mut m: int = 0;
            while f != EMPTY
                invariant
                    0 <= m <= l.len(),
                    n == nn,
                    nn <= f_size@.len(),
                    fs == f_size@,
                    sibling@ == s1,
                    linked(s1, n, c1[i as int] as int, l),
                    f as int == if m < l.len() { l[m] } else { -1 },
                    fprev as int == if m > 0 { l[m - 1] } else { -1 },
                    bigf as int == if big_pos(l, fs, m) >= 0 { l[big_pos(l, fs, m)] } else { -1 },
                    bigfprev as int == if big_pos(l, fs, m) > 0 { l[big_pos(l, fs, m) - 1] } else { -1 },
                    maxfrsize as int == if big_pos(l, fs, m) >= 0 { fs[l[big_pos(l, fs, m)]] as int } else { -1 },
                decreases l.len() - m,
            {
                proof {
                    lemma_big_pos(l, fs, m);
                    if m >= l.len() {
                        assert(f == -1);
                    }
                }
                let frsize = f_size[f as usize];
                if frsize >= maxfrsize {
                    // This is the biggest seen so far.
                    maxfrsize = frsize;
                    bigfprev = fprev;
                    bigf = f;
                }
                fprev = f;
                f = sibling[f as usize];
                proof {
                    m = m + 1;
                }
            }
            proof {
                if m < l.len() {
                    assert(0 <= l[m]);
                }
                assert(m == l.len());
                let x = choose|x: int| #[trigger] is_elem(nvs, n, x) && pa[x] as int == i as int && fs[x] >= -1;
                assert(l.contains(x));
                let q = choose|q: int| 0 <= q < l.len() && l[q] == x;
                assert(0 <= q < m && fs[l[q]] >= -1);
                lemma_big_pos(l, fs, m);
            }
            let ghost b = big_pos(l, fs, l.len() as int);
            let fnext = sibling[bigf as usize];
            if fnext != EMPTY {
                // Move bigf from its place to the end of the list.
                if bigfprev == EMPTY {
                    child[i as usize] = fnext;
                } else {
                    sibling[bigfprev as usize] = fnext;
                }
                sibling[bigf as usize] = EMPTY;
                sibling[fprev as usize] = bigf;
                proof {
                    assert(b < l.len() - 1);
                    assert forall|q: int| 0 <= q < l.len() && q != b - 1 && q != b && q != l.len() - 1
                        implies sibling@[#[trigger] l[q]] == s1[l[q]] by {
                        if b > 0 {
                            assert(l[q] != l[b - 1]);
                        }
                        assert(l[q] != l[b]);
                        assert(l[q] != l[l.len() - 1]);
                    }
                    if b > 0 {
                        assert(l[b - 1] != l[b]);
                        assert(l[b - 1] != l[l.len() - 1]);
                    }
                    assert(l[b] != l[l.len() - 1]);
                    lemma_move_last_linked(s1, sibling@, n, c1[i as int] as int, child@[i as int] as int, l, b);
                }
            }
            proof {
                assert(sorted_kids(pa, nvs, fs, n, i as int) == move_last(l, b));
            }
        }
        proof {
            assert forall|p: int| 0 <= p < n implies linked(sibling@, n, child@[p] as int,
                #[trigger] partly_sorted(pa, nvs, fs, n, p, i + 1)) by {
                if p != i as int {
                    let lp = partly_sorted(pa, nvs, fs, n, p, i as int);
                    assert(partly_sorted(pa, nvs, fs, n, p, i + 1) == lp);
                    lemma_partly_sorted(pa, nvs, fs, n, p, i as int);
                    assert forall|q: int| 0 <= q < lp.len() implies sibling@[#[trigger] lp[q]] == s1[lp[q]] by {
                        assert(pa[lp[q]] as int == p);
                        if l.contains(lp[q]) {
                            let qq = choose|qq: int| 0 <= qq < l.len() && l[qq] == lp[q];
                            assert(pa[l[qq]] as int == i as int);
                        }
                        if nvs[i as int] > 0 && c1[i as int] != EMPTY {
                            assert(l.len() > 0);
                            let b = big_pos(l, fs, l.len() as int);
                            if b > 0 {
                                assert(l.contains(l[b - 1]));
                            }
                            assert(l.contains(l[b]));
                            assert(l.contains(l[l.len() - 1]));
                        }
                    }
                    lemma_linked_frame(s1, sibling@, n, child@[p] as int, lp);
                }
            }
        }
        i += 1;
    }
    let ghost c_sorted = child@;
    let ghost s_sorted = sibling@;
    let ghost kids = post_kids(pa, nvs, fs, n);
    proof {
        assert forall|p: int| 0 <= p < n implies #[trigger] list_kids(c_sorted, s_sorted, n)(p) == kids(p) by {
            let l = sorted_kids(pa, nvs, fs, n, p);
            assert(partly_sorted(pa, nvs, fs, n, p, n) == l);
            lemma_partly_sorted(pa, nvs, fs, n, p, n);
            lemma_nodup_len_bound(l, n);
            lemma_linked_sib_list(s_sorted, n, c_sorted[p] as int, l, n as nat);
        }
    }
    // Postorder the assembly tree.
    let mut i: i32 = 0;
    while i < nn
        invariant
            0 <= i <= nn,
            nn <= order@.len(),
            order@.len() == old(order)@.len(),
            forall|x: int| 0 <= x < i ==> order@[x] == EMPTY,
            forall|x: int| i <= x < order@.len() ==> order@[x] == old(order)@[x],
        decreases nn - i,
    {
        order[i as usize] = EMPTY;
        i += 1;
    }
    let mut k: i32 = 0;
    let mut i: i32 = 0;
    while i < nn
        invariant
            0 <= i <= nn,
            n == nn,
            pa == parent@,
            nvs == nv@,
            fs == f_size@,
            kids == post_kids(pa, nvs, fs, n),
            nn <= parent@.len(),
            nn <= nv@.len(),
            nn <= f_size@.len(),
            nn <= order@.len(),
            nn <= child@.len(),
            nn <= sibling@.len(),
            nn <= stack@.len(),
            postorder_input(parent@, nv@, f_size@, n),
            order@.len() == old(order)@.len(),
            child@.len() == old(child)@.len(),
            c_sorted.len() == child@.len(),
            sibling@ == s_sorted,
            stack@.len() == old(stack)@.len(),
            forall|p: int| 0 <= p < n ==> #[trigger] list_kids(c_sorted, s_sorted, n)(p) == kids(p),
            k == roots_post(kids, pa, nvs, n, i as int).len(),
            forall|j: int| 0 <= j < roots_post(kids, pa, nvs, n, i as int).len()
                ==> order@[#[trigger] roots_post(kids, pa, nvs, n, i as int)[j]] == j,
            forall|x: int| 0 <= x < n && !roots_post(kids, pa, nvs, n, i as int).contains(x)
                ==> #[trigger] order@[x] == EMPTY,
            forall|x: int| n <= x < order@.len() ==> #[trigger] order@[x] == old(order)@[x],
            forall|x: int| 0 <= x < child@.len() ==> #[trigger] child@[x]
                == if roots_post(kids, pa, nvs, n, i as int).contains(x) { EMPTY } else { c_sorted[x] },
        decreases nn - i,
    {
        let ghost r0 = roots_post(kids, pa, nvs, n, i as int);
        let ghost r1 = roots_post(kids, pa, nvs, n, i + 1);
        if parent[i as usize] == EMPTY && nv[i as usize] > 0 {
            let ghost t = subtree_post(kids, i as int, n as nat).unwrap();
            let ghost order_before = order@;
            let ghost child_before = child@;
            proof {
                assert(is_root(pa, nvs, n, i as int));
                assert(anc(pa, n, i as int, 0) == i as int);
                lemma_tree_post(pa, nvs, fs, n, i as int, 0, n as nat);
                lemma_roots_post(pa, nvs, fs, n, i + 1);
                assert(r1 == r0 + t);
                assert forall|y: int| t.contains(y) implies !r0.contains(y) by {
                    let q = choose|q: int| 0 <= q < t.len() && t[q] == y;
                    assert(r1[r0.len() + q] == y);
                    if r0.contains(y) {
                        let q0 = choose|q0: int| 0 <= q0 < r0.len() && r0[q0] == y;
                        assert(r1[q0] == y);
                    }
                }
                let kc = list_kids(child@, sibling@, n);
                assert forall|y: int| t.contains(y) implies #[trigger] kc(y) == kids(y) by {
                    assert(!r0.contains(y));
                    assert(child@[y] == c_sorted[y]);
                    assert(list_kids(c_sorted, s_sorted, n)(y) == kids(y));
                }
                lemma_subtree_post_frame(kids, kc, i as int, n as nat);
                assert(tree_order(child@, sibling@, n, i as int) == Some(t));
                assert forall|q: int| 0 <= q < r1.len() implies 0 <= #[trigger] r1[q] < n by {
                    assert(r1.contains(r1[q]));
                }
                lemma_nodup_len_bound(r1, n);
                lemma_stack_need_size(list_kids(child@, sibling@, n), i as int, n as nat);
            }
            k = post_tree(i, k, child, sibling, order, stack, nn);
            proof {
                assert forall|j: int| 0 <= j < r1.len() implies order@[#[trigger] r1[j]] == j by {
                    if j < r0.len() {
                        assert(r0.contains(r1[j]));
                        assert(!t.contains(r1[j]));
                        assert(order_before[r0[j]] == j);
                    } else {
                        assert(r1[j] == t[j - r0.len()]);
                    }
                }
                assert forall|x: int| 0 <= x < n && !r1.contains(x) implies #[trigger] order@[x] == EMPTY by {
                    if r0.contains(x) {
                        let q0 = choose|q0: int| 0 <= q0 < r0.len() && r0[q0] == x;
                        assert(r1[q0] == x);
                    }
                    if t.contains(x) {
                        let q = choose|q: int| 0 <= q < t.len() && t[q] == x;
                        assert(r1[r0.len() + q] == x);
                    }
                    assert(order_before[x] == EMPTY);
                }
                assert forall|x: int| 0 <= x < child@.len() implies #[trigger] child@[x]
                    == if r1.contains(x) { EMPTY } else { c_sorted[x] } by {
                    if r1.contains(x) {
                        let q = choose|q: int| 0 <= q < r1.len() && r1[q] == x;
                        if q < r0.len() {
                            assert(r0[q] == x);
                            assert(r0.contains(x));
                            assert(!t.contains(x));
                        } else {
                            assert(t[q - r0.len()] == x);
                            assert(t.contains(x));
                        }
                    } else {
                        if r0.contains(x) {
                            let q0 = choose|q0: int| 0 <= q0 < r0.len() && r0[q0] == x;
                            assert(r1[q0] == x);
                        }
                        if t.contains(x) {
                            let q = choose|q: int| 0 <= q < t.len() && t[q] == x;
                            assert(r1[r0.len() + q] == x);
                        }
                    }
                }
            }
        } else {
            proof {
                assert(r1 == r0 + Seq::<int>::empty());
                assert(r0 + Seq::<int>::empty() == r0);
            }
        }
        i += 1;
    }
    proof {
        lemma_roots_post(pa, nvs, fs, n, n);
    }
}

} // verus!

verus! {

/// Going up `a` steps and then `t` more is going up `a + t` steps.
pub proof fn lemma_anc_shift(parent: Seq<i32>, n: int, x: int, a: nat, t: nat)
    ensures
        anc(parent, n, x, a + t) == anc(parent, n, anc(parent, n, x, a), t),
    decreases t,
{
    if t > 0 {
        lemma_anc_shift(parent, n, x, a, (t - 1) as nat);
        assert((a + t - 1) as nat == a + (t - 1) as nat);
    }
}

/// Outside `0..n` every step up gives `-1`.
pub proof fn lemma_anc_outside(parent: Seq<i32>, n: int, y: int, t: nat)
    requires
        !(0 <= y < n && y < parent.len()),
        t >= 1,
    ensures
        anc(parent, n, y, t) == -1,
    decreases t,
{
    assert(anc(parent, n, y, 0) == y);
    if t > 1 {
        lemma_anc_outside(parent, n, y, (t - 1) as nat);
    }
}

/// Above a root there is nothing.
pub proof fn lemma_anc_root(parent: Seq<i32>, nv: Seq<i32>, n: int, r: int, t: nat)
    requires
        is_root(parent, nv, n, r),
        t >= 1,
    ensures
        anc(parent, n, r, t) == -1,
{
    lemma_anc_shift(parent, n, r, 1, (t - 1) as nat);
    assert(anc(parent, n, r, 0) == r);
    assert(anc(parent, n, r, 1) == -1);
    if t > 1 {
        lemma_anc_outside(parent, n, -1, (t - 1) as nat);
    }
}

/// On the way up from `x` to a root, every node lies in `0..n`.
pub proof fn lemma_anc_inside(parent: Seq<i32>, n: int, x: int, d: nat, a: nat)
    requires
        0 <= anc(parent, n, x, d) < n,
        a <= d,
    ensures
        0 <= anc(parent, n, x, a) < n,
        anc(parent, n, x, a) < parent.len() || a == d,
{
    lemma_anc_shift(parent, n, x, a, (d - a) as nat);
    if !(0 <= anc(parent, n, x, a) < n && anc(parent, n, x, a) < parent.len()) && a < d {
        lemma_anc_outside(parent, n, anc(parent, n, x, a), (d - a) as nat);
    }
}

/// The way up from `x` to a root never repeats a node.
pub proof fn lemma_anc_distinct(parent: Seq<i32>, nv: Seq<i32>, n: int, x: int, d: nat, a: nat, b: nat)
    requires
        is_root(parent, nv, n, anc(parent, n, x, d)),
        a < b <= d,
    ensures
        anc(parent, n, x, a) != anc(parent, n, x, b),
{
    let r = anc(parent, n, x, d);
    if anc(parent, n, x, a) == anc(parent, n, x, b) {
        let t = (d - b) as nat;
        lemma_anc_shift(parent, n, x, b, t);
        lemma_anc_shift(parent, n, x, a, t);
        assert(anc(parent, n, x, a + t) == r);
        lemma_anc_shift(parent, n, x, a + t, (b - a) as nat);
        assert(a + t + (b - a) as nat == d);
        lemma_anc_root(parent, nv, n, r, (b - a) as nat);
    }
}

/// A node on the way to a root lies on no cycle, and is at most `n - 1` steps away.
pub proof fn lemma_anc_no_cycle(parent: Seq<i32>, nv: Seq<i32>, n: int, x: int, d: nat, e: nat)
    requires
        is_root(parent, nv, n, anc(parent, n, x, d)),
        e >= 1,
        n <= parent.len(),
    ensures
        anc(parent, n, x, e) != x,
        d < n,
        0 <= x < n,
{
    let r = anc(parent, n, x, d);
    lemma_anc_inside(parent, n, x, d, 0);
    if e <= d {
        lemma_anc_distinct(parent, nv, n, x, d, 0, e);
    } else {
        lemma_anc_shift(parent, n, x, d, (e - d) as nat);
        lemma_anc_root(parent, nv, n, r, (e - d) as nat);
    }
    let s = Seq::new((d + 1) as nat, |a: int| anc(parent, n, x, a as nat));
    assert forall|i: int| 0 <= i < s.len() implies 0 <= #[trigger] s[i] < n by {
        lemma_anc_inside(parent, n, x, d, i as nat);
    }
    assert forall|i: int, j: int| 0 <= i < s.len() && 0 <= j < s.len() && i != j implies s[i] != s[j] by {
        if i < j {
            lemma_anc_distinct(parent, nv, n, x, d, i as nat, j as nat);
        } else {
            lemma_anc_distinct(parent, nv, n, x, d, j as nat, i as nat);
        }
    }
    crate::forest::lemma_nodup_len_bound(s, n);
}

} // verus!

verus! {

/// `x` is reached from `y` by going up zero or more times.
pub open spec fn descends(parent: Seq<i32>, n: int, y: int, x: int) -> bool {
    exists|e: nat| #[trigger] anc(parent, n, y, e) == x
}

/// A node descends from at most one root.
pub proof fn lemma_roots_disjoint(parent: Seq<i32>, nv: Seq<i32>, n: int, y: int, r1: int, r2: int)
    requires
        is_root(parent, nv, n, r1),
        is_root(parent, nv, n, r2),
        descends(parent, n, y, r1),
        descends(parent, n, y, r2),
    ensures
        r1 == r2,
{
    let e1 = choose|e: nat| #[trigger] anc(parent, n, y, e) == r1;
    let e2 = choose|e: nat| #[trigger] anc(parent, n, y, e) == r2;
    if e1 < e2 {
        lemma_anc_shift(parent, n, y, e1, (e2 - e1) as nat);
        lemma_anc_root(parent, nv, n, r1, (e2 - e1) as nat);
    } else if e2 < e1 {
        lemma_anc_shift(parent, n, y, e2, (e1 - e2) as nat);
        lemma_anc_root(parent, nv, n, r2, (e1 - e2) as nat);
    }
}

/// Below a node that reaches a root, the postorder is defined, lists no node
/// twice, and lists only descendants of the node.
pub proof fn lemma_tree_post(parent: Seq<i32>, nv: Seq<i32>, f_size: Seq<i32>, n: int, x: int, d: nat, fuel: nat)
    requires
        n <= parent.len(),
        n <= nv.len(),
        n <= f_size.len(),
        postorder_input(parent, nv, f_size, n),
        is_root(parent, nv, n, anc(parent, n, x, d)),
        is_elem(nv, n, x),
        fuel + d >= n,
    ensures
        subtree_post(post_kids(parent, nv, f_size, n), x, fuel) matches Some(s) && {
            &&& s.no_duplicates()
            &&& forall|y: int| #[trigger] s.contains(y) ==> 0 <= y < n && is_elem(nv, n, y) && descends(parent, n, y, x)
        },
    decreases fuel, 0nat, 0nat,
{
    let kids = post_kids(parent, nv, f_size, n);
    lemma_anc_no_cycle(parent, nv, n, x, d, 1);
    assert(fuel >= 1);
    let l = sorted_kids(parent, nv, f_size, n, x);
    assert(partly_sorted(parent, nv, f_size, n, x, n) == l);
    lemma_partly_sorted(parent, nv, f_size, n, x, n);
    assert(kids(x) == Some(l));
    lemma_forest_post_tree(parent, nv, f_size, n, x, d, l, (fuel - 1) as nat);
    let t = forest_post(kids, l, (fuel - 1) as nat).unwrap();
    let s = t.push(x);
    assert(anc(parent, n, x, 0) == x);
    assert(!t.contains(x)) by {
        if t.contains(x) {
            let q = choose|q: int| 0 <= q < l.len() && descends(parent, n, x, l[q]);
            let e = choose|e: nat| #[trigger] anc(parent, n, x, e) == l[q];
            lemma_anc_shift(parent, n, x, e, 1);
            assert(anc(parent, n, l[q], 0) == l[q]);
            assert(anc(parent, n, l[q], 1) == x);
            lemma_anc_no_cycle(parent, nv, n, x, d, e + 1);
        }
    }
    assert forall|y: int| #[trigger] s.contains(y) implies 0 <= y < n && is_elem(nv, n, y) && descends(parent, n, y, x) by {
        if y != x {
            assert(t.contains(y)) by {
                let i = choose|i: int| 0 <= i < s.len() && s[i] == y;
                assert(t[i] == y);
            }
            let q = choose|q: int| 0 <= q < l.len() && descends(parent, n, y, l[q]);
            let e = choose|e: nat| #[trigger] anc(parent, n, y, e) == l[q];
            lemma_anc_shift(parent, n, y, e, 1);
            assert(anc(parent, n, l[q], 0) == l[q]);
            assert(anc(parent, n, y, e + 1) == x);
        }
    }
    assert(s.no_duplicates()) by {
        assert forall|i: int, j: int| 0 <= i < s.len() && 0 <= j < s.len() && i != j implies s[i] != s[j] by {
            if i == t.len() {
                assert(t.contains(s[j]));
            } else if j == t.len() {
                assert(t.contains(s[i]));
            }
        }
    }
}

/// The postorders below the children `l` of a node that reaches a root are
/// defined, list no node twice, and list only descendants of `l`.
pub proof fn lemma_forest_post_tree(
    parent: Seq<i32>,
    nv: Seq<i32>,
    f_size: Seq<i32>,
    n: int,
    x: int,
    d: nat,
    l: Seq<int>,
    fuel: nat,
)
    requires
        n <= parent.len(),
        n <= nv.len(),
        n <= f_size.len(),
        postorder_input(parent, nv, f_size, n),
        is_root(parent, nv, n, anc(parent, n, x, d)),
        fuel + d + 1 >= n,
        l.no_duplicates(),
        forall|q: int| 0 <= q < l.len() ==> 0 <= #[trigger] l[q] < n && is_elem(nv, n, l[q]) && parent[l[q]] as int == x,
    ensures
        forest_post(post_kids(parent, nv, f_size, n), l, fuel) matches Some(s) && {
            &&& s.no_duplicates()
            &&& forall|y: int| #[trigger] s.contains(y) ==> 0 <= y < n && is_elem(nv, n, y)
                && exists|q: int| 0 <= q < l.len() && descends(parent, n, y, l[q])
        },
    decreases fuel, 1nat, l.len(),
{
    let kids = post_kids(parent, nv, f_size, n);
    if l.len() > 0 {
        let c = l[0];
        let l1 = l.drop_first();
        assert(anc(parent, n, c, 0) == c);
        assert(anc(parent, n, c, 1) == x);
        lemma_anc_shift(parent, n, c, 1, d);
        assert(1 + d == d + 1);
        lemma_tree_post(parent, nv, f_size, n, c, d + 1, fuel);
        assert forall|q: int| 0 <= q < l1.len() implies 0 <= #[trigger] l1[q] < n && is_elem(nv, n, l1[q]) && parent[l1[q]] as int == x by {
            assert(l1[q] == l[q + 1]);
        }
        lemma_forest_post_tree(parent, nv, f_size, n, x, d, l1, fuel);
        let a = subtree_post(kids, c, fuel).unwrap();
        let b = forest_post(kids, l1, fuel).unwrap();
        assert forall|i: int, j: int| 0 <= i < a.len() && 0 <= j < b.len() implies a[i] != b[j] by {
            if a[i] == b[j] {
                let y = a[i];
                assert(a.contains(y));
                assert(b.contains(y));
                let q = choose|q: int| 0 <= q < l1.len() && descends(parent, n, y, l1[q]);
                let e1 = choose|e: nat| #[trigger] anc(parent, n, y, e) == c;
                let e2 = choose|e: nat| #[trigger] anc(parent, n, y, e) == l1[q];
                let c2 = l1[q];
                assert(c2 == l[q + 1]);
                assert(c2 != c);
                assert(anc(parent, n, c2, 0) == c2);
                assert(anc(parent, n, c2, 1) == x);
                lemma_anc_shift(parent, n, y, e1, 1);
                lemma_anc_shift(parent, n, y, e2, 1);
                if e1 < e2 {
                    lemma_anc_shift(parent, n, y, e1 + 1, (e2 - e1) as nat);
                    assert(e1 + 1 + (e2 - e1) as nat == e2 + 1);
                    lemma_anc_no_cycle(parent, nv, n, x, d, (e2 - e1) as nat);
                } else if e2 < e1 {
                    lemma_anc_shift(parent, n, y, e2 + 1, (e1 - e2) as nat);
                    assert(e2 + 1 + (e1 - e2) as nat == e1 + 1);
                    lemma_anc_no_cycle(parent, nv, n, x, d, (e1 - e2) as nat);
                }
            }
        }
        vstd::seq_lib::lemma_no_dup_in_concat(a, b);
        let s = a + b;
        assert forall|y: int| #[trigger] s.contains(y) implies 0 <= y < n && is_elem(nv, n, y)
            && exists|q: int| 0 <= q < l.len() && descends(parent, n, y, l[q]) by {
            let i = choose|i: int| 0 <= i < s.len() && s[i] == y;
            if i < a.len() {
                assert(a.contains(y));
                assert(descends(parent, n, y, l[0]));
            } else {
                assert(b[i - a.len()] == y);
                assert(b.contains(y));
                let q = choose|q: int| 0 <= q < l1.len() && descends(parent, n, y, l1[q]);
                assert(l1[q] == l[q + 1]);
                assert(descends(parent, n, y, l[q + 1]));
            }
        }
    }
}

/// The trees of the roots `0..i`, one after the other, list no node twice, and
/// each node listed descends from one of those roots.
pub proof fn lemma_roots_post(parent: Seq<i32>, nv: Seq<i32>, f_size: Seq<i32>, n: int, i: int)
    requires
        n <= parent.len(),
        n <= nv.len(),
        n <= f_size.len(),
        postorder_input(parent, nv, f_size, n),
        i <= n,
    ensures
        ({
            let rp = roots_post(post_kids(parent, nv, f_size, n), parent, nv, n, i);
            &&& rp.no_duplicates()
            &&& forall|y: int| #[trigger] rp.contains(y) ==> 0 <= y < n && is_elem(nv, n, y)
                && exists|r: int| 0 <= r < i && is_root(parent, nv, n, r) && descends(parent, n, y, r)
        }),
    decreases i,
{
    let kids = post_kids(parent, nv, f_size, n);
    if i > 0 {
        lemma_roots_post(parent, nv, f_size, n, i - 1);
        let a = roots_post(kids, parent, nv, n, i - 1);
        let r = i - 1;
        if is_root(parent, nv, n, r) {
            assert(anc(parent, n, r, 0) == r);
            lemma_tree_post(parent, nv, f_size, n, r, 0, n as nat);
            let b = subtree_post(kids, r, n as nat).unwrap();
            assert forall|p: int, q: int| 0 <= p < a.len() && 0 <= q < b.len() implies a[p] != b[q] by {
                if a[p] == b[q] {
                    let y = a[p];
                    assert(a.contains(y));
                    assert(b.contains(y));
                    let r1 = choose|r1: int| 0 <= r1 < i - 1 && is_root(parent, nv, n, r1) && descends(parent, n, y, r1);
                    lemma_roots_disjoint(parent, nv, n, y, r1, r);
                }
            }
            vstd::seq_lib::lemma_no_dup_in_concat(a, b);
            let s = a + b;
            assert forall|y: int| #[trigger] s.contains(y) implies 0 <= y < n && is_elem(nv, n, y)
                && exists|r2: int| 0 <= r2 < i && is_root(parent, nv, n, r2) && descends(parent, n, y, r2) by {
                let k = choose|k: int| 0 <= k < s.len() && s[k] == y;
                if k < a.len() {
                    assert(a.contains(y));
                } else {
                    assert(b[k - a.len()] == y);
                    assert(b.contains(y));
                }
            }
        } else {
            assert(roots_post(kids, parent, nv, n, i) == a + Seq::<int>::empty());
            assert(a + Seq::<int>::empty() == a);
        }
    }
}

} // verus!

verus! {

/// Tells whether `postorder` can run on this forest: every element's parent is
/// `EMPTY` or an element, and every element with children has a child whose
/// front size is at least `EMPTY`.
pub fn check_postorder_input(nn: i32, parent: &[i32], nv: &[i32], f_size: &[i32]) -> (b: bool)
    requires
        nn <= parent@.len(),
        nn <= nv@.len(),
        nn <= f_size@.len(),
    ensures
        b == postorder_input(parent@, nv@, f_size@, nn as int),
{
    let ghost n = nn as int;
    if nn <= 0 {
        return true;
    }
    let nu = nn as usize;
    let mut j: usize = 0;
    while j < nu
        invariant
            0 <= j <= nu,
            nu == n,
            n == nn,
            n <= parent@.len(),
            n <= nv@.len(),
            forall|x: int| 0 <= x < j && #[trigger] is_elem(nv@, n, x) ==>
                parent@[x] == -1 || is_elem(nv@, n, parent@[x] as int),
        decreases nu - j,
    {
        if nv[j] > 0 {
            let p = parent[j];
            if p != EMPTY && !(0 <= p && p < nn && nv[p as usize] > 0) {
                proof {
                    assert(is_elem(nv@, n, j as int));
                    assert(!is_elem(nv@, n, p as int));
                }
                return false;
            }
        }
        j += 1;
    }
    let mut has_child: Vec<bool> = vec![false; nu];
    let mut has_big: Vec<bool> = vec![false; nu];
    let mut j: usize = 0;
    while j < nu
        invariant
            0 <= j <= nu,
            nu == n,
            n == nn,
            n <= parent@.len(),
            n <= nv@.len(),
            n <= f_size@.len(),
            has_child@.len() == nu,
            has_big@.len() == nu,
            forall|x: int| 0 <= x < n && #[trigger] is_elem(nv@, n, x) ==>
                parent@[x] == -1 || is_elem(nv@, n, parent@[x] as int),
            forall|p: int| 0 <= p < n ==> (#[trigger] has_child@[p] <==>
                exists|x: int| 0 <= x < j && is_elem(nv@, n, x) && parent@[x] as int == p),
            forall|p: int| 0 <= p < n ==> (#[trigger] has_big@[p] <==>
                exists|x: int| 0 <= x < j && is_elem(nv@, n, x) && parent@[x] as int == p && f_size@[x] >= -1),
        decreases nu - j,
    {
        if nv[j] > 0 {
            let p = parent[j];
            if p != EMPTY {
                proof {
                    assert(is_elem(nv@, n, j as int));
                }
                has_child.set(p as usize, true);
                if f_size[j] >= EMPTY {
                    has_big.set(p as usize, true);
                }
            }
        }
        proof {
            assert forall|p: int| 0 <= p < n implies (#[trigger] has_child@[p] <==>
                exists|x: int| 0 <= x < j + 1 && is_elem(nv@, n, x) && parent@[x] as int == p) by {
                if has_child@[p] && !(exists|x: int| 0 <= x < j && is_elem(nv@, n, x) && parent@[x] as int == p) {
                    assert(is_elem(nv@, n, j as int) && parent@[j as int] as int == p);
                }
                if exists|x: int| 0 <= x < j + 1 && is_elem(nv@, n, x) && parent@[x] as int == p {
                    let x = choose|x: int| 0 <= x < j + 1 && is_elem(nv@, n, x) && parent@[x] as int == p;
                    if x < j {
                        assert(exists|x: int| 0 <= x < j && is_elem(nv@, n, x) && parent@[x] as int == p);
                    }
                }
            }
            assert forall|p: int| 0 <= p < n implies (#[trigger] has_big@[p] <==>
                exists|x: int| 0 <= x < j + 1 && is_elem(nv@, n, x) && parent@[x] as int == p && f_size@[x] >= -1) by {
                if has_big@[p] && !(exists|x: int| 0 <= x < j && is_elem(nv@, n, x) && parent@[x] as int == p && f_size@[x] >= -1) {
                    assert(is_elem(nv@, n, j as int) && parent@[j as int] as int == p && f_size@[j as int] >= -1);
                }
                if exists|x: int| 0 <= x < j + 1 && is_elem(nv@, n, x) && parent@[x] as int == p && f_size@[x] >= -1 {
                    let x = choose|x: int| 0 <= x < j + 1 && is_elem(nv@, n, x) && parent@[x] as int == p && f_size@[x] >= -1;
                    if x < j {
                        assert(exists|x: int| 0 <= x < j && is_elem(nv@, n, x) && parent@[x] as int == p && f_size@[x] >= -1);
                    }
                }
            }
        }
        j += 1;
    }
    let mut p: usize = 0;
    while p < nu
        invariant
            0 <= p <= nu,
            nu == n,
            n == nn,
            n <= parent@.len(),
            n <= nv@.len(),
            n <= f_size@.len(),
            has_child@.len() == nu,
            has_big@.len() == nu,
            forall|x: int| 0 <= x < n && #[trigger] is_elem(nv@, n, x) ==>
                parent@[x] == -1 || is_elem(nv@, n, parent@[x] as int),
            forall|q: int| 0 <= q < n ==> (#[trigger] has_child@[q] <==>
                exists|x: int| 0 <= x < n && is_elem(nv@, n, x) && parent@[x] as int == q),
            forall|q: int| 0 <= q < n ==> (#[trigger] has_big@[q] <==>
                exists|x: int| 0 <= x < n && is_elem(nv@, n, x) && parent@[x] as int == q && f_size@[x] >= -1),
            forall|q: int| 0 <= q < p && is_elem(nv@, n, q) && #[trigger] has_child@[q] ==> has_big@[q],
        decreases nu - p,
    {
        if nv[p] > 0 && has_child[p] && !has_big[p] {
            proof {
                assert(is_elem(nv@, n, p as int));
                let x = choose|x: int| 0 <= x < n && is_elem(nv@, n, x) && parent@[x] as int == p as int;
                assert(!postorder_input(parent@, nv@, f_size@, n)) by {
                    if postorder_input(parent@, nv@, f_size@, n) {
                        assert(is_elem(nv@, n, p as int) && is_elem(nv@, n, x) && parent@[x] as int == p as int);
                        let y = choose|y: int| #[trigger] is_elem(nv@, n, y) && parent@[y] as int == p as int && f_size@[y] >= -1;
                        assert(0 <= y < n);
                        assert(has_big@[p as int]);
                    }
                }
            }
            return false;
        }
        p += 1;
    }
    proof {
        assert forall|q: int, x: int| is_elem(nv@, n, q) && is_elem(nv@, n, x) && parent@[x] as int == q implies
            exists|y: int| #[trigger] is_elem(nv@, n, y) && parent@[y] as int == q && f_size@[y] >= -1 by {
            assert(has_child@[q]);
            assert(has_big@[q]);
        }
    }
    true
}

} // verus!

verus! {

/// The trees of the roots `0..i` come first among those of the roots `0..j`.
pub proof fn lemma_roots_post_prefix(kids: Kids, parent: Seq<i32>, nv: Seq<i32>, n: int, i: int, j: int)
    requires
        i <= j,
    ensures
        roots_post(kids, parent, nv, n, i).len() <= roots_post(kids, parent, nv, n, j).len(),
        forall|q: int| 0 <= q < roots_post(kids, parent, nv, n, i).len() ==>
            #[trigger] roots_post(kids, parent, nv, n, j)[q] == roots_post(kids, parent, nv, n, i)[q],
    decreases j - i,
{
    if i < j {
        lemma_roots_post_prefix(kids, parent, nv, n, i, j - 1);
        if j > 0 {
            let a = roots_post(kids, parent, nv, n, j - 1);
            assert forall|q: int| 0 <= q < a.len() implies #[trigger] roots_post(kids, parent, nv, n, j)[q] == a[q] by {}
        }
    }
}

/// Within the trees of the roots `0..i`, the subtree of each listed node is the
/// stretch that ends at that node.
pub proof fn lemma_roots_post_blocks(parent: Seq<i32>, nv: Seq<i32>, f_size: Seq<i32>, n: int, i: int)
    requires
        n <= parent.len(),
        n <= nv.len(),
        n <= f_size.len(),
        postorder_input(parent, nv, f_size, n),
        i <= n,
    ensures
        ({
            let kids = post_kids(parent, nv, f_size, n);
            let s = roots_post(kids, parent, nv, n, i);
            forall|q: int| 0 <= q < s.len() ==> #[trigger] block_ends_at(kids, s, q, n as nat)
        }),
    decreases i,
{
    let kids = post_kids(parent, nv, f_size, n);
    if i > 0 {
        lemma_roots_post_blocks(parent, nv, f_size, n, i - 1);
        let a = roots_post(kids, parent, nv, n, i - 1);
        let s = roots_post(kids, parent, nv, n, i);
        if is_root(parent, nv, n, i - 1) {
            assert(anc(parent, n, i - 1, 0) == i - 1);
            lemma_tree_post(parent, nv, f_size, n, i - 1, 0, n as nat);
            lemma_subtree_post_contig(kids, i - 1, n as nat);
            let b = subtree_post(kids, i - 1, n as nat).unwrap();
            assert(s == a + b);
            assert forall|q: int| 0 <= q < s.len() implies #[trigger] block_ends_at(kids, s, q, n as nat) by {
                if q < a.len() {
                    assert(block_ends_at(kids, a, q, n as nat));
                    assert(s[q] == a[q]);
                    let u = subtree_post(kids, a[q], n as nat).unwrap();
                    assert(s.subrange(q + 1 - u.len(), q + 1) =~= a.subrange(q + 1 - u.len(), q + 1));
                } else {
                    let k = q - a.len();
                    assert(block_ends_at(kids, b, k, n as nat));
                    assert(s[q] == b[k]);
                    let u = subtree_post(kids, b[k], n as nat).unwrap();
                    assert(s.subrange(q + 1 - u.len(), q + 1) =~= b.subrange(k + 1 - u.len(), k + 1));
                }
            }
        } else {
            assert(s == a + Seq::<int>::empty());
            assert(s == a);
        }
    }
}

/// Law: in the postorder of the assembly forest, each listed node is preceded
/// by the rest of its subtree: the postorder of its subtree is the stretch
/// that ends at the node.
pub proof fn lemma_forest_order_subtrees(parent: Seq<i32>, nv: Seq<i32>, f_size: Seq<i32>, n: int)
    requires
        n <= parent.len(),
        n <= nv.len(),
        n <= f_size.len(),
        postorder_input(parent, nv, f_size, n),
    ensures
        ({
            let kids = post_kids(parent, nv, f_size, n);
            let s = forest_order(parent, nv, f_size, n);
            forall|q: int| 0 <= q < s.len() ==> #[trigger] block_ends_at(kids, s, q, n as nat)
        }),
{
    lemma_roots_post_blocks(parent, nv, f_size, n, n);
}

/// Law: the postorder of the assembly forest lists exactly the elements that
/// descend from a root, each once.
pub proof fn lemma_forest_order_lists(parent: Seq<i32>, nv: Seq<i32>, f_size: Seq<i32>, n: int, x: int)
    requires
        n <= parent.len(),
        n <= nv.len(),
        n <= f_size.len(),
        postorder_input(parent, nv, f_size, n),
    ensures
        forest_order(parent, nv, f_size, n).no_duplicates(),
        forest_order(parent, nv, f_size, n).contains(x) <==>
            is_elem(nv, n, x) && exists|r: int| is_root(parent, nv, n, r) && descends(parent, n, x, r),
{
    lemma_roots_post(parent, nv, f_size, n, n);
    if is_elem(nv, n, x) && exists|r: int| is_root(parent, nv, n, r) && descends(parent, n, x, r) {
        let r = choose|r: int| is_root(parent, nv, n, r) && descends(parent, n, x, r);
        let e = choose|e: nat| #[trigger] anc(parent, n, x, e) == r;
        lemma_forest_order_reaches(parent, nv, f_size, n, x, r, e);
    }
}

/// An element `e` steps below a root is listed in the postorder.
proof fn lemma_forest_order_reaches(parent: Seq<i32>, nv: Seq<i32>, f_size: Seq<i32>, n: int, x: int, r: int, e: nat)
    requires
        n <= parent.len(),
        n <= nv.len(),
        n <= f_size.len(),
        postorder_input(parent, nv, f_size, n),
        is_elem(nv, n, x),
        is_root(parent, nv, n, r),
        anc(parent, n, x, e) == r,
    ensures
        forest_order(parent, nv, f_size, n).contains(x),
    decreases e,
{
    let kids = post_kids(parent, nv, f_size, n);
    let s = forest_order(parent, nv, f_size, n);
    if e == 0 {
        assert(anc(parent, n, x, 0) == x);
        // the tree of r ends with r, and it is part of the whole postorder
        assert(anc(parent, n, r, 0) == r);
        lemma_tree_post(parent, nv, f_size, n, r, 0, n as nat);
        lemma_subtree_post_last(kids, r, n as nat);
        let t = subtree_post(kids, r, n as nat).unwrap();
        let a = roots_post(kids, parent, nv, n, r);
        let s1 = roots_post(kids, parent, nv, n, r + 1);
        assert(s1 == a + t);
        assert(s1[a.len() + t.len() - 1] == r);
        lemma_roots_post_prefix(kids, parent, nv, n, r + 1, n);
        assert(s[a.len() + t.len() - 1] == r);
    } else {
        assert(anc(parent, n, x, 0) == x);
        let p = parent[x] as int;
        if p == -1 {
            assert(anc(parent, n, x, 1) == -1);
            lemma_anc_shift(parent, n, x, 1, (e - 1) as nat);
            if e > 1 {
                lemma_anc_outside(parent, n, -1, (e - 1) as nat);
            }
        } else {
            assert(is_elem(nv, n, p));
            assert(anc(parent, n, x, 1) == p);
            lemma_anc_shift(parent, n, x, 1, (e - 1) as nat);
            assert(1 + (e - 1) as nat == e);
            lemma_forest_order_reaches(parent, nv, f_size, n, p, r, (e - 1) as nat);
            // x is a child of p, so it lies in the stretch of p's subtree
            let j = choose|j: int| 0 <= j < s.len() && s[j] == p;
            lemma_child_before_parent(parent, nv, f_size, n, x, j);
        }
    }
}


/// A child of an element `p` is among the children that `p` postorders.
proof fn lemma_sorted_kids_has(parent: Seq<i32>, nv: Seq<i32>, f_size: Seq<i32>, n: int, p: int, x: int)
    requires
        n <= parent.len(),
        postorder_input(parent, nv, f_size, n),
        is_elem(nv, n, p),
        is_elem(nv, n, x),
        parent[x] as int == p,
    ensures
        sorted_kids(parent, nv, f_size, n, p).contains(x),
        ({
            let l0 = kids_from(parent, nv, n, p, 0);
            let b = big_pos(l0, f_size, l0.len() as int);
            &&& 0 <= b < l0.len()
            &&& sorted_kids(parent, nv, f_size, n, p) == move_last(l0, b)
            &&& sorted_kids(parent, nv, f_size, n, p).len() == l0.len()
            &&& sorted_kids(parent, nv, f_size, n, p).last() == l0[b]
        }),
{
    lemma_kids_from(parent, nv, n, p, 0);
    let l0 = kids_from(parent, nv, n, p, 0);
    assert(l0.contains(x));
    let b = big_pos(l0, f_size, l0.len() as int);
    lemma_big_pos(l0, f_size, l0.len() as int);
    let y = choose|y: int| #[trigger] is_elem(nv, n, y) && parent[y] as int == p && f_size[y] >= -1;
    assert(l0.contains(y));
    let qy = choose|qy: int| 0 <= qy < l0.len() && l0[qy] == y;
    assert(f_size[l0[qy]] >= -1);
    lemma_move_last(l0, b);
}

/// A listed element's child is listed inside the stretch of the element's
/// subtree, before the element.
proof fn lemma_child_before_parent(parent: Seq<i32>, nv: Seq<i32>, f_size: Seq<i32>, n: int, x: int, j: int)
    requires
        n <= parent.len(),
        n <= nv.len(),
        n <= f_size.len(),
        postorder_input(parent, nv, f_size, n),
        is_elem(nv, n, x),
        0 <= j < forest_order(parent, nv, f_size, n).len(),
        forest_order(parent, nv, f_size, n)[j] == parent[x] as int,
    ensures
        exists|i: int| 0 <= i < j && #[trigger] forest_order(parent, nv, f_size, n)[i] == x,
{
    let kids = post_kids(parent, nv, f_size, n);
    let s = forest_order(parent, nv, f_size, n);
    let p = parent[x] as int;
    lemma_roots_post(parent, nv, f_size, n, n);
    assert(s.contains(p));
    assert(is_elem(nv, n, p));
    lemma_forest_order_subtrees(parent, nv, f_size, n);
    assert(block_ends_at(kids, s, j, n as nat));
    let u = subtree_post(kids, p, n as nat).unwrap();
    let l = sorted_kids(parent, nv, f_size, n, p);
    assert(kids(p) == Some(l));
    let f = forest_post(kids, l, (n - 1) as nat).unwrap();
    assert(u == f.push(p));
    lemma_sorted_kids_has(parent, nv, f_size, n, p, x);
    let qx = choose|qx: int| 0 <= qx < l.len() && l[qx] == x;
    lemma_forest_post_lists(kids, l, (n - 1) as nat);
    assert(f.contains(l[qx]));
    let k = choose|k: int| 0 <= k < f.len() && f[k] == x;
    assert(u[k] == x);
    assert(s.subrange(j + 1 - u.len(), j + 1)[k] == x);
    assert(s[j + 1 - u.len() + k] == x);
}

/// Law: in the postorder of the assembly forest, every listed node that has a
/// parent comes before its parent, and the parent is listed.
pub proof fn lemma_forest_order_parent_after(parent: Seq<i32>, nv: Seq<i32>, f_size: Seq<i32>, n: int, i: int)
    requires
        n <= parent.len(),
        n <= nv.len(),
        n <= f_size.len(),
        postorder_input(parent, nv, f_size, n),
        0 <= i < forest_order(parent, nv, f_size, n).len(),
        parent[forest_order(parent, nv, f_size, n)[i]] != -1,
    ensures
        exists|j: int| i < j < forest_order(parent, nv, f_size, n).len()
            && #[trigger] forest_order(parent, nv, f_size, n)[j] == parent[forest_order(parent, nv, f_size, n)[i]] as int,
{
    let s = forest_order(parent, nv, f_size, n);
    let x = s[i];
    let p = parent[x] as int;
    lemma_roots_post(parent, nv, f_size, n, n);
    assert(s.contains(x));
    let r = choose|r: int| 0 <= r < n && is_root(parent, nv, n, r) && descends(parent, n, x, r);
    let e = choose|e: nat| #[trigger] anc(parent, n, x, e) == r;
    assert(anc(parent, n, x, 0) == x);
    assert(e != 0);
    assert(is_elem(nv, n, p));
    assert(anc(parent, n, x, 1) == p);
    lemma_anc_shift(parent, n, x, 1, (e - 1) as nat);
    assert(1 + (e - 1) as nat == e);
    lemma_forest_order_reaches(parent, nv, f_size, n, p, r, (e - 1) as nat);
    let j = choose|j: int| 0 <= j < s.len() && s[j] == p;
    lemma_child_before_parent(parent, nv, f_size, n, x, j);
    let i2 = choose|i2: int| 0 <= i2 < j && #[trigger] s[i2] == x;
    assert(i2 == i);
}

/// Law: in the postorder of the assembly forest, an element with children comes
/// right after the child with the biggest front (the last one of greatest size).
pub proof fn lemma_forest_order_biggest_child(parent: Seq<i32>, nv: Seq<i32>, f_size: Seq<i32>, n: int, j: int)
    requires
        n <= parent.len(),
        n <= nv.len(),
        n <= f_size.len(),
        postorder_input(parent, nv, f_size, n),
        0 <= j < forest_order(parent, nv, f_size, n).len(),
        kids_from(parent, nv, n, forest_order(parent, nv, f_size, n)[j], 0).len() > 0,
    ensures
        ({
            let s = forest_order(parent, nv, f_size, n);
            let l0 = kids_from(parent, nv, n, s[j], 0);
            j >= 1 && s[j - 1] == l0[big_pos(l0, f_size, l0.len() as int)]
        }),
{
    let kids = post_kids(parent, nv, f_size, n);
    let s = forest_order(parent, nv, f_size, n);
    let p = s[j];
    lemma_roots_post(parent, nv, f_size, n, n);
    assert(s.contains(p));
    lemma_kids_from(parent, nv, n, p, 0);
    let l0 = kids_from(parent, nv, n, p, 0);
    let x = l0[0];
    lemma_sorted_kids_has(parent, nv, f_size, n, p, x);
    lemma_forest_order_subtrees(parent, nv, f_size, n);
    assert(block_ends_at(kids, s, j, n as nat));
    let u = subtree_post(kids, p, n as nat).unwrap();
    let l = sorted_kids(parent, nv, f_size, n, p);
    assert(kids(p) == Some(l));
    let f = forest_post(kids, l, (n - 1) as nat).unwrap();
    assert(u == f.push(p));
    lemma_forest_post_lists(kids, l, (n - 1) as nat);
    assert(u[u.len() - 2] == f.last());
    assert(s.subrange(j + 1 - u.len(), j + 1)[u.len() - 2] == s[j - 1]);
}

/// The elements below `i`, in increasing order.
pub open spec fn elems_below(nv: Seq<i32>, n: int, i: int) -> Seq<int>
    decreases i,
{
    if i <= 0 {
        Seq::empty()
    } else {
        elems_below(nv, n, i - 1) + if is_elem(nv, n, i - 1) { seq![i - 1] } else { Seq::<int>::empty() }
    }
}

/// `elems_below(i)` is increasing, lists exactly the elements below `i`, and
/// extends `elems_below(j)` for `j <= i`.
pub proof fn lemma_elems_below(nv: Seq<i32>, n: int, i: int)
    requires
        0 <= i,
    ensures
        elems_below(nv, n, i).len() <= i,
        forall|a: int, b: int| 0 <= a < b < elems_below(nv, n, i).len() ==>
            #[trigger] elems_below(nv, n, i)[a] < #[trigger] elems_below(nv, n, i)[b],
        forall|a: int| 0 <= a < elems_below(nv, n, i).len() ==>
            is_elem(nv, n, #[trigger] elems_below(nv, n, i)[a]) && elems_below(nv, n, i)[a] < i,
        forall|x: int| #![trigger elems_below(nv, n, x)] is_elem(nv, n, x) && x < i ==>
            elems_below(nv, n, x).len() < elems_below(nv, n, i).len()
            && elems_below(nv, n, i)[elems_below(nv, n, x).len() as int] == x,
    decreases i,
{
    if i > 0 {
        lemma_elems_below(nv, n, i - 1);
        assert(elems_below(nv, n, i).len() >= elems_below(nv, n, i - 1).len());
        assert forall|a: int| 0 <= a < elems_below(nv, n, i - 1).len() implies
            #[trigger] elems_below(nv, n, i)[a] == elems_below(nv, n, i - 1)[a] by {}
        assert forall|x: int| #![trigger elems_below(nv, n, x)] is_elem(nv, n, x) && x < i implies
            elems_below(nv, n, x).len() < elems_below(nv, n, i).len()
            && elems_below(nv, n, i)[elems_below(nv, n, x).len() as int] == x by {
            if x == i - 1 {
                assert(elems_below(nv, n, i).len() == elems_below(nv, n, i - 1).len() + 1);
                assert(elems_below(nv, n, i)[elems_below(nv, n, i - 1).len() as int] == x);
            } else {
                let k = elems_below(nv, n, x).len() as int;
                assert(elems_below(nv, n, i - 1)[k] == x);
                assert(elems_below(nv, n, i)[k] == elems_below(nv, n, i - 1)[k]);
            }
        }
    }
}

/// No element has `p` as parent when no element has a parent.
proof fn lemma_kids_from_none(parent: Seq<i32>, nv: Seq<i32>, n: int, p: int, j: int)
    requires
        p >= 0,
        forall|x: int| #[trigger] is_elem(nv, n, x) ==> x < parent.len() && parent[x] == -1,
    ensures
        kids_from(parent, nv, n, p, j) == Seq::<int>::empty(),
    decreases n - j,
{
    if j < n {
        lemma_kids_from_none(parent, nv, n, p, j + 1);
    }
}

proof fn lemma_roots_post_flat(parent: Seq<i32>, nv: Seq<i32>, f_size: Seq<i32>, n: int, i: int)
    requires
        0 < n,
        0 <= i <= n,
        forall|x: int| #[trigger] is_elem(nv, n, x) ==> x < parent.len() && parent[x] == -1,
    ensures
        roots_post(post_kids(parent, nv, f_size, n), parent, nv, n, i) == elems_below(nv, n, i),
    decreases i,
{
    if i > 0 {
        lemma_roots_post_flat(parent, nv, f_size, n, i - 1);
        let kids = post_kids(parent, nv, f_size, n);
        if is_elem(nv, n, i - 1) {
            lemma_kids_from_none(parent, nv, n, i - 1, 0);
            assert(sorted_kids(parent, nv, f_size, n, i - 1) == Seq::<int>::empty());
            assert(kids(i - 1) == Some(Seq::<int>::empty()));
            assert(forest_post(kids, Seq::<int>::empty(), (n - 1) as nat) == Some(Seq::<int>::empty()));
            assert(Seq::<int>::empty().push(i - 1) == seq![i - 1]);
            assert(subtree_post(kids, i - 1, n as nat) == Some(seq![i - 1]));
        }
    }
}

/// Law: when no element has a parent, the postorder lists the elements in
/// increasing order.
pub proof fn lemma_forest_order_flat(parent: Seq<i32>, nv: Seq<i32>, f_size: Seq<i32>, n: int)
    requires
        0 < n,
        forall|x: int| #[trigger] is_elem(nv, n, x) ==> x < parent.len() && parent[x] == -1,
    ensures
        forest_order(parent, nv, f_size, n) == elems_below(nv, n, n),
{
    lemma_roots_post_flat(parent, nv, f_size, n, n);
}

} // verus!

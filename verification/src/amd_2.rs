use vstd::prelude::*;
use vstd::set_lib::*;
use vstd::wrapping::i32_specs;
use crate::amd::{EMPTY, flip, Info, Status};
use crate::postorder::{postorder, check_postorder_input, postorder_input, forest_order, is_elem, elems_below, lemma_elems_below, lemma_forest_order_flat, lemma_forest_order_lists};
use crate::forest::lemma_nodup_len_bound;

verus! {

/// Value of the flag array `w` after `clear_flag` resets it.
pub open spec fn cleared(x: i32) -> i32 {
    if x != 0 { 1 } else { 0 }
}

/// Makes sure the flag counter `wflg` stays in `2..wbig`: when it does not,
/// every nonzero flag among `w[0..n]` is reset to 1 and the counter restarts at 2.
pub fn clear_flag(wflg: i32, wbig: i32, w: &mut [i32], n: i32) -> (r: i32)
    requires
        wflg < 2 || wflg >= wbig ==> n <= old(w)@.len(),
    ensures
        final(w)@.len() == old(w)@.len(),
        wflg < 2 || wflg >= wbig ==> {
            &&& r == 2
            &&& forall|x: int| 0 <= x < n ==> #[trigger] final(w)@[x] == cleared(old(w)@[x])
            &&& forall|x: int| n <= x < old(w)@.len() && 0 <= x ==> #[trigger] final(w)@[x] == old(w)@[x]
        },
        !(wflg < 2 || wflg >= wbig) ==> r == wflg && final(w)@ == old(w)@,
{
    if wflg < 2 || wflg >= wbig {
        let mut x: i32 = 0;
        while x < n
            invariant
                0 <= x,
                x <= n || x == 0,
                n <= w@.len(),
                w@.len() == old(w)@.len(),
                forall|y: int| 0 <= y < x ==> #[trigger] w@[y] == cleared(old(w)@[y]),
                forall|y: int| x <= y < w@.len() ==> #[trigger] w@[y] == old(w)@[y],
            decreases n - x,
        {
            if w[x as usize] != 0 {
                w[x as usize] = 1;
            }
            x += 1;
        }
        return 2;
    }
    wflg
}

} // verus!

verus! {

/// `a[i]`, or `None` when `i` is not an index of `a`.
fn at(a: &[i32], i: i32) -> (r: Option<i32>)
    ensures
        r == if 0 <= i < a@.len() { Some(a@[i as int]) } else { None::<i32> },
{
    if 0 <= i && (i as usize) < a.len() {
        Some(a[i as usize])
    } else {
        None
    }
}

/// Stores `v` at `a[i]`; `None` (and no change) when `i` is not an index of `a`.
fn put(a: &mut [i32], i: i32, v: i32) -> (r: Option<()>)
    ensures
        final(a)@.len() == old(a)@.len(),
        0 <= i < old(a)@.len() ==> r is Some && final(a)@ == old(a)@.update(i as int, v),
        !(0 <= i < old(a)@.len()) ==> r is None && final(a)@ == old(a)@,
{
    if 0 <= i && (i as usize) < a.len() {
        a[i as usize] = v;
        Some(())
    } else {
        None
    }
}


/// What `pe`, `nv` and `e_len` say of the assembly tree: `pe[j]` is the parent
/// of `j`; the parent of an element (`nv[j] > 0`) is `EMPTY` or an element, an
/// element with children has one whose size `e_len` is at least `EMPTY`, and a
/// variable merged into another (`nv[j] == 0`) points to `EMPTY` or to a
/// principal node.
pub open spec fn assembly_tree(pe: Seq<i32>, nv: Seq<i32>, e_len: Seq<i32>, n: int) -> bool {
    &&& n <= pe.len()
    &&& postorder_input(pe, nv, e_len, n)
    &&& forall|x: int| 0 <= x < n && x < nv.len() && nv[x] == 0 ==>
        #[trigger] pe[x] == EMPTY || is_principal(nv, n, pe[x] as int)
}

/// `next` and `last` are inverse permutations of `0..n`.
pub open spec fn inverse_perms(next: Seq<i32>, last: Seq<i32>, n: int) -> bool {
    &&& next.len() == n
    &&& last.len() == n
    &&& forall|i: int| 0 <= i < n ==> 0 <= #[trigger] next[i] < n && last[next[i] as int] == i
    &&& forall|k: int| 0 <= k < n ==> 0 <= #[trigger] last[k] < n && next[last[k] as int] == k
}

/// Some `e < n` takes position `k` of the postorder: `order[e] == k`.
pub open spec fn taken(order: Seq<i32>, n: int, k: int) -> bool {
    exists|e: int| 0 <= e < n && order[e] == k
}

/// The first position from `k` on that no element takes (`n` when they all are).
pub open spec fn first_free(order: Seq<i32>, n: int, k: int) -> int
    decreases n - k,
{
    if k >= n || !taken(order, n, k) { k } else { first_free(order, n, k + 1) }
}

/// The element at position `k` of the postorder.
pub open spec fn elem_at(order: Seq<i32>, n: int, k: int) -> int {
    choose|e: int| 0 <= e < n && order[e] == k
}

/// The first number given to the variables of the element at position `k`:
/// the sizes `nv` of the elements before it, added up.
pub open spec fn block_start(order: Seq<i32>, nv: Seq<i32>, n: int, k: int) -> int
    decreases k,
{
    if k <= 0 { 0 } else { block_start(order, nv, n, k - 1) + nv[elem_at(order, n, k - 1)] }
}

/// How many of the variables `j < i` are merged (`nv[j] == 0`) into `e`
/// (`pe[j] == e`); with `e == EMPTY`, how many have no element.
pub open spec fn merged_before(pe: Seq<i32>, nv: Seq<i32>, e: int, i: int) -> int
    decreases i,
{
    if i <= 0 {
        0
    } else {
        merged_before(pe, nv, e, i - 1) + if nv[i - 1] == 0 && pe[i - 1] == e { 1int } else { 0int }
    }
}

/// The input that the numbering is meant for: `order` numbers some of `0..n`
/// as `0, 1, ...` without gaps or repeats, those are the elements, each with
/// `nv` counting itself and the variables merged into it, and every merged
/// variable with a parent points to an element.
pub open spec fn well_numbered(pe: Seq<i32>, nv: Seq<i32>, order: Seq<i32>, n: int) -> bool {
    &&& n <= order.len() && n <= nv.len() && n <= pe.len()
    &&& forall|e: int| 0 <= e < n ==> #[trigger] order[e] == EMPTY || 0 <= order[e] < first_free(order, n, 0)
    &&& forall|a: int, b: int| 0 <= a < n && 0 <= b < n && #[trigger] order[a] != EMPTY && order[a] == #[trigger] order[b] ==> a == b
    &&& forall|e: int| 0 <= e < n && #[trigger] order[e] != EMPTY ==> nv[e] == 1 + merged_before(pe, nv, e, n)
    &&& forall|i: int| 0 <= i < n && #[trigger] order[i] == EMPTY ==> nv[i] == 0
    &&& forall|i: int| 0 <= i < n && nv[i] == 0 && #[trigger] pe[i] != EMPTY ==>
        0 <= pe[i] < n && order[pe[i] as int] != EMPTY
}

/// The number that the numbering gives variable `i`: an element comes after
/// the variables merged into it, at the end of its block; a merged variable
/// takes the next free number of its element's block, in index order; the
/// variables without element come after all blocks, in index order.
pub open spec fn number_of(pe: Seq<i32>, nv: Seq<i32>, order: Seq<i32>, n: int, i: int) -> int {
    if order[i] != EMPTY {
        block_start(order, nv, n, order[i] as int) + merged_before(pe, nv, i, n)
    } else if pe[i] != EMPTY {
        block_start(order, nv, n, order[pe[i] as int] as int) + merged_before(pe, nv, pe[i] as int, i)
    } else {
        block_start(order, nv, n, first_free(order, n, 0)) + merged_before(pe, nv, EMPTY as int, i)
    }
}

/// `number_of` gives the variables `0..n` distinct numbers in `0..n`.
pub open spec fn numbers_one_to_one(pe: Seq<i32>, nv: Seq<i32>, order: Seq<i32>, n: int) -> bool {
    &&& forall|i: int| 0 <= i < n ==> 0 <= #[trigger] number_of(pe, nv, order, n, i) < n
    &&& forall|a: int, b: int| 0 <= a < n && 0 <= b < n
        && #[trigger] number_of(pe, nv, order, n, a) == #[trigger] number_of(pe, nv, order, n, b) ==> a == b
}

/// The positions from `k` up to `first_free` are all taken, and `first_free`
/// itself is not.
pub proof fn lemma_first_free(order: Seq<i32>, n: int, k: int)
    requires
        0 <= k <= n,
    ensures
        k <= first_free(order, n, k) <= n,
        forall|j: int| k <= j < first_free(order, n, k) ==> taken(order, n, j),
        first_free(order, n, k) < n ==> !taken(order, n, first_free(order, n, k)),
    decreases n - k,
{
    if k < n && taken(order, n, k) {
        lemma_first_free(order, n, k + 1);
    }
}

/// The count of merged variables is not negative and grows with the bound.
pub proof fn lemma_merged_before(pe: Seq<i32>, nv: Seq<i32>, e: int, i: int, j: int)
    requires
        0 <= i <= j,
    ensures
        0 <= merged_before(pe, nv, e, i) <= merged_before(pe, nv, e, j),
    decreases j,
{
    if i < j {
        lemma_merged_before(pe, nv, e, i, j - 1);
    } else if i > 0 {
        lemma_merged_before(pe, nv, e, i - 1, i - 1);
    }
}

/// Numbers the variables from the postorder of the elements: the variables of
/// the `k`th element in postorder come before those of the `k+1`st, each
/// element placed after the variables merged into it, and the variables without
/// element (`pe[i] == EMPTY`, `nv[i] == 0`) come last.  Returns the numbering
/// `next` and its inverse `last`, or `None` when they would not form a
/// permutation.  On the input it is meant for (`well_numbered`), it returns
/// `Some` exactly when `number_of` is one-to-one, and then `next` is `number_of`.
#[verifier::loop_isolation(false)]
pub fn permutation_from_order(n: i32, pe: &[i32], nv: &[i32], order: &[i32]) -> (r: Option<(Vec<i32>, Vec<i32>)>)
    requires
        n > 0,
    ensures
        r matches Some((next, last)) ==> inverse_perms(next@, last@, n as int),
        well_numbered(pe@, nv@, order@, n as int) ==> {
            &&& (r is Some <==> numbers_one_to_one(pe@, nv@, order@, n as int))
            &&& r matches Some((next, last)) ==> forall|i: int| 0 <= i < n ==>
                #[trigger] next@[i] == number_of(pe@, nv@, order@, n as int, i)
        },
{
    let ghost good = well_numbered(pe@, nv@, order@, n as int);
    let ghost m = first_free(order@, n as int, 0);
    proof {
        lemma_first_free(order@, n as int, 0);
    }
    let nu = n as usize;
    let mut head: Vec<i32> = vec![EMPTY; nu];
    let mut next: Vec<i32> = vec![EMPTY; nu];
    let mut e: i32 = 0;
    while e < n
        invariant
            0 <= e <= n,
            head@.len() == n,
            good ==> forall|k: int| 0 <= k < n ==> #[trigger] head@[k] == EMPTY
                || (0 <= head@[k] < e && order@[head@[k] as int] == k),
            good ==> forall|x: int| 0 <= x < e && #[trigger] order@[x] != EMPTY ==> head@[order@[x] as int] == x,
        decreases n - e,
    {
        let k = at(order, e)?;
        if k != EMPTY {
            put(&mut head, k, e)?;
        }
        e += 1;
    }
    proof {
        if good {
            assert forall|k: int| 0 <= k < m implies #[trigger] head@[k] == elem_at(order@, n as int, k)
                && head@[k] != EMPTY by {
                assert(taken(order@, n as int, k));
                let x = choose|x: int| 0 <= x < n && order@[x] == k;
                assert(order@[x] != EMPTY);
                let y = elem_at(order@, n as int, k);
                assert(order@[y] == k);
            }
            assert forall|k: int| m <= k < n implies #[trigger] head@[k] == EMPTY by {
                if head@[k] != EMPTY {
                    assert(order@[head@[k] as int] == k);
                }
            }
        }
    }
    // Construct the permutation of the elements, in postorder.
    let mut nel: i32 = 0;
    let mut k: i32 = 0;
    while k < n
        invariant
            0 <= k <= n,
            next@.len() == n,
            good ==> k <= m,
            good ==> nel == block_start(order@, nv@, n as int, k as int),
            good ==> forall|x: int| 0 <= x < n ==> #[trigger] next@[x] == if order@[x] != EMPTY && order@[x] < k {
                block_start(order@, nv@, n as int, order@[x] as int)
            } else {
                EMPTY as int
            },
        decreases n - k,
    {
        let e = at(&head, k)?;
        if e == EMPTY {
            break;
        }
        put(&mut next, e, nel)?;
        let nve = at(nv, e)?;
        proof {
            if good {
                assert(k < m);
                assert(order@[e as int] == k);
                assert(nve == 1 + merged_before(pe@, nv@, e as int, n as int));
                lemma_merged_before(pe@, nv@, e as int, 0, n as int);
                assert(block_start(order@, nv@, n as int, k + 1) == nel + nve);
                if nel + nve > i32::MAX {
                    if k + 1 < m {
                        let e2 = elem_at(order@, n as int, k + 1);
                        assert(taken(order@, n as int, k + 1));
                        assert(order@[e2] == k + 1);
                        lemma_merged_before(pe@, nv@, e2, 0, n as int);
                        assert(number_of(pe@, nv@, order@, n as int, e2) >= n);
                    } else {
                        assert(number_of(pe@, nv@, order@, n as int, e as int) >= n);
                    }
                }
            }
        }
        nel = nel.checked_add(nve)?;
        k += 1;
    }
    proof {
        if good {
            assert(k == m);
        }
    }
    // Place the variables merged into an element just before it, and the
    // variables without element last.
    let mut i: i32 = 0;
    while i < n
        invariant
            0 <= i <= n,
            next@.len() == n,
            good ==> nel == block_start(order@, nv@, n as int, m) + merged_before(pe@, nv@, EMPTY as int, i as int),
            good ==> forall|x: int| 0 <= x < n ==> #[trigger] next@[x] == if order@[x] != EMPTY {
                block_start(order@, nv@, n as int, order@[x] as int) + merged_before(pe@, nv@, x, i as int)
            } else if x < i {
                number_of(pe@, nv@, order@, n as int, x)
            } else {
                EMPTY as int
            },
        decreases n - i,
    {
        let ghost next0 = next@;
        if at(nv, i)? == 0 {
            proof {
                if good && order@[i as int] != EMPTY {
                    lemma_merged_before(pe@, nv@, i as int, 0, n as int);
                }
            }
            let e = at(pe, i)?;
            if e != EMPTY {
                let ne = at(&next, e)?;
                proof {
                    if good {
                        lemma_merged_before(pe@, nv@, e as int, i + 1, n as int);
                        if ne == i32::MAX {
                            assert(number_of(pe@, nv@, order@, n as int, e as int) >= n);
                        }
                    }
                }
                put(&mut next, i, ne)?;
                put(&mut next, e, ne.checked_add(1)?)?;
            } else {
                proof {
                    if good && nel == i32::MAX {
                        assert(number_of(pe@, nv@, order@, n as int, i as int) >= n);
                    }
                }
                put(&mut next, i, nel)?;
                nel = nel.checked_add(1)?;
            }
        }
        proof {
            if good {
                assert forall|x: int| 0 <= x < n implies #[trigger] next@[x] == if order@[x] != EMPTY {
                    block_start(order@, nv@, n as int, order@[x] as int) + merged_before(pe@, nv@, x, i + 1)
                } else if x < i + 1 {
                    number_of(pe@, nv@, order@, n as int, x)
                } else {
                    EMPTY as int
                } by {
                    assert(next0[x] == if order@[x] != EMPTY {
                        block_start(order@, nv@, n as int, order@[x] as int) + merged_before(pe@, nv@, x, i as int)
                    } else if x < i {
                        number_of(pe@, nv@, order@, n as int, x)
                    } else {
                        EMPTY as int
                    });
                }
            }
        }
        i += 1;
    }
    // Invert it, refusing a number given twice.
    let mut last: Vec<i32> = vec![EMPTY; nu];
    if next.len() != nu {
        return None;
    }
    let mut i: i32 = 0;
    while i < n
        invariant
            0 <= i <= n,
            next@.len() == n,
            last@.len() == n,
            forall|j: int| 0 <= j < i ==> 0 <= #[trigger] next@[j] < n && last@[next@[j] as int] == j,
            forall|k: int| 0 <= k < n ==> #[trigger] last@[k] == EMPTY || (0 <= last@[k] < i && next@[last@[k] as int] == k),
        decreases n - i,
    {
        let k = next[i as usize];
        if k < 0 || k >= n {
            proof {
                if good {
                    assert(number_of(pe@, nv@, order@, n as int, i as int) == k);
                }
            }
            return None;
        }
        if last[k as usize] != EMPTY {
            proof {
                if good {
                    let j = last@[k as int] as int;
                    assert(number_of(pe@, nv@, order@, n as int, i as int) == k);
                    assert(number_of(pe@, nv@, order@, n as int, j) == k);
                }
            }
            return None;
        }
        last[k as usize] = i;
        i += 1;
    }
    proof {
        // next is one-to-one on 0..n, so it reaches every number of 0..n
        let s = Seq::new(n as nat, |j: int| next@[j] as int);
        assert(s.no_duplicates()) by {
            assert forall|a: int, b: int| 0 <= a < s.len() && 0 <= b < s.len() && a != b implies s[a] != s[b] by {
                assert(last@[next@[a] as int] == a);
                assert(last@[next@[b] as int] == b);
            }
        }
        s.unique_seq_to_set();
        lemma_int_range(0, n as int);
        assert(s.to_set().subset_of(set_int_range(0, n as int)));
        lemma_subset_equality(s.to_set(), set_int_range(0, n as int));
        assert forall|k: int| 0 <= k < n implies 0 <= #[trigger] last@[k] < n && next@[last@[k] as int] == k by {
            assert(set_int_range(0, n as int).contains(k));
            assert(s.to_set().contains(k));
            let j = choose|j: int| 0 <= j < s.len() && s[j] == k;
            assert(last@[next@[j] as int] == j);
        }
        if good {
            assert forall|a: int| 0 <= a < n implies 0 <= #[trigger] number_of(pe@, nv@, order@, n as int, a) < n by {
                assert(next@[a] == number_of(pe@, nv@, order@, n as int, a));
            }
            assert forall|a: int, b: int| 0 <= a < n && 0 <= b < n
                && #[trigger] number_of(pe@, nv@, order@, n as int, a) == #[trigger] number_of(pe@, nv@, order@, n as int, b)
                implies a == b by {
                assert(next@[a] == number_of(pe@, nv@, order@, n as int, a));
                assert(next@[b] == number_of(pe@, nv@, order@, n as int, b));
                assert(last@[next@[a] as int] == a);
            }
        }
    }
    Some((next, last))
}


/// How many of the rows `j < i` are empty (`len[j] == 0`).
pub open spec fn empty_rows(len: Seq<i32>, i: int) -> int
    decreases i,
{
    if i <= 0 { 0 } else { empty_rows(len, i - 1) + if len[i - 1] == 0 { 1int } else { 0int } }
}

/// The number that the ordering gives row `i` when every row is empty or dense:
/// the empty rows first, then the dense ones, each in index order.
pub open spec fn flat_number(len: Seq<i32>, n: int, i: int) -> int {
    if len[i] == 0 { empty_rows(len, i) } else { empty_rows(len, n) + (i - empty_rows(len, i)) }
}

proof fn lemma_empty_rows(len: Seq<i32>, i: int, j: int)
    requires
        0 <= i <= j,
    ensures
        0 <= empty_rows(len, i) <= empty_rows(len, j),
        empty_rows(len, j) - empty_rows(len, i) <= j - i,
    decreases j,
{
    if i < j {
        lemma_empty_rows(len, i, j - 1);
    } else if i > 0 {
        lemma_empty_rows(len, i - 1, i - 1);
    }
}

/// `flat_number` gives the rows `0..n` distinct numbers in `0..n`.
pub proof fn lemma_flat_number(len: Seq<i32>, n: int)
    requires
        0 <= n <= len.len(),
    ensures
        forall|i: int| 0 <= i < n ==> 0 <= #[trigger] flat_number(len, n, i) < n,
        forall|a: int, b: int| 0 <= a < n && 0 <= b < n
            && #[trigger] flat_number(len, n, a) == #[trigger] flat_number(len, n, b) ==> a == b,
{
    assert forall|i: int| 0 <= i < n implies 0 <= #[trigger] flat_number(len, n, i) < n by {
        lemma_empty_rows(len, 0, i);
        lemma_empty_rows(len, i, i + 1);
        lemma_empty_rows(len, i + 1, n);
    }
    assert forall|a: int, b: int| 0 <= a < n && 0 <= b < n
        && #[trigger] flat_number(len, n, a) == #[trigger] flat_number(len, n, b) implies a == b by {
        if a != b {
            let x = if a < b { a } else { b };
            let y = if a < b { b } else { a };
            lemma_empty_rows(len, 0, x);
            lemma_empty_rows(len, x, x + 1);
            lemma_empty_rows(len, x + 1, y);
            lemma_empty_rows(len, y, y + 1);
            lemma_empty_rows(len, y + 1, n);
        }
    }
}

proof fn lemma_elems_are_empty_rows(nv: Seq<i32>, len: Seq<i32>, n: int, i: int)
    requires
        0 <= i <= n <= nv.len(),
        n <= len.len(),
        forall|j: int| 0 <= j < n ==> #[trigger] nv[j] == (if len[j] == 0 { 1i32 } else { 0i32 }),
    ensures
        elems_below(nv, n, i).len() == empty_rows(len, i),
    decreases i,
{
    if i > 0 {
        lemma_elems_are_empty_rows(nv, len, n, i - 1);
        assert(nv[i - 1] == (if len[i - 1] == 0 { 1i32 } else { 0i32 }));
    }
}

proof fn lemma_merged_none(pe: Seq<i32>, nv: Seq<i32>, e: int, i: int)
    requires
        0 <= i <= pe.len(),
        forall|j: int| 0 <= j < i ==> #[trigger] pe[j] != e,
    ensures
        merged_before(pe, nv, e, i) == 0,
    decreases i,
{
    if i > 0 {
        lemma_merged_none(pe, nv, e, i - 1);
    }
}

proof fn lemma_unattached_flat(pe: Seq<i32>, nv: Seq<i32>, len: Seq<i32>, n: int, i: int)
    requires
        0 <= i <= n <= pe.len(),
        n <= nv.len(),
        n <= len.len(),
        forall|j: int| 0 <= j < n ==> #[trigger] pe[j] == EMPTY && nv[j] == (if len[j] == 0 { 1i32 } else { 0i32 }),
    ensures
        merged_before(pe, nv, EMPTY as int, i) == i - empty_rows(len, i),
    decreases i,
{
    if i > 0 {
        lemma_unattached_flat(pe, nv, len, n, i - 1);
        assert(pe[i - 1] == EMPTY);
    }
}

/// `first_free` from `k` is `m` when `k..m` are taken and `m` is not.
pub proof fn lemma_first_free_is(order: Seq<i32>, n: int, k: int, m: int)
    requires
        0 <= k <= m <= n,
        forall|j: int| k <= j < m ==> #[trigger] taken(order, n, j),
        m < n ==> !taken(order, n, m),
    ensures
        first_free(order, n, k) == m,
    decreases m - k,
{
    if k < m {
        assert(taken(order, n, k));
        lemma_first_free_is(order, n, k + 1, m);
    }
}

proof fn lemma_block_start_flat(order: Seq<i32>, nv: Seq<i32>, n: int, k: int)
    requires
        0 <= k,
        forall|j: int| 0 <= j < k ==> #[trigger] taken(order, n, j),
        forall|x: int| 0 <= x < n && #[trigger] order[x] != EMPTY ==> nv[x] == 1,
    ensures
        block_start(order, nv, n, k) == k,
    decreases k,
{
    if k > 0 {
        lemma_block_start_flat(order, nv, n, k - 1);
        assert(taken(order, n, k - 1));
        let e = elem_at(order, n, k - 1);
        assert(order[e] == k - 1);
    }
}

/// When no node has a parent and the nodes are the empty rows (`nv` 1) and
/// the dense ones (`nv` 0), the postorder numbering is well formed, one-to-one,
/// and gives the empty rows `0, 1, ...` and then the dense rows, in index order.
proof fn lemma_flat_numbering(pe: Seq<i32>, nv: Seq<i32>, e_len: Seq<i32>, order: Seq<i32>, len: Seq<i32>, n: int)
    requires
        0 < n,
        n <= pe.len(),
        n <= nv.len(),
        n <= order.len(),
        n <= len.len(),
        forall|j: int| 0 <= j < n ==> #[trigger] pe[j] == EMPTY && nv[j] == (if len[j] == 0 { 1i32 } else { 0i32 }),
        forall|j: int| 0 <= j < forest_order(pe, nv, e_len, n).len() ==>
            order[#[trigger] forest_order(pe, nv, e_len, n)[j]] == j,
        forall|x: int| 0 <= x < n && !forest_order(pe, nv, e_len, n).contains(x) ==> #[trigger] order[x] == EMPTY,
    ensures
        well_numbered(pe, nv, order, n),
        numbers_one_to_one(pe, nv, order, n),
        forall|i: int| 0 <= i < n ==> #[trigger] number_of(pe, nv, order, n, i) == flat_number(len, n, i),
{
    assert forall|j: int| 0 <= j < n implies #[trigger] nv[j] == (if len[j] == 0 { 1i32 } else { 0i32 }) by {
        assert(pe[j] == EMPTY);
    }
    assert forall|x: int| #[trigger] is_elem(nv, n, x) implies x < pe.len() && pe[x] == -1 by {
        assert(pe[x] == EMPTY);
    }
    lemma_forest_order_flat(pe, nv, e_len, n);
    let s = forest_order(pe, nv, e_len, n);
    lemma_elems_below(nv, n, n);
    lemma_elems_are_empty_rows(nv, len, n, n);
    lemma_flat_number(len, n);
    let m = s.len() as int;
    assert forall|x: int| 0 <= x < n implies #[trigger] order[x] == (if len[x] == 0 { empty_rows(len, x) } else { EMPTY as int }) by {
        assert(pe[x] == EMPTY);
        if len[x] == 0 {
            assert(is_elem(nv, n, x));
            lemma_elems_are_empty_rows(nv, len, n, x);
            assert(elems_below(nv, n, x).len() < m && s[elems_below(nv, n, x).len() as int] == x);
        } else {
            if s.contains(x) {
                let j = choose|j: int| 0 <= j < s.len() && s[j] == x;
                assert(is_elem(nv, n, s[j]));
            }
        }
    }
    assert forall|x: int| 0 <= x < n && len[x] == 0 implies empty_rows(len, x) < m by {
        lemma_empty_rows(len, x, x + 1);
        lemma_empty_rows(len, x + 1, n);
    }
    assert forall|j: int| 0 <= j < m implies #[trigger] taken(order, n, j) by {
        assert(is_elem(nv, n, s[j]));
        assert(order[s[j]] == j);
    }
    if m < n {
        assert(!taken(order, n, m)) by {
            if taken(order, n, m) {
                let x = choose|x: int| 0 <= x < n && order[x] == m;
                assert(order[x] == (if len[x] == 0 { empty_rows(len, x) } else { EMPTY as int }));
            }
        }
    }
    lemma_elems_below(nv, n, n);
    assert(m <= n);
    lemma_first_free_is(order, n, 0, m);
    assert forall|x: int| 0 <= x < n && #[trigger] order[x] != EMPTY implies nv[x] == 1 by {
        assert(order[x] == (if len[x] == 0 { empty_rows(len, x) } else { EMPTY as int }));
        assert(pe[x] == EMPTY);
    }
    lemma_block_start_flat(order, nv, n, m);
    assert forall|i: int| 0 <= i < n implies #[trigger] number_of(pe, nv, order, n, i) == flat_number(len, n, i) by {
        assert(order[i] == (if len[i] == 0 { empty_rows(len, i) } else { EMPTY as int }));
        assert(pe[i] == EMPTY);
        if len[i] == 0 {
            lemma_empty_rows(len, 0, i);
            lemma_block_start_flat(order, nv, n, empty_rows(len, i));
            lemma_merged_none(pe, nv, i, n);
        } else {
            lemma_unattached_flat(pe, nv, len, n, i);
        }
    }
    assert forall|a: int, b: int| 0 <= a < n && 0 <= b < n && #[trigger] order[a] != EMPTY
        && order[a] == #[trigger] order[b] implies a == b by {
        assert(order[a] == (if len[a] == 0 { empty_rows(len, a) } else { EMPTY as int }));
        assert(order[b] == (if len[b] == 0 { empty_rows(len, b) } else { EMPTY as int }));
        assert(flat_number(len, n, a) == flat_number(len, n, b));
    }
    assert forall|e: int| 0 <= e < n && #[trigger] order[e] != EMPTY implies nv[e] == 1 + merged_before(pe, nv, e, n) by {
        assert(order[e] == (if len[e] == 0 { empty_rows(len, e) } else { EMPTY as int }));
        assert(pe[e] == EMPTY);
        lemma_merged_none(pe, nv, e, n);
    }
    assert forall|i: int| 0 <= i < n && #[trigger] order[i] == EMPTY implies nv[i] == 0 by {
        assert(order[i] == (if len[i] == 0 { empty_rows(len, i) } else { EMPTY as int }));
        assert(pe[i] == EMPTY);
        lemma_empty_rows(len, 0, i);
    }
    assert forall|i: int| 0 <= i < n && nv[i] == 0 && #[trigger] pe[i] != EMPTY implies
        0 <= pe[i] < n && order[pe[i] as int] != EMPTY by {
    }
    assert forall|e: int| 0 <= e < n implies #[trigger] order[e] == EMPTY || 0 <= order[e] < first_free(order, n, 0) by {
        assert(order[e] == (if len[e] == 0 { empty_rows(len, e) } else { EMPTY as int }));
        lemma_empty_rows(len, 0, e);
    }
    assert forall|a: int, b: int| 0 <= a < n && 0 <= b < n
        && #[trigger] number_of(pe, nv, order, n, a) == #[trigger] number_of(pe, nv, order, n, b) implies a == b by {
        assert(flat_number(len, n, a) == flat_number(len, n, b));
    }
    assert forall|i: int| 0 <= i < n implies 0 <= #[trigger] number_of(pe, nv, order, n, i) < n by {
        assert(0 <= flat_number(len, n, i) < n);
    }
}


/// `y` names a principal variable or element: `nv[y] != 0`.
pub open spec fn is_principal(nv: Seq<i32>, n: int, y: int) -> bool {
    0 <= y < n && y < nv.len() && nv[y] != 0
}

/// The principal node met first on the way up the tree `pe` from `x`, when it
/// is met after at most `fuel` steps through non-principal nodes, all of them
/// indices of `nv` and `pe`.
pub open spec fn reach(pe: Seq<i32>, nv: Seq<i32>, n: int, x: int, fuel: nat) -> Option<int>
    decreases fuel,
{
    if !(0 <= x < nv.len()) {
        None
    } else if nv[x] != 0 {
        if x < n { Some(x) } else { None }
    } else if fuel == 0 || !(x < pe.len()) {
        None
    } else {
        reach(pe, nv, n, pe[x] as int, (fuel - 1) as nat)
    }
}

/// `cur` differs from `old` only where a non-principal node was given the
/// principal node it reaches in `old` within `n` steps.
pub open spec fn shortcuts(old: Seq<i32>, cur: Seq<i32>, nv: Seq<i32>, n: int) -> bool {
    &&& cur.len() == old.len()
    &&& forall|y: int| 0 <= y < cur.len() ==> #[trigger] cur[y] == old[y]
        || (0 <= y < nv.len() && nv[y] == 0 && reach(old, nv, n, y, n as nat) == Some(cur[y] as int))
}

/// Every non-principal node of `0..n` with a parent reaches a principal node
/// within `n` steps.
pub open spec fn paths_reach(pe: Seq<i32>, nv: Seq<i32>, n: int) -> bool {
    forall|x: int| 0 <= x < n && x < nv.len() && nv[x] == 0 && x < pe.len() && pe[x] != EMPTY ==>
        (#[trigger] reach(pe, nv, n, x, n as nat)) is Some
}

/// What `reach` finds is a principal node of `0..n`.
pub proof fn lemma_reach_principal(pe: Seq<i32>, nv: Seq<i32>, n: int, x: int, fuel: nat)
    requires
        reach(pe, nv, n, x, fuel) is Some,
    ensures
        is_principal(nv, n, reach(pe, nv, n, x, fuel)->0),
    decreases fuel,
{
    if 0 <= x < nv.len() && nv[x] == 0 {
        lemma_reach_principal(pe, nv, n, pe[x] as int, (fuel - 1) as nat);
    }
}

/// More steps find the same node.
pub proof fn lemma_reach_mono(pe: Seq<i32>, nv: Seq<i32>, n: int, x: int, f: nat, g: nat)
    requires
        reach(pe, nv, n, x, f) is Some,
        f <= g,
    ensures
        reach(pe, nv, n, x, g) == reach(pe, nv, n, x, f),
    decreases f,
{
    if 0 <= x < nv.len() && nv[x] == 0 {
        lemma_reach_mono(pe, nv, n, pe[x] as int, (f - 1) as nat, (g - 1) as nat);
    }
}

/// Taking shortcuts keeps what a way up reaches.
pub proof fn lemma_reach_shortcuts(old: Seq<i32>, cur: Seq<i32>, nv: Seq<i32>, n: int, y: int, f: nat)
    requires
        shortcuts(old, cur, nv, n),
        reach(old, nv, n, y, f) is Some,
    ensures
        reach(cur, nv, n, y, f) == reach(old, nv, n, y, f),
    decreases f,
{
    if 0 <= y < nv.len() && nv[y] == 0 {
        if cur[y] == old[y] {
            lemma_reach_shortcuts(old, cur, nv, n, old[y] as int, (f - 1) as nat);
        } else {
            let t = cur[y] as int;
            let g = n as nat;
            assert(reach(old, nv, n, y, g) == Some(t));
            if f <= g {
                lemma_reach_mono(old, nv, n, y, f, g);
            } else {
                lemma_reach_mono(old, nv, n, y, g, f);
            }
            lemma_reach_principal(old, nv, n, y, g);
            assert(reach(cur, nv, n, t, (f - 1) as nat) == Some(t));
        }
    }
}

/// Path compression: every non-principal variable (`nv[i] == 0`) that has a
/// parent gets as parent the first principal node on its way up the tree `pe`.
/// Returns `false` when a way up leaves `0..n` or takes more than `n` steps.
/// When every way up reaches a principal node within `n` steps
/// (`paths_reach`), it succeeds and each such variable gets the node it reaches.
#[verifier::loop_isolation(false)]
pub fn compress_paths(n: i32, pe: &mut [i32], nv: &[i32]) -> (ok: bool)
    requires
        0 <= n,
    ensures
        final(pe)@.len() == old(pe)@.len(),
        forall|x: int| 0 <= x < old(pe)@.len() && !(0 <= x < nv@.len() && nv@[x] == 0) ==>
            #[trigger] final(pe)@[x] == old(pe)@[x],
        ok ==> forall|x: int| 0 <= x < n && x < nv@.len() && nv@[x] == 0 && x < final(pe)@.len() ==>
            #[trigger] final(pe)@[x] == EMPTY || is_principal(nv@, n as int, final(pe)@[x] as int),
        n <= nv@.len() && n <= old(pe)@.len() && paths_reach(old(pe)@, nv@, n as int) ==> {
            &&& ok
            &&& shortcuts(old(pe)@, final(pe)@, nv@, n as int)
            &&& forall|x: int| 0 <= x < n && nv@[x] == 0 && old(pe)@[x] != EMPTY ==>
                Some(#[trigger] final(pe)@[x] as int) == reach(old(pe)@, nv@, n as int, x, n as nat)
        },
{
    let ghost pe0 = pe@;
    let ghost good = n <= nv@.len() && n <= pe0.len() && paths_reach(pe0, nv@, n as int);
    let mut i: i32 = 0;
    while i < n
        invariant
            0 <= i <= n,
            pe@.len() == pe0.len(),
            forall|x: int| 0 <= x < pe0.len() && !(0 <= x < nv@.len() && nv@[x] == 0) ==>
                #[trigger] pe@[x] == pe0[x],
            forall|x: int| 0 <= x < i && x < nv@.len() && nv@[x] == 0 && x < pe@.len() ==>
                #[trigger] pe@[x] == EMPTY || is_principal(nv@, n as int, pe@[x] as int),
            good ==> shortcuts(pe0, pe@, nv@, n as int),
            good ==> forall|x: int| 0 <= x < i && nv@[x] == 0 && pe0[x] != EMPTY ==>
                Some(#[trigger] pe@[x] as int) == reach(pe0, nv@, n as int, x, n as nat),
        decreases n - i,
    {
        let nvi = match at(nv, i) { Some(v) => v, None => { return false; } };
        if nvi == 0 {
            let mut j = match at(pe, i) { Some(v) => v, None => { return false; } };
            if j != EMPTY {
                let ghost top: int = if good { reach(pe0, nv@, n as int, i as int, n as nat)->0 } else { 0 };
                proof {
                    if good {
                        if pe@[i as int] == pe0[i as int] {
                            assert(reach(pe0, nv@, n as int, i as int, n as nat) is Some);
                            lemma_reach_shortcuts(pe0, pe@, nv@, n as int, pe0[i as int] as int, (n - 1) as nat);
                            lemma_reach_mono(pe@, nv@, n as int, j as int, (n - 1) as nat, n as nat);
                        } else {
                            lemma_reach_principal(pe0, nv@, n as int, i as int, n as nat);
                        }
                        assert(reach(pe@, nv@, n as int, j as int, n as nat) == Some(top));
                    }
                }
                // Find the element at the end of the way up.
                let mut steps: i32 = 0;
                loop
                    invariant
                        0 <= steps <= n,
                        good ==> reach(pe@, nv@, n as int, j as int, (n - steps) as nat) == Some(top),
                    decreases n - steps,
                {
                    let nvj = match at(nv, j) { Some(v) => v, None => { return false; } };
                    if nvj != 0 && j >= n {
                        return false;
                    }
                    if nvj != 0 {
                        break;
                    }
                    if steps >= n {
                        return false;
                    }
                    steps += 1;
                    j = match at(pe, j) { Some(v) => v, None => { return false; } };
                }
                let e = j;
                proof {
                    if good {
                        assert(e == top);
                        assert(reach(pe0, nv@, n as int, i as int, n as nat) == Some(top));
                    }
                }
                // Make every node on the way point to the element.
                j = i;
                let mut steps: i32 = 0;
                loop
                    invariant
                        0 <= steps <= n,
                        0 <= i < n,
                        is_principal(nv@, n as int, e as int),
                        pe@.len() == pe0.len(),
                        forall|x: int| 0 <= x < pe0.len() && !(0 <= x < nv@.len() && nv@[x] == 0) ==>
                            #[trigger] pe@[x] == pe0[x],
                        forall|x: int| 0 <= x < i && x < nv@.len() && nv@[x] == 0 && x < pe@.len() ==>
                            #[trigger] pe@[x] == EMPTY || is_principal(nv@, n as int, pe@[x] as int),
                        steps > 0 ==> i < pe@.len() && pe@[i as int] == e,
                        steps == 0 ==> j == i,
                        i < nv@.len(),
                        nv@[i as int] == 0,
                        good ==> e == top,
                        good ==> shortcuts(pe0, pe@, nv@, n as int),
                        good ==> forall|x: int| 0 <= x < i && nv@[x] == 0 && pe0[x] != EMPTY ==>
                            Some(#[trigger] pe@[x] as int) == reach(pe0, nv@, n as int, x, n as nat),
                        good ==> reach(pe0, nv@, n as int, j as int, (n - steps) as nat) == Some(top),
                    decreases n - steps,
                {
                    let nvj = match at(nv, j) { Some(v) => v, None => { return false; } };
                    if nvj != 0 {
                        break;
                    }
                    if steps >= n {
                        return false;
                    }
                    let jnext = match at(pe, j) { Some(v) => v, None => { return false; } };
                    let ghost pe_before = pe@;
                    proof {
                        if good {
                            lemma_reach_mono(pe0, nv@, n as int, j as int, (n - steps) as nat, n as nat);
                            if pe_before[j as int] != pe0[j as int] {
                                assert(reach(pe0, nv@, n as int, j as int, n as nat) == Some(pe_before[j as int] as int));
                            }
                        }
                    }
                    if put(pe, j, e).is_none() {
                        return false;
                    }
                    proof {
                        assert forall|x: int| 0 <= x < i && x < nv@.len() && nv@[x] == 0 && x < pe@.len() implies
                            #[trigger] pe@[x] == EMPTY || is_principal(nv@, n as int, pe@[x] as int) by {
                            if x != j as int {
                                assert(pe@[x] == pe_before[x]);
                            }
                        }
                        if good {
                            assert forall|y: int| 0 <= y < pe@.len() implies #[trigger] pe@[y] == pe0[y]
                                || (0 <= y < nv@.len() && nv@[y] == 0 && reach(pe0, nv@, n as int, y, n as nat) == Some(pe@[y] as int)) by {
                                if y != j as int {
                                    assert(pe@[y] == pe_before[y]);
                                }
                            }
                            assert forall|x: int| 0 <= x < i && nv@[x] == 0 && pe0[x] != EMPTY implies
                                Some(#[trigger] pe@[x] as int) == reach(pe0, nv@, n as int, x, n as nat) by {
                                if x != j as int {
                                    assert(pe@[x] == pe_before[x]);
                                }
                            }
                            if pe_before[j as int] == pe0[j as int] {
                                assert(reach(pe0, nv@, n as int, jnext as int, (n - steps - 1) as nat) == Some(top));
                            } else {
                                assert(jnext == top);
                                lemma_reach_principal(pe0, nv@, n as int, j as int, n as nat);
                            }
                        }
                    }
                    steps += 1;
                    j = jnext;
                }
            }
        }
        i += 1;
    }
    true
}


/// `flip(x)`, or `None` where it would overflow.
fn flip_checked(x: i32) -> (r: Option<i32>)
    ensures
        r == if x < i32::MAX { Some((-2 - x) as i32) } else { None::<i32> },
{
    if x < i32::MAX {
        Some(flip(x))
    } else {
        None
    }
}

/// Counts gathered while eliminating.
pub struct Counts {
    pub lnz: i32,
    pub ndiv: i32,
    pub nms_lu: i32,
    pub nms_ldl: i32,
    pub dmax: i32,
    pub ncompress: i32,
    pub ndense: i32,
}

/// Number of rows among `0..i` whose length exceeds `dense`.
pub open spec fn count_dense(len: Seq<i32>, dense: int, i: int) -> int
    decreases i,
{
    if i <= 0 {
        0
    } else {
        count_dense(len, dense, i - 1) + if len[i - 1] > dense && len[i - 1] != 0 { 1int } else { 0 }
    }
}

/// At most `i` of the rows `0..i` are dense.
pub proof fn lemma_count_dense(len: Seq<i32>, dense: int, i: int)
    requires
        0 <= i,
    ensures
        0 <= count_dense(len, dense, i) <= i,
    decreases i,
{
    if i > 0 {
        lemma_count_dense(len, dense, i - 1);
    }
}

/// Rust's division of `x` by `d > 0`, rounding toward zero.
pub open spec fn div_toward_zero(x: int, d: int) -> int {
    if x >= 0 { x / d } else { -((-x) / d) }
}

/// Entries of L below the diagonal in a front with `f` pivots and `r`
/// off-diagonal rows, `f*r + (f-1)*f/2`, in wrapping 32-bit arithmetic.
pub open spec fn front_lnz(f: i32, r: i32) -> i32 {
    i32_specs::wrapping_add(
        i32_specs::wrapping_mul(f, r),
        div_toward_zero(i32_specs::wrapping_mul(i32_specs::wrapping_sub(f, 1), f) as int, 2) as i32,
    )
}

/// Multiply-subtract pairs of the LU factorization of such a front,
/// `f*r*r + r*(f-1)*f + (f-1)*f*(2f-1)/6`, in wrapping 32-bit arithmetic.
pub open spec fn front_lu(f: i32, r: i32) -> i32 {
    let fm1 = i32_specs::wrapping_sub(f, 1);
    i32_specs::wrapping_add(
        i32_specs::wrapping_add(
            i32_specs::wrapping_mul(i32_specs::wrapping_mul(f, r), r),
            i32_specs::wrapping_mul(i32_specs::wrapping_mul(r, fm1), f),
        ),
        div_toward_zero(
            i32_specs::wrapping_mul(
                i32_specs::wrapping_mul(fm1, f),
                i32_specs::wrapping_sub(i32_specs::wrapping_mul(f, 2), 1),
            ) as int,
            6,
        ) as i32,
    )
}

/// Adds the work of a front with `f` pivots and `r` off-diagonal rows to the
/// counts `(lnz, ndiv, nms_lu, nms_ldl)`, wrapping around on overflow.
fn add_front_work(c: &mut Counts, f: i32, r: i32)
    ensures
        final(c).lnz == i32_specs::wrapping_add(old(c).lnz, front_lnz(f, r)),
        final(c).ndiv == i32_specs::wrapping_add(old(c).ndiv, front_lnz(f, r)),
        final(c).nms_lu == i32_specs::wrapping_add(old(c).nms_lu, front_lu(f, r)),
        final(c).nms_ldl == i32_specs::wrapping_add(
            old(c).nms_ldl,
            div_toward_zero(i32_specs::wrapping_add(front_lu(f, r), front_lnz(f, r)) as int, 2) as i32,
        ),
        final(c).dmax == old(c).dmax,
        final(c).ncompress == old(c).ncompress,
        final(c).ndense == old(c).ndense,
{
    // Number of nonzeros in L (excluding the diagonal).
    let fm1 = f.wrapping_sub(1);
    let lnzme = f.wrapping_mul(r).wrapping_add(fm1.wrapping_mul(f) / 2);
    c.lnz = c.lnz.wrapping_add(lnzme);
    // Number of divide operations for LDL' and for LU.
    c.ndiv = c.ndiv.wrapping_add(lnzme);
    // Number of multiply-subtract pairs for LU.
    let s = f.wrapping_mul(r).wrapping_mul(r)
        .wrapping_add(r.wrapping_mul(fm1).wrapping_mul(f))
        .wrapping_add(fm1.wrapping_mul(f).wrapping_mul(f.wrapping_mul(2).wrapping_sub(1)) / 6);
    c.nms_lu = c.nms_lu.wrapping_add(s);
    // Number of multiply-subtract pairs for LDL'.
    c.nms_ldl = c.nms_ldl.wrapping_add(s.wrapping_add(lnzme) / 2);
}


/// Removes variable `i` from the degree list it sits in: its successor gets its
/// predecessor, and its predecessor (or, at the front, the head of the list of
/// degree `degree[i]`) gets its successor.  `None` where an index leaves its
/// array; the links changed until then stay changed.
fn unlink_degree(i: i32, head: &mut Vec<i32>, next: &mut Vec<i32>, last: &mut Vec<i32>, degree: &Vec<i32>) -> (r: Option<()>)
    ensures
        final(head)@.len() == old(head)@.len(),
        final(next)@.len() == old(next)@.len(),
        final(last)@.len() == old(last)@.len(),
        ({
            let ok_i = 0 <= i < old(last)@.len() && 0 <= i < old(next)@.len();
            let ilast = old(last)@[i as int];
            let inext = old(next)@[i as int];
            let ok_next = inext == EMPTY || 0 <= inext < old(last)@.len();
            let ok_last = if ilast != EMPTY {
                0 <= ilast < old(next)@.len()
            } else {
                0 <= i < degree@.len() && 0 <= degree@[i as int] < old(head)@.len()
            };
            &&& (r is Some <==> ok_i && ok_next && ok_last)
            &&& final(last)@ == if ok_i && inext != EMPTY && ok_next {
                old(last)@.update(inext as int, ilast)
            } else {
                old(last)@
            }
            &&& final(next)@ == if ok_i && ok_next && ilast != EMPTY && ok_last {
                old(next)@.update(ilast as int, inext)
            } else {
                old(next)@
            }
            &&& final(head)@ == if ok_i && ok_next && ilast == EMPTY && ok_last {
                old(head)@.update(degree@[i as int] as int, inext)
            } else {
                old(head)@
            }
        }),
{
    let ilast = at(last, i)?;
    let inext = at(next, i)?;
    if inext != EMPTY {
        put(last, inext, ilast)?;
    }
    if ilast != EMPTY {
        put(next, ilast, inext)?;
    } else {
        // i is at the head of the degree list.
        let di = at(degree, i)?;
        put(head, di, inext)?;
    }
    Some(())
}

/// Position of `x` in the postorder of the assembly forest, `EMPTY` when the
/// postorder does not list it.
pub open spec fn post_position(pe: Seq<i32>, nv: Seq<i32>, e_len: Seq<i32>, n: int, x: int) -> i32 {
    let s = forest_order(pe, nv, e_len, n);
    if s.contains(x) { (choose|j: int| 0 <= j < s.len() && s[j] == x) as i32 } else { EMPTY }
}

/// The positions of `0..n` in the postorder of the assembly forest.
pub open spec fn post_positions(pe: Seq<i32>, nv: Seq<i32>, e_len: Seq<i32>, n: int) -> Seq<i32> {
    Seq::new(n as nat, |x: int| post_position(pe, nv, e_len, n, x))
}

/// `next` is the numbering that `number_of` derives from the postorder of the
/// assembly tree, wherever the tree's sizes make it well formed.
pub open spec fn numbered_by_postorder(pe: Seq<i32>, nv: Seq<i32>, e_len: Seq<i32>, next: Seq<i32>, n: int) -> bool {
    let order = post_positions(pe, nv, e_len, n);
    well_numbered(pe, nv, order, n) ==>
        forall|i: int| 0 <= i < n ==> #[trigger] next[i] == number_of(pe, nv, order, n, i)
}

/// The counts of an elimination without pivots: only the dense rows, `d` of
/// them, form one last front with `d` pivots; no storage was compacted.
pub open spec fn dense_front_counts(c: Counts) -> bool {
    let d = c.ndense;
    &&& c.lnz == front_lnz(d, 0)
    &&& c.ndiv == front_lnz(d, 0)
    &&& c.nms_lu == front_lu(d, 0)
    &&& c.nms_ldl == div_toward_zero(i32_specs::wrapping_add(front_lu(d, 0), front_lnz(d, 0)) as int, 2) as i32
    &&& c.dmax == if d > 1 { d } else { 1i32 }
    &&& c.ncompress == 0
}

/// `dense_front_counts` of the statistics recorded in `info`.
pub open spec fn dense_front_info(info: Info) -> bool {
    dense_front_counts(Counts {
        lnz: info.lnz,
        ndiv: info.n_div,
        nms_lu: info.n_mult_subs_lu,
        nms_ldl: info.n_mult_subs_ldl,
        dmax: info.d_max,
        ncompress: info.n_cmp_a,
        ndense: info.n_dense,
    })
}

/// What holds of the recorded counts of every successful ordering: as many
/// divisions as entries of L, a largest front of at least one column, and no
/// negative number of compactions.
pub open spec fn counts_in_range(info: Info) -> bool {
    &&& info.n_div == info.lnz
    &&& info.d_max >= 1
    &&& info.n_cmp_a >= 0
}

/// Every row of `0..n` is empty or longer than `dense`: the elimination then
/// has no pivot to pick.
pub open spec fn all_empty_or_dense(len: Seq<i32>, dense: int, n: int) -> bool {
    &&& n <= len.len()
    &&& forall|i: int| 0 <= i < n ==> #[trigger] len[i] == 0 || len[i] > dense
}

/// What the elimination leaves when every row is empty or dense: no node has
/// a parent, each empty row is an element of one variable (its size flipped),
/// each dense row is out of the tree.
pub open spec fn flat_state(pe: Seq<i32>, nv: Seq<i32>, e_len: Seq<i32>, len: Seq<i32>, n: int) -> bool {
    &&& n <= pe.len() && n <= nv.len() && n <= e_len.len() && n <= len.len()
    &&& forall|j: int| 0 <= j < n ==> #[trigger] pe[j] == EMPTY
    &&& forall|j: int| 0 <= j < n ==> #[trigger] nv[j] == (if len[j] == 0 { 1i32 } else { 0i32 })
    &&& forall|j: int| 0 <= j < n ==> #[trigger] e_len[j] == (if len[j] == 0 { -3i32 } else { EMPTY })
}

/// Turns what the elimination left in `pe` and `e_len` into the assembly tree
/// (`pe[j]` the parent of `j`, `e_len[e]` the size of element `e`), compresses
/// the paths of the merged variables, postorders the tree and numbers the
/// variables from that postorder.  `None` where the tree is malformed.
#[verifier::loop_isolation(false)]
fn finish_tree(n: i32, pe: &mut [i32], nv: &Vec<i32>, e_len: &mut Vec<i32>, Ghost(len0): Ghost<Seq<i32>>)
    -> (r: Option<(Vec<i32>, Vec<i32>)>)
    requires
        n > 0,
        nv@.len() == n,
        old(e_len)@.len() == n,
    ensures
        final(e_len)@.len() == n,
        r matches Some((next, last)) ==> {
            &&& inverse_perms(next@, last@, n as int)
            &&& assembly_tree(final(pe)@, nv@, final(e_len)@, n as int)
            &&& numbered_by_postorder(final(pe)@, nv@, final(e_len)@, next@, n as int)
        },
        flat_state(old(pe)@, nv@, old(e_len)@, len0, n as int) ==> {
            &&& r is Some
            &&& r matches Some((next, last)) ==> forall|i: int| 0 <= i < n ==>
                #[trigger] next@[i] == flat_number(len0, n as int, i)
            &&& forall|i: int| 0 <= i < n ==> #[trigger] final(pe)@[i] == EMPTY
            &&& forall|i: int| 0 <= i < n ==> #[trigger] final(e_len)@[i] == if len0[i] == 0 { 1i32 } else { EMPTY }
        },
{
    let nu = n as usize;
    let ghost flat = flat_state(pe@, nv@, e_len@, len0, n as int);
    // Restore Pe: now the parent of j is Pe[j], or EMPTY if j is a root.
    let mut i: i32 = 0;
    while i < n
        invariant
            0 <= i <= n,
            pe@.len() == old(pe)@.len(),
            flat ==> forall|j: int| 0 <= j < n ==> #[trigger] pe@[j] == EMPTY,
        decreases n - i,
    {
        let v = flip_checked(at(pe, i)?)?;
        put(pe, i, v)?;
        i += 1;
    }
    // Restore Elen: Elen[e] > 0 is the size of element e.
    let mut i: i32 = 0;
    while i < n
        invariant
            0 <= i <= n,
            e_len@.len() == n,
            flat ==> forall|j: int| 0 <= j < n ==> #[trigger] e_len@[j] == if j < i {
                if len0[j] == 0 { 1i32 } else { EMPTY }
            } else {
                if len0[j] == 0 { -3i32 } else { EMPTY }
            },
        decreases n - i,
    {
        let v = flip_checked(at(e_len, i)?)?;
        put(e_len, i, v)?;
        i += 1;
    }
    // Compress the paths of the variables.
    let ghost pe1 = pe@;
    proof {
        if flat {
            assert(paths_reach(pe1, nv@, n as int));
        }
    }
    if !compress_paths(n, pe, nv) {
        return None;
    }
    proof {
        if flat {
            assert forall|j: int| 0 <= j < n implies #[trigger] pe@[j] == EMPTY by {
                if pe@[j] != pe1[j] {
                    assert(reach(pe1, nv@, n as int, -1, (n - 1) as nat) is None);
                }
            }
        }
    }
    // Postorder the assembly tree.
    if pe.len() < nu {
        return None;
    }
    proof {
        if flat {
            assert forall|j: int| #[trigger] is_elem(nv@, n as int, j) implies
                pe@[j] == -1 || is_elem(nv@, n as int, pe@[j] as int) by {
                assert(pe@[j] == EMPTY);
            }
            assert(postorder_input(pe@, nv@, e_len@, n as int));
        }
    }
    if !check_postorder_input(n, pe, nv, e_len) {
        return None;
    }
    let mut order: Vec<i32> = vec![EMPTY; nu];
    let mut child: Vec<i32> = vec![EMPTY; nu];
    let mut sibling: Vec<i32> = vec![EMPTY; nu];
    let mut stack: Vec<i32> = vec![EMPTY; nu];
    postorder(n, pe, nv, e_len, &mut order, &mut child, &mut sibling, &mut stack);
    proof {
        let s = forest_order(pe@, nv@, e_len@, n as int);
        assert forall|j: int| 0 <= j < s.len() implies 0 <= #[trigger] s[j] < n by {
            lemma_forest_order_lists(pe@, nv@, e_len@, n as int, s[j]);
            assert(s.contains(s[j]));
        }
        lemma_nodup_len_bound(s, n as int);
        assert forall|x: int| 0 <= x < n implies #[trigger] order@[x] == post_position(pe@, nv@, e_len@, n as int, x) by {
            if s.contains(x) {
                let j = choose|j: int| 0 <= j < s.len() && s[j] == x;
                assert(order@[s[j]] == j);
            }
        }
        assert(order@ =~= post_positions(pe@, nv@, e_len@, n as int));
        if flat {
            assert forall|j: int| 0 <= j < n implies #[trigger] pe@[j] == EMPTY
                && nv@[j] == (if len0[j] == 0 { 1i32 } else { 0i32 }) by {}
            lemma_flat_numbering(pe@, nv@, e_len@, order@, len0, n as int);
        }
    }
    // Compute output permutation and inverse permutation.
    permutation_from_order(n, pe, nv, &order)
}

/// The elimination: picks pivots of approximate minimum degree until every
/// variable is eliminated, building the assembly tree in `pe`, then postorders
/// the tree and numbers the variables.  Returns `(nv, next, last, e_len)` and
/// the counts, or `None` where an index leaves its array, a number overflows,
/// or a walk along the lists takes `n` steps or more.
#[verifier::loop_isolation(false)]
#[verifier::rlimit(40)]
fn eliminate(
    n: i32,
    pe: &mut [i32],
    iw: &mut [i32],
    len: &mut [i32],
    iwlen: i32,
    pfree0: i32,
    dense: i32,
    aggressive: bool,
) -> (r: Option<(Vec<i32>, Vec<i32>, Vec<i32>, Vec<i32>, Counts)>)
    requires
        n > 0,
    ensures
        r matches Some((nv, next, last, e_len, c)) ==> {
            &&& nv@.len() == n
            &&& e_len@.len() == n
            &&& inverse_perms(next@, last@, n as int)
            &&& c.ndense == count_dense(old(len)@, dense as int, n as int)
            &&& assembly_tree(final(pe)@, nv@, e_len@, n as int)
            &&& numbered_by_postorder(final(pe)@, nv@, e_len@, next@, n as int)
            &&& c.lnz == c.ndiv && c.dmax >= 1 && c.ncompress >= 0
        },
        all_empty_or_dense(old(len)@, dense as int, n as int) && n <= old(pe)@.len() ==> {
            &&& r is Some
            &&& r matches Some((nv, next, last, e_len, c)) ==> {
                &&& forall|i: int| 0 <= i < n ==> #[trigger] next@[i] == flat_number(old(len)@, n as int, i)
                &&& forall|i: int| 0 <= i < n ==> #[trigger] nv@[i] == if old(len)@[i] == 0 { 1i32 } else { 0i32 }
                &&& forall|i: int| 0 <= i < n ==> #[trigger] e_len@[i] == if old(len)@[i] == 0 { 1i32 } else { EMPTY }
                &&& forall|i: int| 0 <= i < n ==> #[trigger] final(pe)@[i] == EMPTY
                &&& dense_front_counts(c)
            }
        },
{
    let nu = n as usize;
    let mut pfree = pfree0;
    // local workspace
    let mut head: Vec<i32> = vec![EMPTY; nu];
    let mut degree: Vec<i32> = vec![0; nu];
    let mut w: Vec<i32> = vec![1; nu];
    // output
    let mut nv: Vec<i32> = vec![1; nu];
    let mut next: Vec<i32> = vec![EMPTY; nu];
    let mut last: Vec<i32> = vec![EMPTY; nu];
    let mut e_len: Vec<i32> = vec![0; nu];
    let mut c = Counts { lnz: 0, ndiv: 0, nms_lu: 0, nms_ldl: 0, dmax: 1, ncompress: 0, ndense: 0 };

    // Initializations
    let mut i: i32 = 0;
    while i < n
        invariant
            0 <= i <= n,
            i <= len@.len(),
            degree@.len() == n,
            forall|x: int| 0 <= x < i ==> degree@[x] == len@[x],
        decreases n - i,
    {
        let li = at(len, i)?;
        put(&mut degree, i, li)?;
        i += 1;
    }
    let mut me: i32 = EMPTY;
    let mut mindeg: i32 = 0;
    let mut nel: i32 = 0;
    let mut lemax: i32 = 0;
    let wbig = i32::MAX - n;
    let mut wflg = clear_flag(0, wbig, &mut w, n);

    // Initialize degree lists and eliminate dense and empty rows.
    let ghost len0 = len@;
    let ghost flat = all_empty_or_dense(len0, dense as int, n as int) && n <= pe@.len();
    let ghost pe_len = pe@.len();
    let mut i: i32 = 0;
    while i < n
        invariant
            0 <= i <= n,
            len@ == len0,
            pe@.len() == pe_len,
            nv@.len() == n,
            e_len@.len() == n,
            w@.len() == n,
            c.lnz == 0 && c.ndiv == 0 && c.nms_lu == 0 && c.nms_ldl == 0,
            c.dmax == 1 && c.ncompress == 0,
            flat ==> nel == i,
            flat ==> forall|j: int| 0 <= j < i ==> #[trigger] pe@[j] == EMPTY,
            flat ==> forall|j: int| 0 <= j < n ==> #[trigger] nv@[j] == if j < i {
                if len0[j] == 0 { 1i32 } else { 0i32 }
            } else {
                1i32
            },
            flat ==> forall|j: int| 0 <= j < n ==> #[trigger] e_len@[j] == if j < i {
                if len0[j] == 0 { -3i32 } else { EMPTY }
            } else {
                0i32
            },
            c.ndense == count_dense(len0, dense as int, i as int),
            0 <= c.ndense <= i,
            0 <= nel <= i,
            degree@.len() == n,
            forall|x: int| i <= x < n ==> degree@[x] == len0[x],
        decreases n - i,
    {
        let deg = at(&degree, i)?;
        proof {
            assert(deg == len0[i as int]);
        }
        if deg == 0 {
            // A variable that can be eliminated at once: no off-diagonal entry.
            put(&mut e_len, i, flip(1))?;
            nel += 1;
            put(pe, i, EMPTY)?;
            put(&mut w, i, 0)?;
        } else if deg > dense {
            // A dense variable: not ordered, and not part of the postorder.
            c.ndense += 1;
            put(&mut nv, i, 0)?;
            put(&mut e_len, i, EMPTY)?;
            nel += 1;
            put(pe, i, EMPTY)?;
        } else {
            // Place i in the degree list corresponding to its degree.
            let inext = at(&head, deg)?;
            if inext != EMPTY {
                put(&mut last, inext, i)?;
            }
            put(&mut next, i, inext)?;
            put(&mut head, deg, i)?;
        }
        i += 1;
    }
    let ghost ndense0 = c.ndense;
    let ghost pe1 = pe@;
    let ghost nv1 = nv@;
    let ghost e_len1 = e_len@;
    let ghost c1 = c;
    proof {
        if flat {
            assert(flat_state(pe1, nv1, e_len1, len0, n as int));
        }
    }

    // While (selecting pivots) do.
    let mut rounds: i32 = 0;
    while nel < n
        invariant
            c.ndense == ndense0,
            c.lnz == c.ndiv && c.dmax >= 1 && c.ncompress >= 0,
            0 <= rounds <= n,
            flat ==> nel == n && pe@ == pe1 && nv@ == nv1 && e_len@ == e_len1 && c == c1,
        decreases n - rounds,
    {
        proof {
            assert(!flat);
        }
        if rounds >= n {
            return None;
        }
        rounds += 1;

        // Get pivot of minimum degree.
        let mut deg = mindeg;
        while deg < n
            decreases n - deg,
        {
            me = at(&head, deg)?;
            if me != EMPTY {
                break;
            }
            deg += 1;
        }
        mindeg = deg;

        // Remove chosen variable from link list.
        let mut inext = at(&next, me)?;
        if inext != EMPTY {
            put(&mut last, inext, EMPTY)?;
        }
        put(&mut head, deg, inext)?;

        // me represents the elimination of pivots nel to nel+Nv[me]-1.
        let elenme = at(&e_len, me)?;
        let mut nvpiv = at(&nv, me)?;
        nel = nel.checked_add(nvpiv)?;

        // Construct new element.
        put(&mut nv, me, 0i32.checked_sub(nvpiv)?)?;
        let mut degme: i32 = 0;
        let mut pme1: i32;
        let mut pme2: i32;
        if elenme == 0 {
            // Construct the new element in place.
            pme1 = at(pe, me)?;
            pme2 = pme1.checked_sub(1)?;
            let pstop = pme1.checked_add(at(len, me)?)?;
            let mut p = pme1;
            while p < pstop
                decreases pstop - p,
            {
                let i = at(iw, p)?;
                let nvi = at(&nv, i)?;
                if nvi > 0 {
                    // i is a principal variable not yet placed in Lme: store it
                    // in the new list, flagged by negating Nv[i].
                    degme = degme.checked_add(nvi)?;
                    put(&mut nv, i, -nvi)?;
                    pme2 = pme2.checked_add(1)?;
                    put(iw, pme2, i)?;
                    // Remove variable i from degree list.
                    unlink_degree(i, &mut head, &mut next, &mut last, &degree)?;
                }
                p += 1;
            }
        } else {
            // Construct the new element in empty space, Iw[pfree ...]
            let mut p = at(pe, me)?;
            pme1 = pfree;
            let slenme = at(len, me)?.checked_sub(elenme)?;
            let knt1_stop = elenme.checked_add(2)?;
            let mut knt1: i32 = 1;
            while knt1 < knt1_stop
                invariant
                    c.ndense == ndense0,
                    c.lnz == c.ndiv && c.dmax >= 1 && c.ncompress >= 0,
                decreases knt1_stop - knt1,
            {
                let e: i32;
                let mut pj: i32;
                let ln: i32;
                if knt1 > elenme {
                    // Search the supervariables in me.
                    e = me;
                    pj = p;
                    ln = slenme;
                } else {
                    // Search the elements in me.
                    e = at(iw, p)?;
                    p = p.checked_add(1)?;
                    pj = at(pe, e)?;
                    ln = at(len, e)?;
                }
                // Search for different supervariables and add them to the new
                // list, compressing when necessary.
                let knt2_stop = ln.checked_add(1)?;
                let mut knt2: i32 = 1;
                while knt2 < knt2_stop
                    invariant
                        c.ndense == ndense0,
                        c.lnz == c.ndiv && c.dmax >= 1 && c.ncompress >= 0,
                    decreases knt2_stop - knt2,
                {
                    let i = at(iw, pj)?;
                    pj = pj.checked_add(1)?;
                    let nvi = at(&nv, i)?;
                    if nvi > 0 {
                        // Compress Iw, if necessary.
                        if pfree >= iwlen {
                            // Adjust pointers and lengths so that the lists being
                            // searched contain only the remaining entries.
                            put(pe, me, p)?;
                            let lenme = at(len, me)?.checked_sub(knt1)?;
                            put(len, me, lenme)?;
                            if lenme == 0 {
                                put(pe, me, EMPTY)?;
                            }
                            put(pe, e, pj)?;
                            let lene = ln.checked_sub(knt2)?;
                            put(len, e, lene)?;
                            if lene == 0 {
                                put(pe, e, EMPTY)?;
                            }
                            c.ncompress = c.ncompress.checked_add(1)?;
                            // Store first entry of each object in Pe, and flip
                            // the first entry in each object.
                            let mut j: i32 = 0;
                            while j < n
                                decreases n - j,
                            {
                                let pn = at(pe, j)?;
                                if pn >= 0 {
                                    let first = at(iw, pn)?;
                                    put(pe, j, first)?;
                                    put(iw, pn, flip(j))?;
                                }
                                j += 1;
                            }
                            // psrc/pdst point to source/destination
                            let mut psrc: i32 = 0;
                            let mut pdst: i32 = 0;
                            let pend = pme1.checked_sub(1)?;
                            while psrc <= pend
                                decreases if psrc <= pend { pend - psrc + 1 } else { 0 },
                            {
                                // Search for next flip'd entry.
                                let j = flip_checked(at(iw, psrc)?)?;
                                psrc = psrc.checked_add(1)?;
                                if j >= 0 {
                                    let pej = at(pe, j)?;
                                    put(iw, pdst, pej)?;
                                    put(pe, j, pdst)?;
                                    pdst = pdst.checked_add(1)?;
                                    let lenj = at(len, j)?;
                                    // Copy from source to destination.
                                    let mut knt3: i32 = 1;
                                    let ghost psrc0 = psrc;
                                    while knt3 < lenj
                                        invariant
                                            psrc >= psrc0,
                                        decreases lenj - knt3,
                                    {
                                        let v = at(iw, psrc)?;
                                        put(iw, pdst, v)?;
                                        pdst = pdst.checked_add(1)?;
                                        psrc = psrc.checked_add(1)?;
                                        knt3 += 1;
                                    }
                                }
                            }
                            // Move the new partially-constructed element.
                            let p1 = pdst;
                            psrc = pme1;
                            while psrc < pfree
                                decreases pfree - psrc,
                            {
                                let v = at(iw, psrc)?;
                                put(iw, pdst, v)?;
                                pdst = pdst.checked_add(1)?;
                                psrc += 1;
                            }
                            pme1 = p1;
                            pfree = pdst;
                            pj = at(pe, e)?;
                            p = at(pe, me)?;
                        }
                        // i is a principal variable not yet placed in Lme: store
                        // it in the new list, flagged by negating Nv[i].
                        degme = degme.checked_add(nvi)?;
                        put(&mut nv, i, -nvi)?;
                        put(iw, pfree, i)?;
                        pfree = pfree.checked_add(1)?;
                        // Remove variable i from degree link list.
                        unlink_degree(i, &mut head, &mut next, &mut last, &degree)?;
                    }
                    knt2 += 1;
                }
                if e != me {
                    // Element e is absorbed into new element me.
                    put(pe, e, flip_checked(me)?)?;
                    put(&mut w, e, 0)?;
                }
                knt1 += 1;
            }
            pme2 = pfree.checked_sub(1)?;
        }

        // me has now been converted into an element in Iw[pme1..pme2];
        // degme holds the external degree of new element.
        put(&mut degree, me, degme)?;
        put(pe, me, pme1)?;
        put(len, me, pme2.checked_sub(pme1)?.checked_add(1)?)?;
        put(&mut e_len, me, flip_checked(nvpiv.checked_add(degme)?)?)?;

        // Make sure that wflg is not too large.
        if w.len() < nu {
            return None;
        }
        wflg = clear_flag(wflg, wbig, &mut w, n);

        // Scan 1: compute the external degrees of previous elements with
        // respect to the current element: (W[e] - wflg) = |Le \ Lme|.
        let pstop = pme2.checked_add(1)?;
        let mut pme = pme1;
        while pme < pstop
            decreases pstop - pme,
        {
            let i = at(iw, pme)?;
            let eln = at(&e_len, i)?;
            if eln > 0 {
                // Nv[i] has been negated to denote i in Lme.
                let nvi = 0i32.checked_sub(at(&nv, i)?)?;
                let wnvi = wflg.checked_sub(nvi)?;
                let p0 = at(pe, i)?;
                let pend = p0.checked_add(eln)?;
                let mut p = p0;
                while p < pend
                    decreases pend - p,
                {
                    let e = at(iw, p)?;
                    let mut we = at(&w, e)?;
                    if we >= wflg {
                        // Unabsorbed element e has been seen in this loop.
                        we = we.checked_sub(nvi)?;
                    } else if we != 0 {
                        // e is an unabsorbed element, seen for the first time.
                        we = at(&degree, e)?.checked_add(wnvi)?;
                    }
                    put(&mut w, e, we)?;
                    p += 1;
                }
            }
            pme += 1;
        }

        // Scan 2: degree update and element absorption.
        let mut pme = pme1;
        while pme < pstop
            decreases pstop - pme,
        {
            let i = at(iw, pme)?;
            let p1 = at(pe, i)?;
            let p2stop = p1.checked_add(at(&e_len, i)?)?;
            let mut pn = p1;
            let mut hash: u32 = 0;
            deg = 0;
            // Scan the element list associated with supervariable i.
            let mut p = p1;
            while p < p2stop
                decreases p2stop - p,
            {
                let e = at(iw, p)?;
                let we = at(&w, e)?;
                if we != 0 {
                    // e is an unabsorbed element.
                    let dext = we.checked_sub(wflg)?;
                    if !aggressive || dext > 0 {
                        deg = deg.checked_add(dext)?;
                        put(iw, pn, e)?;
                        pn = pn.checked_add(1)?;
                        hash = hash.wrapping_add(e as u32);
                    } else {
                        // External degree of e is zero: absorb e into me.
                        put(pe, e, flip_checked(me)?)?;
                        put(&mut w, e, 0)?;
                    }
                }
                p += 1;
            }
            // Count the number of elements in i (including me).
            put(&mut e_len, i, pn.checked_sub(p1)?.checked_add(1)?)?;
            // Scan the supervariables in the list associated with i.
            let p3 = pn;
            let p4 = p1.checked_add(at(len, i)?)?;
            let mut p = p2stop;
            while p < p4
                decreases p4 - p,
            {
                let j = at(iw, p)?;
                let nvj = at(&nv, j)?;
                if nvj > 0 {
                    // j is unabsorbed, and not in Lme.
                    deg = deg.checked_add(nvj)?;
                    put(iw, pn, j)?;
                    pn = pn.checked_add(1)?;
                    hash = hash.wrapping_add(j as u32);
                }
                p += 1;
            }
            if at(&e_len, i)? == 1 && p3 == pn {
                // Mass elimination: nothing is left of i but its edge to the
                // pivot element; absorb i into me.
                put(pe, i, flip_checked(me)?)?;
                let nvi = 0i32.checked_sub(at(&nv, i)?)?;
                degme = degme.checked_sub(nvi)?;
                nvpiv = nvpiv.checked_add(nvi)?;
                nel = nel.checked_add(nvi)?;
                put(&mut nv, i, 0)?;
                put(&mut e_len, i, EMPTY)?;
            } else {
                // Update the upper-bound degree of i.
                let di = at(&degree, i)?;
                put(&mut degree, i, if di < deg { di } else { deg })?;
                // Add me to the list for i: move the first supervariable to the
                // end, the first element to the end of the element part, and me
                // to the front.
                let v = at(iw, p3)?;
                put(iw, pn, v)?;
                let v = at(iw, p1)?;
                put(iw, p3, v)?;
                put(iw, p1, me)?;
                put(len, i, pn.checked_sub(p1)?.checked_add(1)?)?;
                // Place in hash bucket; save hash key of i in Last[i].
                hash = hash % (n as u32);
                let hi = hash as i32;
                let j = at(&head, hi)?;
                if j <= EMPTY {
                    // Degree list is empty, hash head is flip(j).
                    put(&mut next, i, flip_checked(j)?)?;
                    put(&mut head, hi, flip_checked(i)?)?;
                } else {
                    // Degree list is not empty, use Last[Head[hash]] as hash head.
                    let lj = at(&last, j)?;
                    put(&mut next, i, lj)?;
                    put(&mut last, j, i)?;
                }
                put(&mut last, i, hi)?;
            }
            pme += 1;
        }
        put(&mut degree, me, degme)?;

        // Clear the counter array, W[...], by incrementing wflg.
        if degme > lemax {
            lemax = degme;
        }
        wflg = wflg.checked_add(lemax)?;
        if w.len() < nu {
            return None;
        }
        wflg = clear_flag(wflg, wbig, &mut w, n);

        // Supervariable detection.
        let mut pme = pme1;
        while pme < pstop
            decreases pstop - pme,
        {
            let mut i = at(iw, pme)?;
            if at(&nv, i)? < 0 {
                // i is a principal variable in Lme.  Let i = head of hash
                // bucket, and empty the hash bucket.
                let hi = at(&last, i)?;
                let mut j = at(&head, hi)?;
                if j == EMPTY {
                    // hash bucket and degree list are both empty.
                    i = EMPTY;
                } else if j < EMPTY {
                    // Degree list is empty.
                    i = flip_checked(j)?;
                    put(&mut head, hi, EMPTY)?;
                } else {
                    // Degree list is not empty, restore Last[j] of head j.
                    i = at(&last, j)?;
                    put(&mut last, j, EMPTY)?;
                }
                let mut steps: i32 = 0;
                loop
                    invariant
                        0 <= steps <= n,
                    decreases n - steps,
                {
                    if i == EMPTY || at(&next, i)? == EMPTY {
                        break;
                    }
                    if steps >= n {
                        return None;
                    }
                    steps += 1;
                    // Scatter i into w, not flagging its first element (me).
                    let ln = at(len, i)?;
                    let eln = at(&e_len, i)?;
                    let pei = at(pe, i)?;
                    let pend = pei.checked_add(ln)?;
                    let mut p = pei.checked_add(1)?;
                    while p < pend
                        decreases pend - p,
                    {
                        let x = at(iw, p)?;
                        put(&mut w, x, wflg)?;
                        p += 1;
                    }
                    // Scan every other entry j following i in bucket.
                    let mut jlast = i;
                    j = at(&next, i)?;
                    let mut steps2: i32 = 0;
                    loop
                        invariant
                            0 <= steps2 <= n,
                        decreases n - steps2,
                    {
                        if j == EMPTY {
                            break;
                        }
                        if steps2 >= n {
                            return None;
                        }
                        steps2 += 1;
                        // Check if j and i have identical nonzero pattern.
                        let mut ok = at(len, j)? == ln && at(&e_len, j)? == eln;
                        let pej = at(pe, j)?;
                        let pend = pej.checked_add(ln)?;
                        let mut p = pej.checked_add(1)?;
                        while p < pend
                            decreases pend - p,
                        {
                            let x = at(iw, p)?;
                            if at(&w, x)? != wflg {
                                ok = false;
                                break;
                            }
                            p += 1;
                        }
                        if ok {
                            // Found it: j can be absorbed into i.
                            put(pe, j, flip_checked(i)?)?;
                            let nvi = at(&nv, i)?;
                            let nvj = at(&nv, j)?;
                            put(&mut nv, i, nvi.checked_add(nvj)?)?;
                            put(&mut nv, j, 0)?;
                            put(&mut e_len, j, EMPTY)?;
                            // Delete j from hash bucket.
                            j = at(&next, j)?;
                            put(&mut next, jlast, j)?;
                        } else {
                            // j cannot be absorbed into i.
                            jlast = j;
                            j = at(&next, j)?;
                        }
                    }
                    // Go to next i in bucket and clear flag array.
                    wflg = wflg.checked_add(1)?;
                    i = at(&next, i)?;
                }
            }
            pme += 1;
        }

        // Restore degree lists and remove nonprincipal supervariables from element.
        let mut p = pme1;
        let nleft = n.checked_sub(nel)?;
        let mut pme = pme1;
        while pme < pstop
            decreases pstop - pme,
        {
            let i = at(iw, pme)?;
            let nvi = 0i32.checked_sub(at(&nv, i)?)?;
            if nvi > 0 {
                // i is a principal variable in Lme: restore Nv[i].
                put(&mut nv, i, nvi)?;
                // Compute the external degree (add size of current element).
                let mut d = at(&degree, i)?.checked_add(degme)?.checked_sub(nvi)?;
                let cap = nleft.checked_sub(nvi)?;
                if cap < d {
                    d = cap;
                }
                deg = d;
                // Place the supervariable at the head of the degree list.
                inext = at(&head, deg)?;
                if inext != EMPTY {
                    put(&mut last, inext, i)?;
                }
                put(&mut next, i, inext)?;
                put(&mut last, i, EMPTY)?;
                put(&mut head, deg, i)?;
                // Save the new degree, and find the minimum degree.
                if deg < mindeg {
                    mindeg = deg;
                }
                put(&mut degree, i, deg)?;
                // Place the supervariable in the element pattern.
                put(iw, p, i)?;
                p = p.checked_add(1)?;
            }
            pme += 1;
        }

        // Finalize the new element.
        put(&mut nv, me, nvpiv)?;
        let lenme = p.checked_sub(pme1)?;
        put(len, me, lenme)?;
        if lenme == 0 {
            // Nothing is left of the current pivot element: it is a root of
            // the assembly tree.
            put(pe, me, EMPTY)?;
            put(&mut w, me, 0)?;
        }
        if elenme != 0 {
            // Element was not constructed in place: deallocate part of it.
            pfree = p;
        }
        // The new element has nvpiv pivots and a contribution block of
        // degme-by-degme, plus the dense rows/columns.
        let f = nvpiv;
        let r = degme.wrapping_add(c.ndense);
        if f.wrapping_add(r) > c.dmax {
            c.dmax = f.wrapping_add(r);
        }
        add_front_work(&mut c, f, r);
    }

    // Done selecting pivots: count the work to factorize the dense submatrix.
    if c.ndense > c.dmax {
        c.dmax = c.ndense;
    }
    let f = c.ndense;
    add_front_work(&mut c, f, 0);

    if nv.len() != nu || e_len.len() != nu {
        return None;
    }
    let (next, last) = finish_tree(n, pe, &nv, &mut e_len, Ghost(len0))?;
    Some((nv, next, last, e_len, c))
}


/// Stores the counts of a successful ordering in `info`.
fn record_counts(info: &mut Info, c: &Counts)
    ensures
        final(info).status == Status::OK,
        final(info).n_dense == c.ndense,
        final(info).lnz == c.lnz,
        final(info).n_div == c.ndiv,
        final(info).n_mult_subs_ldl == c.nms_ldl,
        final(info).n_mult_subs_lu == c.nms_lu,
        final(info).d_max == c.dmax,
        final(info).n_cmp_a == c.ncompress,
        final(info).n == old(info).n,
        final(info).nz == old(info).nz,
        final(info).symmetry == old(info).symmetry,
        final(info).nz_diag == old(info).nz_diag,
        final(info).nz_a_plus_at == old(info).nz_a_plus_at,
{
    info.lnz = c.lnz;
    info.n_div = c.ndiv;
    info.n_mult_subs_ldl = c.nms_ldl;
    info.n_mult_subs_lu = c.nms_lu;
    info.n_dense = c.ndense;
    info.d_max = c.dmax;
    info.n_cmp_a = c.ncompress;
    info.status = Status::OK;
}

/// Approximate minimum degree ordering of the `n`-by-`n` symmetric pattern
/// whose rows are stored in `iw`: row `i` holds `len[i]` column indices from
/// `iw[pe[i]]` on (no diagonal entries), and `iw[pfree..iwlen]` is free.
/// Rows longer than the threshold `dense` are dense: they are left out of the
/// elimination and ordered last.  With `aggressive`, elements whose external
/// degree drops to zero are absorbed.
///
/// Returns `(nv, next, last, e_len)`: `last[k]` is the variable placed at
/// position `k`, `next[i]` the position of variable `i`; `nv[e]` is the
/// number of variables of element `e` and `e_len[e]` its size.  On return
/// `pe[j]` is the parent of `j` in the assembly tree (or `EMPTY`); `iw` and
/// `len` are destroyed.  `info.status` is `OK`, with the work counts in
/// `info`, or `Invalid` (and empty vectors) where an index leaves its array, a
/// number overflows or a walk along the lists takes `n` steps or more.
///
/// On success the divisions equal the entries of L (`counts_in_range`), and,
/// wherever the sizes in the tree are consistent, the numbering follows the
/// postorder of the assembly tree (`numbered_by_postorder`): each element's
/// block after the blocks of the elements before it, the variables merged
/// into an element just before it.  When every row is empty or dense there is
/// nothing to pivot: the status is `OK`, the empty rows come first, then the
/// dense ones, each in index order (`flat_number`), every empty row is a root
/// of size one, and the counts are those of the one front of dense rows
/// (`dense_front_info`).  `OK` is promised for those patterns only.
pub fn amd_2(
    n: i32,
    pe: &mut [i32],
    iw: &mut [i32],
    len: &mut [i32],
    iwlen: i32,
    pfree: i32,
    dense: i32,
    aggressive: bool,
    info: &mut Info,
) -> (r: (Vec<i32>, Vec<i32>, Vec<i32>, Vec<i32>))
    requires
        n > 0,
        iwlen >= pfree + n,
    ensures
        final(info).status == Status::OK || final(info).status == Status::Invalid,
        final(info).n == old(info).n,
        final(info).nz == old(info).nz,
        final(info).symmetry == old(info).symmetry,
        final(info).nz_diag == old(info).nz_diag,
        final(info).nz_a_plus_at == old(info).nz_a_plus_at,
        final(info).status == Status::OK ==> {
            &&& r.0@.len() == n
            &&& r.3@.len() == n
            &&& inverse_perms(r.1@, r.2@, n as int)
            &&& assembly_tree(final(pe)@, r.0@, r.3@, n as int)
            &&& numbered_by_postorder(final(pe)@, r.0@, r.3@, r.1@, n as int)
            &&& counts_in_range(*final(info))
            &&& 0 <= final(info).n_dense <= n
            &&& final(info).n_dense == count_dense(
                old(len)@,
                dense as int,
                n as int,
            )
        },
        final(info).status == Status::Invalid ==> {
            &&& r.0@.len() == 0
            &&& r.1@.len() == 0
            &&& r.2@.len() == 0
            &&& r.3@.len() == 0
        },
        all_empty_or_dense(old(len)@, dense as int, n as int)
            && n <= old(pe)@.len() ==> {
            &&& final(info).status == Status::OK
            &&& forall|i: int| 0 <= i < n ==> #[trigger] r.1@[i] == flat_number(old(len)@, n as int, i)
            &&& forall|i: int| 0 <= i < n ==> #[trigger] r.0@[i] == if old(len)@[i] == 0 { 1i32 } else { 0i32 }
            &&& forall|i: int| 0 <= i < n ==> #[trigger] r.3@[i] == if old(len)@[i] == 0 { 1i32 } else { EMPTY }
            &&& forall|i: int| 0 <= i < n ==> #[trigger] final(pe)@[i] == EMPTY
            &&& dense_front_info(*final(info))
        },
{
    proof {
        lemma_count_dense(len@, dense as int, n as int);
    }
    match eliminate(n, pe, iw, len, iwlen, pfree, dense, aggressive) {
        Some((nv, next, last, e_len, c)) => {
            record_counts(info, &c);
            (nv, next, last, e_len)
        },
        None => {
            info.status = Status::Invalid;
            (Vec::new(), Vec::new(), Vec::new(), Vec::new())
        },
    }
}

} // verus!

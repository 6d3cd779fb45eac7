use amd::amd::{flip, Info, Status, EMPTY};
use amd::amd_2::{amd_2, clear_flag, compress_paths, permutation_from_order};

fn blank_info() -> Info {
    Info {
        status: Status::OkButJumbled,
        n: 0,
        nz: 0,
        symmetry: false,
        nz_diag: 0,
        nz_a_plus_at: 0,
        n_dense: 0,
        n_cmp_a: 0,
        lnz: 0,
        n_div: 0,
        n_mult_subs_ldl: 0,
        n_mult_subs_lu: 0,
        d_max: 0,
    }
}

fn is_inverse_perm(next: &[i32], last: &[i32], n: usize) -> bool {
    if next.len() != n || last.len() != n {
        return false;
    }
    (0..n).all(|i| {
        let k = next[i];
        k >= 0 && (k as usize) < n && last[k as usize] == i as i32
    })
}

#[test]
fn flip_undoes_itself_and_keeps_empty() {
    assert_eq!(flip(0), -2);
    assert_eq!(flip(-2), 0);
    assert_eq!(flip(5), -7);
    assert_eq!(flip(flip(5)), 5);
    assert_eq!(flip(EMPTY), EMPTY);
}

#[test]
fn clear_flag_keeps_a_small_counter() {
    let mut w = vec![0, 5, 7];
    assert_eq!(clear_flag(4, 100, &mut w, 3), 4);
    assert_eq!(w, vec![0, 5, 7]);
}

#[test]
fn clear_flag_needs_no_room_without_a_reset() {
    let mut w = vec![3];
    assert_eq!(clear_flag(5, 100, &mut w, 10), 5);
    assert_eq!(w, vec![3]);
}

#[test]
fn clear_flag_resets_nothing_for_a_negative_size() {
    let mut w = vec![3, 0];
    assert_eq!(clear_flag(0, 100, &mut w, -4), 2);
    assert_eq!(w, vec![3, 0]);
}

#[test]
fn amd_treats_rows_above_a_small_threshold_as_dense() {
    // the path 0 - 1 - 2 with threshold 1: row 1 (2 entries) is dense,
    // rows 0 and 2 are then eliminated first, in index order
    let n = 3;
    let mut pe = vec![0, 1, 3];
    let mut len = vec![1, 2, 1];
    let mut iw = vec![1, 0, 2, 1, 0, 0, 0, 0, 0, 0];
    let mut info = blank_info();
    let (_nv, next, last, _e_len) = amd_2(n, &mut pe, &mut iw, &mut len, 10, 4, 1, true, &mut info);
    assert_eq!(info.status, Status::OK);
    assert_eq!(info.n_dense, 1);
    assert_eq!(next[1], 2);
    assert_eq!(last[2], 1);
}

#[test]
fn clear_flag_resets_a_low_counter() {
    let mut w = vec![0, 5, 7, 9];
    assert_eq!(clear_flag(1, 100, &mut w, 3), 2);
    assert_eq!(w, vec![0, 1, 1, 9]);
}

#[test]
fn clear_flag_resets_a_big_counter() {
    let mut w = vec![3, 0, -4];
    assert_eq!(clear_flag(100, 100, &mut w, 3), 2);
    assert_eq!(w, vec![1, 0, 1]);
}

#[test]
fn compress_paths_points_variables_at_their_element() {
    // 0 -> 1 -> 2 (element), 3 dense, 4 -> 2
    let nv = vec![0, 0, 3, 0, 0];
    let mut pe = vec![1, 2, EMPTY, EMPTY, 0];
    assert!(compress_paths(5, &mut pe, &nv));
    assert_eq!(pe, vec![2, 2, EMPTY, EMPTY, 2]);
}

#[test]
fn compress_paths_follows_a_path_already_shortened() {
    // 0 -> 1 -> 2 -> 3 (element); 4 -> 1, met once 1 already points at 3
    let nv = vec![0, 0, 0, 2, 0];
    let mut pe = vec![1, 2, 3, EMPTY, 1];
    assert!(compress_paths(5, &mut pe, &nv));
    assert_eq!(pe, vec![3, 3, 3, EMPTY, 3]);
}

#[test]
fn compress_paths_refuses_a_cycle() {
    let nv = vec![0, 0];
    let mut pe = vec![1, 0];
    assert!(!compress_paths(2, &mut pe, &nv));
}

#[test]
fn permutation_places_merged_variables_before_their_element() {
    // elements 1 (2 variables: 1 and 0) and 2; 3 is dense
    let pe = vec![1, EMPTY, 1, EMPTY];
    let nv = vec![0, 2, 1, 0];
    let order = vec![EMPTY, 1, 0, EMPTY];
    let (next, last) = permutation_from_order(4, &pe, &nv, &order).unwrap();
    assert_eq!(next, vec![1, 2, 0, 3]);
    assert_eq!(last, vec![2, 0, 1, 3]);
}

#[test]
fn permutation_refuses_a_repeated_position() {
    // element 0 stands for one variable, yet variable 2 is merged into it,
    // so 0 and the next element 1 would share a position
    let pe = vec![EMPTY, EMPTY, 0];
    let nv = vec![1, 1, 0];
    let order = vec![0, 1, EMPTY];
    assert!(permutation_from_order(3, &pe, &nv, &order).is_none());
}

#[test]
fn amd_orders_a_diagonal_matrix_as_it_is() {
    let n = 4;
    let mut pe = vec![0, 0, 0, 0];
    let mut len = vec![0, 0, 0, 0];
    let mut iw = vec![0; 8];
    let mut info = blank_info();
    let (nv, next, last, e_len) = amd_2(n, &mut pe, &mut iw, &mut len, 8, 0, 10, true, &mut info);
    assert_eq!(info.status, Status::OK);
    assert_eq!(nv, vec![1, 1, 1, 1]);
    assert_eq!(next, vec![0, 1, 2, 3]);
    assert_eq!(last, vec![0, 1, 2, 3]);
    assert_eq!(e_len, vec![1, 1, 1, 1]);
    assert_eq!(info.n_dense, 0);
    assert_eq!(info.lnz, 0);
}

#[test]
fn amd_orders_a_path() {
    // 0 - 1 - 2
    let n = 3;
    let mut pe = vec![0, 1, 3];
    let mut len = vec![1, 2, 1];
    let mut iw = vec![1, 0, 2, 1, 0, 0, 0, 0, 0, 0];
    let mut info = blank_info();
    let (nv, next, last, e_len) = amd_2(n, &mut pe, &mut iw, &mut len, 10, 4, 10, true, &mut info);
    assert_eq!(info.status, Status::OK);
    assert_eq!(nv, vec![0, 2, 1]);
    assert_eq!(next, vec![1, 2, 0]);
    assert_eq!(last, vec![2, 0, 1]);
    assert_eq!(e_len, vec![-1, 2, 2]);
    assert_eq!(pe, vec![1, EMPTY, 1]);
    assert_eq!(info.lnz, 2);
    assert_eq!(info.n_div, 2);
    assert_eq!(info.n_mult_subs_lu, 2);
    assert_eq!(info.n_mult_subs_ldl, 2);
    assert_eq!(info.d_max, 2);
    assert_eq!(info.n_dense, 0);
    assert_eq!(info.n_cmp_a, 0);
}

#[test]
fn amd_orders_a_star_and_its_dense_centre_last() {
    // centre 0 joined to 1..=19: row 0 has 19 > 16 entries, so it is dense
    // for the threshold 16
    let n: i32 = 20;
    let mut pe = vec![0; 20];
    let mut len = vec![0; 20];
    let mut iw: Vec<i32> = Vec::new();
    pe[0] = 0;
    len[0] = 19;
    for j in 1..20 {
        iw.push(j);
    }
    for j in 1..20usize {
        pe[j] = iw.len() as i32;
        len[j] = 1;
        iw.push(0);
    }
    let pfree = iw.len() as i32;
    let iwlen = pfree + 2 * n;
    iw.resize(iwlen as usize, 0);
    let mut info = blank_info();
    let (_nv, next, last, _e_len) = amd_2(n, &mut pe, &mut iw, &mut len, iwlen, pfree, 16, true, &mut info);
    assert_eq!(info.status, Status::OK);
    assert_eq!(info.n_dense, 1);
    assert!(is_inverse_perm(&next, &last, 20));
    assert_eq!(next[0], 19);
    assert_eq!(last[19], 0);
}

#[test]
fn amd_orders_a_cycle_without_aggressive_absorption() {
    // 0 - 1 - 2 - 3 - 4 - 0
    let n: i32 = 5;
    let mut iw: Vec<i32> = Vec::new();
    let mut pe = vec![0; 5];
    let mut len = vec![2; 5];
    for i in 0..5 {
        pe[i as usize] = iw.len() as i32;
        iw.push((i + 4) % 5);
        iw.push((i + 1) % 5);
    }
    let pfree = iw.len() as i32;
    let iwlen = pfree + 2 * n;
    iw.resize(iwlen as usize, 0);
    let mut info = blank_info();
    let (_nv, next, last, _e_len) = amd_2(n, &mut pe, &mut iw, &mut len, iwlen, pfree, 10, false, &mut info);
    assert_eq!(info.status, Status::OK);
    assert!(is_inverse_perm(&next, &last, 5));
}

#[test]
fn amd_refuses_a_row_outside_iw() {
    let n = 2;
    let mut pe = vec![0, 50];
    let mut len = vec![1, 1];
    let mut iw = vec![1, 0, 0, 0, 0, 0];
    let mut info = blank_info();
    let (nv, next, last, e_len) = amd_2(n, &mut pe, &mut iw, &mut len, 6, 2, 10, true, &mut info);
    assert_eq!(info.status, Status::Invalid);
    assert!(nv.is_empty() && next.is_empty() && last.is_empty() && e_len.is_empty());
}

#[test]
fn amd_puts_a_dense_row_after_the_empty_ones() {
    // row 0 holds 1..=19 (19 > 16 entries: dense); the other rows are empty
    let n: i32 = 20;
    let mut pe = vec![19; 20];
    let mut len = vec![0; 20];
    let mut iw: Vec<i32> = (1..20).collect();
    pe[0] = 0;
    len[0] = 19;
    let pfree = iw.len() as i32;
    let iwlen = pfree + n;
    iw.resize(iwlen as usize, 0);
    let mut info = blank_info();
    let (nv, next, last, e_len) = amd_2(n, &mut pe, &mut iw, &mut len, iwlen, pfree, 10, true, &mut info);
    assert_eq!(info.status, Status::OK);
    assert_eq!(info.n_dense, 1);
    assert_eq!(next[0], 19);
    for i in 1..20usize {
        assert_eq!(next[i], i as i32 - 1);
        assert_eq!(last[i - 1], i as i32);
        assert_eq!(nv[i], 1);
        assert_eq!(e_len[i], 1);
    }
    assert_eq!(nv[0], 0);
    assert_eq!(e_len[0], EMPTY);
    assert_eq!(pe, vec![EMPTY; 20]);
}

#[test]
fn permutation_numbers_blocks_in_postorder() {
    // elements 3 (first, 2 variables: 0 and 3) and 1 (second, 3 variables:
    // 2, 4 and 1); 5 has no element
    let pe = vec![3, EMPTY, 1, EMPTY, 1, EMPTY];
    let nv = vec![0, 3, 0, 2, 0, 0];
    let order = vec![EMPTY, 1, EMPTY, 0, EMPTY, EMPTY];
    let (next, last) = permutation_from_order(6, &pe, &nv, &order).unwrap();
    assert_eq!(next, vec![0, 4, 2, 1, 3, 5]);
    assert_eq!(last, vec![0, 3, 2, 4, 1, 5]);
}

#[test]
fn permutation_refuses_an_element_missing_from_the_postorder() {
    // element 1 has no position, so it gets no number
    let pe = vec![EMPTY, EMPTY];
    let nv = vec![1, 1];
    let order = vec![0, EMPTY];
    assert!(permutation_from_order(2, &pe, &nv, &order).is_none());
}

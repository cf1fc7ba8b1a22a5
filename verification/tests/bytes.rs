use tetris::built_in::{byte_to_usize_vec, usize_vec_to_byte};

fn le(values: &[usize]) -> Vec<u8> {
    values.iter().flat_map(|v| (*v as u64).to_le_bytes()).collect()
}

#[test]
fn bytes_read_row_by_row() {
    let bytes = le(&[1, 2, 3, 4, 5, 6]);
    assert_eq!(byte_to_usize_vec(&bytes, 2), vec![vec![1, 2], vec![3, 4], vec![5, 6]]);
    assert_eq!(byte_to_usize_vec(&bytes, 3), vec![vec![1, 2, 3], vec![4, 5, 6]]);
}

#[test]
fn leftover_bytes_are_ignored() {
    let mut bytes = le(&[7, 8, 9]);
    bytes.push(0xff);
    assert_eq!(byte_to_usize_vec(&bytes, 2), vec![vec![7, 8]]);
    assert_eq!(byte_to_usize_vec(&bytes, 4), Vec::<Vec<usize>>::new());
}

#[test]
fn bytes_are_least_significant_first() {
    let bytes = vec![0x01, 0x02, 0, 0, 0, 0, 0, 0x80];
    assert_eq!(byte_to_usize_vec(&bytes, 1), vec![vec![0x8000_0000_0000_0201usize]]);
}

#[test]
fn empty_grid_has_no_bytes() {
    assert_eq!(usize_vec_to_byte(&Vec::new()), None);
}

#[test]
fn grid_to_bytes_in_machine_order() {
    let grid = vec![vec![1usize, 256], vec![], vec![usize::MAX]];
    let expected: Vec<u8> = [1usize, 256, usize::MAX].iter().flat_map(|v| v.to_ne_bytes()).collect();
    assert_eq!(usize_vec_to_byte(&grid), Some(expected));
    assert_eq!(usize_vec_to_byte(&vec![vec![]]), Some(vec![]));
}

#[test]
fn bytes_round_trip_on_this_machine() {
    let grid = vec![vec![0usize; 10]; 20];
    let mut g = grid.clone();
    g[3][4] = 7;
    g[19][9] = 12345678901;
    let bytes = usize_vec_to_byte(&g).unwrap();
    if 1u16.to_ne_bytes()[0] == 1 {
        assert_eq!(byte_to_usize_vec(&bytes, 10), g);
    }
}

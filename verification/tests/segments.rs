use tsp::exchange;

// `exchange(path, a, b, c)` swaps the blocks at positions `a+1 ..= b` and
// `b+1 ..= c`, keeping the order inside each block.

#[test]
fn exchange_blocks_of_equal_length() {
    let mut v: Vec<usize> = vec![0, 1, 2, 3, 4];
    exchange(&mut v, 0, 2, 4);
    assert_eq!(v, vec![0, 3, 4, 1, 2]);
}

#[test]
fn exchange_shorter_first_block() {
    // blocks [1] and [2, 3, 4]
    let mut v: Vec<usize> = vec![9, 1, 2, 3, 4, 6];
    exchange(&mut v, 0, 1, 4);
    assert_eq!(v, vec![9, 2, 3, 4, 1, 6]);
}

#[test]
fn exchange_longer_first_block() {
    // blocks [1, 2, 3] and [4]
    let mut v: Vec<usize> = vec![9, 1, 2, 3, 4, 6];
    exchange(&mut v, 0, 3, 4);
    assert_eq!(v, vec![9, 4, 1, 2, 3, 6]);
}

#[test]
fn exchange_concatenation_shape() {
    // v1 = [9], v2 = [1, 2], v3 = [3, 4, 5], v4 = [6]:
    // v1 v2 v3 v4 becomes v1 v3 v2 v4
    let mut v: Vec<usize> = vec![9, 1, 2, 3, 4, 5, 6];
    exchange(&mut v, 0, 2, 5);
    assert_eq!(v, vec![9, 3, 4, 5, 1, 2, 6]);
}

#[test]
fn exchange_empty_block_is_a_no_op() {
    let mut v: Vec<usize> = vec![0, 1, 2, 3];
    exchange(&mut v, 2, 2, 3);
    assert_eq!(v, vec![0, 1, 2, 3]);
    exchange(&mut v, 1, 3, 3);
    assert_eq!(v, vec![0, 1, 2, 3]);
}

#[test]
fn exchange_whole_remainder() {
    // blocks cover everything after position 0
    let mut v: Vec<usize> = vec![5, 6, 7, 8];
    exchange(&mut v, 0, 1, 3);
    assert_eq!(v, vec![5, 7, 8, 6]);
}

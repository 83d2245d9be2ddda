use conway_piston::partition::{plan, Block};

fn ranges(blocks: &Vec<Block>) -> Vec<(usize, usize, usize)> {
    blocks.iter().map(|b| (b.index, b.row_start, b.row_end_exclusive)).collect()
}

#[test]
fn plan_gives_the_remainder_to_the_last_block() {
    assert_eq!(vec![(0, 0, 3), (1, 3, 6), (2, 6, 10)], ranges(&plan(10, 3)));
}

#[test]
fn plan_with_more_workers_than_rows_has_empty_blocks() {
    let blocks = plan(10, 15);
    assert_eq!(15, blocks.len());
    let empty = blocks.iter().filter(|b| b.row_start == b.row_end_exclusive).count();
    assert!(empty >= 5);
    assert_eq!(14, empty);
    assert_eq!((14, 0, 10), ranges(&blocks)[14]);
    let mut covered = vec![0; 10];
    for block in &blocks {
        for row in block.row_start..block.row_end_exclusive {
            covered[row] += 1;
        }
    }
    assert_eq!(vec![1; 10], covered);
}

#[test]
fn plan_with_one_worker_is_one_block() {
    assert_eq!(vec![(0, 0, 150)], ranges(&plan(150, 1)));
}

#[test]
fn plan_divides_evenly_where_it_can() {
    assert_eq!(vec![(0, 0, 3), (1, 3, 6), (2, 6, 9), (3, 9, 12)], ranges(&plan(12, 4)));
}

#[test]
fn plan_of_no_rows_is_all_empty() {
    assert_eq!(vec![(0, 0, 0), (1, 0, 0), (2, 0, 0)], ranges(&plan(0, 3)));
}

#[test]
fn plan_tiles_the_rows() {
    for height in 0..40usize {
        for workers in 1..12usize {
            let blocks = plan(height, workers);
            assert_eq!(workers, blocks.len());
            let mut next_start = 0;
            for (i, block) in blocks.iter().enumerate() {
                assert_eq!(i, block.index);
                assert_eq!(next_start, block.row_start);
                assert!(block.row_start <= block.row_end_exclusive);
                if i + 1 < workers {
                    assert_eq!(height / workers, block.row_end_exclusive - block.row_start);
                }
                next_start = block.row_end_exclusive;
            }
            assert_eq!(height, next_start);
        }
    }
}

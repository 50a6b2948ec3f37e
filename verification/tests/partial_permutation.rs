use itertools::Itertools;
use kon_rs::algorithm::PartialPermutation;

#[test]
fn partial_permutation_simple() {
    let mut v = vec![0];
    v.swap_remove(0);

    // every arrangement of four positions, in order
    let mut partial_permutation = PartialPermutation::new(4, 0);
    let mut result = vec![partial_permutation.current().to_vec()];
    while let Some(permutation) = partial_permutation.next() {
        result.push(permutation.current().to_vec());
        partial_permutation = permutation;
    }

    // the enumeration is complete: an outside crate agrees
    let permutations = (0..4usize).permutations(4);
    itertools::assert_equal(permutations, result);
}

#[test]
fn simple_3() {
    let p0 = PartialPermutation::new(3, 0);
    assert!(p0.current() == [0, 1, 2]);

    let Some(p1) = p0.next() else {
        panic!();
    };
    assert!(p1.current() == [0, 2, 1]);

    let Some(p2) = p1.next() else {
        panic!();
    };
    assert!(p2.current() == [1, 0, 2]);

    let Some(p3) = p2.next() else {
        panic!();
    };
    assert!(p3.current() == [1, 2, 0]);

    let Some(p4) = p3.next() else {
        panic!();
    };
    assert!(p4.current() == [2, 0, 1]);

    let Some(p5) = p4.next() else {
        panic!();
    };
    assert!(p5.current() == [2, 1, 0]);
}

#[test]
fn last() {
    let partial_permutation = PartialPermutation::new(4, 1);

    let last = partial_permutation.last();
    itertools::assert_equal(last.current().iter().copied(), vec![0usize, 3, 2, 1]);
}

#[test]
fn next_nothing() {
    let partial_permutation = PartialPermutation::new(1, 0);
    let next = partial_permutation.next();
    assert!(next.is_none());
}

#[test]
fn next_part() {
    let partial_permutation = PartialPermutation::new(4, 1);

    let next_part = partial_permutation.next_part().unwrap();
    itertools::assert_equal(next_part.current().iter().copied(), vec![1usize, 0, 2, 3]);
}

#[test]
fn next_part_not_found() {
    let partial_permutation = PartialPermutation::new(4, 1);

    let next_part = partial_permutation.next_part().unwrap();
    let next_part = next_part.next_part().unwrap();
    let next_part = next_part.next_part().unwrap();

    assert!(next_part.next_part().is_none());
}

#[test]
fn later() {
    let partial_permutation = PartialPermutation::new(4, 1);

    let next_part = partial_permutation.next_part().unwrap();

    // the later of the two comes back, whichever side it stands on
    let Some(later) = next_part.later(partial_permutation) else {
        panic!();
    };
    itertools::assert_equal(vec![1usize, 0, 2, 3], later.current().iter().copied());
    itertools::assert_equal(vec![1usize, 0, 2, 3], next_part.current().iter().copied());
}

#[test]
fn later_equal_is_none() {
    let a = PartialPermutation::new(4, 1);
    let b = PartialPermutation::new(4, 1);
    assert!(a.later(b).is_none());
}

#[test]
fn later_changed() {
    let partial_permutation = PartialPermutation::new(4, 1);

    let next_part = partial_permutation.next_part().unwrap();

    let Some(later) = partial_permutation.later(next_part) else {
        panic!();
    };
    itertools::assert_equal(vec![1usize, 0, 2, 3], later.current().iter().copied());
}

#[test]
fn concat_parallel() {
    let mut partial_permutation = PartialPermutation::new(4, 1);

    let mut result = vec![partial_permutation.current().to_vec()];
    loop {
        while let Some(permutation) = partial_permutation.next() {
            result.push(permutation.current().to_vec());

            partial_permutation = permutation;
        }

        let Some(next_partial) = partial_permutation.next_part() else {
            break;
        };

        result.push(next_partial.current().to_vec());
        partial_permutation = next_partial;
    }

    let permutations = (0..4usize).permutations(4);
    itertools::assert_equal(permutations, result);
}

#[test]
fn skip() {
    let partial_permutation = PartialPermutation::new(4, 1);

    itertools::assert_equal(vec![0usize, 1, 2, 3], partial_permutation.current().iter().copied());

    let skip_partial_permutation = partial_permutation.skip(1);
    itertools::assert_equal(
        vec![0usize, 3, 2, 1],
        skip_partial_permutation.current().iter().copied(),
    );

    let skip_partial_permutation = skip_partial_permutation.skip(0);
    itertools::assert_equal(
        vec![3usize, 2, 1, 0],
        skip_partial_permutation.current().iter().copied(),
    );
    assert!(skip_partial_permutation.next().is_none());
}

#[test]
fn skip_then_next_leaves_prefix() {
    // after skip(1) the next arrangement must change the first position
    let p = PartialPermutation::new(4, 0);
    let p = p.next().unwrap();
    assert!(p.current() == [0, 1, 3, 2]);
    let skipped = p.skip(1);
    assert!(skipped.current() == [0, 3, 2, 1]);
    let after = skipped.next().unwrap();
    assert!(after.current()[0] != 0);
    assert!(after.current() == [1, 0, 2, 3]);
}

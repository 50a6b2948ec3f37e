use kon_rs::algorithm::{traverse_all, traverse_all_with_callback, ITreeCallback, TraverseOperation};

#[test]
fn traverse_with_callback() {
    let mut result: Vec<Vec<i32>> = Vec::default();
    let mut data = vec![0, 1, 2];
    traverse_all_with_callback(&mut data, |data: &[i32]| {
        result.push(data.to_vec());
    });

    assert_eq!(result[0], vec![0, 1, 2]);
    assert_eq!(result[1], vec![0, 2, 1]);
    assert_eq!(result[2], vec![1, 0, 2]);
    assert_eq!(result[3], vec![1, 2, 0]);
    assert_eq!(result[4], vec![2, 0, 1]);
    assert_eq!(result[5], vec![2, 1, 0]);
}

#[derive(Default)]
struct Traverse {
    data: Vec<Vec<i32>>,
}

impl ITreeCallback for Traverse {
    fn invoke(&mut self, indicies: &[i32]) -> TraverseOperation {
        self.data.push(indicies.to_vec());
        TraverseOperation::Next
    }
}

#[test]
fn traverse_with_object() {
    let mut traverse = Traverse::default();
    let mut data = vec![0, 1, 2];
    traverse_all(&mut data, &mut traverse);

    assert_eq!(traverse.data[0], vec![0, 1, 2]);
    assert_eq!(traverse.data[1], vec![0, 2, 1]);
    assert_eq!(traverse.data[2], vec![1, 0, 2]);
    assert_eq!(traverse.data[3], vec![1, 2, 0]);
    assert_eq!(traverse.data[4], vec![2, 0, 1]);
    assert_eq!(traverse.data[5], vec![2, 1, 0]);
}

#[derive(Default)]
struct TraversePartial {
    data: Vec<Vec<i32>>,
}

impl ITreeCallback for TraversePartial {
    fn invoke(&mut self, indicies: &[i32]) -> TraverseOperation {
        self.data.push(indicies.to_vec());
        TraverseOperation::Skip(0)
    }
}

#[test]
fn traverse_partial() {
    let mut traverse = TraversePartial::default();
    let mut data = vec![0, 2, 1, 3];
    traverse_all(&mut data, &mut traverse);

    assert_eq!(traverse.data[0], vec![0, 2, 1, 3]);
    assert_eq!(traverse.data[1], vec![1, 0, 2, 3]);
    assert_eq!(traverse.data[2], vec![2, 0, 1, 3]);
    assert_eq!(traverse.data[3], vec![3, 0, 1, 2]);
}

#[test]
fn traverse_skip() {
    let mut traverse = TraversePartial::default();
    let mut data = vec![0, 1, 2, 3];
    traverse_all(&mut data, &mut traverse);

    assert_eq!(traverse.data[0], vec![0, 1, 2, 3]);
    assert_eq!(traverse.data[1], vec![1, 0, 2, 3]);
    assert_eq!(traverse.data[2], vec![2, 0, 1, 3]);
    assert_eq!(traverse.data[3], vec![3, 0, 1, 2]);
    assert_eq!(traverse.data.len(), 4);
}

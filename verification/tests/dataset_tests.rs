use handcrafted::dataset::{LmBatcher, LmDataset, LmItem};
use handcrafted::tokenizer::Tokenizer;

#[test]
fn sliding_windows_of_corpus() {
    let corpus = "the robot sat on the computer and built a transformer";
    let tokenizer = Tokenizer::build_from_text(corpus);
    let ds = LmDataset::new(corpus, &tokenizer, 3);
    assert_eq!(ds.len(), 7);
    let first = ds.get(0).unwrap();
    assert_eq!(tokenizer.decode(&first.input), "the robot sat");
    assert_eq!(tokenizer.decode(&first.target), "robot sat on");
    let last = ds.get(6).unwrap();
    assert_eq!(tokenizer.decode(&last.input), "and built a");
    assert_eq!(tokenizer.decode(&last.target), "built a transformer");
    assert!(ds.get(7).is_none());
}

#[test]
fn windows_of_tokens() {
    let ds = LmDataset::from_tokens(&vec![10, 11, 12, 13], 3);
    assert_eq!(ds.len(), 1);
    assert_eq!(ds.items[0].input, vec![10, 11, 12]);
    assert_eq!(ds.items[0].target, vec![11, 12, 13]);
}

#[test]
fn too_few_tokens_give_no_windows() {
    assert_eq!(LmDataset::from_tokens(&vec![1, 2, 3], 3).len(), 0);
    assert_eq!(LmDataset::from_tokens(&vec![], 0).len(), 0);
}

#[test]
fn zero_length_windows() {
    let ds = LmDataset::from_tokens(&vec![5, 6], 0);
    assert_eq!(ds.len(), 2);
    assert!(ds.items[1].input.is_empty());
    assert!(ds.items[1].target.is_empty());
}

#[test]
fn consecutive_cards_shift_by_one() {
    let ds = LmDataset::from_tokens(&vec![1, 2, 3, 4, 5, 6], 2);
    for i in 0..ds.len() - 1 {
        assert_eq!(ds.items[i + 1].input, ds.items[i].target);
    }
}

#[test]
fn batch_is_row_major() {
    let items = vec![
        LmItem { input: vec![1, 2, 3], target: vec![2, 3, 4] },
        LmItem { input: vec![7, 8, 9], target: vec![8, 9, 10] },
    ];
    let b = LmBatcher.flatten(&items);
    assert_eq!(b.batch_size, 2);
    assert_eq!(b.seq_len, 3);
    assert_eq!(b.input, vec![1, 2, 3, 7, 8, 9]);
    assert_eq!(b.target, vec![2, 3, 4, 8, 9, 10]);
}

#[test]
fn batch_ids_convert_like_as_i32() {
    let items = vec![LmItem { input: vec![usize::MAX], target: vec![1usize << 31] }];
    let b = LmBatcher.flatten(&items);
    assert_eq!(b.input, vec![-1]);
    assert_eq!(b.target, vec![i32::MIN]);
}

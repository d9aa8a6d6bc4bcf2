use huffman::freq::{chars, Freqs};
use huffman::tree::{mk, Tree};

fn abcd() -> Freqs<char> {
    let mut freqs = Freqs::new();
    freqs.add(&'a', 40);
    freqs.add(&'b', 35);
    freqs.add(&'c', 20);
    freqs.add(&'d', 5);
    freqs
}

#[test]
fn mk_works() {
    let freqs = abcd();
    let tree = mk(&freqs);

    assert_eq!(tree.freq(), 100);

    // 1 bit => most frequent
    assert_eq!(tree.l().and_then(|n| n.data()), Some('a'));
    assert_eq!(tree.l().map(|n| n.freq()), Some(40));
    assert_eq!(tree.r().map(|n| n.freq()), Some(60));

    // 2 bits => 2nd most frequent
    assert_eq!(tree.r().and_then(|t| t.r()).and_then(|t| t.data()), Some('b'));
    assert_eq!(tree.r().and_then(|t| t.r()).map(|t| t.freq()), Some(35));

    // 3 bits => the least frequent
    assert_eq!(
        tree.r().and_then(|t| t.l()).and_then(|t| t.r()).and_then(|t| t.data()),
        Some('c')
    );
    assert_eq!(tree.r().and_then(|t| t.l()).and_then(|t| t.r()).map(|t| t.freq()), Some(20));
    assert_eq!(
        tree.r().and_then(|t| t.l()).and_then(|t| t.l()).and_then(|t| t.data()),
        Some('d')
    );
    assert_eq!(tree.r().and_then(|t| t.l()).and_then(|t| t.l()).map(|t| t.freq()), Some(5));
}

fn leaf_sum(t: &Tree<char>) -> u64 {
    match t {
        Tree::Empty => 0,
        Tree::Leaf { freq, .. } => *freq,
        Tree::Fork { children, .. } => leaf_sum(&children.0) + leaf_sum(&children.1),
    }
}

fn forks_add_up(t: &Tree<char>) -> bool {
    match t {
        Tree::Fork { freq, children } => {
            *freq == children.0.freq() + children.1.freq() && forks_add_up(&children.0) && forks_add_up(&children.1)
        }
        _ => true,
    }
}

#[test]
fn root_frequency_is_corpus_size() {
    let lines: Vec<String> = vec!["Hello, world!".to_string(), "hello, folks!".to_string()];
    let tree = mk(&chars(&lines));
    assert_eq!(tree.freq(), 26);
    assert_eq!(leaf_sum(&tree), 26);
    assert!(forks_add_up(&tree));
}

#[test]
fn empty_map_gives_empty_tree() {
    let freqs: Freqs<char> = Freqs::new();
    let tree = mk(&freqs);
    assert_eq!(tree, Tree::Empty);
    assert_eq!(tree.freq(), 0);
    assert_eq!(tree.data(), None);
    assert!(tree.l().is_none());
    assert!(tree.r().is_none());
}

#[test]
fn single_symbol_gives_bare_leaf() {
    let lines = vec!["aaaa".to_string()];
    let freqs = chars(&lines);
    assert_eq!(freqs.len(), 1);
    assert_eq!(freqs.get(&'a'), Some(4));
    let tree = mk(&freqs);
    assert_eq!(tree, Tree::Leaf { freq: 4, data: 'a' });
}

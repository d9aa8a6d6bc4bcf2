use huffman::progress::{Op, Progress};

#[test]
fn bars_fill_both_ways() {
    assert_eq!(Op::LR.apply((3, 5), ('<', '>')), "<***  >");
    assert_eq!(Op::RL.apply((3, 5), ('<', '>')), "<**   >");
    assert_eq!(Op::LR.apply((0, 0), ('[', ']')), "[]");
    assert_eq!(Op::LR.apply((4, 4), ('{', '}')), "{****}");
}

#[test]
fn steps_count_and_flip() {
    let v = vec![1, 2, 3];
    let mut p = Progress::<_, ()>::new(v.iter());
    assert_eq!(p.step(), "");
    assert_eq!(p.step(), "*");
    assert_eq!(p.i, 2);
    let mut b = Progress::<_, ()>::new(v.iter()).bounded(v.len()).with_delim(('[', ']'));
    assert_eq!(b.step(), "[   ]");
    assert_eq!(b.step(), "[*  ]");
    assert_eq!(b.step_back(), "[*  ]");
    assert_eq!(b.bound.dir, Op::RL);
    assert_eq!(b.step(), "[   ]");
}

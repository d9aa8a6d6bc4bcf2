use bit_vec::BitVec;
use huffman::bits::{bits_from, bools_of};
use huffman::codec::Enc;
use huffman::freq::{chars, Freqs};
use huffman::tree::mk;

fn bit_vec(s: &str) -> BitVec {
    let mut bv = BitVec::new();
    for c in s.chars() {
        match c {
            '0' => bv.push(false),
            '1' => bv.push(true),
            _ => {}
        }
    }
    bv
}

fn abcd() -> Freqs<char> {
    let mut freqs = Freqs::new();
    freqs.add(&'a', 40);
    freqs.add(&'b', 35);
    freqs.add(&'c', 20);
    freqs.add(&'d', 5);
    freqs
}

fn is_prefix(a: &BitVec, b: &BitVec) -> bool {
    a.len() <= b.len() && (0..a.len()).all(|i| a.get(i) == b.get(i))
}

#[test]
fn encoder_works() {
    let tree = mk(&abcd());
    let enc = tree.encoder();

    assert_eq!(tree.freq(), 100);
    assert_eq!(enc.get(&'a'), Some(&bit_vec("0")));
    assert_eq!(enc.get(&'b'), Some(&bit_vec("11")));
    assert_eq!(enc.get(&'c'), Some(&bit_vec("101")));
    assert_eq!(enc.get(&'d'), Some(&bit_vec("100")));
}

#[test]
fn decoder_works() {
    let tree = mk(&abcd());
    let dec = tree.encoder().iso();

    assert_eq!(tree.freq(), 100);
    assert_eq!(dec.get(&bit_vec("0")), Some(&'a'));
    assert_eq!(dec.get(&bit_vec("11")), Some(&'b'));
    assert_eq!(dec.get(&bit_vec("101")), Some(&'c'));
    assert_eq!(dec.get(&bit_vec("100")), Some(&'d'));
    assert_eq!(dec.get(&bit_vec("1")), None);
    assert_eq!(dec.get(&bit_vec("")), None);
}

#[test]
fn code_lengths_follow_frequencies() {
    let enc = mk(&abcd()).encoder();
    assert_eq!(enc.get(&'a').map(|b| b.len()), Some(1));
    assert_eq!(enc.get(&'b').map(|b| b.len()), Some(2));
    assert_eq!(enc.get(&'c').map(|b| b.len()), Some(3));
    assert_eq!(enc.get(&'d').map(|b| b.len()), Some(3));
    assert_eq!(enc.get(&'e'), None);
}

#[test]
fn codes_are_prefix_free() {
    let lines: Vec<String> = vec!["Hello, world!", "hello, folks!", "hello, world!", "hello there!"]
        .into_iter()
        .map(|x| x.to_string())
        .collect();
    let enc = mk(&chars(&lines)).encoder();
    let n = enc.len();
    assert_eq!(n, 15);
    for i in 0..n {
        for j in 0..n {
            if i != j {
                assert!(!is_prefix(&enc.codes[i], &enc.codes[j]));
                assert!(enc.keys[i] != enc.keys[j]);
            }
        }
    }
}

#[test]
fn more_frequent_symbols_get_codes_no_longer() {
    let lines: Vec<String> = vec!["Hello, world!", "hello, folks!", "hello, world!", "hello there!"]
        .into_iter()
        .map(|x| x.to_string())
        .collect();
    let freqs = chars(&lines);
    let enc = mk(&freqs).encoder();
    for i in 0..freqs.len() {
        for j in 0..freqs.len() {
            let (a, fa) = freqs.entry(i);
            let (b, fb) = freqs.entry(j);
            if fa > fb {
                assert!(enc.get(a).unwrap().len() <= enc.get(b).unwrap().len());
            }
        }
    }
}

#[test]
fn single_symbol_gets_one_bit_code() {
    let freqs = chars(&vec!["aaaa".to_string()]);
    let enc = mk(&freqs).encoder();
    assert_eq!(enc.len(), 1);
    assert_eq!(enc.get(&'a'), Some(&bit_vec("0")));
    assert_eq!(enc.iso().get(&bit_vec("0")), Some(&'a'));
}

#[test]
fn bits_pass_through_bools() {
    let v = vec![true, false, false, true, true];
    let b = bits_from(&v);
    assert_eq!(b, bit_vec("10011"));
    assert_eq!(bools_of(&b), v);
    assert!(bools_of(&bits_from(&vec![])).is_empty());
    let long: Vec<bool> = (0..70).map(|i| i % 3 == 0).collect();
    assert_eq!(bools_of(&bits_from(&long)), long);
}

#[test]
fn encoder_from_entries_checks_the_table() {
    let codes = vec![vec![false], vec![true, true], vec![true, false]];
    let enc = Enc::from_entries(vec!['a', 'b', 'c'], &codes).unwrap();
    assert_eq!(enc.get(&'b'), Some(&bit_vec("11")));
    let dec = enc.iso();
    assert_eq!(dec.decode(&bit_vec("01110")), Some(vec!['a', 'b', 'c']));
    assert!(Enc::from_entries(vec!['a', 'a', 'c'], &codes).is_none());
    assert!(Enc::from_entries(vec!['a', 'b'], &codes).is_none());
    assert!(Enc::from_entries(vec!['a', 'b'], &vec![vec![true], vec![true, false]]).is_none());
    assert!(Enc::from_entries(vec!['a', 'b'], &vec![vec![], vec![true]]).is_none());
    assert!(Enc::from_entries(Vec::<char>::new(), &vec![]).is_some());
}

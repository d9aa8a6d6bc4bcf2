use huffman::freq::{chars, count, words, Freqs};
use huffman::symbol::{Chars, Tokenizer, Words};

fn lines_of(v: &[&str]) -> Vec<String> {
    v.iter().map(|x| x.to_string()).collect()
}

#[test]
fn freq_of_chars_works() {
    let input = lines_of(&["this is an epic chap", "you can not escape getting rusty"]);
    let counts = chars(&input);
    assert_eq!(counts.get(&' '), Some(9));
    assert_eq!(counts.get(&'a'), Some(4));
    assert_eq!(counts.get(&'e'), Some(4));
    assert_eq!(counts.get(&'g'), Some(2));
}

#[test]
fn freq_of_words_works() {
    let input = lines_of(&["this is an epic rusty boy", "you can not escape getting rusty"]);
    let counts = words(&input);
    assert_eq!(counts.get(&"this".to_string()), Some(1));
    assert_eq!(counts.get(&"getting".to_string()), Some(1));
    assert_eq!(counts.get(&"rusty".to_string()), Some(2));
    assert_eq!(counts.get(&"absent".to_string()), None);
}

#[test]
fn parallel_and_sequential_counts_agree() {
    let input = lines_of(&["Hello, world!", "hello, folks!", "hello, world!", "hello there!"]);
    let par = chars(&input);
    let seq = count(&Chars, &input);
    assert_eq!(par.len(), seq.len());
    for i in 0..seq.len() {
        let (c, n) = seq.entry(i);
        assert_eq!(par.get(c), Some(n));
    }
}

#[test]
fn counts_of_split_lines_merge_to_the_whole() {
    let input = lines_of(&["abracadabra", "banana", "cabbage", "", "zebra"]);
    let whole = count(&Chars, &input);
    for cut in 0..=input.len() {
        let left = count(&Chars, &input[..cut].to_vec());
        let right = count(&Chars, &input[cut..].to_vec());
        let merged = right.merge(&left);
        assert_eq!(merged.len(), whole.len());
        for i in 0..whole.len() {
            let (c, n) = whole.entry(i);
            assert_eq!(merged.get(c), Some(n));
        }
    }
}

#[test]
fn empty_corpus_gives_empty_map() {
    let input: Vec<String> = Vec::new();
    assert_eq!(chars(&input).len(), 0);
    assert_eq!(words(&input).len(), 0);
}

#[test]
fn add_accumulates_counts() {
    let mut f: Freqs<char> = Freqs::new();
    f.add(&'x', 3);
    f.add(&'y', 1);
    f.add(&'x', 2);
    assert_eq!(f.len(), 2);
    assert_eq!(f.get(&'x'), Some(5));
    assert_eq!(f.get(&'y'), Some(1));
    assert_eq!(f.get(&'z'), None);
}

#[test]
fn words_split_on_ascii_whitespace() {
    let w = Words.tokenize("  one\ttwo  three\nfour\r\x0Cfive ");
    assert_eq!(w, vec!["one", "two", "three", "four", "five"]);
    assert!(Words.tokenize("   ").is_empty());
    assert_eq!(Words.tokenize("single"), vec!["single"]);
}

#[test]
fn chars_keep_every_character() {
    assert_eq!(Chars.tokenize("a b\u{e9}"), vec!['a', ' ', 'b', '\u{e9}']);
    assert!(Chars.tokenize("").is_empty());
}

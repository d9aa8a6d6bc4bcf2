use bit_vec::BitVec;
use huffman::compress::{encode_line, EncodeError, Payload};
use huffman::freq::chars;
use huffman::symbol::{Chars, Tokenizer, Words};
use huffman::tree::mk;

fn hello() -> Vec<String> {
    vec!["Hello, world!", "hello, folks!", "hello, world!", "hello there!"]
        .into_iter()
        .map(|x| x.to_string())
        .collect()
}

#[test]
fn compress_hello_lines() {
    let lines = hello();
    let counts = chars(&lines);
    let l = counts.get(&'l').unwrap();
    for i in 0..counts.len() {
        let (c, n) = counts.entry(i);
        if *c != 'l' {
            assert!(n < l);
        }
    }
    let payload = Payload::compress(&Chars, &lines).unwrap();
    assert_eq!(payload.data.len(), 4);
    for (bits, line) in payload.data.iter().zip(lines.iter()) {
        assert!(bits.len() < 8 * line.chars().count());
        assert!(bits.len() > 0);
    }
}

#[test]
fn payload_round_trips_chars() {
    let lines = hello();
    let payload = Payload::compress(&Chars, &lines).unwrap();
    let dec = payload.codec.iso();
    for (bits, line) in payload.data.iter().zip(lines.iter()) {
        assert_eq!(dec.decode(bits), Some(line.chars().collect::<Vec<char>>()));
    }
}

#[test]
fn payload_round_trips_words() {
    let lines: Vec<String> = vec!["the cat sat", "on the mat", "", "the end"]
        .into_iter()
        .map(|x| x.to_string())
        .collect();
    let payload = Payload::compress(&Words, &lines).unwrap();
    assert_eq!(payload.data.len(), 4);
    assert_eq!(payload.data[2].len(), 0);
    let dec = payload.codec.iso();
    for (bits, line) in payload.data.iter().zip(lines.iter()) {
        assert_eq!(dec.decode(bits), Some(Words.tokenize(line)));
    }
}

#[test]
fn empty_corpus_gives_empty_payload() {
    let lines: Vec<String> = Vec::new();
    let payload = Payload::compress(&Chars, &lines).unwrap();
    assert_eq!(payload.codec.len(), 0);
    assert!(payload.data.is_empty());
}

#[test]
fn single_repeated_character() {
    let lines = vec!["aaaa".to_string()];
    let payload = Payload::compress(&Chars, &lines).unwrap();
    assert_eq!(payload.codec.len(), 1);
    assert_eq!(payload.data.len(), 1);
    assert_eq!(payload.data[0].len(), 4);
    assert!(payload.data[0].iter().all(|b| !b));
    let dec = payload.codec.iso();
    assert_eq!(dec.decode(&payload.data[0]), Some(vec!['a'; 4]));
}

#[test]
fn encode_line_concatenates_codes() {
    let lines = vec!["aab".to_string(), "abc".to_string()];
    let enc = mk(&chars(&lines)).encoder();
    let bits = encode_line(&enc, &vec!['a', 'b', 'c']).unwrap();
    let mut expected = BitVec::new();
    for c in ['a', 'b', 'c'] {
        expected.extend(enc.get(&c).unwrap().iter());
    }
    assert_eq!(bits, expected);
    assert_eq!(bits.len(), 5);
    assert!(encode_line(&enc, &Vec::new()).unwrap().is_empty());
}

#[test]
fn encode_line_rejects_unknown_symbol() {
    let lines = vec!["aab".to_string()];
    let enc = mk(&chars(&lines)).encoder();
    assert_eq!(encode_line(&enc, &vec!['a', 'z']), Err(EncodeError::UnknownSymbol));
}

#[test]
fn decode_rejects_bits_that_no_code_starts() {
    let lines = vec!["aaab".to_string(), "c".to_string()];
    let enc = mk(&chars(&lines)).encoder();
    let dec = enc.iso();
    assert_eq!(enc.get(&'a').map(|b| b.len()), Some(1));
    assert_eq!(enc.get(&'b').map(|b| b.len()), Some(2));
    let mut bits = encode_line(&enc, &vec!['a', 'b', 'c']).unwrap();
    assert_eq!(dec.decode(&bits), Some(vec!['a', 'b', 'c']));
    bits.push(enc.get(&'b').unwrap().get(0).unwrap());
    assert_eq!(dec.decode(&bits), None);
    assert_eq!(dec.decode(&BitVec::new()), Some(vec![]));
}

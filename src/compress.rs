//! The payload of a corpus: its encoder and the code of each line.
use vstd::prelude::*;
use bit_vec::BitVec;
use rayon::iter::{IntoParallelRefIterator, ParallelIterator};
use crate::bits::{bits_clone, bits_extend, bits_len, bits_new, bits_of, bits_wf};
use crate::codec::{codes_of, is_prefix, Enc};
use crate::freq::{corpus, lemma_corpus_len, occ, par_count, total_chars, Freqs};
use crate::symbol::{views, Symbol, Tokenizer};
use crate::tree::{huffman, leaves_of, mk, Tree};

verus! {

/// Why a line could not be encoded.
#[derive(Debug, Clone, Copy, PartialEq, Eq)]
pub enum EncodeError {
    /// A symbol of the line has no code.
    UnknownSymbol,
    /// The code of the line would not have fewer than `usize::MAX` bits.
    TooLong,
}

/// The codes of the symbols, one after another.
pub open spec fn encoded<T: Symbol>(enc: Enc<T>, toks: Seq<T::V>) -> Seq<bool>
    decreases toks.len(),
{
    if toks.len() == 0 {
        Seq::empty()
    } else {
        enc.code(toks[0]) + encoded(enc, toks.drop_first())
    }
}

/// Every symbol has a code.
pub open spec fn all_known<T: Symbol>(enc: Enc<T>, toks: Seq<T::V>) -> bool {
    forall|i: int| 0 <= i < toks.len() ==> enc.has(#[trigger] toks[i])
}

/// What encoding a line of these symbols gives.
pub open spec fn line_outcome<T: Symbol>(enc: Enc<T>, toks: Seq<T::V>) -> Result<Seq<bool>, EncodeError> {
    if !all_known(enc, toks) {
        Err(EncodeError::UnknownSymbol)
    } else if encoded(enc, toks).len() >= usize::MAX {
        Err(EncodeError::TooLong)
    } else {
        Ok(encoded(enc, toks))
    }
}

proof fn lemma_encoded_push<T: Symbol>(enc: Enc<T>, toks: Seq<T::V>, t: T::V)
    ensures
        encoded(enc, toks.push(t)) == encoded(enc, toks) + enc.code(t),
    decreases toks.len(),
{
    if toks.len() == 0 {
        assert(toks.push(t).drop_first() =~= Seq::<T::V>::empty());
        assert(toks.push(t)[0] == t);
        assert(encoded(enc, Seq::<T::V>::empty()) == Seq::<bool>::empty());
        assert(enc.code(t) + Seq::<bool>::empty() =~= enc.code(t));
        assert(toks =~= Seq::<T::V>::empty());
        assert(encoded(enc, toks.push(t)) =~= enc.code(t));
    } else {
        assert(toks.push(t).drop_first() =~= toks.drop_first().push(t));
        lemma_encoded_push(enc, toks.drop_first(), t);
        let c = enc.code(toks[0]);
        let r = encoded(enc, toks.drop_first());
        assert(c + (r + enc.code(t)) =~= (c + r) + enc.code(t));
    }
}

proof fn lemma_encoded_prefix_len<T: Symbol>(enc: Enc<T>, toks: Seq<T::V>, i: int)
    requires
        0 <= i <= toks.len(),
    ensures
        encoded(enc, toks.subrange(0, i)).len() <= encoded(enc, toks).len(),
    decreases toks.len() - i,
{
    if i < toks.len() {
        lemma_encoded_prefix_len(enc, toks, i + 1);
        assert(toks.subrange(0, i + 1) =~= toks.subrange(0, i).push(toks[i]));
        lemma_encoded_push(enc, toks.subrange(0, i), toks[i]);
    } else {
        assert(toks.subrange(0, i) =~= toks);
    }
}

/// Encodes the symbols of one line: the concatenation of their codes.
pub fn encode_line<T: Symbol>(enc: &Enc<T>, tokens: &Vec<T>) -> (r: Result<BitVec, EncodeError>)
    requires
        enc.wf(),
    ensures
        match r {
            Ok(b) => line_outcome(*enc, views(tokens@)) == Ok::<Seq<bool>, EncodeError>(bits_of(b)) && bits_wf(b),
            Err(e) => line_outcome(*enc, views(tokens@)) == Err::<Seq<bool>, EncodeError>(e),
        },
{
    let ghost toks = views(tokens@);
    let mut i: usize = 0;
    while i < tokens.len()
        invariant
            enc.wf(),
            toks == views(tokens@),
            i <= tokens@.len(),
            forall|j: int| 0 <= j < i ==> enc.has(#[trigger] toks[j]),
        decreases tokens@.len() - i,
    {
        proof {
            assert(toks[i as int] == tokens@[i as int]@);
        }
        if enc.get(&tokens[i]).is_none() {
            return Err(EncodeError::UnknownSymbol);
        }
        i = i + 1;
    }
    let mut acc = bits_new();
    let mut i: usize = 0;
    proof {
        assert(toks.subrange(0, 0) =~= Seq::<T::V>::empty());
    }
    while i < tokens.len()
        invariant
            enc.wf(),
            toks == views(tokens@),
            all_known(*enc, toks),
            i <= tokens@.len(),
            bits_of(acc) == encoded(*enc, toks.subrange(0, i as int)),
            bits_wf(acc),
        decreases tokens@.len() - i,
    {
        proof {
            assert(toks[i as int] == tokens@[i as int]@);
        }
        let code = enc.get(&tokens[i]).unwrap();
        let n = bits_len(&acc);
        let m = bits_len(code);
        proof {
            assert(toks.subrange(0, i + 1) =~= toks.subrange(0, i as int).push(toks[i as int]));
            lemma_encoded_push(*enc, toks.subrange(0, i as int), toks[i as int]);
            lemma_encoded_prefix_len(*enc, toks, i + 1);
        }
        if n >= usize::MAX - m {
            return Err(EncodeError::TooLong);
        }
        bits_extend(&mut acc, code);
        i = i + 1;
    }
    proof {
        assert(toks.subrange(0, i as int) =~= toks);
    }
    if bits_len(&acc) == usize::MAX {
        return Err(EncodeError::TooLong);
    }
    Ok(acc)
}

/// Tokenizes a line and encodes its symbols.
pub fn encode_text<T: Symbol, Tok: Tokenizer<T>>(enc: &Enc<T>, tok: &Tok, line: &String) -> (r: Result<BitVec, EncodeError>)
    requires
        enc.wf(),
    ensures
        match r {
            Ok(b) => line_outcome(*enc, tok.tokens_of(line@)) == Ok::<Seq<bool>, EncodeError>(bits_of(b)) && bits_wf(b),
            Err(e) => line_outcome(*enc, tok.tokens_of(line@)) == Err::<Seq<bool>, EncodeError>(e),
        },
{
    let tokens = tok.tokenize(line.as_str());
    encode_line(enc, &tokens)
}

/// Relies on rayon's `par_iter`, `map` and `collect` into a `Vec`: one result
/// per line, of `encode_text`, in the order of the lines.
#[verifier::external_body]
fn par_encode<T: Symbol + Sync, Tok: Tokenizer<T> + Sync>(enc: &Enc<T>, tok: &Tok, lines: &Vec<String>) -> (r: Vec<Result<BitVec, EncodeError>>)
    requires
        enc.wf(),
    ensures
        r@.len() == lines@.len(),
        forall|i: int| 0 <= i < lines@.len() ==> match #[trigger] r@[i] {
            Ok(b) => line_outcome(*enc, tok.tokens_of(lines@[i]@)) == Ok::<Seq<bool>, EncodeError>(bits_of(b)) && bits_wf(b),
            Err(e) => line_outcome(*enc, tok.tokens_of(lines@[i]@)) == Err::<Seq<bool>, EncodeError>(e),
        },
{
    lines.par_iter().map(|line| encode_text(enc, tok, line)).collect()
}

/// `t` is a Huffman tree of the corpus: the greedy tree of its frequency
/// map (with the map's entries in some order), so well formed, with one leaf
/// per symbol that occurs, weighted by its number of occurrences.
pub open spec fn tree_of_corpus<T: Symbol, Tok: Tokenizer<T>>(t: Tree<T>, tok: &Tok, lines: Seq<String>) -> bool {
    &&& exists|f: Freqs<T>| #![auto]
        f.wf() && (forall|k: T::V| #[trigger] f.count(k) == occ(corpus(tok, lines), k))
            && t == huffman(leaves_of(f.keys@, f.counts@))
    &&& t.wf()
    &&& t.sfreq() == corpus(tok, lines).len()
    &&& forall|k: T::V| #[trigger] t.weight(k) == occ(corpus(tok, lines), k)
    &&& forall|k: T::V| #[trigger] t.leaf_count(k) == if occ(corpus(tok, lines), k) > 0 { 1nat } else { 0 }
}

/// The compressed form of a corpus: its encoder and the code of each line.
pub struct Payload<T> {
    pub codec: Enc<T>,
    pub data: Vec<BitVec>,
}

impl<T: Symbol> Payload<T> {
    /// The payload is the compressed form of `lines` under `tok`: its encoder
    /// is that of a Huffman tree of the corpus, and each line's bits are the
    /// codes of its symbols.
    pub open spec fn compresses<Tok: Tokenizer<T>>(&self, tok: &Tok, lines: Seq<String>) -> bool {
        &&& self.codec.wf()
        &&& exists|t: Tree<T>| tree_of_corpus(t, tok, lines) && self.codec.pairs() == t.code_table()
        &&& self.data@.len() == lines.len()
        &&& forall|i: int| 0 <= i < lines.len() ==> all_known(self.codec, tok.tokens_of(lines[i]@))
        &&& forall|i: int| 0 <= i < lines.len() ==>
            bits_of(#[trigger] self.data@[i]) == encoded(self.codec, tok.tokens_of(lines[i]@))
        &&& forall|i: int| 0 <= i < lines.len() ==> bits_wf(#[trigger] self.data@[i])
    }
}

proof fn lemma_table_has<T: View>(t: Tree<T>, p: Seq<bool>, k: T::V)
    requires
        t.leaf_count(k) >= 1,
    ensures
        exists|i: int| 0 <= i < codes_of(t, p).len() && codes_of(t, p)[i].0 == k,
    decreases t,
{
    if let Tree::Fork { children, .. } = t {
        let a = codes_of(*children.1, p.push(true));
        let b = codes_of(*children.0, p.push(false));
        if children.1.leaf_count(k) >= 1 {
            lemma_table_has(*children.1, p.push(true), k);
            let i = choose|i: int| 0 <= i < a.len() && a[i].0 == k;
            assert(codes_of(t, p)[i] == a[i]);
        } else {
            lemma_table_has(*children.0, p.push(false), k);
            let i = choose|i: int| 0 <= i < b.len() && b[i].0 == k;
            assert(codes_of(t, p)[a.len() + i] == b[i]);
        }
    } else {
        assert(codes_of(t, p)[0].0 == k);
    }
}

proof fn lemma_occ_at<V>(s: Seq<V>, j: int)
    requires
        0 <= j < s.len(),
    ensures
        occ(s, s[j]) >= 1,
    decreases s.len(),
{
    if j < s.len() - 1 {
        lemma_occ_at(s.drop_last(), j);
    }
}

proof fn lemma_line_in_corpus<T: View, Tok: Tokenizer<T>>(tok: &Tok, lines: Seq<String>, i: int, j: int)
    requires
        0 <= i < lines.len(),
        0 <= j < tok.tokens_of(lines[i]@).len(),
    ensures
        occ(corpus(tok, lines), tok.tokens_of(lines[i]@)[j]) >= 1,
{
    let k = tok.tokens_of(lines[i]@)[j];
    let pre = lines.subrange(0, i + 1);
    crate::freq::lemma_corpus_split(tok, lines, i + 1);
    assert(pre.drop_last() =~= lines.subrange(0, i));
    let c0 = corpus(tok, lines.subrange(0, i));
    let c1 = tok.tokens_of(lines[i]@);
    assert(corpus(tok, pre) == c0 + c1);
    lemma_occ_at(c1, j);
    crate::freq::lemma_occ_concat(c0, c1, k);
    crate::freq::lemma_occ_concat(corpus(tok, pre), corpus(tok, lines.subrange(i + 1, lines.len() as int)), k);
}

impl<T: Symbol + Send + Sync> Payload<T> {
    /// Compresses the lines: counts their symbols, builds the Huffman tree,
    /// derives its encoder and encodes every line with it, in parallel.
    /// Fails only where a line's code would not have fewer than
    /// `usize::MAX` bits.
    pub fn compress<Tok: Tokenizer<T> + Sync>(tok: &Tok, lines: &Vec<String>) -> (r: Result<Payload<T>, EncodeError>)
        requires
            total_chars(lines@) <= u64::MAX,
        ensures
            match r {
                Ok(p) => p.compresses(tok, lines@),
                Err(e) => e == EncodeError::TooLong && exists|enc: Enc<T>, t: Tree<T>, i: int|
                    tree_of_corpus(t, tok, lines@) && enc.pairs() == t.code_table() && 0 <= i < lines@.len()
                        && encoded(enc, tok.tokens_of(lines@[i]@)).len() >= usize::MAX,
            },
    {
        proof {
            lemma_corpus_len(tok, lines@);
        }
        let counts = par_count(tok, lines);
        let _n = counts.len();
        let tree = mk(&counts);
        let codec = tree.encoder();
        proof {
            assert(tree_of_corpus(tree, tok, lines@));
            assert forall|i: int| 0 <= i < lines@.len() implies all_known(codec, tok.tokens_of(lines@[i]@)) by {
                assert forall|j: int| 0 <= j < tok.tokens_of(lines@[i]@).len() implies codec.has(#[trigger] tok.tokens_of(lines@[i]@)[j]) by {
                    let k = tok.tokens_of(lines@[i]@)[j];
                    lemma_line_in_corpus(tok, lines@, i, j);
                    assert(tree.leaf_count(k) == 1);
                    if tree is Leaf {
                        assert(codec.pairs()[0].0 == k);
                    } else {
                        lemma_table_has(tree, Seq::empty(), k);
                    }
                }
            }
        }
        let results = par_encode(&codec, tok, lines);
        let mut data: Vec<BitVec> = Vec::new();
        let mut i: usize = 0;
        while i < results.len()
            invariant
                results@.len() == lines@.len(),
                codec.wf(),
                tree_of_corpus(tree, tok, lines@),
                codec.pairs() == tree.code_table(),
                i <= results@.len(),
                data@.len() == i,
                forall|j: int| 0 <= j < lines@.len() ==> all_known(codec, tok.tokens_of(lines@[j]@)),
                forall|j: int| 0 <= j < lines@.len() ==> match #[trigger] results@[j] {
                    Ok(b) => line_outcome(codec, tok.tokens_of(lines@[j]@)) == Ok::<Seq<bool>, EncodeError>(bits_of(b)) && bits_wf(b),
                    Err(e) => line_outcome(codec, tok.tokens_of(lines@[j]@)) == Err::<Seq<bool>, EncodeError>(e),
                },
                forall|j: int| 0 <= j < i ==> bits_of(#[trigger] data@[j]) == encoded(codec, tok.tokens_of(lines@[j]@)),
                forall|j: int| 0 <= j < i ==> bits_wf(#[trigger] data@[j]),
            decreases results@.len() - i,
        {
            match &results[i] {
                Ok(b) => {
                    data.push(bits_clone(b));
                },
                Err(e) => {
                    proof {
                        let toks = tok.tokens_of(lines@[i as int]@);
                        assert(results@[i as int] == Err::<BitVec, EncodeError>(*e));
                        assert(line_outcome(codec, toks) == Err::<Seq<bool>, EncodeError>(*e));
                        assert(all_known(codec, toks));
                        assert(encoded(codec, toks).len() >= usize::MAX);
                        assert(tree_of_corpus(tree, tok, lines@) && codec.pairs() == tree.code_table() && 0 <= i < lines@.len()
                            && encoded(codec, tok.tokens_of(lines@[i as int]@)).len() >= usize::MAX);
                    }
                    return Err(*e);
                },
            }
            i = i + 1;
        }
        Ok(Payload { codec, data })
    }
}

} // verus!

//! What holds of the engine as a whole: codes are free of prefixes, the
//! payload decodes to the symbols of each line, counting does not depend on
//! how the lines are split, and the root carries the corpus size.
use vstd::prelude::*;
use crate::bits::bits_of;
use crate::codec::{decode, is_prefix, lemma_same_prefix, prefix_free, Dec, Enc};
use crate::compress::{all_known, encoded, tree_of_corpus, Payload};
use crate::freq::{corpus, lemma_corpus_split, lemma_occ_concat, occ, Freqs};
use crate::symbol::{Symbol, Tokenizer};
use crate::tree::Tree;

verus! {

/// Decoding the concatenated codes of known symbols gives the symbols back.
pub proof fn lemma_decode_encoded<T: Symbol>(enc: Enc<T>, dec: Dec<T>, toks: Seq<T::V>)
    requires
        enc.wf(),
        dec.inverts(enc),
        all_known(enc, toks),
    ensures
        decode(dec.pairs(), encoded(enc, toks)) == Some(toks),
    decreases toks.len(),
{
    let bits = encoded(enc, toks);
    let table = dec.pairs();
    if toks.len() == 0 {
        assert(toks =~= Seq::<T::V>::empty());
    } else {
        let t0 = toks[0];
        let rest = toks.drop_first();
        assert(enc.has(t0));
        let j0 = choose|i: int| 0 <= i < enc.pairs().len() && enc.pairs()[i].0 == t0;
        let c0 = enc.code(t0);
        assert(c0 == enc.pairs()[j0].1);
        assert(table[j0] == (c0, t0));
        assert(c0.len() > 0);
        assert(bits == c0 + encoded(enc, rest));
        assert(bits.subrange(0, c0.len() as int) =~= c0);
        assert(0 <= j0 < table.len() && table[j0].0.len() > 0 && is_prefix(table[j0].0, bits));
        let i = choose|i: int| 0 <= i < table.len() && table[i].0.len() > 0 && is_prefix(table[i].0, bits);
        assert(table[i] == (enc.pairs()[i].1, enc.pairs()[i].0));
        lemma_same_prefix(table[i].0, c0, bits);
        if i != j0 {
            assert(!is_prefix(enc.pairs()[i].1, enc.pairs()[j0].1));
            assert(!is_prefix(enc.pairs()[j0].1, enc.pairs()[i].1));
        }
        assert(i == j0);
        assert(bits.subrange(c0.len() as int, bits.len() as int) =~= encoded(enc, rest));
        assert forall|m: int| 0 <= m < rest.len() implies enc.has(#[trigger] rest[m]) by {
            assert(rest[m] == toks[m + 1]);
        }
        lemma_decode_encoded(enc, dec, rest);
        assert(seq![t0] + rest =~= toks);
    }
}

/// Round trip: decoding each line of a payload with the decoder of its
/// encoder gives exactly the symbols that the tokenizer reads in that line
/// (`Dec::decode` computes `decode`).
pub proof fn lemma_round_trip<T: Symbol, Tok: Tokenizer<T>>(p: Payload<T>, dec: Dec<T>, tok: &Tok, lines: Seq<String>, i: int)
    requires
        p.compresses(tok, lines),
        dec.inverts(p.codec),
        0 <= i < lines.len(),
    ensures
        decode(dec.pairs(), bits_of(p.data@[i])) == Some(tok.tokens_of(lines[i]@)),
{
    lemma_decode_encoded(p.codec, dec, tok.tokens_of(lines[i]@));
}

/// No code of a tree's code table is a prefix of the code of another symbol.
pub proof fn lemma_prefix_free<T: View>(t: Tree<T>)
    ensures
        prefix_free(t.code_table()),
{
    if !(t is Leaf) {
        crate::codec::lemma_codes_prefix_free(t, Seq::empty());
    }
}

/// Counting the lines in two parts, split anywhere, and adding the counts
/// gives the counts of the whole corpus: the result does not depend on how
/// the lines are shared between workers.
pub proof fn lemma_partition_counts<T: View, Tok: Tokenizer<T>>(tok: &Tok, lines: Seq<String>, i: int, k: T::V)
    requires
        0 <= i <= lines.len(),
    ensures
        occ(corpus(tok, lines), k) == occ(corpus(tok, lines.subrange(0, i)), k)
            + occ(corpus(tok, lines.subrange(i, lines.len() as int)), k),
{
    lemma_corpus_split(tok, lines, i);
    lemma_occ_concat(corpus(tok, lines.subrange(0, i)), corpus(tok, lines.subrange(i, lines.len() as int)), k);
}

/// Two frequency maps that both count the corpus, however they were
/// computed (one line after another, or by workers over any split of the
/// lines), hold the same symbols with the same counts.
pub proof fn lemma_counts_agree<T: Symbol, Tok: Tokenizer<T>>(a: Freqs<T>, b: Freqs<T>, tok: &Tok, lines: Seq<String>)
    requires
        a.wf(),
        b.wf(),
        forall|k: T::V| #[trigger] a.count(k) == occ(corpus(tok, lines), k),
        forall|k: T::V| #[trigger] b.count(k) == occ(corpus(tok, lines), k),
    ensures
        a.key_set() == b.key_set(),
        forall|k: T::V| #[trigger] a.count(k) == b.count(k),
{
    assert forall|k: T::V| a.key_set().contains(k) <==> b.key_set().contains(k) by {
        a.lemma_key_iff_count(k);
        b.lemma_key_iff_count(k);
        assert(a.count(k) == b.count(k));
    }
    assert(a.key_set() =~= b.key_set());
}

/// In a well-formed tree the root's frequency is the sum of its leaves' frequencies.
pub proof fn lemma_root_is_leaf_sum<T: View>(t: Tree<T>)
    requires
        t.wf(),
    ensures
        t.sfreq() == t.leaf_sum(),
    decreases t,
{
    if let Tree::Fork { children, .. } = t {
        lemma_root_is_leaf_sum(*children.0);
        lemma_root_is_leaf_sum(*children.1);
    }
}

/// The root of a Huffman tree of a corpus carries the sum of the leaf
/// frequencies, which is the number of symbols of the corpus.
pub proof fn lemma_total_frequency<T: Symbol, Tok: Tokenizer<T>>(t: Tree<T>, tok: &Tok, lines: Seq<String>)
    requires
        tree_of_corpus(t, tok, lines),
    ensures
        t.sfreq() == t.leaf_sum(),
        t.leaf_sum() == corpus(tok, lines).len(),
{
    lemma_root_is_leaf_sum(t);
}

} // verus!

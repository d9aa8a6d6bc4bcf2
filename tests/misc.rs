use huffman::arith::gcd;
use huffman::parse::{braces_p, open_close_p, pair_p, parens_p, split_once, trim};
use huffman::trie::Trie;

#[test]
fn test_gcd() {
    assert_eq!(gcd(14, 15), 1);
}

#[test]
fn gcd_of_multiples() {
    assert_eq!(gcd(12, 18), 6);
    assert_eq!(gcd(18, 12), 6);
    assert_eq!(gcd(7, 7), 7);
    assert_eq!(gcd(1, 1000), 1);
}

#[test]
fn test_pair_p() {
    assert_eq!(pair_p::<i32>("", ','), None);
    assert_eq!(pair_p::<i32>("10,20", ','), Some((10, 20)));
    assert_eq!(pair_p::<i32>("10x20", 'x'), Some((10, 20)));
    assert_eq!(pair_p::<f32>("10x20", 'x'), Some((10.0, 20.0)));
}

#[test]
fn split_once_at_first_separator() {
    assert_eq!(split_once("a,b,c", ','), Some(("a", "b,c")));
    assert_eq!(split_once(",", ','), Some(("", "")));
    assert_eq!(split_once("abc", ','), None);
    assert_eq!(pair_p::<i32>("1,x", ','), None);
}

#[test]
fn trie_counts_inserted_words() {
    let mut trie = Trie::new();
    trie.insert("prof");
    trie.insert("profile");
    trie.insert("prof");
    assert_eq!(trie.lookup("prof").map(|n| n.count), Some(2));
    assert_eq!(trie.lookup("profile").map(|n| n.count), Some(1));
    assert_eq!(trie.lookup("profile").and_then(|n| n.val.clone()), Some("profile".to_string()));
    assert!(trie.lookup("pro").is_none());
    assert!(trie.lookup("profiles").is_none());
    assert!(trie.lookup("").is_none());
}

#[test]
fn it_works() {
    let mut trie = Trie::new();
    trie.insert("potatoe");
    trie.insert("province");
    trie.insert("profile");
    trie.insert("profileur");
    trie.insert("profiteur");
    trie.insert("prof");
    trie.insert("professor");
    trie.insert("provinces");
    trie.insert("providence");
    trie.insert("providences");

    println!("{:?}", trie.search("prof"));
    println!("{}", trie.render());
}

#[test]
fn search_orders_by_count_then_word() {
    let mut trie = Trie::new();
    for w in ["profile", "prof", "professor", "profiteur", "profileur", "potatoe", "profile"] {
        trie.insert(w);
    }
    assert_eq!(trie.search("prof"), vec!["prof", "professor", "profileur", "profiteur", "profile"]);
    assert_eq!(trie.search("pot"), vec!["potatoe"]);
    assert!(trie.search("x").is_empty());
    assert_eq!(trie.search("").len(), 6);
}

#[test]
fn render_lists_keys_by_level() {
    let mut trie = Trie::new();
    trie.insert("ab");
    trie.insert("ac");
    trie.insert("b");
    assert_eq!(trie.render(), "a b \nb c ");
    assert_eq!(Trie::new().render(), "");
}

#[test]
fn braces_and_pairs_read_points() {
    assert_eq!(braces_p("{10.0,20.0}"), Some("10.0,20.0"));
    assert_eq!(braces_p("   {10.0,20.0}"), Some("10.0,20.0"));
    assert_eq!(braces_p("{10.0,20.0}   "), Some("10.0,20.0"));
    assert_eq!(braces_p("{10,20}").and_then(|t| pair_p::<i32>(t, ',')), Some((10, 20)));
    assert_eq!(braces_p("{10.0,20.0}").and_then(|t| pair_p::<f64>(t, ',')), Some((10.0, 20.0)));
    assert_eq!(parens_p(" (-1.20,0.35) "), Some("-1.20,0.35"));
    assert_eq!(braces_p("{1,2"), None);
    assert_eq!(braces_p("1,2}"), None);
    assert_eq!(braces_p("{1}2}"), None);
    assert_eq!(braces_p(""), None);
    assert_eq!(open_close_p("|a|", '|', '|'), None);
    assert_eq!(open_close_p("<>", '<', '>'), Some(""));
}

#[test]
fn trim_removes_unicode_white_space() {
    assert_eq!(trim("  a b \t\n"), "a b");
    assert_eq!(trim("\u{3000}x\u{a0}"), "x");
    assert_eq!(trim("   "), "");
    assert_eq!(trim("abc"), "abc");
}

use domaingrep::hack::{HackMatch, HackTrie};

#[test]
fn detects_basic_domain_hacks() {
    let trie = HackTrie::new(&["sh", "shop", "show"]);
    let matches = trie.find_matches("bunsh");
    let domains = matches
        .into_iter()
        .map(|item| item.domain())
        .collect::<Vec<_>>();

    assert_eq!(domains, vec!["bun.sh"]);
}

#[test]
fn sorts_longest_matching_tld_first() {
    let trie = HackTrie::new(&["i", "nai"]);
    let matches = trie.find_matches("openai");
    let domains = matches
        .into_iter()
        .map(|item| item.domain())
        .collect::<Vec<_>>();

    assert_eq!(domains, vec!["ope.nai", "opena.i"]);
}

#[test]
fn whole_input_is_never_a_hack() {
    let trie = HackTrie::new(&["sh", "ash"]);
    assert!(trie.find_matches("sh").is_empty());
    let domains: Vec<String> = trie.find_matches("ash").into_iter().map(|m| m.domain()).collect();
    assert_eq!(domains, vec!["a.sh"]);
}

#[test]
fn labels_must_stay_valid() {
    let trie = HackTrie::new(&["sh"]);
    assert!(trie.find_matches("-sh").is_empty());
    assert!(trie.find_matches("a-sh").is_empty());
    let mut trie = HackTrie::new(&[]);
    assert!(trie.find_matches("bunsh").is_empty());
    trie.insert("sh");
    assert_eq!(
        trie.find_matches("bunsh"),
        vec![HackMatch { sld: "bun".to_string(), tld: "sh".to_string() }]
    );
}

#[test]
fn the_order_of_the_tlds_does_not_change_the_hacks() {
    let a = HackTrie::new(&["sh", "unsh", "h", "io"]);
    let b = HackTrie::new(&["io", "h", "sh", "unsh", "sh"]);
    assert_eq!(a.find_matches("bunsh"), b.find_matches("bunsh"));
    let domains: Vec<String> = a.find_matches("bunsh").iter().map(|m| m.domain()).collect();
    assert_eq!(domains, vec!["b.unsh", "bun.sh", "buns.h"]);
}

#[test]
fn inserting_a_tld_adds_only_the_hack_ending_in_it() {
    let mut trie = HackTrie::new(&["sh"]);
    assert_eq!(trie.find_matches("bunsh").len(), 1);
    trie.insert("nsh");
    let domains: Vec<String> = trie.find_matches("bunsh").iter().map(|m| m.domain()).collect();
    assert_eq!(domains, vec!["bu.nsh", "bun.sh"]);
    trie.insert("nsh");
    assert_eq!(trie.find_matches("bunsh").len(), 2);
    trie.insert("bunsh");
    assert_eq!(trie.find_matches("bunsh").len(), 2);
}

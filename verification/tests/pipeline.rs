use ripgen_lib::words::{extract_words, get_wordlist, DEFAULT_WORD_LEN, FAST_MODE_WORDLIST_LEN};
use ripgen_lib::{
    pull_names, ChainTransform, DomainComponents, Mutation, RipGenChain, RipGenError,
    RipGenIterator, RipGenManager, RipGenTransform,
};

fn drain<'m, 'd, I: RipGenIterator<'m, 'd>>(iter: &mut I) -> Vec<String> {
    let mut out = Vec::new();
    while let Some(name) = iter.next() {
        out.push(name);
    }
    out
}

fn sorted(mut names: Vec<String>) -> Vec<String> {
    names.sort();
    names
}

fn parse_all<'a>(lines: &[&'a str]) -> Vec<DomainComponents<'a>> {
    lines.iter().map(|line| DomainComponents::try_from(*line).expect("Failed to parse.")).collect()
}

#[test]
fn extract_words_takes_labels_and_hyphen_parts() {
    let domains = parse_all(&["internal-admin.staging.example.com"]);
    let words = extract_words(&domains, 5);
    assert_eq!(words, vec!["internal-admin", "staging", "internal", "admin", "staging"]);
}

#[test]
fn extract_words_by_default_asks_for_five_bytes() {
    assert_eq!(DEFAULT_WORD_LEN, 5);
    let domains = parse_all(&["four.fives.sixsix.example.com"]);
    assert_eq!(
        extract_words(&domains, DEFAULT_WORD_LEN),
        vec!["fives", "sixsix", "fives", "sixsix"]
    );
}

#[test]
fn extract_words_draws_the_labels_before_their_pieces() {
    let domains = parse_all(&["dev-admin.internal.example.com"]);
    assert_eq!(extract_words(&domains, 5), vec!["dev-admin", "internal", "admin", "internal"]);
}

#[test]
fn extract_words_applies_the_minimum_length() {
    let domains = parse_all(&["www.dev-api.example.com"]);
    assert_eq!(extract_words(&domains, 5), vec!["dev-api"]);
    assert_eq!(extract_words(&domains, 3), vec!["www", "dev-api", "www", "dev", "api"]);
    assert_eq!(extract_words(&domains, 0), vec!["www", "dev-api", "www", "dev", "api"]);
    assert!(extract_words(&domains, 8).is_empty());
}

#[test]
fn extract_words_measures_length_in_bytes() {
    let domains = parse_all(&["食狮.example.com"]);
    assert_eq!(extract_words(&domains, 6), vec!["食狮", "食狮"]);
    assert!(extract_words(&domains, 7).is_empty());
}

#[test]
fn extract_words_never_offers_the_root() {
    let domains = parse_all(&["example.com", "longsubdomain.example-site.co.uk"]);
    assert_eq!(extract_words(&domains, 1), vec!["longsubdomain", "longsubdomain"]);
}

#[test]
fn extract_words_goes_domain_by_domain() {
    let domains = parse_all(&["alpha.example.com", "bravo.example.com"]);
    assert_eq!(extract_words(&domains, 5), vec!["alpha", "alpha", "bravo", "bravo"]);
}

#[test]
fn get_wordlist_is_whole_unless_fast() {
    let lines: Vec<String> = (0..25).map(|i| format!("word{}", i)).collect();
    let refs: Vec<&str> = lines.iter().map(|line| line.as_str()).collect();
    assert_eq!(get_wordlist(&refs, None).len(), 25);
    assert_eq!(get_wordlist(&refs, Some(false)).len(), 25);
    let fast = get_wordlist(&refs, Some(true));
    assert_eq!(fast.len(), FAST_MODE_WORDLIST_LEN);
    assert_eq!(fast.len(), 10);
    assert_eq!(fast[0], "word0");
    assert_eq!(fast[9], "word9");
    let short = ["a", "b"];
    assert_eq!(get_wordlist(&short, Some(true)).to_vec(), vec!["a", "b"]);
}

#[test]
fn manager_skips_blank_lines() {
    let manager = RipGenManager::new(&["", "www.example.com", "", "api.example.org", ""], &[], 5)
        .expect("Failed to parse domains.");
    let stage = manager.transform(Mutation::Permute);
    let domains = stage.get_domains_iter();
    assert_eq!(domains.len(), 2);
    assert_eq!(domains[0].all().to_vec(), vec!["www", "example.com"]);
    assert_eq!(domains[1].all().to_vec(), vec!["api", "example.org"]);
}

#[test]
fn manager_of_nothing_yields_nothing() {
    let manager = RipGenManager::new(&[], &["admin"], 5).expect("Failed to parse domains.");
    let mut stage = manager
        .transform(Mutation::Swap)
        .chain_transform(Mutation::Permute)
        .chain_transform(Mutation::Numbers)
        .chain_transform(Mutation::Dash);
    assert_eq!(stage.next(), None);
    assert_eq!(stage.next(), None);
}

#[test]
fn manager_fails_on_the_first_bad_line() {
    let result = RipGenManager::new(&["www.example.com", "", "bad..name", "also..bad"], &[], 5);
    match result {
        Err(RipGenError::ErrorParsingDomain(input)) => assert_eq!(input, "bad..name"),
        Ok(_) => panic!("a malformed line was accepted"),
    }
}

#[test]
fn manager_word_set_holds_each_word_once() {
    let manager = RipGenManager::new(
        &["admin.example.com", "admin.internal-tools.example.org"],
        &["admin", "vpn", "x", "vpn"],
        5,
    )
    .expect("Failed to parse domains.");
    let stage = manager.transform(Mutation::Permute);
    let words: Vec<String> = stage.get_words_iter().iter().map(|w| w.to_string()).collect();
    assert_eq!(
        sorted(words),
        vec!["admin", "internal", "internal-tools", "tools", "vpn", "x"]
    );
}

#[test]
fn manager_does_not_filter_the_word_list() {
    let manager =
        RipGenManager::new(&["a.example.com"], &["", "b"], 5).expect("Failed to parse domains.");
    let stage = manager.transform(Mutation::Permute);
    let words: Vec<String> = stage.get_words_iter().iter().map(|w| w.to_string()).collect();
    assert_eq!(sorted(words), vec!["", "b"]);
}

#[test]
fn stage_hands_out_each_batch_from_its_end() {
    let domains = parse_all(&["www.example.com", "api.example.org"]);
    let words = ["admin", "dev"];
    let mut stage = RipGenTransform::new(&domains, &words, Mutation::Permute);
    assert_eq!(
        drain(&mut stage),
        vec![
            "www.dev.example.com",
            "dev.www.example.com",
            "www.admin.example.com",
            "admin.www.example.com",
            "api.dev.example.org",
            "dev.api.example.org",
            "api.admin.example.org",
            "admin.api.example.org",
        ]
    );
    assert_eq!(stage.next(), None);
}

#[test]
fn stage_passes_over_domains_without_output() {
    let domains =
        parse_all(&["www.example.com", "host2.example.com", "example.org", "db1.example.net"]);
    let words: [&str; 0] = [];
    let mut stage = RipGenTransform::new(&domains, &words, Mutation::Numbers);
    assert_eq!(
        drain(&mut stage),
        vec![
            "host5.example.com",
            "host4.example.com",
            "host0.example.com",
            "host3.example.com",
            "host1.example.com",
            "db4.example.net",
            "db3.example.net",
            "db2.example.net",
            "db0.example.net",
        ]
    );
}

#[test]
fn stage_cursor_moves_with_the_domains() {
    let domains = parse_all(&["www.example.com", "api.example.org"]);
    let words = ["admin"];
    let mut stage = RipGenTransform::new(&domains, &words, Mutation::Permute);
    assert_eq!(stage.get_domains_iter().len(), 2);
    assert_eq!(stage.next(), Some("www.admin.example.com".to_string()));
    assert_eq!(stage.get_domains_iter().len(), 1);
    assert_eq!(stage.get_words_iter().to_vec(), vec!["admin"]);
    assert_eq!(stage.next(), Some("admin.www.example.com".to_string()));
    assert_eq!(stage.next(), Some("api.admin.example.org".to_string()));
    assert_eq!(stage.get_domains_iter().len(), 0);
}

#[test]
fn chain_yields_left_then_right() {
    let domains = parse_all(&["www1.example.com", "api.example.org"]);
    let words = ["admin"];
    let mut left = RipGenTransform::new(&domains, &words, Mutation::Permute);
    let mut right = RipGenTransform::new(&domains, &words, Mutation::Numbers);
    let mut expected = drain(&mut left);
    expected.extend(drain(&mut right));
    let mut chain = RipGenChain::new(
        RipGenTransform::new(&domains, &words, Mutation::Permute),
        RipGenTransform::new(&domains, &words, Mutation::Numbers),
    );
    assert_eq!(drain(&mut chain), expected);
    assert_eq!(expected.len(), 4 + 4);
    assert_eq!(chain.next(), None);
}

#[test]
fn chain_left_unfinished_is_a_prefix() {
    let domains = parse_all(&["www1.example.com"]);
    let words = ["admin"];
    let mut whole = RipGenTransform::new(&domains, &words, Mutation::Dash)
        .chain_transform(Mutation::Numbers);
    let all = drain(&mut whole);
    for taken in 0..all.len() {
        let mut chain = RipGenTransform::new(&domains, &words, Mutation::Dash)
            .chain_transform(Mutation::Numbers);
        let mut got = Vec::new();
        for _ in 0..taken {
            got.push(chain.next().expect("the chain ended early"));
        }
        assert_eq!(got, all[..taken].to_vec());
    }
}

#[test]
fn chain_of_chains_keeps_the_order_of_the_stages() {
    let manager = RipGenManager::new(&["www2.example.com"], &["admin"], 5)
        .expect("Failed to parse domains.");
    let mut chain = manager
        .transform(Mutation::Swap)
        .chain_transform(Mutation::Permute)
        .chain_transform(Mutation::Numbers)
        .chain_transform(Mutation::Dash);
    assert_eq!(
        drain(&mut chain),
        vec![
            "www2.admin.example.com",
            "admin.www2.example.com",
            "www5.example.com",
            "www4.example.com",
            "www0.example.com",
            "www3.example.com",
            "www1.example.com",
            "adminwww2.example.com",
            "www2admin.example.com",
            "admin-www2.example.com",
            "www2-admin.example.com",
        ]
    );
}

#[test]
fn chain_is_associative_in_what_it_yields() {
    let domains = parse_all(&["dev1.example.com", "example.org"]);
    let words = ["dev", "qa"];
    let stage = |m: Mutation| RipGenTransform::new(&domains, &words, m);
    let mut left_first = RipGenChain::new(
        RipGenChain::new(stage(Mutation::Swap), stage(Mutation::Permute)),
        stage(Mutation::Dash),
    );
    let mut right_first = RipGenChain::new(
        stage(Mutation::Swap),
        RipGenChain::new(stage(Mutation::Permute), stage(Mutation::Dash)),
    );
    let a = drain(&mut left_first);
    assert_eq!(a, drain(&mut right_first));
    assert_eq!(a.len(), 1 + (4 + 2) + 8);
}

#[test]
fn chain_takes_its_cursors_from_the_side_that_is_left() {
    let first = parse_all(&["a.example.com"]);
    let second = parse_all(&["b.example.org", "c.example.net"]);
    let words = ["w"];
    let others = ["x", "y"];
    let mut chain = RipGenChain::new(
        RipGenTransform::new(&first, &words, Mutation::Permute),
        RipGenTransform::new(&second, &others, Mutation::Permute),
    );
    assert_eq!(chain.get_domains_iter().len(), 1);
    assert_eq!(chain.get_words_iter().to_vec(), vec!["w"]);
    assert_eq!(chain.next(), Some("a.w.example.com".to_string()));
    assert_eq!(chain.next(), Some("w.a.example.com".to_string()));
    // the left side is dropped with this pull
    assert_eq!(chain.next(), Some("b.y.example.org".to_string()));
    assert_eq!(chain.get_domains_iter().len(), 1);
    assert_eq!(chain.get_words_iter().to_vec(), vec!["x", "y"]);
}

#[test]
fn chain_transform_starts_from_what_the_cursor_has_left() {
    let domains = parse_all(&["a.example.com", "b1.example.org"]);
    let words = ["w"];
    let mut stage = RipGenTransform::new(&domains, &words, Mutation::Permute);
    assert_eq!(stage.next(), Some("a.w.example.com".to_string()));
    let mut chain = stage.chain_transform(Mutation::Numbers);
    assert_eq!(
        drain(&mut chain),
        vec![
            "w.a.example.com",
            "b1.w.example.org",
            "w.b1.example.org",
            "b4.example.org",
            "b3.example.org",
            "b2.example.org",
            "b0.example.org",
        ]
    );
}

#[test]
fn manager_clone_starts_the_same_stages() {
    let manager = RipGenManager::new(&["dev1.example.com", "api.example.org"], &["qa"], 3)
        .expect("Failed to parse domains.");
    let copy = manager.clone();
    let mut a = manager.transform(Mutation::Dash).chain_transform(Mutation::Swap);
    let mut b = copy.transform(Mutation::Dash).chain_transform(Mutation::Swap);
    let names = drain(&mut a);
    assert_eq!(names, drain(&mut b));
    assert!(!names.is_empty());
}

#[test]
fn manager_words_come_from_set_in_one_order_for_all_stages() {
    let manager = RipGenManager::new(
        &["alpha.bravo.example.com"],
        &["charlie", "delta", "echo", "foxtrot"],
        5,
    )
    .expect("Failed to parse domains.");
    let first: Vec<String> =
        manager.transform(Mutation::Swap).get_words_iter().iter().map(|w| w.to_string()).collect();
    let second: Vec<String> =
        manager.transform(Mutation::Dash).get_words_iter().iter().map(|w| w.to_string()).collect();
    assert_eq!(first, second);
    assert_eq!(first.len(), 6);
}

#[test]
fn pull_names_takes_the_front_and_leaves_the_rest() {
    let domains = parse_all(&["www1.example.com", "api.example.org"]);
    let words = ["admin"];
    let fresh = || {
        RipGenTransform::new(&domains, &words, Mutation::Permute)
            .chain_transform(Mutation::Numbers)
            .chain_transform(Mutation::Dash)
    };
    let all = drain(&mut fresh());
    assert_eq!(all.len(), 4 + 4 + 8);
    for limit in 0..all.len() + 3 {
        let mut chain = fresh();
        let front = pull_names(&mut chain, limit);
        let cut = limit.min(all.len());
        assert_eq!(front, all[..cut].to_vec());
        assert_eq!(drain(&mut chain), all[cut..].to_vec());
        assert!(pull_names(&mut chain, 5).is_empty());
    }
}

#[test]
fn stage_cursor_is_at_the_end_when_the_end_is_reported() {
    let domains = parse_all(&["host2.example.com", "www.example.com", "example.org"]);
    let words: [&str; 0] = [];
    let mut stage = RipGenTransform::new(&domains, &words, Mutation::Numbers);
    assert_eq!(stage.get_domains_iter().len(), 3);
    for _ in 0..5 {
        assert!(stage.next().is_some());
        assert_eq!(stage.get_domains_iter().len(), 2);
    }
    assert_eq!(stage.next(), None);
    assert_eq!(stage.get_domains_iter().len(), 0);
    assert_eq!(stage.next(), None);
    assert_eq!(stage.get_domains_iter().len(), 0);
    let mut barren = RipGenTransform::new(&domains[1..], &words, Mutation::Numbers);
    assert_eq!(barren.next(), None);
    assert_eq!(barren.get_domains_iter().len(), 0);
}

#[test]
fn stage_cursor_passes_domains_that_give_nothing() {
    let domains =
        parse_all(&["www.example.com", "example.org", "db1.example.net", "a.example.com"]);
    let words: [&str; 0] = [];
    let mut stage = RipGenTransform::new(&domains, &words, Mutation::Numbers);
    assert_eq!(stage.next(), Some("db4.example.net".to_string()));
    let left = stage.get_domains_iter();
    assert_eq!(left.len(), 1);
    assert_eq!(left[0].all().to_vec(), vec!["a", "example.com"]);
}

#[test]
fn chain_drops_the_left_side_with_the_pull_that_finds_it_empty() {
    let first = parse_all(&["a.example.com"]);
    let second = parse_all(&["b1.example.org", "c.example.net"]);
    let words = ["w"];
    let none: [&str; 0] = [];
    let mut chain = RipGenChain::new(
        RipGenTransform::new(&first, &words, Mutation::Permute),
        RipGenTransform::new(&second, &none, Mutation::Numbers),
    );
    assert_eq!(chain.next(), Some("a.w.example.com".to_string()));
    assert_eq!(chain.next(), Some("w.a.example.com".to_string()));
    // the left side has nothing more to give but is still held
    assert_eq!(chain.get_domains_iter().len(), 0);
    assert_eq!(chain.get_words_iter().to_vec(), vec!["w"]);
    assert_eq!(chain.next(), Some("b4.example.org".to_string()));
    // now the cursors are those of the right side
    assert_eq!(chain.get_domains_iter().len(), 1);
    assert!(chain.get_words_iter().is_empty());
}

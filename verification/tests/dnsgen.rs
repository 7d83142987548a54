use ripgen_lib::dnsgen::dash;
use ripgen_lib::dnsgen::numbers::numbers_from_runs;
use ripgen_lib::dnsgen::{
    dash_transform, numbers_transform, permute_words_transform, swap_word_transform,
};
use ripgen_lib::{DomainComponents, Mutation};

fn domain(name: &str) -> DomainComponents<'_> {
    DomainComponents::try_from(name).expect("Failed to parse.")
}

#[test]
fn permute_inserts_before_the_root_only() {
    let d = domain("www.example.com");
    let out = permute_words_transform(&d, &["admin"]);
    assert_eq!(out, vec!["admin.www.example.com", "www.admin.example.com"]);
    assert!(!out.contains(&"www.example.com.admin".to_string()));
}

#[test]
fn permute_goes_word_by_word() {
    let d = domain("a.b.example.com");
    let out = permute_words_transform(&d, &["x", "y"]);
    assert_eq!(
        out,
        vec![
            "x.a.b.example.com",
            "a.x.b.example.com",
            "a.b.x.example.com",
            "y.a.b.example.com",
            "a.y.b.example.com",
            "a.b.y.example.com",
        ]
    );
}

#[test]
fn permute_of_bare_root_puts_the_word_in_front() {
    let d = domain("example.com");
    assert_eq!(permute_words_transform(&d, &["admin"]), vec!["admin.example.com"]);
    assert!(permute_words_transform(&d, &[]).is_empty());
}

#[test]
fn numbers_moves_a_run_down_and_up() {
    let d = domain("host2.example.com");
    let out = numbers_transform(&d, &[]);
    assert_eq!(
        out,
        vec![
            "host1.example.com",
            "host3.example.com",
            "host0.example.com",
            "host4.example.com",
            "host5.example.com",
        ]
    );
    for name in &out {
        assert!(name.ends_with(".example.com"));
    }
}

#[test]
fn numbers_leaves_digits_of_the_root_alone() {
    let d = domain("www.example123.com");
    assert!(numbers_transform(&d, &[]).is_empty());
    let e = domain("example1.com");
    assert!(numbers_transform(&e, &["word"]).is_empty());
}

#[test]
fn numbers_takes_runs_of_at_most_three_digits() {
    let d = domain("a12345.example.com");
    let out = numbers_transform(&d, &[]);
    assert_eq!(
        out,
        vec![
            "a12245.example.com",
            "a12445.example.com",
            "a12145.example.com",
            "a12545.example.com",
            "a12045.example.com",
            "a12645.example.com",
            "a12344.example.com",
            "a12346.example.com",
            "a12343.example.com",
            "a12347.example.com",
            "a12342.example.com",
            "a12348.example.com",
        ]
    );
}

#[test]
fn numbers_rewrites_only_the_run_it_found() {
    let d = domain("a1b1.example.com");
    let out = numbers_transform(&d, &[]);
    assert_eq!(
        out,
        vec![
            "a0b1.example.com",
            "a2b1.example.com",
            "a3b1.example.com",
            "a4b1.example.com",
            "a1b0.example.com",
            "a1b2.example.com",
            "a1b3.example.com",
            "a1b4.example.com",
        ]
    );
}

#[test]
fn numbers_drops_leading_zeros() {
    let d = domain("n010.example.com");
    let out = numbers_transform(&d, &[]);
    assert_eq!(
        out,
        vec![
            "n9.example.com",
            "n11.example.com",
            "n8.example.com",
            "n12.example.com",
            "n7.example.com",
            "n13.example.com",
        ]
    );
}

#[test]
fn numbers_sees_runs_in_every_subdomain_label() {
    let d = domain("db7.eu2.example.com");
    let out = numbers_transform(&d, &[]);
    assert_eq!(out.len(), 11);
    assert_eq!(out[0], "db6.eu2.example.com");
    assert_eq!(out[6], "db7.eu1.example.com");
}

#[test]
fn numbers_counts_offsets_in_bytes() {
    let d = domain("食7.example.com");
    let out = numbers_transform(&d, &[]);
    assert_eq!(out[0], "食6.example.com");
    assert_eq!(out[1], "食8.example.com");
    assert_eq!(out.len(), 6);
}

#[test]
fn numbers_from_runs_follows_the_given_runs() {
    let d = domain("host2.example.com");
    assert_eq!(
        numbers_from_runs(&d, &[(4, 5)]),
        vec![
            "host1.example.com",
            "host3.example.com",
            "host0.example.com",
            "host4.example.com",
            "host5.example.com",
        ]
    );
    assert!(numbers_from_runs(&d, &[]).is_empty());
}

#[test]
fn numbers_from_runs_passes_over_bad_runs() {
    let d = domain("host2.example.com");
    // not digits, empty, out of order, past the end
    assert!(numbers_from_runs(&d, &[(0, 4)]).is_empty());
    assert!(numbers_from_runs(&d, &[(4, 4)]).is_empty());
    assert!(numbers_from_runs(&d, &[(5, 4)]).is_empty());
    assert!(numbers_from_runs(&d, &[(4, 6)]).is_empty());
    let e = domain("食7.example.com");
    // inside the encoding of a character
    assert!(numbers_from_runs(&e, &[(1, 4)]).is_empty());
    assert_eq!(numbers_from_runs(&e, &[(3, 4)]).len(), 6);
}

#[test]
fn numbers_from_runs_stops_at_the_width_of_the_integer() {
    let d = domain("n18446744073709551615.example.com");
    let out = numbers_from_runs(&d, &[(1, 21)]);
    assert_eq!(
        out,
        vec![
            "n18446744073709551614.example.com",
            "n18446744073709551613.example.com",
            "n18446744073709551612.example.com",
        ]
    );
    let e = domain("n18446744073709551616.example.com");
    assert!(numbers_from_runs(&e, &[(1, 21)]).is_empty());
    let f = domain("n18446744073709551613.example.com");
    assert_eq!(
        numbers_from_runs(&f, &[(1, 21)]),
        vec![
            "n18446744073709551612.example.com",
            "n18446744073709551614.example.com",
            "n18446744073709551611.example.com",
            "n18446744073709551615.example.com",
            "n18446744073709551610.example.com",
        ]
    );
}

#[test]
fn swap_replaces_a_word_by_each_other_word() {
    let d = domain("www.admin.example.com");
    let out = swap_word_transform(&d, &["admin", "internal"]);
    assert_eq!(out, vec!["www.internal.example.com"]);
    assert!(out.contains(&"www.internal.example.com".to_string()));
    assert!(!out.contains(&"www.admin.example.com".to_string()));
    for name in &out {
        assert!(name.ends_with(".example.com"));
    }
}

#[test]
fn swap_never_touches_the_root() {
    let d = domain("www.example.com");
    let out = swap_word_transform(&d, &["example", "sample", "www"]);
    assert_eq!(out, vec!["example.example.com", "sample.example.com"]);
}

#[test]
fn swap_replaces_every_occurrence() {
    let d = domain("dev.dev-api.example.com");
    let out = swap_word_transform(&d, &["dev", "prod"]);
    assert_eq!(out, vec!["prod.prod-api.example.com"]);
}

#[test]
fn swap_goes_source_by_source() {
    let d = domain("a.b.example.com");
    let out = swap_word_transform(&d, &["a", "b", "c"]);
    assert_eq!(
        out,
        vec!["b.b.example.com", "c.b.example.com", "a.a.example.com", "a.c.example.com"]
    );
}

#[test]
fn swap_of_bare_root_yields_nothing_for_words() {
    let d = domain("example.com");
    assert!(swap_word_transform(&d, &["example", "admin"]).is_empty());
}

#[test]
fn swap_with_the_empty_word_follows_the_standard_replace() {
    let d = domain("ab.example.com");
    let out = swap_word_transform(&d, &["", "x"]);
    assert_eq!(out, vec![format!("{}.example.com", "ab".replace("", "x"))]);
    assert_eq!(out, vec!["xaxbx.example.com"]);
}

#[test]
fn dash_merges_word_and_label_four_ways() {
    let d = domain("foo.bar.example.com");
    let out = dash_transform(&d, &["baz"]);
    assert_eq!(
        out,
        vec![
            "foo-baz.bar.example.com",
            "baz-foo.bar.example.com",
            "foobaz.bar.example.com",
            "bazfoo.bar.example.com",
            "foo.bar-baz.example.com",
            "foo.baz-bar.example.com",
            "foo.barbaz.example.com",
            "foo.bazbar.example.com",
        ]
    );
    for name in &out {
        assert!(name.ends_with(".example.com"));
    }
}

#[test]
fn dash_of_bare_root_yields_nothing() {
    let d = domain("example.com");
    assert!(dash_transform(&d, &["baz"]).is_empty());
}

#[test]
fn dash_goes_word_by_word() {
    let d = domain("a.example.com");
    let out = dash_transform(&d, &["x", "y"]);
    assert_eq!(
        out,
        vec![
            "a-x.example.com",
            "x-a.example.com",
            "ax.example.com",
            "xa.example.com",
            "a-y.example.com",
            "y-a.example.com",
            "ay.example.com",
            "ya.example.com",
        ]
    );
}

#[test]
fn the_four_merges() {
    assert_eq!(dash::dash("foo", "baz"), "foo-baz");
    assert_eq!(dash::rdash("foo", "baz"), "baz-foo");
    assert_eq!(dash::concat("foo", "baz"), "foobaz");
    assert_eq!(dash::rconcat("foo", "baz"), "bazfoo");
}

#[test]
fn mutation_runs_the_function_it_names() {
    let d = domain("www2.admin.example.com");
    let words = ["admin", "internal"];
    assert_eq!(Mutation::Swap.generate(&d, &words), swap_word_transform(&d, &words));
    assert_eq!(Mutation::Permute.generate(&d, &words), permute_words_transform(&d, &words));
    assert_eq!(Mutation::Numbers.generate(&d, &words), numbers_transform(&d, &words));
    assert_eq!(Mutation::Dash.generate(&d, &words), dash_transform(&d, &words));
    assert_eq!(Mutation::Numbers.generate(&d, &words).len(), 5);
}

#[test]
fn numbers_passes_over_digits_that_are_not_ascii() {
    let d = domain("a٣.example.com");
    assert!(numbers_transform(&d, &[]).is_empty());
    let e = domain("a٣7.example.com");
    assert!(numbers_transform(&e, &[]).is_empty());
}

#[test]
fn every_mutation_keeps_the_root() {
    let words = ["admin", "www", "7", "", "example"];
    let names =
        ["www7.admin-7.example.co.uk", "example.com", "a.b.c.example.org", "x.example.com."];
    for name in names {
        let d = domain(name);
        let tail = format!(".{}", d.root());
        for m in [Mutation::Swap, Mutation::Permute, Mutation::Numbers, Mutation::Dash] {
            for made in m.generate(&d, &words) {
                assert!(made.ends_with(&tail), "{:?} made {:?} of {:?}", m, made, name);
            }
        }
    }
}

#[test]
fn counts_of_permute_and_dash() {
    let words = ["a", "b", "c"];
    let d = domain("x.y.z.example.com");
    assert_eq!(permute_words_transform(&d, &words).len(), 3 * 4);
    assert_eq!(dash_transform(&d, &words).len(), 3 * 4 * 3);
}

#[test]
fn swap_makes_exactly_the_pairs_of_differing_words() {
    let words = ["dev", "api", "qa", "dev"];
    let d = domain("dev.api.example.com");
    let text = "dev.api";
    let mut expected = Vec::new();
    for w in words {
        if text.contains(w) {
            for w2 in words {
                if w2 != w {
                    expected.push(format!("{}.example.com", text.replace(w, w2)));
                }
            }
        }
    }
    assert_eq!(swap_word_transform(&d, &words), expected);
    assert_eq!(expected.len(), 2 + 3 + 2);
}

#[test]
fn dash_goes_label_by_label_within_a_word() {
    let d = domain("a.b.c.example.com");
    let out = dash_transform(&d, &["x", "y"]);
    assert_eq!(out.len(), 2 * 3 * 4);
    assert_eq!(
        out[..12].to_vec(),
        vec![
            "a-x.b.c.example.com",
            "x-a.b.c.example.com",
            "ax.b.c.example.com",
            "xa.b.c.example.com",
            "a.b-x.c.example.com",
            "a.x-b.c.example.com",
            "a.bx.c.example.com",
            "a.xb.c.example.com",
            "a.b.c-x.example.com",
            "a.b.x-c.example.com",
            "a.b.cx.example.com",
            "a.b.xc.example.com",
        ]
    );
    assert_eq!(out[12], "a-y.b.c.example.com");
    assert_eq!(out[23], "a.b.yc.example.com");
}

use addlists::aggregate::data::{Addlist, AddlistConfig, DomainSet};
use addlists::aggregate::lists::{
    accepted, addlist, collapsed, companion, gather, mutate, parse, parse_lines, whitelist,
    without_comment,
};
use addlists::aggregate::validation::{
    canonical, check_encoding, encode, truncate, validate, with_prefix,
};
use addlists::config::Config;
use addlists::text::{decimal, same_text, split_chars, Separator};
use std::collections::HashSet;
use std::sync::Arc;

fn chars(s: &str) -> Vec<char> {
    s.chars().collect()
}

fn text(v: &[char]) -> String {
    v.iter().collect()
}

fn set_of(body: &str) -> HashSet<String> {
    parse(body.to_owned()).into_vec().into_iter().collect()
}

fn names(list: &[&str]) -> HashSet<String> {
    list.iter().map(|s| s.to_string()).collect()
}

fn config_with(prefix: Option<&str>, suffix: Option<&str>) -> AddlistConfig {
    let mut config = Config::default();
    config.prefix = prefix.map(|s| s.to_owned());
    config.suffix = suffix.map(|s| s.to_owned());
    AddlistConfig::new("List", Arc::new(config))
}

fn mutated(list: &[&str]) -> Vec<String> {
    let set = DomainSet::from_vec(list.iter().map(|s| s.to_string()).collect());
    mutate(&config_with(None, None), set)
}

#[test]
fn validate_returns_its_own_output_unchanged() {
    for raw in [
        "rfc-1035.ietf.org",
        "www.müller-büromöbel.de",
        "www.rust-lang.org:443",
        "A.Com",
        "www.rfc-editor.org.",
        "x.y.z/path?query",
    ] {
        let once = validate(raw).unwrap();
        assert_eq!(validate(&once), Some(once.clone()), "input {raw}");
    }
}

#[test]
fn validated_domains_hold_ascii_only() {
    for raw in ["www.müller-büromöbel.de", "bücher.example", "a.b.c", "täst.de#x"] {
        let d = validate(raw).unwrap();
        assert!(d
            .chars()
            .all(|c| c.is_ascii_alphanumeric() || c == '-' || c == '.'));
        for (had, has) in raw.split('.').zip(d.split('.')) {
            assert!(
                (had.is_ascii() && had.starts_with(has)) || has.starts_with("xn--"),
                "{had} became {has}"
            );
        }
    }
    assert_eq!(validate("bücher.example").unwrap(), "xn--bcher-kva.example");
}

#[test]
fn validate_keeps_upper_case() {
    assert_eq!(validate("A.COM"), Some("A.COM".to_owned()));
}

#[test]
fn validate_counts_labels_and_characters() {
    let label63 = "a".repeat(63);
    let label64 = "a".repeat(64);
    assert_eq!(
        validate(&format!("{label63}.com")),
        Some(format!("{label63}.com"))
    );
    assert_eq!(validate(&format!("{label64}.com")), None);
    let name255 = String::from("aa") + ".ccccc".repeat(50).as_str() + ".com";
    assert_eq!(name255.chars().filter(|c| *c != '.').count(), 255);
    assert_eq!(validate(&name255), Some(name255.clone()));
    let name256 = String::from("aac") + ".ccccc".repeat(50).as_str() + ".com";
    assert_eq!(validate(&name256), None);
    assert_eq!(validate("localhost"), None);
    assert_eq!(validate("a..b"), None);
    assert_eq!(validate(""), None);
    assert_eq!(validate("a.b"), Some("a.b".to_owned()));
    assert_eq!(validate("a-.b"), None);
    assert_eq!(validate("a.b-c"), Some("a.b-c".to_owned()));
    assert_eq!(validate("a1.b2"), Some("a1.b2".to_owned()));
    assert_eq!(validate("1a.b2"), None);
}

#[test]
fn canonical_checks_without_normalising() {
    assert!(canonical(&chars("example.com")));
    assert!(!canonical(&chars("example.com.")));
    assert!(!canonical(&chars("example.com:80")));
    assert!(!canonical(&chars("exämple.com")));
}

#[test]
fn truncate_cuts_at_the_first_bad_character() {
    assert_eq!(truncate("?abc.com".to_owned()), "");
    assert_eq!(truncate("abc.com?x.y".to_owned()), "abc.com");
    assert_eq!(truncate("abc.com.".to_owned()), "abc.com");
    assert_eq!(truncate("abc.com..".to_owned()), "abc.com.");
    assert_eq!(truncate("abc.com./x".to_owned()), "abc.com");
    assert_eq!(truncate("abcü.com".to_owned()), "abc");
    assert_eq!(truncate("".to_owned()), "");
    assert_eq!(truncate(".".to_owned()), "");
    assert_eq!(truncate("a_b.com".to_owned()), "a");
}

#[test]
fn encode_leaves_ascii_labels_alone() {
    assert_eq!(encode("a.b.c"), "a.b.c");
    assert_eq!(encode(""), "");
    assert_eq!(encode("."), ".");
    assert_eq!(encode("..a"), "..a");
    assert_eq!(encode("a/b?.c"), "a/b?.c");
    assert_eq!(encode("ü"), "xn--tda");
    assert_eq!(encode("ü.ü"), "xn--tda.xn--tda");
    assert_eq!(encode("académie-française.fr"), "xn--acadmie-franaise-npb1a.fr");
}

#[test]
fn an_encoding_is_checked_before_it_is_used() {
    assert_eq!(
        check_encoding(&chars("bücher"), Some("bcher-kva".to_owned())),
        Some(chars("bcher-kva"))
    );
    assert_eq!(check_encoding(&chars("Bücher"), Some("Bcher-kva".to_owned())), Some(chars("Bcher-kva")));
    assert_eq!(check_encoding(&chars("bücher"), Some("Bcher-kva".to_owned())), None);
    assert_eq!(check_encoding(&chars("bücher"), Some("b.cher-kva".to_owned())), None);
    assert_eq!(check_encoding(&chars("bücher"), Some("bücher".to_owned())), None);
    assert_eq!(check_encoding(&chars("bücher"), None), None);
    assert_eq!(text(&with_prefix(chars("bücher"), Some("b.cher".to_owned()))), "bücher");
}

#[test]
fn with_prefix_puts_the_marker_in_front() {
    assert_eq!(
        text(&with_prefix(chars("bücher"), Some("bcher-kva".to_owned()))),
        "xn--bcher-kva"
    );
    assert_eq!(text(&with_prefix(chars("bücher"), None)), "bücher");
}

#[test]
fn parse_does_not_tell_upper_from_lower_case() {
    assert_eq!(set_of("A.COM"), set_of("a.com"));
    assert_eq!(set_of("a.com"), names(&["a.com"]));
    assert_eq!(set_of("WWW.MÜLLER-BÜROMÖBEL.DE"), set_of("www.müller-büromöbel.de"));
    assert_eq!(
        set_of("Www.Rust-Lang.Org\nDOCS.rs"),
        names(&["www.rust-lang.org", "docs.rs"])
    );
}

#[test]
fn parse_lines_takes_the_text_as_it_is() {
    let have: HashSet<String> = parse_lines("A.com b.com").into_vec().into_iter().collect();
    assert_eq!(have, names(&["A.com", "b.com"]));
}

#[test]
fn parse_drops_comments_and_splits_on_white_space() {
    assert_eq!(
        set_of("adserver.example.com #example.com - Advertising"),
        names(&["adserver.example.com"])
    );
    assert_eq!(set_of("a.com#b.com"), names(&["a.com"]));
    assert_eq!(set_of("# a.com\nb.com"), names(&["b.com"]));
    assert_eq!(set_of("#a.com\r\nb.com\r\n"), names(&["b.com"]));
    assert_eq!(
        set_of("127.0.0.1\ta.com   b.com\u{a0}c.com\u{3000}d.com"),
        names(&["a.com", "b.com", "c.com", "d.com"])
    );
    assert_eq!(set_of("a.com b.com\na.com"), names(&["a.com", "b.com"]));
    assert_eq!(set_of(""), names(&[]));
    assert_eq!(set_of("www.rust-lang.org:443"), names(&["www.rust-lang.org"]));
    assert_eq!(
        set_of("www.müller-büromöbel.de"),
        names(&["www.xn--mller-brombel-rmb4fg.de"])
    );
}

#[test]
fn parse_rejects_what_is_no_domain() {
    let long_label = format!("{}.org", "a".repeat(64));
    for raw in ["127.0.0.1", "1035.ietf.org", "-1035.ietf.org", long_label.as_str()] {
        assert_eq!(set_of(raw), names(&[]), "input {raw}");
    }
}

#[test]
fn parse_holds_each_domain_once() {
    let set = parse("b.com a.com B.COM\na.com".to_owned());
    assert_eq!(set.len(), 2);
    assert_eq!(set.into_vec(), vec!["b.com".to_owned(), "a.com".to_owned()]);
}

#[test]
fn without_comment_cuts_at_the_first_hash() {
    assert_eq!(text(&without_comment(&chars("a # b # c"))), "a ");
    assert_eq!(text(&without_comment(&chars("abc"))), "abc");
    assert_eq!(text(&without_comment(&chars("#abc"))), "");
}

#[test]
fn split_gives_one_piece_more_than_separators() {
    let pieces: Vec<String> = split_chars(&chars(".a..b."), Separator::Dot)
        .iter()
        .map(|p| text(p))
        .collect();
    assert_eq!(pieces, vec!["", "a", "", "b", ""]);
    assert_eq!(split_chars(&chars(""), Separator::Dot), vec![Vec::<char>::new()]);
    let lines: Vec<String> = split_chars(&chars("a b\nc"), Separator::Newline)
        .iter()
        .map(|p| text(p))
        .collect();
    assert_eq!(lines, vec!["a b", "c"]);
    let words: Vec<String> = split_chars(&chars("a \tb"), Separator::Whitespace)
        .iter()
        .map(|p| text(p))
        .collect();
    assert_eq!(words, vec!["a", "", "b"]);
}

#[test]
fn mutate_adds_companions_without_prefix() {
    assert_eq!(
        mutated(&["a.com", "b.com"]),
        vec!["a.com", "b.com", "www.a.com", "www.b.com"]
    );
}

#[test]
fn mutate_sorts_all_lines_together() {
    assert_eq!(mutated(&["x.com"]), vec!["www.x.com", "x.com"]);
    assert_eq!(
        mutated(&["zz.org", "b.a.com", "www.y.net", "a.com"]),
        vec!["a.com", "b.a.com", "www.a.com", "www.y.net", "www.zz.org", "y.net", "zz.org"]
    );
    assert_eq!(mutated(&["B.com", "a.com"]), vec!["B.com", "a.com", "www.B.com", "www.a.com"]);
}

#[test]
fn mutate_goes_by_label_count_and_www() {
    assert_eq!(mutated(&["www.com"]), vec!["www.com"]);
    assert_eq!(mutated(&["www.a.b.com"]), vec!["www.a.b.com"]);
    assert_eq!(mutated(&["a.b.com"]), vec!["a.b.com"]);
    assert_eq!(mutated(&["www.www.com"]), vec!["www.com"]);
    assert_eq!(mutated(&["wwwa.com"]), vec!["www.wwwa.com", "wwwa.com"]);
    assert_eq!(mutated(&[]), Vec::<String>::new());
    assert_eq!(collapsed("www.a.com"), "a.com");
    assert_eq!(collapsed("www.a.b.com"), "www.a.b.com");
    assert_eq!(companion("a.com"), Some("www.a.com".to_owned()));
    assert_eq!(companion("www.com"), None);
    assert_eq!(companion("a.b.com"), None);
}

#[test]
fn mutate_is_a_fixed_point_on_its_own_output() {
    for input in [
        vec!["a.com", "b.com"],
        vec!["www.a.com"],
        vec!["x.com", "www.x.com", "www.www.com", "a.b.c.d", "www.q.r.s"],
        vec![],
    ] {
        let once = mutated(&input);
        let refs: Vec<&str> = once.iter().map(|s| s.as_str()).collect();
        assert_eq!(mutated(&refs), once, "input {input:?}");
    }
}

#[test]
fn mutate_puts_prefix_and_suffix_round_each_line() {
    let set = DomainSet::from_vec(vec!["b.com".to_owned(), "a.co".to_owned()]);
    let lines = mutate(&config_with(Some("127.0.0.1 "), Some(" # ad")), set);
    assert_eq!(
        lines,
        vec![
            "127.0.0.1 a.co # ad",
            "127.0.0.1 b.com # ad",
            "127.0.0.1 www.a.co # ad",
            "127.0.0.1 www.b.com # ad"
        ]
    );
    let only_suffix = mutate(
        &config_with(None, Some("!")),
        DomainSet::from_vec(vec!["a.b.c".to_owned()]),
    );
    assert_eq!(only_suffix, vec!["a.b.c!"]);
}

#[test]
fn prefix_and_suffix_are_empty_where_unset() {
    let plain = config_with(None, None);
    assert_eq!(plain.prefix(), "");
    assert_eq!(plain.suffix(), "");
    let set = config_with(Some("0.0.0.0 "), Some("#x"));
    assert_eq!(set.prefix(), "0.0.0.0 ");
    assert_eq!(set.suffix(), "#x");
    assert_eq!(set.name, "List");
}

#[test]
fn whitelisted_domains_stay_out() {
    let global = DomainSet::from_vec(vec!["www.rust-lang.org".to_owned(), "ads.example.com".to_owned()]);
    for local in [
        None,
        Some(vec![]),
        Some(vec!["docs.rs".to_owned()]),
        Some(vec!["www.rust-lang.org ads.example.com".to_owned()]),
    ] {
        let list = addlist(
            &config_with(None, None),
            &global,
            vec![
                "docs.rs\nwww.rust-lang.org".to_owned(),
                "ads.example.com t.org".to_owned(),
            ],
            local,
        )
        .list;
        assert!(!list.contains(&"www.rust-lang.org".to_owned()));
        assert!(!list.contains(&"ads.example.com".to_owned()));
        assert!(list.contains(&"t.org".to_owned()));
    }
}

#[test]
fn a_whitelisted_domain_comes_back_with_its_sibling() {
    let global = DomainSet::from_vec(vec!["www.rust-lang.org".to_owned()]);
    let list = addlist(
        &config_with(None, None),
        &global,
        vec!["rust-lang.org".to_owned()],
        None,
    )
    .list;
    assert_eq!(list, vec!["rust-lang.org", "www.rust-lang.org"]);
}

#[test]
fn addlist_leaves_out_the_global_whitelist() {
    let global = DomainSet::from_vec(vec!["www.rust-lang.org".to_owned()]);
    let have = addlist(
        &config_with(None, None),
        &global,
        vec!["docs.rs\nwww.rust-lang.org".to_owned()],
        None,
    );
    assert_eq!(
        have,
        Addlist {
            name: "List".to_owned(),
            list: vec!["docs.rs".to_owned(), "www.docs.rs".to_owned()],
        }
    );
}

#[test]
fn addlist_takes_all_sources_together() {
    let have = addlist(
        &config_with(None, None),
        &DomainSet::new(),
        vec!["b.org".to_owned(), "".to_owned(), "A.org # x\nb.org".to_owned()],
        Some(vec!["c.org".to_owned()]),
    );
    assert_eq!(have.list, vec!["a.org", "b.org", "www.a.org", "www.b.org"]);
    let none = addlist(&config_with(None, None), &DomainSet::new(), vec![], None);
    assert_eq!(none.list, Vec::<String>::new());
}

#[test]
fn no_sources_mean_no_whitelist() {
    assert!(whitelist(None).is_none());
    let empty = whitelist(Some(vec![])).unwrap();
    assert!(empty.is_empty());
    let some = whitelist(Some(vec!["a.com\nb.com".to_owned(), "B.COM c.com".to_owned()])).unwrap();
    let have: HashSet<String> = some.into_vec().into_iter().collect();
    assert_eq!(have, names(&["a.com", "b.com", "c.com"]));
    assert_eq!(gather(&vec!["x.y".to_owned()]).into_vec(), vec!["x.y"]);
}

#[test]
fn domain_sets_hold_each_domain_once() {
    let mut set = DomainSet::new();
    assert_eq!(set.len(), 0);
    assert!(set.insert("a.com".to_owned()));
    assert!(!set.insert("a.com".to_owned()));
    assert!(set.insert("b.com".to_owned()));
    assert!(set.contains("a.com"));
    assert!(!set.contains("c.com"));
    assert_eq!(set.len(), 2);
    assert_eq!(set.items(), &vec!["a.com".to_owned(), "b.com".to_owned()]);
    let other = DomainSet::from_vec(vec!["b.com".to_owned(), "b.com".to_owned(), "z.com".to_owned()]);
    assert_eq!(other.len(), 2);
    assert_eq!(set.difference(&other).into_vec(), vec!["a.com"]);
    assert_eq!(other.difference(&set).into_vec(), vec!["z.com"]);
}

#[test]
fn only_status_200_is_accepted() {
    assert!(accepted(200));
    for status in [0, 199, 201, 204, 301, 404, 500, u16::MAX] {
        assert!(!accepted(status));
    }
}

#[test]
fn numbers_are_written_in_decimal() {
    assert_eq!(decimal(0), "0");
    assert_eq!(decimal(7), "7");
    assert_eq!(decimal(10), "10");
    assert_eq!(decimal(1_000_000), "1000000");
    assert_eq!(decimal(9_876_543_210), "9876543210");
    assert_eq!(decimal(usize::MAX), usize::MAX.to_string());
}

#[test]
fn same_text_compares_by_characters() {
    assert!(same_text("abc", "abc"));
    assert!(!same_text("abc", "abd"));
    assert!(!same_text("abc", "ab"));
    assert!(same_text("", ""));
    assert!(same_text("ü", "ü"));
}

#[test]
fn white_space_is_what_the_standard_library_calls_so() {
    for code in 0..=0x10ffffu32 {
        if let Some(c) = char::from_u32(code) {
            assert_eq!(addlists::text::whitespace(c), c.is_whitespace(), "U+{code:04X}");
        }
    }
}

#[test]
fn character_classes_are_ascii_only() {
    for code in 0..=0x2ffu32 {
        let c = char::from_u32(code).unwrap();
        assert_eq!(addlists::text::letter(c), c.is_ascii_alphabetic());
        assert_eq!(addlists::text::alphanumeric(c), c.is_ascii_alphanumeric());
        assert_eq!(
            addlists::text::domain_char(c),
            c.is_ascii_alphanumeric() || c == '-' || c == '.'
        );
    }
    assert!(addlists::text::ascii_text(&chars("abc~\u{7f}")));
    assert!(!addlists::text::ascii_text(&chars("abc\u{80}")));
}

#[test]
fn parsed_domains_are_canonical_and_in_lower_case() {
    let body = "WWW.Example.COM\nBÜCHER.Example\tMiXeD.Org # Comment.COM\nXN--BCHER-KVA.DE";
    let domains = parse(body.to_owned()).into_vec();
    assert_eq!(
        domains,
        vec![
            "www.example.com",
            "xn--bcher-kva.example",
            "mixed.org",
            "xn--bcher-kva.de"
        ]
    );
    for d in domains {
        assert_eq!(d, d.to_lowercase());
        assert_eq!(validate(&d), Some(d.clone()));
    }
}

#[test]
fn validated_labels_come_from_the_labels_at_the_same_place() {
    for raw in [
        "www.müller-büromöbel.de",
        "a.b.c:80",
        "Bücher.Example./x",
        "x.yz/q",
        "ü.ü.ü",
        "a.bé/c",
    ] {
        let name = validate(raw).unwrap();
        let had: Vec<&str> = raw.split('.').collect();
        let has: Vec<&str> = name.split('.').collect();
        assert!(has.len() <= had.len());
        for (i, label) in has.iter().enumerate() {
            let whole = encode(had[i]);
            assert!(whole.starts_with(label), "{raw}: {label}");
            if i + 1 < has.len() {
                assert_eq!(*label, whole);
            }
            if had[i].is_ascii() {
                assert!(had[i].starts_with(label));
            } else {
                assert!(label.starts_with("xn--"));
            }
        }
    }
}

use addlists::aggregate::data::{Addlist, AddlistConfig, AddlistSources, DomainSet};
use addlists::aggregate::lists::{addlist, mutate, parse};
use addlists::config::Config;
use std::collections::HashSet;
use std::sync::Arc;

fn config_for(sources: AddlistSources) -> AddlistConfig {
    let mut config = Config::default();
    config.delay = None;
    config.prefix = None;
    config.suffix = None;
    config.addlist = vec![("Addlist".to_owned(), sources)];
    AddlistConfig {
        name: "Addlist".to_owned(),
        config: Arc::new(config),
    }
}

fn unadorned() -> AddlistConfig {
    let mut config = Config::default();
    config.prefix = None;
    config.suffix = None;
    AddlistConfig {
        name: String::from("New"),
        config: Arc::new(config),
    }
}

#[test]
fn lists_test_addlist_whitelist() {
    let config = config_for(AddlistSources {
        addlist: vec!["http://localhost/addlist".to_owned()],
        whitelist: None,
    });
    let whitelist = DomainSet::from_vec(vec!["www.rust-lang.org".to_owned()]);

    let have = addlist(
        &config,
        &whitelist,
        vec!["docs.rs\nwww.rust-lang.org".to_owned()],
        None,
    );
    let want = Addlist {
        name: "Addlist".to_owned(),
        list: vec!["docs.rs".to_owned(), "www.docs.rs".to_owned()],
    };
    assert_eq!(want, have);
}

#[test]
fn lists_test_addlist_local_whitelist() {
    let config = config_for(AddlistSources {
        addlist: vec!["http://localhost/addlist".to_owned()],
        whitelist: Some(vec!["http://localhost/whitelist".to_owned()]),
    });
    let whitelist = DomainSet::from_vec(vec!["www.rust-lang.org".to_owned()]);

    let have = addlist(
        &config,
        &whitelist,
        vec!["docs.rs\nwww.rust-lang.org\nt.org".to_owned()],
        Some(vec!["docs.rs\nwww.rust-lang.org".to_owned()]),
    );
    let want = Addlist {
        name: "Addlist".to_owned(),
        list: vec!["t.org".to_owned(), "www.t.org".to_owned()],
    };
    assert_eq!(want, have);
}

#[test]
fn lists_test_parse_valid() {
    let raw = vec![
        String::from("aa") + ".ccccc".repeat(50).as_str() + ".com",
        String::from("docs.rs"),
        String::from("rust-lang.org"),
        String::from("t.org"),
        String::from("xn--mller-brombel-rmb4fg.de"),
    ];
    let want: HashSet<String> = HashSet::from_iter(raw.clone());
    let have: HashSet<String> = HashSet::from_iter(parse(raw.join("\n")).into_vec());
    assert_eq!(want, have);
}

#[test]
fn lists_test_parse_invaid() {
    let raw = vec![
        String::from("-analytics/analytics."),
        String::from("::1"),
        String::from(".php?action_name="),
        String::from("/_log?ocid="),
        String::from("&action=confection_send_data&"),
        String::from("#doc.rust-lang.org"),
        String::from("||seekingalpha.com/mone_event"),
        String::from("1035.ietf.org"),
        String::from("127.0.0.1"),
        String::from("aac") + ".ccccc".repeat(50).as_str() + ".com",
        String::from("rfc---------------------------------------------------------1035.ietf.org"),
        String::from("rfc1035-.ietf.org"),
        String::from("rfc1035.?itf.org"),
    ];
    let want: HashSet<String> = HashSet::new();
    let have: HashSet<String> = HashSet::from_iter(parse(raw.join("\n")).into_vec());
    assert_eq!(want, have);
}

#[test]
fn lists_test_parse_truncate() {
    let raw = vec![
        String::from("adserver.example.com #example.com - Advertising"),
        String::from("www.reddit.com/r/learnrust/"),
        String::from("www.rfc-editor.org."),
        String::from("www.rust-lang.org:443"),
    ];
    let want: HashSet<String> = HashSet::from_iter([
        String::from("adserver.example.com"),
        String::from("www.reddit.com"),
        String::from("www.rfc-editor.org"),
        String::from("www.rust-lang.org"),
    ]);
    let have: HashSet<String> = HashSet::from_iter(parse(raw.join("\n")).into_vec());
    assert_eq!(want, have);
}

#[test]
fn lists_test_parse_punicode() {
    let raw = vec![String::from("www.müller-büromöbel.de")];
    let want: HashSet<String> =
        HashSet::from_iter([String::from("www.xn--mller-brombel-rmb4fg.de")]);
    let have: HashSet<String> = HashSet::from_iter(parse(raw.join("\n")).into_vec());
    assert_eq!(want, have);
}

#[test]
fn lists_test_mutate_add() {
    let premut = DomainSet::from_vec(vec![
        String::from("a.com"),
        String::from("b.com"),
        String::from("c.com"),
    ]);
    let want = vec![
        String::from("a.com"),
        String::from("b.com"),
        String::from("c.com"),
        String::from("www.a.com"),
        String::from("www.b.com"),
        String::from("www.c.com"),
    ];
    let have = mutate(&unadorned(), premut);
    assert_eq!(want, have);
}

#[test]
fn lists_test_mutate_remove() {
    let premut = DomainSet::from_vec(vec![
        String::from("www.a.com"),
        String::from("www.b.com"),
        String::from("www.c.com"),
    ]);
    let want = vec![
        String::from("a.com"),
        String::from("b.com"),
        String::from("c.com"),
        String::from("www.a.com"),
        String::from("www.b.com"),
        String::from("www.c.com"),
    ];
    let have = mutate(&unadorned(), premut);
    assert_eq!(want, have);
}

#[test]
fn lists_test_mutate_duplicate() {
    let premut = DomainSet::from_vec(vec![
        String::from("a.com"),
        String::from("b.com"),
        String::from("c.com"),
        String::from("www.a.com"),
        String::from("www.b.com"),
        String::from("www.c.com"),
    ]);
    let want = vec![
        String::from("a.com"),
        String::from("b.com"),
        String::from("c.com"),
        String::from("www.a.com"),
        String::from("www.b.com"),
        String::from("www.c.com"),
    ];
    let have = mutate(&unadorned(), premut);
    assert_eq!(want, have);
}

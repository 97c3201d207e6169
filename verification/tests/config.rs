use addlists::config::Config;
use std::cmp::max;

#[test]
fn config_test_config_default_threads() {
    let config = Config::default();
    assert!(config.threads.unwrap() == max(num_cpus::get() / 2, 1));
}

#[test]
fn test_config_default_delay() {
    let config = Config::default();
    assert!(config.delay.unwrap() == 1_000);
}

#[test]
fn config_test_config_default_size() {
    let config = Config::default();
    assert!(config.size.unwrap() == 1_000_000);
}

#[test]
fn default_for_a_host_with_one_core_asks_for_one_worker() {
    assert_eq!(Config::default_for(1).threads, Some(1));
    assert_eq!(Config::default_for(0).threads, Some(1));
    assert_eq!(Config::default_for(9).threads, Some(4));
}

#[test]
fn default_names_two_addlists() {
    let config = Config::default();
    assert_eq!(config.version, 1);
    assert_eq!(config.path, "./addlists");
    assert_eq!(config.prefix.as_deref(), Some("127.0.0.1 "));
    assert_eq!(config.suffix.as_deref(), Some("# Some text here."));
    let names: Vec<&str> = config.addlist.iter().map(|(n, _)| n.as_str()).collect();
    assert_eq!(names, vec!["AddlistOne", "AddlistTwo"]);
    assert_eq!(
        config.addlist[0].1.addlist,
        vec!["https://1.example.local", "https://2.example.local"]
    );
    assert_eq!(config.addlist[1].1.whitelist, None);
    assert_eq!(
        config.whitelist,
        Some(vec![
            "https://global.whitelist1.local".to_owned(),
            "https://global.whitelist2.local".to_owned()
        ])
    );
}

#[test]
fn sources_are_found_by_name() {
    let config = Config::default();
    let two = config.sources("AddlistTwo").unwrap();
    assert_eq!(
        two.addlist,
        vec!["https://3.example.local", "https://4.example.local"]
    );
    assert!(config.sources("AddlistThree").is_none());
    assert!(config.sources("addlistone").is_none());
}

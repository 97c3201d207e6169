use addlists::aggregate::data::{Addlist, AddlistConfig};
use addlists::config::Config;
use addlists::store::{output_files, OutputFile};
use std::sync::Arc;

fn config(size: Option<usize>) -> AddlistConfig {
    let mut config = Config::default();
    config.size = size;
    config.path = "./out".to_owned();
    AddlistConfig::new("Ads", Arc::new(config))
}

fn list(lines: &[&str]) -> Addlist {
    Addlist {
        name: "Ads".to_owned(),
        list: lines.iter().map(|s| s.to_string()).collect(),
    }
}

fn file(path: &str, content: &str) -> OutputFile {
    OutputFile {
        path: path.to_owned(),
        content: content.to_owned(),
    }
}

#[test]
fn without_a_size_there_is_one_file() {
    assert_eq!(
        output_files(&config(None), &list(&["a.com", "b.com", "c.com"])),
        vec![file("./out/Ads.addlist", "a.com\r\nb.com\r\nc.com")]
    );
    assert_eq!(
        output_files(&config(None), &list(&["a.com"])),
        vec![file("./out/Ads.addlist", "a.com")]
    );
    assert_eq!(
        output_files(&config(None), &list(&[])),
        vec![file("./out/Ads.addlist", "")]
    );
}

#[test]
fn with_a_size_there_is_a_file_for_each_chunk() {
    assert_eq!(
        output_files(&config(Some(2)), &list(&["a", "b", "c", "d", "e"])),
        vec![
            file("./out/0-Ads.addlist", "a\r\nb"),
            file("./out/1-Ads.addlist", "c\r\nd"),
            file("./out/2-Ads.addlist", "e"),
        ]
    );
    assert_eq!(
        output_files(&config(Some(2)), &list(&["a", "b"])),
        vec![file("./out/0-Ads.addlist", "a\r\nb")]
    );
    assert_eq!(
        output_files(&config(Some(5)), &list(&["a", "b"])),
        vec![file("./out/0-Ads.addlist", "a\r\nb")]
    );
    assert_eq!(
        output_files(&config(Some(usize::MAX)), &list(&["a", "b"])),
        vec![file("./out/0-Ads.addlist", "a\r\nb")]
    );
    assert_eq!(output_files(&config(Some(3)), &list(&[])), vec![]);
}

#[test]
fn chunk_numbers_are_decimal() {
    let lines: Vec<String> = (0..12).map(|n| format!("d{n}.com")).collect();
    let refs: Vec<&str> = lines.iter().map(|s| s.as_str()).collect();
    let files = output_files(&config(Some(1)), &list(&refs));
    assert_eq!(files.len(), 12);
    assert_eq!(files[0], file("./out/0-Ads.addlist", "d0.com"));
    assert_eq!(files[10], file("./out/10-Ads.addlist", "d10.com"));
    assert_eq!(files[11], file("./out/11-Ads.addlist", "d11.com"));
}

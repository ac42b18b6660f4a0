use open_tab::settings::{add_remote, remove_remote, AppSettings, RemoteSettings};

fn remote(url: &str, name: &str) -> RemoteSettings {
    RemoteSettings { url: url.to_string(), name: name.to_string(), account_name: None }
}

#[test]
fn default_settings_know_two_servers() {
    let s = AppSettings::default();
    let urls: Vec<&str> = s.known_remotes.iter().map(|r| r.url.as_str()).collect();
    assert_eq!(urls, vec!["https://api.debateresult.com", "http://localhost:3000"]);
    assert_eq!(s.known_remotes[0].name, "Default");
    assert!(s.known_api_keys.is_empty());
}

#[test]
fn adding_a_known_url_replaces_it_at_the_end() {
    let mut s = AppSettings::default();
    add_remote(&mut s, remote("https://api.debateresult.com", "Renamed"));
    assert_eq!(s.known_remotes.len(), 2);
    assert_eq!(s.known_remotes[0].url, "http://localhost:3000");
    assert_eq!(s.known_remotes[1].name, "Renamed");
    add_remote(&mut s, remote("https://example.org", "Other"));
    assert_eq!(s.known_remotes.len(), 3);
    assert_eq!(s.known_remotes[2].url, "https://example.org");
}

#[test]
fn removing_a_url_keeps_the_others_in_order() {
    let mut s = AppSettings::default();
    add_remote(&mut s, remote("https://example.org", "Other"));
    remove_remote(&mut s, "http://localhost:3000".to_string());
    let urls: Vec<&str> = s.known_remotes.iter().map(|r| r.url.as_str()).collect();
    assert_eq!(urls, vec!["https://api.debateresult.com", "https://example.org"]);
    remove_remote(&mut s, "https://nowhere".to_string());
    assert_eq!(s.known_remotes.len(), 2);
}

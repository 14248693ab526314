use journal_tasks::ConfigError;
use journal_tasks::config::{config_file_path, resolve_store_root_with};

#[test]
fn no_config_file_falls_back_to_default() {
    let r = resolve_store_root_with(Some(String::from("/home/u")), None).expect("resolve");
    assert_eq!(r, "/home/u/Documents/journals");
}

#[test]
fn configured_path_is_taken_verbatim() {
    let cfg = String::from("default_path = \"/x/y\"\n");
    let r = resolve_store_root_with(Some(String::from("/home/u")), Some(cfg)).expect("resolve");
    assert_eq!(r, "/x/y");
}

#[test]
fn unparsable_config_is_an_error() {
    let cfg = String::from("this is ] not [[ a document");
    let r = resolve_store_root_with(Some(String::from("/home/u")), Some(cfg));
    assert_eq!(r.unwrap_err(), ConfigError::ConfigParse);
}

#[test]
fn config_without_the_key_falls_back() {
    let cfg = String::from("other = 3\n");
    let r = resolve_store_root_with(Some(String::from("/home/u")), Some(cfg)).expect("resolve");
    assert_eq!(r, "/home/u/Documents/journals");
}

#[test]
fn non_string_key_falls_back() {
    let cfg = String::from("default_path = 3\n");
    let r = resolve_store_root_with(Some(String::from("/home/u")), Some(cfg)).expect("resolve");
    assert_eq!(r, "/home/u/Documents/journals");
}

#[test]
fn missing_home_directory_is_an_error() {
    let r = resolve_store_root_with(None, None);
    assert_eq!(r.unwrap_err(), ConfigError::HomeDirUnavailable);
    let cfg = String::from("default_path = \"/x/y\"\n");
    let r2 = resolve_store_root_with(None, Some(cfg));
    assert_eq!(r2.unwrap_err(), ConfigError::HomeDirUnavailable);
}

#[test]
fn home_with_trailing_separator() {
    let r = resolve_store_root_with(Some(String::from("/home/u/")), None).expect("resolve");
    assert_eq!(r, "/home/u/Documents/journals");
}

#[test]
fn config_file_location_under_home() {
    assert_eq!(
        config_file_path("/home/u"),
        "/home/u/.config/file-journal/config.toml"
    );
}

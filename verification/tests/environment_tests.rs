use woman::config::woman_dir_components;
use woman::locale::target_locale;

fn s(x: &str) -> Option<String> {
    Some(x.to_string())
}

#[test]
fn test_target_locale_order() {
    assert_eq!(target_locale(s("de_DE"), s("fr_FR"), s("zh_CN")), "de_DE");
    assert_eq!(target_locale(None, s("fr_FR"), s("zh_CN")), "fr_FR");
    assert_eq!(target_locale(None, None, s("zh_CN.UTF-8")), "zh_CN.UTF-8");
    assert_eq!(target_locale(None, None, None), "C");
    assert_eq!(target_locale(s(""), s("fr_FR"), None), "");
}

#[test]
fn test_woman_dir_components() {
    assert_eq!(woman_dir_components(s("/x"), s("/h")).unwrap(), vec!["/x", "woman"]);
    assert_eq!(
        woman_dir_components(s(""), s("/h")).unwrap(),
        vec!["/h", ".local", "share", "woman"]
    );
    assert_eq!(
        woman_dir_components(None, s("/h")).unwrap(),
        vec!["/h", ".local", "share", "woman"]
    );
    assert_eq!(
        woman_dir_components(None, None).unwrap_err(),
        "HOME environment variable is not set"
    );
}

use skely::app::App;
use skely::settings::Settings;
use skely::skeleton::Skeleton;

#[test]
fn settings_new_is_unset() {
    let s = Settings::new();
    assert!(s.editor.is_none());
    assert!(s.placeholder.is_none());
}

#[test]
fn settings_default_values() {
    let s = Settings::default();
    assert_eq!(s.editor.as_deref(), Some(""));
    assert_eq!(s.placeholder.as_deref(), Some("PLACEHOLDER"));
}

#[test]
fn settings_from_parts_drops_empty_fields() {
    let s = Settings::from_parts(Some("".to_string()), Some("".to_string()));
    assert!(s.editor.is_none());
    assert!(s.placeholder.is_none());

    let s = Settings::from_parts(Some("hx".to_string()), None);
    assert_eq!(s.editor.as_deref(), Some("hx"));
    assert!(s.placeholder.is_none());
}

#[test]
fn skeleton_from_path_buf_strips_sk_extension() {
    let sk = Skeleton::from_path_buf("/home/u/.config/sk/skeletons/rust.sk".to_string()).unwrap();
    assert_eq!(sk.id, "rust");
    assert_eq!(sk.path, "/home/u/.config/sk/skeletons/rust.sk");
}

#[test]
fn skeleton_from_path_buf_directory_keeps_name() {
    let sk = Skeleton::from_path_buf("/cfg/skeletons/webapp".to_string()).unwrap();
    assert_eq!(sk.id, "webapp");
}

#[test]
fn skeleton_from_path_buf_drops_every_sk_occurrence() {
    let sk = Skeleton::from_path_buf("a.sk.sk".to_string()).unwrap();
    assert_eq!(sk.id, "a");
}

#[test]
fn skeleton_from_path_buf_rejects_bare_root() {
    assert!(Skeleton::from_path_buf("/".to_string()).is_err());
}

#[test]
fn app_new_is_empty() {
    let app = App::new();
    assert!(app.items.is_empty());
    assert!(app.settings.editor.is_none());
}

#[test]
fn skeleton_by_id_finds_first_match() {
    let mut app = App::new();
    app.items.push(Skeleton { id: "rust".to_string(), path: "/a/rust.sk".to_string() });
    app.items.push(Skeleton { id: "web".to_string(), path: "/a/web".to_string() });
    let found = app.skeleton_by_id("web").unwrap();
    assert_eq!(found.path, "/a/web");
    assert!(app.skeleton_by_id("cli").is_none());
}

#[test]
fn config_path_in_appends_config_sk() {
    assert_eq!(App::config_path_in("/home/u"), "/home/u/.config/sk");
    assert_eq!(App::config_path_in(""), "/.config/sk");
}

#[test]
fn config_paths_share_the_config_directory() {
    // the home directory is machine-dependent; the shape of the paths is not
    if let Ok(p) = App::config_path() {
        assert!(p.ends_with("/.config/sk"));
        let f = App::config_file_path().unwrap();
        assert!(f.ends_with("/.config/sk/config.toml"));
        let s = App::skeletons_path().unwrap();
        assert!(s.ends_with("/.config/sk/skeletons"));
        assert!(f.starts_with(&p));
        assert!(s.starts_with(&p));
    }
}

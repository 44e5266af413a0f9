use human_number::Options;

#[test]
fn default_options() {
    let options = Options::default();
    assert_eq!(options.decimals(), 2);
    assert_eq!(options.separator(), " ");
    assert_eq!(options.unit(), None);
    assert!(!options.force_sign());
}

#[test]
fn new_options() {
    let options = Options::new(5, "::", Some("m"));
    assert_eq!(options.decimals(), 5);
    assert_eq!(options.separator(), "::");
    assert_eq!(options.unit(), Some("m"));
    assert!(!options.force_sign());
    let bare = Options::new(0, "", None);
    assert_eq!(bare.decimals(), 0);
    assert_eq!(bare.separator(), "");
    assert_eq!(bare.unit(), None);
}

#[test]
fn setters_touch_one_option_each() {
    let mut options = Options::default();
    options.set_decimals(7);
    assert_eq!(options.decimals(), 7);
    assert_eq!(options.separator(), " ");
    options.set_separator("\t");
    assert_eq!(options.separator(), "\t");
    assert_eq!(options.decimals(), 7);
    options.set_unit("B");
    assert_eq!(options.unit(), Some("B"));
    options.set_force_sign(true);
    assert!(options.force_sign());
    options.set_force_sign(false);
    assert!(!options.force_sign());
    assert_eq!(options.unit(), Some("B"));
}

#[test]
fn builders_chain() {
    let options = Options::default()
        .with_decimals(3)
        .with_separator("")
        .with_unit("g")
        .with_force_sign(true);
    assert_eq!(options.decimals(), 3);
    assert_eq!(options.separator(), "");
    assert_eq!(options.unit(), Some("g"));
    assert!(options.force_sign());
}

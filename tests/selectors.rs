use sass_rta::ambuster::has_evil_amp;

#[test]
fn test_has_evil_amp_false() {
    assert_eq!(has_evil_amp(".a"), false);
    assert_eq!(has_evil_amp("& a a &"), false);
    assert_eq!(has_evil_amp("&#a"), false);
    assert_eq!(has_evil_amp("&.a"), false);
    assert_eq!(has_evil_amp("&:a a:&"), false);
    assert_eq!(has_evil_amp("&+a a+&"), false);
    assert_eq!(has_evil_amp("&>a a>&"), false);
    assert_eq!(has_evil_amp("&~a a~&"), false);
    assert_eq!(has_evil_amp("&[a"), false);
}

#[test]
fn test_has_evil_amp_true() {
    assert_eq!(has_evil_amp("&a"), true);
    assert_eq!(has_evil_amp("&-a"), true);
    assert_eq!(has_evil_amp("&_a"), true);

    assert_eq!(has_evil_amp("a&"), true);
    assert_eq!(has_evil_amp("a-&"), true);
    assert_eq!(has_evil_amp("a_&"), true);
}

use catseq::args::{classify_arg, options, ArgKind, CatArg, InputError};

#[test]
fn dash_is_standard_input() {
    let defs = options();
    assert_eq!(classify_arg("-", &defs), ArgKind::Stdin);
}

#[test]
fn known_options_match_by_either_spelling() {
    let defs = options();
    assert_eq!(classify_arg("-h", &defs), ArgKind::Opt(0));
    assert_eq!(classify_arg("--help", &defs), ArgKind::Opt(0));
    assert_eq!(classify_arg("-n", &defs), ArgKind::Opt(1));
    assert_eq!(classify_arg("--number", &defs), ArgKind::Opt(1));
    assert_eq!(classify_arg("-E", &defs), ArgKind::Opt(2));
    assert_eq!(classify_arg("--show-ends", &defs), ArgKind::Opt(2));
    assert_eq!(classify_arg("-s", &defs), ArgKind::Opt(3));
    assert_eq!(classify_arg("--squeeze-blank", &defs), ArgKind::Opt(3));
    assert_eq!(classify_arg("-v", &defs), ArgKind::Opt(4));
    assert_eq!(classify_arg("--version", &defs), ArgKind::Opt(4));
}

#[test]
fn unknown_dashed_arguments_are_unrecognized() {
    let defs = options();
    assert_eq!(classify_arg("-x", &defs), ArgKind::Unrecognized);
    assert_eq!(classify_arg("--nonsense", &defs), ArgKind::Unrecognized);
}

#[test]
fn everything_else_is_a_file_name() {
    let defs = options();
    assert_eq!(classify_arg("notes.txt", &defs), ArgKind::File);
    assert_eq!(classify_arg("h", &defs), ArgKind::File);
    assert_eq!(classify_arg("", &defs), ArgKind::File);
}

#[test]
fn option_table_holds_the_five_flags() {
    let defs = options();
    assert_eq!(defs.len(), 5);
    assert!(matches!(defs[0].arg, CatArg::Help));
    assert!(matches!(defs[1].arg, CatArg::Number));
    assert!(matches!(defs[2].arg, CatArg::Ends));
    assert!(matches!(defs[3].arg, CatArg::Squeeze));
    assert!(matches!(defs[4].arg, CatArg::Version));
    assert_eq!(defs[2].shortname, "-E");
    assert_eq!(defs[2].longname, "--show-ends");
}

#[test]
fn input_error_messages_name_the_cause() {
    assert_eq!(InputError::NotFound.message(), "no such file or directory");
    assert_eq!(InputError::PermissionDenied.message(), "permission denied");
    assert_eq!(InputError::IsDirectory.message(), "is a directory");
    assert_eq!(InputError::Unknown.message(), "unknown error");
}

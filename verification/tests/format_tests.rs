use catseq::formats::{detect_precision, validate_format, FormatError};

#[test]
fn precision_detection() {
    assert_eq!(detect_precision("3.14"), 2);
    assert_eq!(detect_precision(""), 0);
    assert_eq!(detect_precision("314"), 0);
}

#[test]
fn simple_format() {
    for fmt in vec!["%a", "%e", "%f", "%g", "%A", "%E", "%F", "%G"] {
        assert!(validate_format(fmt).is_ok());
    }
}

#[test]
fn simple_precision() {
    assert!(validate_format("%.3f").is_ok());
    assert!(validate_format("%.32g").is_ok());
}

#[test]
fn no_format() {
    assert!(validate_format("").is_err());
    assert!(validate_format("%").is_err());
    assert!(validate_format("%%").is_err());
    assert!(validate_format("nothing").is_err());
}

#[test]
fn bad_format() {
    assert!(validate_format("%00f").is_err());
    assert!(validate_format("%c").is_err());
    assert!(validate_format("%f%n").is_err());
}

#[test]
fn percent_escape() {
    assert!(validate_format("%f%%").is_ok());
    assert!(validate_format("%f%%%").is_err());
    assert!(validate_format("%f%%%%").is_ok());
    assert!(validate_format("%%f").is_err());
}

#[test]
fn bad_flag() {
    assert!(validate_format("%x3f").is_err());
    assert!(validate_format("%*3f").is_err());
}

#[test]
fn good_flag() {
    for flag in vec!["%0f", "%+f", "%-f", "%#f", "%+#-f", "% f"] {
        assert!(validate_format(flag).is_ok());
    }
}

#[test]
fn flags_width_and_precision_together() {
    assert!(validate_format("%+#-f").is_ok());
    assert!(validate_format("%12f").is_ok());
    assert!(validate_format("%012.3f").is_ok());
    assert!(validate_format("%- 8.0e").is_ok());
    assert!(validate_format("x %g y").is_ok());
}

#[test]
fn each_error_variant_has_an_input() {
    assert_eq!(validate_format(""), Err(FormatError::NoFormatFound));
    assert_eq!(validate_format("%%f"), Err(FormatError::NoFormatFound));
    assert_eq!(validate_format("%"), Err(FormatError::EmptySpecifier));
    assert_eq!(validate_format("%+"), Err(FormatError::EmptySpecifier));
    assert_eq!(validate_format("%c"), Err(FormatError::InvalidSpecifier));
    assert_eq!(validate_format("%x3f"), Err(FormatError::InvalidSpecifier));
    assert_eq!(validate_format("%.f"), Err(FormatError::InsufficientDigits));
    assert_eq!(validate_format("%++f"), Err(FormatError::DuplicatedFlags));
    assert_eq!(validate_format("%00f"), Err(FormatError::DuplicatedFlags));
    assert_eq!(validate_format("%f%n"), Err(FormatError::UnescapedPercent));
    assert_eq!(validate_format("%f%%%"), Err(FormatError::UnescapedPercent));
    assert_eq!(validate_format("%%%"), Err(FormatError::UnescapedPercent));
}

#[test]
fn error_messages_name_the_offence() {
    assert_eq!(FormatError::NoFormatFound.message(), "no format found");
    assert_eq!(FormatError::DuplicatedFlags.message(), "duplicated format flags");
    assert_eq!(FormatError::EmptySpecifier.message(), "empty format specifier");
    assert_eq!(FormatError::InvalidSpecifier.message(), "invalid specifier");
    assert_eq!(
        FormatError::UnescapedPercent.message(),
        "unescaped sequence of '%' is invalid"
    );
    assert_eq!(
        FormatError::InsufficientDigits.message(),
        "expected at least 1 digits to be found"
    );
}

#[test]
fn precision_of_operands_as_written() {
    assert_eq!(detect_precision("1"), 0);
    assert_eq!(detect_precision("3"), 0);
    assert_eq!(detect_precision("0.5"), 1);
    assert_eq!(detect_precision("1.50"), 2);
    assert_eq!(detect_precision("2."), 0);
    assert_eq!(detect_precision(".25"), 2);
}

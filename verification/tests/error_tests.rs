use kissat::error::{error_message, error_message_start};

#[test]
fn plain_error_message() {
    assert_eq!(error_message("error", "invalid option '--x'", false), "kissat: error: invalid option '--x'\n");
    assert_eq!(error_message_start("fatal error", false), "kissat: fatal error: ");
}

#[test]
fn coloured_error_message() {
    assert_eq!(
        error_message("error", "oops", true),
        "\x1b[1mkissat: \x1b[31merror: \x1b[0moops\n"
    );
}

use rsync_chunks::cli::action::wrap;
use rsync_chunks::cli::def::{Actions, Args, DEFAULT_CURSOR_NAME};

fn args(color: bool, no_color: bool) -> Args {
    Args {
        color,
        no_color,
        log_time: false,
        verbose: 0,
        log: None,
        action: Some(Actions::Next {
            file_name: "/var/log/rsyncd.log".to_string(),
            cursor_name: DEFAULT_CURSOR_NAME.to_string(),
        }),
    }
}

#[test]
fn color_flags_force_the_mode() {
    assert_eq!(args(true, false).color_override(), Some(true));
    assert_eq!(args(false, true).color_override(), Some(false));
    assert_eq!(args(false, false).color_override(), None);
    assert_eq!(args(true, true).color_override(), Some(true));
}

#[test]
fn wrap_answer_follows_the_wrapping() {
    assert_eq!(wrap::run(Ok(())), Ok(true));
    assert_eq!(wrap::run(Err("failed".to_string())), Err("failed".to_string()));
}

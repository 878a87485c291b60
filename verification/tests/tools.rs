use baken::tools::{check_ffmpeg, ToolError};

#[test]
fn a_working_ffmpeg_passes() {
    assert_eq!(check_ffmpeg(true, b"ffmpeg version 7.1 Copyright", b"", "exit status: 0"), Ok(()));
}

#[test]
fn a_failing_run_reports_its_stderr_or_its_status() {
    assert_eq!(
        check_ffmpeg(true, b"something else", b"  dyld: Library not loaded \n", "exit status: 0"),
        Err(ToolError::FfmpegFailed("dyld: Library not loaded".to_string()))
    );
    assert_eq!(
        check_ffmpeg(false, b"ffmpeg version 7.1", b" \n", "exit status: 1"),
        Err(ToolError::FfmpegFailed("ffmpeg -version exited with exit status: 1".to_string()))
    );
}

#[test]
fn long_stderr_keeps_its_last_300_bytes_on_a_char_boundary() {
    let long = "a".repeat(400);
    assert_eq!(
        check_ffmpeg(false, b"", long.as_bytes(), "exit status: 1"),
        Err(ToolError::FfmpegFailed("a".repeat(300)))
    );
    let wide = format!("x{}y", "é".repeat(200));
    assert_eq!(
        check_ffmpeg(false, b"", wide.as_bytes(), "exit status: 1"),
        Err(ToolError::FfmpegFailed(format!("{}y", "é".repeat(149))))
    );
}

use kjr_browser::fonts::{font_paths, load_fonts};

#[test]
fn font_paths_go_linux_macos_windows() {
    let paths = font_paths();
    assert_eq!(paths.len(), 7);
    assert_eq!(paths[0], "/usr/share/fonts/truetype/dejavu/DejaVuSans.ttf");
    assert_eq!(paths[6], "C:\\Windows\\Fonts\\arial.ttf");
}

#[test]
fn no_readable_font_is_an_error_naming_the_paths() {
    let files: Vec<Option<Vec<u8>>> = vec![None; 7];
    let err = load_fonts(&files).err().unwrap();
    assert_eq!(
        err,
        format!("no font found; add one of this system's fonts to FONT_PATHS: {:?}", font_paths())
    );
    assert!(err.ends_with(r#""C:\\Windows\\Fonts\\meiryo.ttc", "C:\\Windows\\Fonts\\arial.ttf"]"#));
}

#[test]
fn bytes_that_are_no_font_are_left_out() {
    let files = vec![Some(b"not a font".to_vec()), None, Some(Vec::new())];
    assert!(load_fonts(&files).is_err());
    assert!(load_fonts(&[]).is_err());
}

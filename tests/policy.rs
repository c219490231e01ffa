use fileassetbuilder::config::{default_file_text, Config};

const DEFAULT_FILE: &str = r#"# FileAssetBuilder Configuration
# List file extensions to EXCLUDE from processing (one per line)
# Lines starting with # are comments
# Extensions must include the dot (.)

# Video files
.mp4
.mkv
.avi
.mov
.webm
.wmv
.flv
.m4v
.mpg
.mpeg
.3gp

# Image files
.png
.jpg
.jpeg
.gif
.bmp
.ico
.webp
.tiff
.tif
.psd
.raw
.svg

# Audio files
.mp3
.wav
.flac
.aac
.ogg
.wma
.m4a

# Binary/Executable files
.exe
.dll
.so
.dylib
.bin
.o
.obj
.lib
.a
.pyc
.pyo
.class

# Archive files
.zip
.tar
.gz
.7z
.rar
.bz2
.xz
.iso

# Database files
.db
.sqlite
.sqlite3
.mdb

# Document files (often binary)
.pdf
.doc
.docx
.xls
.xlsx
.ppt
.pptx

# Font files
.ttf
.otf
.woff
.woff2
.eot

# Other binary files
.dat
.pak
.cache
"#;

fn lines(ls: &[&str]) -> Vec<String> {
    ls.iter().map(|l| l.to_string()).collect()
}

#[test]
fn exclusion_ignores_case() {
    let c = Config::with_defaults();
    assert!(c.should_exclude(".PNG"));
    assert!(c.should_exclude(".Png"));
    assert!(c.should_exclude(".png"));
    assert!(!c.should_exclude(".rs"));
    assert!(!c.should_exclude(""));
}

#[test]
fn defaults_hold_each_extension_once() {
    let c = Config::with_defaults();
    assert_eq!(c.len(), 69);
    for e in [".mp4", ".svg", ".flac", ".class", ".iso", ".sqlite3", ".pptx", ".woff2", ".cache"] {
        assert!(c.should_exclude(e), "{}", e);
    }
    assert!(!c.should_exclude(".txt"));
}

#[test]
fn line_without_dot_is_rejected() {
    let (c, rejected) = Config::from_lines(&lines(&["notanextension", ".PNG", "# comment", "", "  .Txt  "]));
    assert_eq!(rejected, vec!["notanextension".to_string()]);
    assert_eq!(c.len(), 2);
    assert!(c.should_exclude(".png"));
    assert!(c.should_exclude(".TXT"));
    assert!(!c.should_exclude("notanextension"));
    assert!(!c.should_exclude(".notanextension"));
}

#[test]
fn entries_are_stored_lower_case_once() {
    let (c, rejected) = Config::from_lines(&lines(&[".PNG", ".png", " .Png", "\t#.jpg"]));
    assert!(rejected.is_empty());
    assert_eq!(c.excluded_extensions, vec![".png".to_string()]);
}

#[test]
fn rejected_lines_are_trimmed_in_order() {
    let (c, rejected) = Config::from_lines(&lines(&["  bad one ", ".a", "worse"]));
    assert_eq!(rejected, vec!["bad one".to_string(), "worse".to_string()]);
    assert_eq!(c.len(), 1);
}

#[test]
fn unreadable_policy_falls_back_to_defaults() {
    let (c, rejected) = Config::from_loaded(None);
    assert!(rejected.is_empty());
    assert_eq!(c.len(), 69);
}

#[test]
fn empty_policy_falls_back_to_defaults() {
    let (c, rejected) = Config::from_loaded(Some(lines(&["# nothing here", "", "oops"])));
    assert_eq!(rejected, vec!["oops".to_string()]);
    assert_eq!(c.len(), 69);
    assert!(c.should_exclude(".exe"));
}

#[test]
fn loaded_policy_replaces_defaults() {
    let (c, _) = Config::from_loaded(Some(lines(&[".md"])));
    assert_eq!(c.len(), 1);
    assert!(c.should_exclude(".MD"));
    assert!(!c.should_exclude(".png"));
}

#[test]
fn default_file_parses_to_defaults() {
    let text = default_file_text();
    assert_eq!(text, DEFAULT_FILE);
    let ls: Vec<String> = text.lines().map(|l| l.to_string()).collect();
    let (c, rejected) = Config::from_lines(&ls);
    assert!(rejected.is_empty());
    assert_eq!(c.len(), 69);
    assert_eq!(c.excluded_extensions, Config::with_defaults().excluded_extensions);
}

#[test]
fn new_policy_is_empty() {
    let mut c = Config::new();
    assert_eq!(c.len(), 0);
    c.add(".x".to_string());
    c.add(".x".to_string());
    assert_eq!(c.len(), 1);
    assert!(c.contains(&".x".to_string()));
    assert!(!c.should_exclude(".X ") );
}

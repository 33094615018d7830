use everytree::model::format_count;
use everytree::palette::{extension, hash, hash_bytes, kind};
use everytree::shell::wide;

#[test]
fn counts_get_thousands_separators() {
    assert_eq!(format_count(0), "0");
    assert_eq!(format_count(999), "999");
    assert_eq!(format_count(1000), "1,000");
    assert_eq!(format_count(482408), "482,408");
    assert_eq!(format_count(1234567), "1,234,567");
    assert_eq!(format_count(usize::MAX), {
        let s = usize::MAX.to_string();
        let mut out = String::new();
        for (i, c) in s.chars().enumerate() {
            if i > 0 && (s.len() - i) % 3 == 0 {
                out.push(',');
            }
            out.push(c);
        }
        out
    });
}

#[test]
fn extension_hash_ignores_ascii_case() {
    assert_eq!(hash("mp4"), hash("MP4"));
    assert_eq!(hash(""), 2166136261);
    assert_eq!(hash("a"), (2166136261u32 ^ 0x61).wrapping_mul(16777619));
    assert_ne!(hash("rs"), hash("zip"));
}

#[test]
fn shell_paths_end_in_zero_and_refuse_zeros() {
    assert_eq!(wide("C:\\a").unwrap(), vec![0x43, 0x3a, 0x5c, 0x61, 0]);
    assert_eq!(wide("😀").unwrap(), vec![0xD83D, 0xDE00, 0]);
    assert_eq!(wide("a\0b").err(), Some("Invalid path.".to_string()));
}

#[test]
fn extensions_follow_the_last_dot() {
    assert_eq!(extension("movie.final.MP4"), b"MP4");
    assert_eq!(extension("README"), b"");
    assert_eq!(extension("archive."), b"");
    assert_eq!(extension(".gitignore"), b"gitignore");
}

#[test]
fn kinds_ignore_case_and_follow_the_legend() {
    assert_eq!(kind(extension("movie.mp4")), Some(0));
    assert_eq!(kind(extension("MOVIE.MP4")), Some(0));
    assert_eq!(kind(b"flac"), Some(1));
    assert_eq!(kind(b"png"), Some(2));
    assert_eq!(kind(b"7z"), Some(3));
    assert_eq!(kind(b"rs"), Some(4));
    assert_eq!(kind(b"safetensors"), Some(5));
    assert_eq!(kind(b"pdf"), Some(6));
    assert_eq!(kind(b"dll"), Some(7));
    assert_eq!(kind(b"VHDX"), Some(8));
    assert_eq!(kind(b"blend"), Some(9));
    assert_eq!(kind(b"unknown"), None);
    assert_eq!(kind(b""), None);
    assert_eq!(kind("mp4\u{e9}".as_bytes()), None);
    assert_eq!(kind(b"mp4mp4mp4mp4mp4mp4mp4mp4mp4"), None);
}

#[test]
fn extension_hashes_ignore_case() {
    assert_eq!(hash_bytes(b"MP4"), hash_bytes(b"mp4"));
    assert_eq!(hash_bytes(b""), 2166136261);
    assert_ne!(hash_bytes(b"mp4"), hash_bytes(b"mov"));
}

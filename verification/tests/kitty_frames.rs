use std::io::Write;

use carbonyl::gfx::Size;
use carbonyl::graphics::{base64, base64_bytes, KittyGraphics};

fn zlib(data: &[u8]) -> Vec<u8> {
    let mut e = flate2::write::ZlibEncoder::new(Vec::new(), flate2::Compression::fast());
    e.write_all(data).unwrap();
    e.finish().unwrap()
}

#[test]
fn base64_matches_rfc4648_vectors() {
    assert_eq!(base64(b""), "");
    assert_eq!(base64(b"f"), "Zg==");
    assert_eq!(base64(b"fo"), "Zm8=");
    assert_eq!(base64(b"foo"), "Zm9v");
    assert_eq!(base64(b"foob"), "Zm9vYg==");
    assert_eq!(base64(b"fooba"), "Zm9vYmE=");
    assert_eq!(base64(b"foobar"), "Zm9vYmFy");
    assert_eq!(base64(&[0xff, 0xfe, 0x00]), "//4A");
    assert_eq!(base64_bytes(b"fo"), b"Zm8=".to_vec());
}

#[test]
fn base64_length_is_four_per_three_bytes() {
    for n in 0..20usize {
        let data = vec![7u8; n];
        assert_eq!(base64(&data).len(), (n + 2) / 3 * 4);
    }
}

#[test]
fn reset_forgets_image_one() {
    let g = KittyGraphics::new("xterm-kitty", false, false);
    assert_eq!(g.reset(), b"\x1b_Ga=d,d=I,i=1\x1b\\".to_vec());
}

#[test]
fn tmux_wraps_and_doubles_escapes() {
    for term in ["tmux-256color", "screen"] {
        let g = KittyGraphics::new(term, false, false);
        assert_eq!(g.reset(), b"\x1bPtmux;\x1b\x1b_Ga=d,d=I,i=1\x1b\x1b\\\x1b\\".to_vec());
    }
    let g = KittyGraphics::new("xterm", true, false);
    assert!(g.reset().starts_with(b"\x1bPtmux;"));
}

#[test]
fn store_converts_bgra_to_rgb_and_marks_dirty() {
    let mut g = KittyGraphics::new("xterm", false, true);
    assert!(!g.dirty());
    g.store(&[1, 2, 3, 4, 5, 6, 7, 8], Size::new(2, 1));
    assert!(g.dirty());
    let f = g.encode(1, 1, 1, 1, "/tmp", 1);
    assert!(!g.dirty());
    let control = "a=T,f=24,o=z,s=2,v=1,c=1,r=1,i=1,p=1,q=2,C=1";
    let mut want = b"\x1b7\x1b[1;1H".to_vec();
    want.extend_from_slice(format!("\x1b_G{},t=d,m=0;", control).as_bytes());
    want.extend_from_slice(base64(&zlib(&[3, 2, 1, 7, 6, 5])).as_bytes());
    want.extend_from_slice(b"\x1b\\\x1b8");
    assert_eq!(f.out, want);
    assert!(f.file.is_none());
}

#[test]
fn store_ignores_short_or_empty_frames() {
    let mut g = KittyGraphics::new("xterm", false, true);
    g.store(&[1, 2, 3], Size::new(1, 1));
    assert!(!g.dirty());
    g.store(&[], Size::new(0, 5));
    assert!(!g.dirty());
}

#[test]
fn empty_framebuffer_encodes_nothing() {
    let mut g = KittyGraphics::new("xterm", false, true);
    let f = g.encode(3, 5, 10, 4, "/tmp", 1);
    assert!(f.out.is_empty());
    assert!(f.file.is_none());
}

#[test]
fn inline_frames_are_chunked() {
    let mut g = KittyGraphics::new("xterm", false, true);
    // Pseudo-random pixels so the zlib stream stays large.
    let mut px = Vec::new();
    let mut x: u32 = 12345;
    for _ in 0..(64 * 64 * 4) {
        x = x.wrapping_mul(1103515245).wrapping_add(12345);
        px.push((x >> 16) as u8);
    }
    g.store(&px, Size::new(64, 64));
    let f = g.encode(2, 3, 8, 4, "/tmp", 1);
    let out = String::from_utf8(f.out.clone()).unwrap();
    assert!(out.starts_with("\x1b7\x1b[3;2H\x1b_Ga=T,f=24,o=z,s=64,v=64,c=8,r=4,i=1,p=1,q=2,C=1,t=d,m=1;"));
    assert!(out.ends_with("\x1b\\\x1b8"));
    let chunks: Vec<&str> = out.split("\x1b_G").skip(1).collect();
    assert!(chunks.len() > 2);
    let mut joined = String::new();
    for (i, c) in chunks.iter().enumerate() {
        let body = &c[c.find(';').unwrap() + 1..c.find('\x1b').unwrap()];
        assert!(body.len() <= 4096);
        let last = i + 1 == chunks.len();
        assert_eq!(c.contains("m=0;"), last);
        joined.push_str(body);
    }
    let mut rgb = Vec::new();
    for p in px.chunks(4) {
        rgb.extend_from_slice(&[p[2], p[1], p[0]]);
    }
    assert_eq!(joined, base64(&zlib(&rgb)));
}

#[test]
fn file_frames_name_a_temp_file() {
    let mut g = KittyGraphics::new("xterm-kitty", false, false);
    g.store(&[9, 8, 7, 0], Size::new(1, 1));
    let f = g.encode(1, 2, 3, 4, "/var/tmp//", 42);
    let (path, payload) = f.file.expect("file frame");
    assert_eq!(path, "/var/tmp/carbonyl-tty-graphics-protocol-42-1.z");
    assert_eq!(payload, zlib(&[7, 8, 9]));
    let mut want = b"\x1b7\x1b[2;1H\x1b_Ga=T,f=24,o=z,s=1,v=1,c=3,r=4,i=1,p=1,q=2,C=1,t=t;".to_vec();
    want.extend_from_slice(base64(path.as_bytes()).as_bytes());
    want.extend_from_slice(b"\x1b\\\x1b8");
    assert_eq!(f.out, want);
    let f2 = g.encode(1, 2, 3, 4, "", 42);
    assert_eq!(f2.file.unwrap().0, "/carbonyl-tty-graphics-protocol-42-2.z");
}

#[test]
fn only_two_temp_files_are_kept() {
    let mut g = KittyGraphics::new("xterm", false, false);
    assert!(g.commit_file("a".to_string()).is_empty());
    assert!(g.commit_file("b".to_string()).is_empty());
    assert_eq!(g.commit_file("c".to_string()), vec!["a".to_string()]);
    assert_eq!(g.commit_file("d".to_string()), vec!["b".to_string()]);
}

#[test]
fn ssh_sends_pixels_inline() {
    let mut g = KittyGraphics::new("xterm", false, true);
    g.store(&[0, 0, 0, 0], Size::new(1, 1));
    assert!(g.encode(1, 1, 1, 1, "/tmp", 1).file.is_none());
}

#[test]
fn base64_of_whole_groups_concatenates() {
    assert_eq!(base64(b"abcde"), format!("{}{}", base64(b"abc"), base64(b"de")));
    assert_eq!(base64(b"abcdef"), format!("{}{}", base64(b"abc"), base64(b"def")));
}

#[test]
fn dirty_follows_store_and_encode() {
    let mut g = KittyGraphics::new("xterm", false, true);
    g.store(&[1, 2, 3, 4], Size::new(1, 1));
    g.encode(1, 1, 1, 1, "/tmp", 1);
    assert!(!g.dirty());
    g.store(&[1, 2], Size::new(1, 1));
    assert!(!g.dirty());
    g.store(&[1, 2, 3, 4], Size::new(1, 1));
    g.store(&[], Size::new(0, 0));
    assert!(g.dirty());
}

use std::collections::VecDeque;
use std::io::Write;

use vstd::prelude::*;

use crate::gfx::Size;
use crate::text::{chars_of, decimal, has_prefix, push_decimal, push_str, starts_with};

verus! {

// ---------------------------------------------------------------------------
// Base64 (RFC 4648, standard alphabet, `=` padding).

/// The base64 symbol of a 6-bit value.
pub open spec fn b64_symbol(v: int) -> u8 {
    if v < 26 {
        (65 + v) as u8
    } else if v < 52 {
        (97 + v - 26) as u8
    } else if v < 62 {
        (48 + v - 52) as u8
    } else if v == 62 {
        43
    } else {
        47
    }
}

/// Byte `j` of the base64 encoding of `data`: every group of three bytes
/// becomes four symbols, a short last group is padded with `=`.
pub open spec fn b64_byte_at(data: Seq<u8>, j: int) -> u8 {
    let g = j / 4;
    let p = j % 4;
    let n = data.len() as int;
    let d0 = data[3 * g] as int;
    let d1 = if 3 * g + 1 < n {
        data[3 * g + 1] as int
    } else {
        0
    };
    let d2 = if 3 * g + 2 < n {
        data[3 * g + 2] as int
    } else {
        0
    };
    if p == 0 {
        b64_symbol(d0 / 4)
    } else if p == 1 {
        b64_symbol((d0 % 4) * 16 + d1 / 16)
    } else if p == 2 {
        if 3 * g + 1 < n {
            b64_symbol((d1 % 16) * 4 + d2 / 64)
        } else {
            61
        }
    } else {
        if 3 * g + 2 < n {
            b64_symbol(d2 % 64)
        } else {
            61
        }
    }
}

/// The base64 encoding of `data`, as ASCII bytes.
pub open spec fn base64_ascii(data: Seq<u8>) -> Seq<u8> {
    Seq::new((4 * ((data.len() + 2) / 3)) as nat, |j: int| b64_byte_at(data, j))
}

/// The base64 encoding of `data`, as text.
pub open spec fn base64_text(data: Seq<u8>) -> Seq<char> {
    base64_ascii(data).map_values(|b: u8| b as char)
}

/// The 6-bit value of a base64 symbol.
pub open spec fn b64_value(c: u8) -> int {
    if 65 <= c <= 90 {
        c - 65
    } else if 97 <= c <= 122 {
        c - 97 + 26
    } else if 48 <= c <= 57 {
        c - 48 + 52
    } else if c == 43 {
        62
    } else {
        63
    }
}

/// A symbol of the base64 alphabet (`A-Z a-z 0-9 + /`).
pub open spec fn is_b64_symbol(c: u8) -> bool {
    (65 <= c <= 90) || (97 <= c <= 122) || (48 <= c <= 57) || c == 43 || c == 47
}

/// The number of `=` a base64 encoding of `n` bytes ends with.
pub open spec fn b64_padding(n: int) -> int {
    (3 - n % 3) % 3
}

/// The bytes a padded base64 text decodes to.
pub open spec fn base64_decode(s: Seq<u8>) -> Seq<u8> {
    let len = s.len() as int;
    let pad = (if len > 0 && s[len - 1] == 61 {
        1int
    } else {
        0int
    }) + (if len > 1 && s[len - 2] == 61 {
        1int
    } else {
        0int
    });
    Seq::new(
        (3 * (len / 4) - pad) as nat,
        |i: int|
            {
                let g = i / 3;
                let v0 = b64_value(s[4 * g]);
                let v1 = b64_value(s[4 * g + 1]);
                let v2 = b64_value(s[4 * g + 2]);
                let v3 = b64_value(s[4 * g + 3]);
                (if i % 3 == 0 {
                    v0 * 4 + v1 / 16
                } else if i % 3 == 1 {
                    (v1 % 16) * 16 + v2 / 4
                } else {
                    (v2 % 4) * 64 + v3
                }) as u8
            },
    )
}

proof fn lemma_b64_symbol(v: int)
    requires
        0 <= v < 64,
    ensures
        is_b64_symbol(b64_symbol(v)),
        b64_value(b64_symbol(v)) == v,
{
}

/// Base64 output: four symbols per three bytes, made of the alphabet and
/// ending with `(3 - n % 3) % 3` padding characters.
pub proof fn lemma_base64_shape(data: Seq<u8>)
    ensures
        base64_ascii(data).len() == 4 * ((data.len() + 2) / 3),
        forall|j: int|
            0 <= j < base64_ascii(data).len() ==> if j >= base64_ascii(data).len() - b64_padding(
                data.len() as int,
            ) {
                #[trigger] base64_ascii(data)[j] == 61
            } else {
                is_b64_symbol(base64_ascii(data)[j])
            },
{
    let n = data.len() as int;
    let e = base64_ascii(data);
    assert forall|j: int| 0 <= j < e.len() implies if j >= e.len() - b64_padding(n) {
        #[trigger] e[j] == 61
    } else {
        is_b64_symbol(e[j])
    } by {
        let g = j / 4;
        let d0 = data[3 * g] as int;
        let d1 = if 3 * g + 1 < n { data[3 * g + 1] as int } else { 0 };
        let d2 = if 3 * g + 2 < n { data[3 * g + 2] as int } else { 0 };
        lemma_b64_symbol(d0 / 4);
        lemma_b64_symbol((d0 % 4) * 16 + d1 / 16);
        lemma_b64_symbol((d1 % 16) * 4 + d2 / 64);
        lemma_b64_symbol(d2 % 64);
    }
}

/// Decoding base64 gives the bytes back (RFC 4648).
pub proof fn lemma_base64_round_trip(data: Seq<u8>)
    ensures
        base64_decode(base64_ascii(data)) == data,
{
    let n = data.len() as int;
    let e = base64_ascii(data);
    lemma_base64_shape(data);
    let dec = base64_decode(e);
    assert(dec.len() == n) by {
        if n > 0 {
            assert(e[e.len() - 1] == 61 <==> n % 3 != 0);
            assert(e[e.len() - 2] == 61 <==> n % 3 == 1);
        }
    }
    assert forall|i: int| 0 <= i < n implies #[trigger] dec[i] == data[i] by {
        let g = i / 3;
        let d0 = data[3 * g] as int;
        let d1 = if 3 * g + 1 < n { data[3 * g + 1] as int } else { 0 };
        let d2 = if 3 * g + 2 < n { data[3 * g + 2] as int } else { 0 };
        assert((4 * g) / 4 == g && (4 * g + 1) / 4 == g && (4 * g + 2) / 4 == g && (4 * g + 3) / 4 == g);
        lemma_b64_symbol(d0 / 4);
        lemma_b64_symbol((d0 % 4) * 16 + d1 / 16);
        lemma_b64_symbol((d1 % 16) * 4 + d2 / 64);
        lemma_b64_symbol(d2 % 64);
        assert(b64_value(e[4 * g]) == d0 / 4);
        assert(b64_value(e[4 * g + 1]) == (d0 % 4) * 16 + d1 / 16);
        if i % 3 >= 1 {
            assert(b64_value(e[4 * g + 2]) == (d1 % 16) * 4 + d2 / 64);
        }
        if i % 3 == 2 {
            assert(b64_value(e[4 * g + 3]) == d2 % 64);
        }
    }
    assert(dec =~= data);
}

/// Base64 of a concatenation whose first part is a whole number of
/// three-byte groups is the concatenation of the encodings.
pub proof fn lemma_base64_concat(a: Seq<u8>, b: Seq<u8>)
    requires
        a.len() % 3 == 0,
    ensures
        base64_ascii(a + b) == base64_ascii(a) + base64_ascii(b),
{
    let la = a.len() as int;
    let ea = base64_ascii(a);
    assert forall|j: int| 0 <= j < base64_ascii(a + b).len() implies #[trigger] base64_ascii(a + b)[j]
        == (ea + base64_ascii(b))[j] by {
        if j >= ea.len() {
            let k = j - ea.len();
            assert(j / 4 == la / 3 + k / 4);
            assert(j % 4 == k % 4);
        }
    }
    assert(base64_ascii(a + b) =~= ea + base64_ascii(b));
}

fn b64_symbol_of(v: u8) -> (c: u8)
    requires
        v < 64,
    ensures
        c == b64_symbol(v as int),
{
    if v < 26 {
        65 + v
    } else if v < 52 {
        97 + v - 26
    } else if v < 62 {
        48 + v - 52
    } else if v == 62 {
        43
    } else {
        47
    }
}

/// The base64 encoding of `data` (see `base64_ascii`).
pub fn base64_bytes(data: &[u8]) -> (r: Vec<u8>)
    ensures
        r@ == base64_ascii(data@),
{
    let n = data.len();
    let mut out: Vec<u8> = Vec::new();
    let mut i: usize = 0;
    while i < n
        invariant
            n == data@.len(),
            i <= n + 2,
            i % 3 == 0,
            out@.len() == 4 * (i / 3),
            forall|j: int| 0 <= j < out@.len() ==> #[trigger] out@[j] == b64_byte_at(data@, j),
        decreases n + 2 - i,
    {
        let d0 = data[i];
        let d1: u8 = if i + 1 < n {
            data[i + 1]
        } else {
            0
        };
        let d2: u8 = if i + 2 < n {
            data[i + 2]
        } else {
            0
        };
        let ghost g = i / 3;
        let ghost base = out@.len() as int;
        assert(base == 4 * g);
        out.push(b64_symbol_of(d0 / 4));
        out.push(b64_symbol_of((d0 % 4) * 16 + d1 / 16));
        if i + 1 < n {
            out.push(b64_symbol_of((d1 % 16) * 4 + d2 / 64));
        } else {
            out.push(61);
        }
        if i + 2 < n {
            out.push(b64_symbol_of(d2 % 64));
        } else {
            out.push(61);
        }
        assert forall|j: int| 0 <= j < out@.len() implies #[trigger] out@[j] == b64_byte_at(data@, j) by {
            if j >= base {
                assert(j / 4 == g);
                assert(3 * g == i);
            }
        }
        i = i + 3;
    }
    assert(out@ =~= base64_ascii(data@));
    out
}

/// The base64 encoding of `data` (see `base64_text`).
pub fn base64(data: &[u8]) -> (s: String)
    ensures
        s@ == base64_text(data@),
{
    let bytes = base64_bytes(data);
    let mut out: Vec<char> = Vec::new();
    let mut i: usize = 0;
    while i < bytes.len()
        invariant
            i <= bytes@.len(),
            out@ == bytes@.take(i as int).map_values(|b: u8| b as char),
        decreases bytes@.len() - i,
    {
        out.push(bytes[i] as char);
        assert(bytes@.take(i + 1) == bytes@.take(i as int).push(bytes@[i as int]));
        i = i + 1;
    }
    assert(bytes@.take(bytes@.len() as int) == bytes@);
    crate::text::string_from_chars(&out)
}


// ---------------------------------------------------------------------------
// Escape sequences.

/// The low byte of each character (the bytes of ASCII text).
pub open spec fn low_bytes(s: Seq<char>) -> Seq<u8> {
    s.map_values(|c: char| (c as u32) as u8)
}

/// Appends the low byte of each character of `s`.
fn push_low(out: &mut Vec<u8>, s: &Vec<char>)
    ensures
        final(out)@ == old(out)@ + low_bytes(s@),
{
    let mut i: usize = 0;
    while i < s.len()
        invariant
            i <= s@.len(),
            out@ == old(out)@ + low_bytes(s@.take(i as int)),
        decreases s@.len() - i,
    {
        out.push((s[i] as u32) as u8);
        assert(low_bytes(s@.take(i + 1)) =~= low_bytes(s@.take(i as int)).push((s@[i as int] as u32) as u8));
        i = i + 1;
    }
    assert(s@.take(s@.len() as int) =~= s@);
}

/// Appends the low bytes of the characters of `s`.
fn push_text(out: &mut Vec<u8>, s: &str)
    ensures
        final(out)@ == old(out)@ + low_bytes(s@),
{
    push_low(out, &chars_of(s));
}

/// `seq` with every ESC byte doubled.
pub open spec fn esc_doubled(seq: Seq<u8>) -> Seq<u8>
    decreases seq.len(),
{
    if seq.len() == 0 {
        Seq::empty()
    } else {
        esc_doubled(seq.drop_last()) + if seq.last() == 0x1b {
            seq![0x1bu8, 0x1bu8]
        } else {
            seq![seq.last()]
        }
    }
}

/// An escape sequence as sent: inside tmux's passthrough envelope (with its
/// ESC bytes doubled) when running under tmux, as it is otherwise.
pub open spec fn wrapped(tmux: bool, seq: Seq<u8>) -> Seq<u8> {
    if tmux {
        low_bytes("\x1bPtmux;"@) + esc_doubled(seq) + low_bytes("\x1b\\"@)
    } else {
        seq
    }
}

/// Draws the browser framebuffer at full resolution with the kitty graphics
/// protocol: the latest frame is kept as RGB and sent zlib-compressed,
/// inline in base64 chunks or through a temp file the terminal reads.
pub struct KittyGraphics {
    /// Latest framebuffer, packed as RGB (3 bytes per pixel).
    rgb: Vec<u8>,
    /// Size of the framebuffer in pixels.
    pixels: Size,
    /// Whether the framebuffer changed since the last `encode`.
    dirty: bool,
    /// Rotating counter for unique temp-file names.
    counter: u64,
    /// Recently written temp files, reaped once the terminal has read them.
    recent: VecDeque<String>,
    /// Send pixels inline instead of through a temp file.
    direct: bool,
    /// Wrap every escape in tmux's passthrough envelope.
    tmux: bool,
}

pub struct KittyView {
    pub rgb: Seq<u8>,
    pub pixels: Size,
    pub dirty: bool,
    pub counter: u64,
    pub recent: Seq<Seq<char>>,
    pub direct: bool,
    pub tmux: bool,
}

impl View for KittyGraphics {
    type V = KittyView;

    closed spec fn view(&self) -> KittyView {
        KittyView {
            rgb: self.rgb@,
            pixels: self.pixels,
            dirty: self.dirty,
            counter: self.counter,
            recent: self.recent@.map_values(|s: String| s@),
            direct: self.direct,
            tmux: self.tmux,
        }
    }
}

/// Whether the terminal is tmux (or screen): the `TMUX` variable is set, or
/// `TERM` names one of them.
pub open spec fn under_tmux(term: Seq<char>, tmux_var: bool) -> bool {
    tmux_var || has_prefix(term, "tmux"@) || has_prefix(term, "screen"@)
}

/// The framebuffer of `count` BGRA pixels as RGB.
pub open spec fn bgra_to_rgb(pixels: Seq<u8>, count: int) -> Seq<u8> {
    Seq::new((3 * count) as nat, |j: int| pixels[4 * (j / 3) + 2 - j % 3])
}

/// A framebuffer can be stored: it has pixels, and enough bytes for them.
pub open spec fn storable(pixels: Seq<u8>, size: Size) -> bool {
    let count = size.width * size.height;
    count != 0 && pixels.len() >= 4 * count
}

/// The state after `store`: a storable framebuffer replaces the stored one
/// (as RGB) and makes it dirty; anything else leaves the state as it is.
pub open spec fn after_store(g: KittyView, pixels: Seq<u8>, size: Size) -> KittyView {
    if storable(pixels, size) {
        KittyView {
            rgb: bgra_to_rgb(pixels, size.width * size.height),
            pixels: size,
            dirty: true,
            ..g
        }
    } else {
        g
    }
}

impl KittyGraphics {
    /// A graphics encoder for the terminal described by `term` (the `TERM`
    /// variable), `tmux_var` (whether `TMUX` is set) and `ssh` (whether any
    /// of the SSH session variables is set). Pixels go inline over SSH and
    /// under tmux, where the terminal may not see our files.
    pub fn new(term: &str, tmux_var: bool, ssh: bool) -> (g: KittyGraphics)
        ensures
            g@.tmux == under_tmux(term@, tmux_var),
            g@.direct == (ssh || under_tmux(term@, tmux_var)),
            g@.rgb.len() == 0,
            g@.pixels == (Size { width: 0, height: 0 }),
            !g@.dirty,
            g@.counter == 0,
            g@.recent.len() == 0,
    {
        let t = chars_of(term);
        let tmux = tmux_var || starts_with(&t, &chars_of("tmux")) || starts_with(&t, &chars_of("screen"));
        let g = KittyGraphics {
            rgb: Vec::new(),
            pixels: Size { width: 0, height: 0 },
            dirty: false,
            counter: 0,
            recent: VecDeque::new(),
            direct: ssh || tmux,
            tmux,
        };
        assert(g@.recent =~= Seq::<Seq<char>>::empty());
        g
    }

    /// Whether a framebuffer came in since the last `encode`.
    pub fn dirty(&self) -> (b: bool)
        ensures
            b == self@.dirty,
    {
        self.dirty
    }

    /// Stores a new framebuffer of `size` pixels given as BGRA8888; an empty
    /// size or too few bytes leave everything as it was.
    pub fn store(&mut self, pixels: &[u8], size: Size)
        ensures
            final(self)@ == after_store(old(self)@, pixels@, size),
    {
        let n = pixels.len();
        let w = size.width as u64;
        let h = size.height as u64;
        assert(w * h <= 0xffff_ffff * 0xffff_ffff) by (nonlinear_arith)
            requires
                w <= 0xffff_ffff,
                h <= 0xffff_ffff,
        ;
        let count64: u64 = w * h;
        if count64 == 0 || ((n / 4) as u64) < count64 {
            return;
        }
        let count = count64 as usize;
        let mut rgb: Vec<u8> = Vec::new();
        let mut i: usize = 0;
        while i < count
            invariant
                count <= n / 4,
                n == pixels@.len(),
                i <= count,
                rgb@.len() == 3 * i,
                forall|j: int| 0 <= j < rgb@.len() ==> #[trigger] rgb@[j] == pixels@[4 * (j / 3) + 2 - j % 3],
            decreases count - i,
        {
            rgb.push(pixels[i * 4 + 2]);
            rgb.push(pixels[i * 4 + 1]);
            rgb.push(pixels[i * 4]);
            assert forall|j: int| 0 <= j < rgb@.len() implies #[trigger] rgb@[j] == pixels@[4 * (j / 3) + 2
                - j % 3] by {
                if j >= 3 * i {
                    assert(j / 3 == i);
                }
            }
            i = i + 1;
        }
        self.rgb = rgb;
        self.pixels = size;
        self.dirty = true;
        assert(self.rgb@ =~= bgra_to_rgb(pixels@, count as int));
    }

    /// Appends `seq` as sent (see `wrapped`).
    fn wrap(&self, seq: &Vec<u8>, out: &mut Vec<u8>)
        ensures
            final(out)@ == old(out)@ + wrapped(self@.tmux, seq@),
    {
        if !self.tmux {
            let mut i: usize = 0;
            while i < seq.len()
                invariant
                    i <= seq@.len(),
                    out@ == old(out)@ + seq@.take(i as int),
                decreases seq@.len() - i,
            {
                out.push(seq[i]);
                assert(seq@.take(i + 1) == seq@.take(i as int).push(seq@[i as int]));
                i = i + 1;
            }
            assert(seq@.take(seq@.len() as int) == seq@);
            return;
        }
        push_text(out, "\x1bPtmux;");
        let ghost head = out@;
        let mut i: usize = 0;
        while i < seq.len()
            invariant
                i <= seq@.len(),
                out@ == head + esc_doubled(seq@.take(i as int)),
            decreases seq@.len() - i,
        {
            let b = seq[i];
            if b == 0x1b {
                out.push(0x1b);
            }
            out.push(b);
            proof {
                let t = seq@.take(i + 1);
                assert(t.drop_last() == seq@.take(i as int));
                assert(t.last() == b);
            }
            assert(out@ =~= head + esc_doubled(seq@.take(i + 1)));
            i = i + 1;
        }
        assert(seq@.take(seq@.len() as int) == seq@);
        push_text(out, "\x1b\\");
    }

    /// The escape that makes the terminal forget our image (id 1) and its
    /// data.
    pub fn reset(&self) -> (r: Vec<u8>)
        ensures
            r@ == wrapped(self@.tmux, low_bytes("\x1b_Ga=d,d=I,i=1\x1b\\"@)),
    {
        let mut seq: Vec<u8> = Vec::new();
        push_text(&mut seq, "\x1b_Ga=d,d=I,i=1\x1b\\");
        let mut out: Vec<u8> = Vec::new();
        self.wrap(&seq, &mut out);
        assert(seq@ =~= low_bytes("\x1b_Ga=d,d=I,i=1\x1b\\"@));
        assert(out@ =~= wrapped(self@.tmux, seq@));
        out
    }
}

// ---------------------------------------------------------------------------
// Frames.

/// The bytes of the zlib stream that flate2 produces for `data` at its fast
/// compression level.
pub uninterp spec fn zlib_fast(data: Seq<u8>) -> Seq<u8>;

/// Compresses `data` with flate2's `ZlibEncoder` at `Compression::fast()`
/// into a vector; the result is `zlib_fast(data)`. Writing into a vector
/// does not fail, and miniz_oxide reports errors only for bad parameters, so
/// the encoder's `io::Result`s are always `Ok`.
#[verifier::external_body]
fn zlib_compress(data: &[u8]) -> (r: Vec<u8>)
    ensures
        r@ == zlib_fast(data@),
{
    let mut encoder = flate2::write::ZlibEncoder::new(Vec::new(), flate2::Compression::fast());
    encoder.write_all(data).expect("compressing into a vector");
    encoder.finish().expect("compressing into a vector")
}

/// The parameters of a frame: raw RGB, zlib-compressed, its size in pixels,
/// the cell box it is scaled into, image and placement id 1, no replies, no
/// cursor movement.
pub open spec fn control_text(width: u32, height: u32, cols: u32, rows: u32) -> Seq<char> {
    "a=T,f=24,o=z,s="@ + decimal(width as nat) + ",v="@ + decimal(height as nat) + ",c="@ + decimal(
        cols as nat,
    ) + ",r="@ + decimal(rows as nat) + ",i=1,p=1,q=2,C=1"@
}

/// Saves the cursor and moves it to the 1-based cell (`col`, `row`).
pub open spec fn frame_start(row: u32, col: u32) -> Seq<char> {
    "\x1b7\x1b["@ + decimal(row as nat) + ";"@ + decimal(col as nat) + "H"@
}

/// Where the chunk starting at `offset` ends: 4096 bytes on, or at the end.
pub open spec fn chunk_end(len: int, offset: int) -> int {
    if len - offset > 4096 {
        offset + 4096
    } else {
        len
    }
}

/// The escape carrying the base64 chunk at `offset`; the first one also
/// carries the frame parameters, and each says whether more follow.
pub open spec fn chunk_seq(control: Seq<char>, b64: Seq<u8>, offset: int) -> Seq<u8> {
    let end = chunk_end(b64.len() as int, offset);
    let more: Seq<char> = if end < b64.len() {
        "1"@
    } else {
        "0"@
    };
    let head = if offset == 0 {
        "\x1b_G"@ + control + ",t=d,m="@ + more + ";"@
    } else {
        "\x1b_Gm="@ + more + ";"@
    };
    low_bytes(head) + b64.subrange(offset, end) + low_bytes("\x1b\\"@)
}

/// The escapes of the chunks from `offset` on, each as sent.
pub open spec fn direct_chunks(tmux: bool, control: Seq<char>, b64: Seq<u8>, offset: int) -> Seq<u8>
    decreases b64.len() - offset,
{
    if offset < 0 || offset >= b64.len() {
        Seq::empty()
    } else {
        wrapped(tmux, chunk_seq(control, b64, offset)) + direct_chunks(
            tmux,
            control,
            b64,
            chunk_end(b64.len() as int, offset),
        )
    }
}

/// The escapes of the chunks from `offset` on, each inside tmux's
/// passthrough envelope `ESC P tmux; ... ESC \` with its ESC bytes doubled.
pub open spec fn enveloped_chunks(control: Seq<char>, b64: Seq<u8>, offset: int) -> Seq<u8>
    decreases b64.len() - offset,
{
    if offset < 0 || offset >= b64.len() {
        Seq::empty()
    } else {
        low_bytes("\x1bPtmux;"@) + esc_doubled(chunk_seq(control, b64, offset)) + low_bytes(
            "\x1b\\"@,
        ) + enveloped_chunks(control, b64, chunk_end(b64.len() as int, offset))
    }
}

/// The escapes of the chunks from `offset` on, one after the other.
pub open spec fn plain_chunks(control: Seq<char>, b64: Seq<u8>, offset: int) -> Seq<u8>
    decreases b64.len() - offset,
{
    if offset < 0 || offset >= b64.len() {
        Seq::empty()
    } else {
        chunk_seq(control, b64, offset) + plain_chunks(control, b64, chunk_end(b64.len() as int, offset))
    }
}

/// Under tmux every chunk escape of an inline frame goes out inside tmux's
/// passthrough envelope (which tmux forwards, while it drops raw graphics
/// escapes); elsewhere the chunk escapes go out as they are.
pub proof fn lemma_chunks_under_tmux(control: Seq<char>, b64: Seq<u8>, offset: int)
    ensures
        direct_chunks(true, control, b64, offset) == enveloped_chunks(control, b64, offset),
        direct_chunks(false, control, b64, offset) == plain_chunks(control, b64, offset),
    decreases b64.len() - offset,
{
    if 0 <= offset < b64.len() {
        lemma_chunks_under_tmux(control, b64, chunk_end(b64.len() as int, offset));
    }
}

/// A frame under tmux sends every graphics escape inside the passthrough
/// envelope: the inline chunks each in their own, the temp-file escape in
/// one; only the cursor save/move and restore around them stay raw.
pub proof fn lemma_frame_under_tmux(
    g: KittyView,
    payload: Seq<u8>,
    col: u32,
    row: u32,
    cols: u32,
    rows: u32,
    dir: Seq<char>,
    pid: u32,
)
    requires
        g.tmux,
    ensures
        ({
            let control = control_text(g.pixels.width, g.pixels.height, cols, rows);
            frame_out(g, payload, col, row, cols, rows, dir, pid) == low_bytes(frame_start(row, col)) + (
            if g.direct {
                enveloped_chunks(control, base64_ascii(payload), 0)
            } else {
                low_bytes("\x1bPtmux;"@) + esc_doubled(
                    file_seq(control, temp_path(dir, pid, next_counter(g.counter))),
                ) + low_bytes("\x1b\\"@)
            }) + low_bytes("\x1b8"@)
        }),
{
    let control = control_text(g.pixels.width, g.pixels.height, cols, rows);
    lemma_chunks_under_tmux(control, base64_ascii(payload), 0);
}

/// `s` without its trailing slashes.
pub open spec fn trim_slashes(s: Seq<char>) -> Seq<char>
    decreases s.len(),
{
    if s.len() > 0 && s.last() == '/' {
        trim_slashes(s.drop_last())
    } else {
        s
    }
}

/// The temp file of a frame; its name holds `tty-graphics-protocol`, so
/// that the terminal deletes it once read.
pub open spec fn temp_path(dir: Seq<char>, pid: u32, counter: u64) -> Seq<char> {
    trim_slashes(dir) + "/carbonyl-tty-graphics-protocol-"@ + decimal(pid as nat) + "-"@ + decimal(
        counter as nat,
    ) + ".z"@
}

/// The escape that points the terminal at the temp file.
pub open spec fn file_seq(control: Seq<char>, path: Seq<char>) -> Seq<u8> {
    low_bytes("\x1b_G"@ + control + ",t=t;"@) + base64_ascii(vstd::utf8::encode_utf8(path))
        + low_bytes("\x1b\\"@)
}

/// The counter after a frame handed over through a file.
pub open spec fn next_counter(c: u64) -> u64 {
    if c == u64::MAX {
        0
    } else {
        (c + 1) as u64
    }
}

/// The bytes that draw a frame whose compressed pixels are `payload`.
pub open spec fn frame_out(
    g: KittyView,
    payload: Seq<u8>,
    col: u32,
    row: u32,
    cols: u32,
    rows: u32,
    dir: Seq<char>,
    pid: u32,
) -> Seq<u8> {
    let control = control_text(g.pixels.width, g.pixels.height, cols, rows);
    let body = if g.direct {
        direct_chunks(g.tmux, control, base64_ascii(payload), 0)
    } else {
        wrapped(g.tmux, file_seq(control, temp_path(dir, pid, next_counter(g.counter))))
    };
    low_bytes(frame_start(row, col)) + body + low_bytes("\x1b8"@)
}

/// A frame to send: the escape bytes, and, when the pixels go through a
/// file, the file's path and contents, which must be written before the
/// bytes are sent.
pub struct EncodedFrame {
    pub out: Vec<u8>,
    pub file: Option<(String, Vec<u8>)>,
}

/// The frame fits the description: its bytes are `frame_out`, and a file is
/// to be written exactly when the pixels do not go inline.
pub open spec fn frame_matches(
    f: EncodedFrame,
    g: KittyView,
    payload: Seq<u8>,
    col: u32,
    row: u32,
    cols: u32,
    rows: u32,
    dir: Seq<char>,
    pid: u32,
) -> bool {
    &&& f.out@ == frame_out(g, payload, col, row, cols, rows, dir, pid)
    &&& match f.file {
        Some(file) => !g.direct && file.0@ == temp_path(dir, pid, next_counter(g.counter))
            && file.1@ == payload,
        None => g.direct,
    }
}

/// The state after a frame: the counter moves on for each temp file.
pub open spec fn after_frame(g: KittyView) -> KittyView {
    if g.direct {
        g
    } else {
        KittyView { counter: next_counter(g.counter), ..g }
    }
}

/// The state after `encode`: clean, and the counter moved on when a
/// non-empty frame went through a file.
pub open spec fn after_encode(g: KittyView) -> KittyView {
    let clean = KittyView { dirty: false, ..g };
    if g.pixels.width == 0 || g.pixels.height == 0 {
        clean
    } else {
        after_frame(clean)
    }
}

/// Removes the trailing slashes of `s`.
fn trim_slashes_of(s: &str) -> (r: Vec<char>)
    ensures
        r@ == trim_slashes(s@),
{
    let mut v = chars_of(s);
    while v.len() > 0 && v[v.len() - 1] == '/'
        invariant
            trim_slashes(v@) == trim_slashes(s@),
        decreases v@.len(),
    {
        v.pop();
    }
    v
}

impl KittyGraphics {
    /// Builds the escapes of a frame from its compressed pixels `payload`
    /// (see `frame_out`), into a `cols`x`rows` cell box at the 1-based cell
    /// (`col`, `row`); `tmpdir` and `pid` name the temp file when the pixels
    /// do not go inline.
    pub fn encode_frame(
        &mut self,
        payload: Vec<u8>,
        col: u32,
        row: u32,
        cols: u32,
        rows: u32,
        tmpdir: &str,
        pid: u32,
    ) -> (f: EncodedFrame)
        ensures
            final(self)@ == after_frame(old(self)@),
            frame_matches(f, old(self)@, payload@, col, row, cols, rows, tmpdir@, pid),
    {
        let mut text: Vec<char> = Vec::new();
        push_str(&mut text, "\x1b7\x1b[");
        push_decimal(&mut text, row as u64);
        push_str(&mut text, ";");
        push_decimal(&mut text, col as u64);
        push_str(&mut text, "H");
        assert(text@ =~= frame_start(row, col));
        let mut out: Vec<u8> = Vec::new();
        push_low(&mut out, &text);
        let mut control: Vec<char> = Vec::new();
        push_str(&mut control, "a=T,f=24,o=z,s=");
        push_decimal(&mut control, self.pixels.width as u64);
        push_str(&mut control, ",v=");
        push_decimal(&mut control, self.pixels.height as u64);
        push_str(&mut control, ",c=");
        push_decimal(&mut control, cols as u64);
        push_str(&mut control, ",r=");
        push_decimal(&mut control, rows as u64);
        push_str(&mut control, ",i=1,p=1,q=2,C=1");
        let ghost ctl = control_text(self.pixels.width, self.pixels.height, cols, rows);
        assert(control@ =~= ctl);
        let ghost head = out@;
        let file;
        if self.direct {
            let b64 = base64_bytes(payload.as_slice());
            let n = b64.len();
            let mut offset: usize = 0;
            while offset < n
                invariant
                    n == b64@.len(),
                    offset <= n,
                    control@ == ctl,
                    out@ + direct_chunks(self@.tmux, ctl, b64@, offset as int) == head + direct_chunks(
                        self@.tmux,
                        ctl,
                        b64@,
                        0,
                    ),
                decreases n - offset,
            {
                let end = if n - offset > 4096 {
                    offset + 4096
                } else {
                    n
                };
                let mut h: Vec<char> = Vec::new();
                if offset == 0 {
                    push_str(&mut h, "\x1b_G");
                    extend_chars_of(&mut h, &control);
                    push_str(&mut h, ",t=d,m=");
                } else {
                    push_str(&mut h, "\x1b_Gm=");
                }
                if end < n {
                    push_str(&mut h, "1");
                } else {
                    push_str(&mut h, "0");
                }
                push_str(&mut h, ";");
                let mut seq: Vec<u8> = Vec::new();
                push_low(&mut seq, &h);
                let mut k = offset;
                while k < end
                    invariant
                        offset <= k <= end,
                        end <= b64@.len(),
                        seq@ == low_bytes(h@) + b64@.subrange(offset as int, k as int),
                    decreases end - k,
                {
                    seq.push(b64[k]);
                    assert(b64@.subrange(offset as int, k + 1) =~= b64@.subrange(offset as int, k as int).push(
                        b64@[k as int],
                    ));
                    k = k + 1;
                }
                push_text(&mut seq, "\x1b\\");
                proof {
                    let more: Seq<char> = if end < n {
                        "1"@
                    } else {
                        "0"@
                    };
                    if offset == 0 {
                        assert(h@ =~= "\x1b_G"@ + ctl + ",t=d,m="@ + more + ";"@);
                    } else {
                        assert(h@ =~= "\x1b_Gm="@ + more + ";"@);
                    }
                    assert(seq@ =~= chunk_seq(ctl, b64@, offset as int));
                }
                let ghost before = out@;
                self.wrap(&seq, &mut out);
                assert(direct_chunks(self@.tmux, ctl, b64@, offset as int) == wrapped(
                    self@.tmux,
                    chunk_seq(ctl, b64@, offset as int),
                ) + direct_chunks(self@.tmux, ctl, b64@, end as int));
                assert(out@ + direct_chunks(self@.tmux, ctl, b64@, end as int) =~= before
                    + direct_chunks(self@.tmux, ctl, b64@, offset as int));
                offset = end;
            }
            file = None;
        } else {
            self.counter = if self.counter == u64::MAX {
                0
            } else {
                self.counter + 1
            };
            let mut p = trim_slashes_of(tmpdir);
            push_str(&mut p, "/carbonyl-tty-graphics-protocol-");
            push_decimal(&mut p, pid as u64);
            push_str(&mut p, "-");
            push_decimal(&mut p, self.counter);
            push_str(&mut p, ".z");
            let path = crate::text::string_from_chars(&p);
            assert(path@ =~= temp_path(tmpdir@, pid, self.counter));
            let mut h: Vec<char> = Vec::new();
            push_str(&mut h, "\x1b_G");
            extend_chars_of(&mut h, &control);
            push_str(&mut h, ",t=t;");
            let mut seq: Vec<u8> = Vec::new();
            push_low(&mut seq, &h);
            let enc = base64_bytes(path.as_str().as_bytes());
            let mut k: usize = 0;
            let ghost s0 = seq@;
            while k < enc.len()
                invariant
                    k <= enc@.len(),
                    seq@ == s0 + enc@.take(k as int),
                decreases enc@.len() - k,
            {
                seq.push(enc[k]);
                assert(enc@.take(k + 1) == enc@.take(k as int).push(enc@[k as int]));
                k = k + 1;
            }
            assert(enc@.take(enc@.len() as int) == enc@);
            push_text(&mut seq, "\x1b\\");
            assert(h@ =~= "\x1b_G"@ + ctl + ",t=t;"@);
            assert(seq@ =~= file_seq(ctl, path@));
            self.wrap(&seq, &mut out);
            file = Some((path, payload));
        }
        push_text(&mut out, "\x1b8");
        proof {
            assert(out@ =~= frame_out(old(self)@, payload@, col, row, cols, rows, tmpdir@, pid));
        }
        EncodedFrame { out, file }
    }

    /// Encodes the stored framebuffer into a frame (see `encode_frame`),
    /// compressing it with `zlib_compress`, and marks it clean. An empty
    /// framebuffer gives an empty frame.
    pub fn encode(&mut self, col: u32, row: u32, cols: u32, rows: u32, tmpdir: &str, pid: u32) -> (f: EncodedFrame)
        ensures
            final(self)@ == after_encode(old(self)@),
            old(self)@.pixels.width == 0 || old(self)@.pixels.height == 0 ==> f.out@.len() == 0
                && f.file is None,
            old(self)@.pixels.width != 0 && old(self)@.pixels.height != 0 ==> frame_matches(
                f,
                old(self)@,
                zlib_fast(old(self)@.rgb),
                col,
                row,
                cols,
                rows,
                tmpdir@,
                pid,
            ),
    {
        self.dirty = false;
        if self.pixels.width == 0 || self.pixels.height == 0 {
            return EncodedFrame { out: Vec::new(), file: None };
        }
        let payload = zlib_compress(self.rgb.as_slice());
        self.encode_frame(payload, col, row, cols, rows, tmpdir, pid)
    }

    /// Records the temp file of a frame that was written, and returns the
    /// files of earlier frames to remove so that at most two are kept.
    pub fn commit_file(&mut self, path: String) -> (stale: Vec<String>)
        ensures
            ({
                let all = old(self)@.recent.push(path@);
                let k = if all.len() > 2 {
                    all.len() - 2
                } else {
                    0
                };
                &&& final(self)@ == (KittyView { recent: all.subrange(k as int, all.len() as int), ..old(self)@ })
                &&& stale@.map_values(|s: String| s@) == all.take(k as int)
                &&& final(self)@.recent.len() <= 2
            }),
    {
        let ghost all = old(self)@.recent.push(path@);
        self.recent.push_back(path);
        assert(self.recent@.map_values(|s: String| s@) =~= all);
        let mut stale: Vec<String> = Vec::new();
        while self.recent.len() > 2
            invariant
                stale@.len() + self.recent@.len() == all.len(),
                stale@.len() > 0 ==> self.recent@.len() >= 2,
                stale@.map_values(|s: String| s@) == all.take(stale@.len() as int),
                self.recent@.map_values(|s: String| s@) == all.subrange(stale@.len() as int, all.len() as int),
                self.rgb == old(self).rgb,
                self.pixels == old(self).pixels,
                self.dirty == old(self).dirty,
                self.counter == old(self).counter,
                self.direct == old(self).direct,
                self.tmux == old(self).tmux,
            decreases self.recent@.len(),
        {
            let ghost r0 = self.recent@;
            match self.recent.pop_front() {
                Some(old_path) => {
                    let ghost n0 = stale@.len() as int;
                    let ghost s0 = stale@;
                    assert(r0.map_values(|s: String| s@)[0] == all.subrange(n0, all.len() as int)[0]);
                    assert(old_path@ == all[n0]);
                    stale.push(old_path);
                    assert(stale@ == s0.push(old_path));
                    assert(all.take(n0 + 1) =~= all.take(n0).push(all[n0]));
                    assert(self.recent@ == r0.subrange(1, r0.len() as int));
                    assert(stale@.map_values(|s: String| s@) =~= all.take(n0 + 1));
                    assert forall|j: int| 0 <= j < self.recent@.len() implies #[trigger] self.recent@[j]@ == all[n0 + 1 + j] by {
                        assert(self.recent@[j] == r0[j + 1]);
                        assert(r0.map_values(|s: String| s@)[j + 1] == all.subrange(n0, all.len() as int)[j + 1]);
                    }
                    assert(self.recent@.map_values(|s: String| s@) =~= all.subrange(n0 + 1, all.len() as int));
                },
                None => {},
            }
        }
        stale
    }
}

/// Appends the characters of `src`.
fn extend_chars_of(dst: &mut Vec<char>, src: &Vec<char>)
    ensures
        final(dst)@ == old(dst)@ + src@,
{
    crate::text::extend_chars(dst, src);
}

// ---------------------------------------------------------------------------
// Call sequences.

/// A call that changes a graphics encoder's frame state.
pub enum GraphicsCall {
    Store(Seq<u8>, Size),
    Encode,
}

/// The state after the calls, in order (see `after_store`, `after_encode`).
pub open spec fn run_graphics(g: KittyView, calls: Seq<GraphicsCall>) -> KittyView
    decreases calls.len(),
{
    if calls.len() == 0 {
        g
    } else {
        let h = run_graphics(g, calls.drop_last());
        match calls.last() {
            GraphicsCall::Store(p, s) => after_store(h, p, s),
            GraphicsCall::Encode => after_encode(h),
        }
    }
}

/// A storable framebuffer was stored after the last encode (or, if none
/// was encoded, the start was dirty or such a framebuffer was stored).
pub open spec fn stored_since_encode(start_dirty: bool, calls: Seq<GraphicsCall>) -> bool
    decreases calls.len(),
{
    if calls.len() == 0 {
        start_dirty
    } else {
        match calls.last() {
            GraphicsCall::Store(p, s) => storable(p, s) || stored_since_encode(start_dirty, calls.drop_last()),
            GraphicsCall::Encode => false,
        }
    }
}

/// The dirty flag says whether a framebuffer came in since the last encode:
/// a storable `store` sets it, `encode` clears it, and nothing else changes
/// it.
pub proof fn lemma_dirty_tracks_stores(g: KittyView, calls: Seq<GraphicsCall>)
    ensures
        run_graphics(g, calls).dirty == stored_since_encode(g.dirty, calls),
    decreases calls.len(),
{
    if calls.len() > 0 {
        lemma_dirty_tracks_stores(g, calls.drop_last());
    }
}
} // verus!

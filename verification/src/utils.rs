//! Pixel-buffer normalisation and file-path validation.
//!
//! Every bitmap handed to the renderer is 4-channel RGBA.  The helpers here
//! turn the three source layouts (RGBA, RGB, 8-bit grayscale) into that form:
//! RGBA sources have their color channels premultiplied by alpha, the other
//! two are padded with a fully opaque alpha channel.

use vstd::prelude::*;

verus! {

/// `n / 255` rounded half-up: `floor(n/255 + 1/2)` written over integers.
pub open spec fn round_div_255(n: int) -> int {
    (2 * n + 255) / 510
}

/// One color channel premultiplied by its alpha: `round(c * a / 255)`,
/// rounding half-up.  The result is at most 255, so the cast is exact.
pub open spec fn premul_channel(c: u8, a: u8) -> u8 {
    round_div_255(c * a) as u8
}

/// The premultiplied form of an RGBA byte stream: in each 4-byte pixel the
/// three color channels are multiplied by the pixel's alpha, the alpha byte
/// itself is unchanged.
pub open spec fn premultiplied(p: Seq<u8>) -> Seq<u8>
    recommends
        p.len() % 4 == 0,
{
    Seq::new(p.len(), |i: int| if i % 4 == 3 {
        p[i]
    } else {
        premul_channel(p[i], p[i - i % 4 + 3])
    })
}

/// The RGBA form of an RGB byte stream: after every 3-byte pixel a fully
/// opaque alpha byte is inserted.
pub open spec fn alpha_padded(p: Seq<u8>) -> Seq<u8>
    recommends
        p.len() % 3 == 0,
{
    Seq::new(p.len() / 3 * 4, |i: int| if i % 4 == 3 {
        255u8
    } else {
        p[i / 4 * 3 + i % 4]
    })
}

/// The RGBA form of an 8-bit grayscale byte stream: each gray value is
/// replicated into the three color channels, alpha is fully opaque.
pub open spec fn gray_expanded(p: Seq<u8>) -> Seq<u8> {
    Seq::new(p.len() * 4, |i: int| if i % 4 == 3 {
        255u8
    } else {
        p[i / 4]
    })
}

fn premul_channel_exec(c: u8, a: u8) -> (r: u8)
    ensures
        r == premul_channel(c, a),
{
    proof {
        assert((2 * (c as int)) * (a as int) <= 130050) by (nonlinear_arith)
            requires
                c <= 255,
                a <= 255,
        ;
        assert(2 * (c as int) * (a as int) == 2 * ((c as int) * (a as int))) by (nonlinear_arith);
    }
    let n: u32 = 2 * (c as u32) * (a as u32) + 255;
    assert(n / 510 <= 255);
    (n / 510) as u8
}

/// Premultiply an RGBA pixel buffer by its alpha channel, pixel by pixel.
pub fn premultiply_by_alpha(pixels: &Vec<u8>) -> (r: Vec<u8>)
    requires
        pixels@.len() % 4 == 0,
    ensures
        r@ == premultiplied(pixels@),
{
    let mut out: Vec<u8> = Vec::new();
    let mut i: usize = 0;
    while i < pixels.len()
        invariant
            pixels@.len() % 4 == 0,
            i % 4 == 0,
            i <= pixels@.len(),
            out@.len() == i,
            forall|j: int| 0 <= j < i ==> out@[j] == premultiplied(pixels@)[j],
        decreases pixels@.len() - i,
    {
        assert(i + 4 <= pixels@.len());
        let a = pixels[i + 3];
        out.push(premul_channel_exec(pixels[i], a));
        out.push(premul_channel_exec(pixels[i + 1], a));
        out.push(premul_channel_exec(pixels[i + 2], a));
        out.push(a);
        proof {
            assert(forall|j: int| i <= j < i + 4 ==> out@[j] == premultiplied(pixels@)[j]) by {
                assert((i + 1) % 4 == 1 && (i + 2) % 4 == 2 && (i + 3) % 4 == 3);
            }
        }
        i = i + 4;
    }
    proof {
        assert(out@ =~= premultiplied(pixels@));
    }
    out
}

/// Append a fully opaque alpha byte to every 3-byte RGB pixel.
pub fn add_alpha_channel(pixels: &Vec<u8>) -> (r: Vec<u8>)
    requires
        pixels@.len() % 3 == 0,
    ensures
        r@ == alpha_padded(pixels@),
{
    let mut out: Vec<u8> = Vec::new();
    let mut i: usize = 0;
    while i < pixels.len()
        invariant
            pixels@.len() % 3 == 0,
            i % 3 == 0,
            i <= pixels@.len(),
            out@.len() == i / 3 * 4,
            forall|j: int| 0 <= j < out@.len() ==> out@[j] == alpha_padded(pixels@)[j],
        decreases pixels@.len() - i,
    {
        assert(i + 3 <= pixels@.len());
        out.push(pixels[i]);
        out.push(pixels[i + 1]);
        out.push(pixels[i + 2]);
        out.push(255);
        proof {
            let g = i as int / 3;
            assert(out@.len() == (i + 3) / 3 * 4);
            assert(forall|j: int| 4 * g <= j < 4 * g + 4 ==> out@[j] == alpha_padded(
                pixels@,
            )[j]) by {
                assert((4 * g) % 4 == 0 && (4 * g + 1) % 4 == 1 && (4 * g + 2) % 4 == 2 && (4 * g
                    + 3) % 4 == 3);
                assert((4 * g) / 4 == g && (4 * g + 1) / 4 == g && (4 * g + 2) / 4 == g);
            }
        }
        i = i + 3;
    }
    proof {
        assert(out@ =~= alpha_padded(pixels@));
    }
    out
}

/// Replicate each 8-bit gray value into an opaque RGBA pixel.
pub fn gray_to_rgba(pixels: &Vec<u8>) -> (r: Vec<u8>)
    ensures
        r@ == gray_expanded(pixels@),
{
    let mut out: Vec<u8> = Vec::new();
    let mut i: usize = 0;
    while i < pixels.len()
        invariant
            i <= pixels@.len(),
            out@.len() == 4 * i,
            forall|j: int| 0 <= j < out@.len() ==> out@[j] == gray_expanded(pixels@)[j],
        decreases pixels@.len() - i,
    {
        let g = pixels[i];
        out.push(g);
        out.push(g);
        out.push(g);
        out.push(255);
        proof {
            let b = 4 * (i as int);
            assert(forall|j: int| b <= j < b + 4 ==> out@[j] == gray_expanded(pixels@)[j]) by {
                assert(b % 4 == 0 && (b + 1) % 4 == 1 && (b + 2) % 4 == 2 && (b + 3) % 4 == 3);
                assert(b / 4 == i as int && (b + 1) / 4 == i as int && (b + 2) / 4 == i as int);
            }
        }
        i = i + 1;
    }
    proof {
        assert(out@ =~= gray_expanded(pixels@));
    }
    out
}

/// The code point of `c` with ASCII capitals folded to lower case.
pub open spec fn fold_char(c: char) -> u32 {
    if 65 <= c as u32 <= 90 {
        (c as u32 + 32) as u32
    } else {
        c as u32
    }
}

/// `s` folded character by character.
pub open spec fn folded(s: Seq<char>) -> Seq<u32> {
    Seq::new(s.len(), |i: int| fold_char(s[i]))
}

/// The largest index at which `c` occurs in `s`, or -1 if it does not.
pub open spec fn last_index_of(s: Seq<char>, c: char) -> int
    decreases s.len(),
{
    if s.len() == 0 {
        -1
    } else if s[s.len() - 1] == c {
        s.len() - 1
    } else {
        last_index_of(s.drop_last(), c)
    }
}

proof fn lemma_last_index_of(s: Seq<char>, c: char)
    ensures
        -1 <= last_index_of(s, c) < s.len(),
        last_index_of(s, c) >= 0 ==> s[last_index_of(s, c)] == c,
        forall|j: int| last_index_of(s, c) < j < s.len() ==> s[j] != c,
    decreases s.len(),
{
    if s.len() == 0 {
    } else if s[s.len() - 1] == c {
    } else {
        lemma_last_index_of(s.drop_last(), c);
        assert(forall|j: int| 0 <= j < s.len() - 1 ==> s[j] == s.drop_last()[j]);
    }
}

/// The supported bitmap extensions, folded to lower case and written as
/// code points: bmp, gif, jpeg, jpg, png, tga, tiff, tif.
pub open spec fn is_supported_ext(e: Seq<u32>) -> bool {
    ||| e == seq![98u32, 109u32, 112u32]  // bmp
    ||| e == seq![103u32, 105u32, 102u32]  // gif
    ||| e == seq![106u32, 112u32, 101u32, 103u32]  // jpeg
    ||| e == seq![106u32, 112u32, 103u32]  // jpg
    ||| e == seq![112u32, 110u32, 103u32]  // png
    ||| e == seq![116u32, 103u32, 97u32]  // tga
    ||| e == seq![116u32, 105u32, 102u32, 102u32]  // tiff
    ||| e == seq![116u32, 105u32, 102u32]  // tif
}

/// Whether a path names a loadable image: the final component has a
/// non-empty extension after a non-empty stem, and that extension,
/// case-insensitively, is one of the supported formats.  Components are
/// separated by `/`.
pub open spec fn valid_image_path(s: Seq<char>) -> bool {
    let d = last_index_of(s, '.');
    let sl = last_index_of(s, '/');
    &&& d > sl + 1
    &&& d + 1 < s.len()
    &&& is_supported_ext(folded(s.subrange(d + 1, s.len() as int)))
}

fn fold_char_exec(c: char) -> (r: u32)
    ensures
        r == fold_char(c),
{
    let v = c as u32;
    if 65 <= v && v <= 90 {
        v + 32
    } else {
        v
    }
}

/// Decide whether `path` names a loadable image file, by its extension
/// alone (case-insensitive, no content sniffing).
pub fn is_valid_file(path: &str) -> (r: bool)
    ensures
        r == valid_image_path(path@),
{
    let n = path.unicode_len();
    let mut i: usize = 0;
    let mut dot: usize = 0;
    let mut has_dot = false;
    let mut slash: usize = 0;
    let mut has_slash = false;
    while i < n
        invariant
            n == path@.len(),
            i <= n,
            has_dot ==> dot < i && path@[dot as int] == '.',
            has_dot ==> forall|j: int| dot < j < i ==> path@[j] != '.',
            !has_dot ==> forall|j: int| 0 <= j < i ==> path@[j] != '.',
            has_slash ==> slash < i && path@[slash as int] == '/',
            has_slash ==> forall|j: int| slash < j < i ==> path@[j] != '/',
            !has_slash ==> forall|j: int| 0 <= j < i ==> path@[j] != '/',
        decreases n - i,
    {
        let ch = path.get_char(i);
        if ch == '.' {
            dot = i;
            has_dot = true;
        }
        if ch == '/' {
            slash = i;
            has_slash = true;
        }
        i = i + 1;
    }
    proof {
        lemma_last_index_of(path@, '.');
        lemma_last_index_of(path@, '/');
        if has_dot {
            assert(last_index_of(path@, '.') == dot);
        }
        if has_slash {
            assert(last_index_of(path@, '/') == slash);
        }
    }
    if !has_dot {
        return false;
    }
    let stem_ok = if has_slash {
        dot > slash + 1
    } else {
        dot > 0
    };
    if !stem_ok {
        return false;
    }
    if n - dot <= 1 {
        return false;
    }
    let ghost ext = path@.subrange(dot + 1, n as int);
    let k = n - dot - 1;
    if k == 3 {
        let e0 = fold_char_exec(path.get_char(dot + 1));
        let e1 = fold_char_exec(path.get_char(dot + 2));
        let e2 = fold_char_exec(path.get_char(dot + 3));
        let ok = (e0 == 98 && e1 == 109 && e2 == 112) || (e0 == 103 && e1 == 105 && e2 == 102) || (
        e0 == 106 && e1 == 112 && e2 == 103) || (e0 == 112 && e1 == 110 && e2 == 103) || (e0 == 116
            && e1 == 103 && e2 == 97) || (e0 == 116 && e1 == 105 && e2 == 102);
        proof {
            assert(folded(ext) =~= seq![e0, e1, e2]);
            if e0 == 98 && e1 == 109 && e2 == 112 {
                assert(folded(ext) =~= seq![98u32, 109u32, 112u32]);
            }
            if e0 == 103 && e1 == 105 && e2 == 102 {
                assert(folded(ext) =~= seq![103u32, 105u32, 102u32]);
            }
            if e0 == 106 && e1 == 112 && e2 == 103 {
                assert(folded(ext) =~= seq![106u32, 112u32, 103u32]);
            }
            if e0 == 112 && e1 == 110 && e2 == 103 {
                assert(folded(ext) =~= seq![112u32, 110u32, 103u32]);
            }
            if e0 == 116 && e1 == 103 && e2 == 97 {
                assert(folded(ext) =~= seq![116u32, 103u32, 97u32]);
            }
            if e0 == 116 && e1 == 105 && e2 == 102 {
                assert(folded(ext) =~= seq![116u32, 105u32, 102u32]);
            }
        }
        ok
    } else if k == 4 {
        let e0 = fold_char_exec(path.get_char(dot + 1));
        let e1 = fold_char_exec(path.get_char(dot + 2));
        let e2 = fold_char_exec(path.get_char(dot + 3));
        let e3 = fold_char_exec(path.get_char(dot + 4));
        let ok = (e0 == 106 && e1 == 112 && e2 == 101 && e3 == 103) || (e0 == 116 && e1 == 105 && e2
            == 102 && e3 == 102);
        proof {
            assert(folded(ext) =~= seq![e0, e1, e2, e3]);
            if e0 == 106 && e1 == 112 && e2 == 101 && e3 == 103 {
                assert(folded(ext) =~= seq![106u32, 112u32, 101u32, 103u32]);
            }
            if e0 == 116 && e1 == 105 && e2 == 102 && e3 == 102 {
                assert(folded(ext) =~= seq![116u32, 105u32, 102u32, 102u32]);
            }
        }
        ok
    } else {
        proof {
            assert(folded(ext).len() == k);
        }
        false
    }
}

/// The directory part of a `/`-separated path: everything before the last
/// separator, or the empty string for a bare file name.  This is a lexical
/// operation; it is used to notice that a newly dropped file lives in a
/// different directory than the one whose neighbours are cached.
pub open spec fn parent_of(s: Seq<char>) -> Seq<char> {
    let sl = last_index_of(s, '/');
    if sl < 0 {
        Seq::empty()
    } else {
        s.subrange(0, sl)
    }
}

/// The directory part of `path`; see [`parent_of`].
pub fn parent_dir(path: &str) -> (r: String)
    ensures
        r@ == parent_of(path@),
{
    let n = path.unicode_len();
    let mut i: usize = 0;
    let mut slash: usize = 0;
    let mut has_slash = false;
    while i < n
        invariant
            n == path@.len(),
            i <= n,
            has_slash ==> slash < i && path@[slash as int] == '/',
            has_slash ==> forall|j: int| slash < j < i ==> path@[j] != '/',
            !has_slash ==> forall|j: int| 0 <= j < i ==> path@[j] != '/',
        decreases n - i,
    {
        if path.get_char(i) == '/' {
            slash = i;
            has_slash = true;
        }
        i = i + 1;
    }
    proof {
        lemma_last_index_of(path@, '/');
        if has_slash {
            assert(last_index_of(path@, '/') == slash);
        }
    }
    if !has_slash {
        let r = String::new();
        proof {
            assert(r@ =~= parent_of(path@));
        }
        r
    } else {
        let p = path.substring_char(0, slash);
        p.to_owned()
    }
}

} // verus!

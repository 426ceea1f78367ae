use vstd::prelude::*;
use vstd::string::StrSliceExecFns;

use crate::image_processor::RGB;
use crate::quad_tree::{
    has_splittable_leaf, internal_count, nodes_after_split, queue_after_split, render_view, rgba_bytes,
    split_target, Node, OrdNode, QuadTree,
};
use crate::CompressError;

verus! {

/// Value of a hexadecimal digit, or `None`.
pub open spec fn hex_digit(c: char) -> Option<u8> {
    if '0' <= c <= '9' {
        Some((c as u32 - '0' as u32) as u8)
    } else if 'a' <= c <= 'f' {
        Some((c as u32 - 'a' as u32 + 10) as u8)
    } else if 'A' <= c <= 'F' {
        Some((c as u32 - 'A' as u32 + 10) as u8)
    } else {
        None
    }
}

/// Value of a two-character base-16 field, which may also be a `+` sign
/// followed by one digit.
pub open spec fn hex_pair(a: char, b: char) -> Option<u8> {
    match (hex_digit(a), hex_digit(b)) {
        (Some(x), Some(y)) => Some((16 * x + y) as u8),
        (None, Some(y)) => if a == '+' {
            Some(y)
        } else {
            None
        },
        _ => None,
    }
}

/// `s` without its leading `#` characters.
pub open spec fn strip_hashes(s: Seq<char>) -> Seq<char>
    decreases s.len(),
{
    if s.len() > 0 && s[0] == '#' {
        strip_hashes(s.subrange(1, s.len() as int))
    } else {
        s
    }
}

/// The color that a string `#rrggbb` names, if it names one.
pub open spec fn parse_hex_color(s: Seq<char>) -> Option<RGB<u8>> {
    let t = strip_hashes(s);
    if t.len() != 6 {
        None
    } else {
        match (hex_pair(t[0], t[1]), hex_pair(t[2], t[3]), hex_pair(t[4], t[5])) {
            (Some(r), Some(g), Some(b)) => Some(RGB { r, g, b }),
            _ => None,
        }
    }
}

fn hex_digit_exec(c: char) -> (res: Option<u8>)
    ensures
        res == hex_digit(c),
{
    if '0' <= c && c <= '9' {
        Some((c as u32 - '0' as u32) as u8)
    } else if 'a' <= c && c <= 'f' {
        Some((c as u32 - 'a' as u32 + 10) as u8)
    } else if 'A' <= c && c <= 'F' {
        Some((c as u32 - 'A' as u32 + 10) as u8)
    } else {
        None
    }
}

fn hex_pair_exec(a: char, b: char) -> (res: Option<u8>)
    ensures
        res == hex_pair(a, b),
{
    match (hex_digit_exec(a), hex_digit_exec(b)) {
        (Some(x), Some(y)) => Some(16 * x + y),
        (None, Some(y)) => if a == '+' {
            Some(y)
        } else {
            None
        },
        _ => None,
    }
}

proof fn lemma_strip_hashes(s: Seq<char>, i: int)
    requires
        0 <= i <= s.len(),
        forall|j: int| 0 <= j < i ==> s[j] == '#',
    ensures
        strip_hashes(s) == strip_hashes(s.subrange(i, s.len() as int)),
    decreases i,
{
    if i > 0 {
        let t = s.subrange(1, s.len() as int);
        assert(s[0] == '#');
        assert forall|j: int| 0 <= j < i - 1 implies t[j] == '#' by {
            assert(t[j] == s[j + 1]);
        }
        lemma_strip_hashes(t, i - 1);
        assert(t.subrange(i - 1, t.len() as int) =~= s.subrange(i, s.len() as int));
    } else {
        assert(s.subrange(0, s.len() as int) =~= s);
    }
}

/// Parses a color written `#rrggbb` (any number of leading `#`, then six
/// base-16 digits in either case).
pub fn hex_to_rgb(hex: &str) -> (res: Result<RGB<u8>, CompressError>)
    ensures
        match res {
            Ok(c) => parse_hex_color(hex@) == Some(c),
            Err(e) => parse_hex_color(hex@) is None && e == CompressError::InvalidColor,
        },
{
    let n = hex.unicode_len();
    let mut start: usize = 0;
    while start < n && hex.get_char(start) == '#'
        invariant
            n == hex@.len(),
            start <= n,
            forall|j: int| 0 <= j < start ==> hex@[j] == '#',
        decreases n - start,
    {
        start += 1;
    }
    let ghost t = hex@.subrange(start as int, n as int);
    proof {
        lemma_strip_hashes(hex@, start as int);
        if start < n {
            assert(t[0] != '#');
        }
        assert(strip_hashes(t) == t);
    }
    if n - start != 6 {
        return Err(CompressError::InvalidColor);
    }
    let r = hex_pair_exec(hex.get_char(start), hex.get_char(start + 1));
    let g = hex_pair_exec(hex.get_char(start + 2), hex.get_char(start + 3));
    let b = hex_pair_exec(hex.get_char(start + 4), hex.get_char(start + 5));
    assert(t[0] == hex@[start as int] && t[1] == hex@[start + 1] && t[2] == hex@[start + 2]);
    assert(t[3] == hex@[start + 3] && t[4] == hex@[start + 4] && t[5] == hex@[start + 5]);
    match (r, g, b) {
        (Some(r), Some(g), Some(b)) => Ok(RGB::new(r, g, b)),
        _ => Err(CompressError::InvalidColor),
    }
}

/// The arena and queue after `n` steps from `(nodes, queue)`, stopping early
/// once no leaf can split.
pub open spec fn state_after(
    g: Seq<Seq<RGB<u64>>>,
    nodes: Seq<Node>,
    queue: Seq<OrdNode>,
    n: nat,
) -> (Seq<Node>, Seq<OrdNode>)
    decreases n,
{
    if n == 0 {
        (nodes, queue)
    } else {
        let s = state_after(g, nodes, queue, (n - 1) as nat);
        if s.1.len() == 0 {
            s
        } else {
            (nodes_after_split(s.0, split_target(s.1)), queue_after_split(g, s.0, s.1))
        }
    }
}

/// Runs up to `iterations` steps, stopping at the first failure, which it
/// returns. On success exactly `iterations` steps were taken.
pub fn refine(tree: &mut QuadTree, iterations: u32) -> (res: Result<(), CompressError>)
    requires
        old(tree).wf(),
        old(tree).arena().len() + 4 * iterations <= usize::MAX,
    ensures
        final(tree).wf(),
        final(tree).grid() == old(tree).grid(),
        final(tree).spec_height() == old(tree).spec_height(),
        final(tree).spec_width() == old(tree).spec_width(),
        ({
            let k = internal_count(final(tree).arena()) - internal_count(old(tree).arena());
            &&& 0 <= k <= iterations
            &&& (final(tree).arena(), final(tree).queue()) == state_after(
                old(tree).grid(),
                old(tree).arena(),
                old(tree).queue(),
                k as nat,
            )
            &&& res is Ok <==> k == iterations
            &&& res is Err ==> res == Err::<(), CompressError>(CompressError::NoMoreSplittableRegions)
                && !has_splittable_leaf(final(tree).arena())
        }),
{
    let ghost g = tree.grid();
    let ghost nodes0 = tree.arena();
    let ghost queue0 = tree.queue();
    let mut i: u32 = 0;
    proof {
        tree.lemma_arena_counts();
    }
    while i < iterations
        invariant
            tree.wf(),
            tree.grid() == g,
            tree.spec_height() == old(tree).spec_height(),
            tree.spec_width() == old(tree).spec_width(),
            g == old(tree).grid(),
            nodes0 == old(tree).arena(),
            queue0 == old(tree).queue(),
            i <= iterations,
            internal_count(tree.arena()) == internal_count(nodes0) + i,
            tree.arena().len() == nodes0.len() + 4 * i,
            nodes0.len() + 4 * iterations <= usize::MAX,
            (tree.arena(), tree.queue()) == state_after(g, nodes0, queue0, i as nat),
        decreases iterations - i,
    {
        proof {
            tree.lemma_arena_counts();
        }
        match tree.split_next() {
            Ok(()) => {},
            Err(e) => {
                return Err(e);
            },
        }
        proof {
            tree.lemma_arena_counts();
        }
        i += 1;
    }
    Ok(())
}

proof fn lemma_div_step(i: int, d: int)
    requires
        0 <= i,
        0 < d,
    ensures
        (i + 1) % d == 0 ==> (i + 1) / d == i / d + 1 && ((i + 1) / d) * d == i + 1,
        (i + 1) % d != 0 ==> (i + 1) / d == i / d,
{
    vstd::arithmetic::div_mod::lemma_fundamental_div_mod(i, d);
    vstd::arithmetic::div_mod::lemma_fundamental_div_mod(i + 1, d);
    let q = i / d;
    let r = i % d;
    let q1 = (i + 1) / d;
    let r1 = (i + 1) % d;
    assert(0 <= r < d && 0 <= r1 < d);
    assert(d * (q1 - q) == 1 + r - r1) by (nonlinear_arith)
        requires
            i == d * q + r,
            i + 1 == d * q1 + r1,
    ;
    assert(q1 - q == 0 || q1 - q == 1) by (nonlinear_arith)
        requires
            d * (q1 - q) == 1 + r - r1,
            0 <= r < d,
            0 <= r1 < d,
    ;
    if r1 == 0 {
        assert(q1 - q == 1) by (nonlinear_arith)
            requires
                d * (q1 - q) == 1 + r,
                0 <= r < d,
                q1 - q == 0 || q1 - q == 1,
        ;
        assert(q1 * d == i + 1) by (nonlinear_arith)
            requires
                i + 1 == d * q1,
        ;
    } else {
        assert(q1 - q == 0) by (nonlinear_arith)
            requires
                d * (q1 - q) == 1 + r - r1,
                0 <= r < d,
                0 < r1 < d,
                q1 - q == 0 || q1 - q == 1,
        ;
    }
}

/// Records the refinement as frames: one 4-channel render before any step,
/// then one after every `delta`-th completed step, for up to `iterations`
/// steps. A failed step ends the run: the frames taken so far are kept and
/// the failure is returned beside them.
pub fn record_frames(tree: &mut QuadTree, iterations: u32, delta: u32, outline: Option<RGB<u8>>) -> (res: (
    Vec<Vec<u8>>,
    Result<(), CompressError>,
))
    requires
        old(tree).wf(),
        delta > 0,
        old(tree).arena().len() + 4 * iterations <= usize::MAX,
    ensures
        final(tree).wf(),
        final(tree).grid() == old(tree).grid(),
        final(tree).spec_height() == old(tree).spec_height(),
        final(tree).spec_width() == old(tree).spec_width(),
        ({
            let k = internal_count(final(tree).arena()) - internal_count(old(tree).arena());
            let frames = res.0@;
            &&& 0 <= k <= iterations
            &&& (final(tree).arena(), final(tree).queue()) == state_after(
                old(tree).grid(),
                old(tree).arena(),
                old(tree).queue(),
                k as nat,
            )
            &&& res.1 is Ok <==> k == iterations
            &&& res.1 is Err ==> res.1 == Err::<(), CompressError>(CompressError::NoMoreSplittableRegions)
                && !has_splittable_leaf(final(tree).arena())
            &&& frames.len() == 1 + k / (delta as int)
            &&& forall|j: int|
                0 <= j < frames.len() ==> (#[trigger] frames[j])@ == rgba_bytes(
                    render_view(
                        old(tree).grid(),
                        old(tree).spec_height(),
                        old(tree).spec_width(),
                        state_after(old(tree).grid(), old(tree).arena(), old(tree).queue(), (j * delta) as nat).0,
                        outline,
                    ),
                )
        }),
{
    let ghost g = tree.grid();
    let ghost h = tree.spec_height();
    let ghost w = tree.spec_width();
    let ghost nodes0 = tree.arena();
    let ghost queue0 = tree.queue();
    let mut frames: Vec<Vec<u8>> = Vec::new();
    let first = tree.render_rgba(outline);
    frames.push(first);
    let mut i: u32 = 0;
    proof {
        tree.lemma_arena_counts();
        assert(0int / (delta as int) == 0);
        assert(state_after(g, nodes0, queue0, 0) == (nodes0, queue0));
        assert forall|j: int| 0 <= j < frames@.len() implies (#[trigger] frames@[j])@ == rgba_bytes(
            render_view(g, h, w, state_after(g, nodes0, queue0, (j * delta) as nat).0, outline),
        ) by {
            assert(j == 0);
            assert(j * delta == 0);
        }
    }
    while i < iterations
        invariant
            tree.wf(),
            tree.grid() == g,
            tree.spec_height() == h,
            tree.spec_width() == w,
            g == old(tree).grid(),
            h == old(tree).spec_height(),
            w == old(tree).spec_width(),
            nodes0 == old(tree).arena(),
            queue0 == old(tree).queue(),
            delta > 0,
            i <= iterations,
            internal_count(tree.arena()) == internal_count(nodes0) + i,
            tree.arena().len() == nodes0.len() + 4 * i,
            nodes0.len() + 4 * iterations <= usize::MAX,
            (tree.arena(), tree.queue()) == state_after(g, nodes0, queue0, i as nat),
            frames@.len() == 1 + (i as int) / (delta as int),
            forall|j: int|
                0 <= j < frames@.len() ==> (#[trigger] frames@[j])@ == rgba_bytes(
                    render_view(g, h, w, state_after(g, nodes0, queue0, (j * delta) as nat).0, outline),
                ),
        decreases iterations - i,
    {
        proof {
            tree.lemma_arena_counts();
        }
        match tree.split_next() {
            Ok(()) => {},
            Err(e) => {
                return (frames, Err(e));
            },
        }
        proof {
            tree.lemma_arena_counts();
            lemma_div_step(i as int, delta as int);
        }
        i += 1;
        if i % delta == 0 {
            let frame = tree.render_rgba(outline);
            proof {
                let j = frames@.len() as int;
                let ii = i as int;
                let d = delta as int;
                assert(j * d == ii) by (nonlinear_arith)
                    requires
                        j == 1 + (ii - 1) / d,
                        (ii / d) * d == ii,
                        ii / d == (ii - 1) / d + 1,
                ;
            }
            frames.push(frame);
            proof {
                assert forall|j: int| 0 <= j < frames@.len() implies (#[trigger] frames@[j])@ == rgba_bytes(
                    render_view(g, h, w, state_after(g, nodes0, queue0, (j * delta) as nat).0, outline),
                ) by {
                    if j == frames@.len() - 1 {
                        assert(j * delta == i);
                    }
                }
            }
        }
    }
    (frames, Ok(()))
}

/// Speed setting of the GIF color quantizer, in `1..=30` (higher is faster
/// and coarser).
pub const GIF_SPEED: i32 = 10;

/// A palette-indexed GIF frame: an optional local palette of RGB triples,
/// one palette index per pixel, and the index shown as transparent, if any.
pub struct GifFrame {
    pub width: u16,
    pub height: u16,
    pub palette: Option<Vec<u8>>,
    pub buffer: Vec<u8>,
    pub transparent: Option<u8>,
}

impl GifFrame {
    /// Palette, pixel indices and transparent index, as plain values.
    pub open spec fn view(&self) -> (Option<Seq<u8>>, Seq<u8>, Option<u8>) {
        (
            match self.palette {
                Some(p) => Some(p@),
                None => None,
            },
            self.buffer@,
            self.transparent,
        )
    }
}

/// What the GIF quantizer makes of `width` by `height` RGBA pixels at `speed`:
/// palette, pixel indices, transparent index.
pub uninterp spec fn gif_quantized(width: u16, height: u16, rgba: Seq<u8>, speed: i32) -> (
    Option<Seq<u8>>,
    Seq<u8>,
    Option<u8>,
);

/// Relies on gif::Frame::from_rgba_speed: builds a frame of one palette index
/// per pixel from RGBA bytes, as a function of its arguments alone. It panics
/// unless there are `width * height * 4` bytes and `speed` is in `1..=30`.
#[verifier::external_body]
fn quantize_rgba(width: u16, height: u16, rgba: &Vec<u8>, speed: i32) -> (res: GifFrame)
    requires
        rgba@.len() == width * height * 4,
        1 <= speed <= 30,
    ensures
        res.width == width,
        res.height == height,
        res.view() == gif_quantized(width, height, rgba@, speed),
        res.buffer@.len() == width * height,
{
    let mut pixels = rgba.clone();
    let frame = gif::Frame::from_rgba_speed(width, height, &mut pixels, speed);
    GifFrame {
        width: frame.width,
        height: frame.height,
        palette: frame.palette,
        buffer: frame.buffer.into_owned(),
        transparent: frame.transparent,
    }
}

/// Turns recorded 4-channel frames of `width` by `height` pixels into
/// palette-indexed GIF frames, one for one and in order.
pub fn gif_frames(raw: &Vec<Vec<u8>>, width: u16, height: u16) -> (res: Vec<GifFrame>)
    requires
        forall|j: int| 0 <= j < raw@.len() ==> (#[trigger] raw@[j])@.len() == width * height * 4,
    ensures
        res@.len() == raw@.len(),
        forall|j: int|
            0 <= j < res@.len() ==> (#[trigger] res@[j]).view() == gif_quantized(width, height, raw@[j]@, GIF_SPEED)
                && res@[j].width == width && res@[j].height == height,
{
    let mut out: Vec<GifFrame> = Vec::new();
    let mut i: usize = 0;
    while i < raw.len()
        invariant
            i <= raw@.len(),
            out@.len() == i,
            forall|j: int| 0 <= j < raw@.len() ==> (#[trigger] raw@[j])@.len() == width * height * 4,
            forall|j: int|
                0 <= j < i ==> (#[trigger] out@[j]).view() == gif_quantized(width, height, raw@[j]@, GIF_SPEED)
                    && out@[j].width == width && out@[j].height == height,
        decreases raw.len() - i,
    {
        let f = quantize_rgba(width, height, &raw[i], GIF_SPEED);
        out.push(f);
        i += 1;
    }
    out
}

} // verus!

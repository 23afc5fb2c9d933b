//! Colours, and the premultiplied framebuffer: what of it is exact in whole
//! numbers (sizes, clearing, compositing, the used height).

use crate::number::Single;
use crate::text;
use vstd::prelude::*;

verus! {

#[derive(Clone, Copy, Debug, PartialEq, Eq, Structural)]
pub struct Color {
    pub r: u8,
    pub g: u8,
    pub b: u8,
    pub a: u8,
}

/// The value of a hexadecimal digit.
pub open spec fn hex_value(c: char) -> Option<nat> {
    if '0' <= c <= '9' {
        Some((c as u32 - '0' as u32) as nat)
    } else if 'a' <= c <= 'f' {
        Some((c as u32 - 'a' as u32 + 10) as nat)
    } else if 'A' <= c <= 'F' {
        Some((c as u32 - 'A' as u32 + 10) as nat)
    } else {
        None
    }
}

pub open spec fn all_hex(s: Seq<char>) -> bool {
    forall|i: int| 0 <= i < s.len() ==> hex_value(#[trigger] s[i]).is_some()
}

/// The value of a run of hexadecimal digits.
pub open spec fn hex_number(s: Seq<char>) -> nat
    decreases s.len(),
{
    if s.len() == 0 {
        0
    } else {
        hex_number(s.drop_last()) * 16 + hex_value(s.last())->0
    }
}

/// Hexadecimal digits, at least one, with at most one plus sign in front.
pub open spec fn parsed_hex(s: Seq<char>) -> Option<nat> {
    let d = if s.len() > 0 && s[0] == '+' {
        s.skip(1)
    } else {
        s
    };
    if d.len() > 0 && all_hex(d) {
        Some(hex_number(d))
    } else {
        None
    }
}

/// A colour written as six or eight hexadecimal digits behind any number of
/// hash signs, with white space around it; the last two of eight are the
/// opacity. (A plus sign counts as a digit in front.)
pub open spec fn parsed_color(s: Seq<char>) -> Option<Color> {
    let d = text::without_leading(text::trimmed(s), '#');
    if d.len() != 6 && d.len() != 8 {
        None
    } else {
        match parsed_hex(d) {
            None => None,
            Some(v) => Some(
                if d.len() == 6 {
                    Color {
                        r: (v / 0x1_0000 % 256) as u8,
                        g: (v / 0x100 % 256) as u8,
                        b: (v % 256) as u8,
                        a: 255,
                    }
                } else {
                    Color {
                        r: (v / 0x100_0000 % 256) as u8,
                        g: (v / 0x1_0000 % 256) as u8,
                        b: (v / 0x100 % 256) as u8,
                        a: (v % 256) as u8,
                    }
                },
            ),
        }
    }
}

fn hex_digit_value(c: char) -> (r: Option<u64>)
    ensures
        match r {
            Some(v) => hex_value(c) == Some(v as nat) && v < 16,
            None => hex_value(c).is_none(),
        },
{
    if '0' <= c && c <= '9' {
        Some((c as u32 - '0' as u32) as u64)
    } else if 'a' <= c && c <= 'f' {
        Some((c as u32 - 'a' as u32 + 10) as u64)
    } else if 'A' <= c && c <= 'F' {
        Some((c as u32 - 'A' as u32 + 10) as u64)
    } else {
        None
    }
}

fn parse_hex(a: &[char]) -> (r: Option<u64>)
    requires
        a@.len() <= 8,
    ensures
        match r {
            Some(v) => parsed_hex(a@) == Some(v as nat),
            None => parsed_hex(a@).is_none(),
        },
{
    let start: usize = if a.len() > 0 && a[0] == '+' {
        1
    } else {
        0
    };
    let ghost d = if start == 1 { a@.skip(1) } else { a@ };
    if start >= a.len() {
        return None;
    }
    let mut v: u64 = 0;
    let mut i: usize = start;
    while i < a.len()
        invariant
            a@.len() <= 8,
            start <= 1,
            start <= i <= a.len(),
            d == (if start == 1 { a@.skip(1) } else { a@ }),
            start == 1 <==> (a@.len() > 0 && a@[0] == '+'),
            forall|j: int| 0 <= j < i - start ==> hex_value(#[trigger] d[j]).is_some(),
            v == hex_number(d.take(i - start)),
            v < text::sixteen_to((i - start) as nat),
        decreases a.len() - i,
    {
        let c: char = a[i];
        assert(d[i - start] == c);
        match hex_digit_value(c) {
            None => {
                return None;
            },
            Some(x) => {
                proof {
                    assert(d.take(i - start + 1).drop_last() =~= d.take(i - start));
                    assert(d.take(i - start + 1).last() == c);
                    assert(text::sixteen_to((i - start) as nat) <= 0x1000_0000) by {
                        reveal_with_fuel(text::sixteen_to, 9);
                    }
                }
                v = v * 16 + x;
            },
        }
        i += 1;
    }
    assert(d.take(d.len() as int) =~= d);
    Some(v)
}

impl Color {
    #[verifier::allow_in_spec]
    pub fn rgb(r: u8, g: u8, b: u8) -> (c: Color)
        returns
            (Color { r, g, b, a: 255 }),
    {
        Color { r, g, b, a: 255 }
    }

    #[verifier::allow_in_spec]
    pub fn rgba(r: u8, g: u8, b: u8, a: u8) -> (c: Color)
        returns
            (Color { r, g, b, a }),
    {
        Color { r, g, b, a }
    }

    pub fn from_hex(s: &str) -> (c: Option<Color>)
        ensures
            c == parsed_color(s@),
    {
        let t: String = text::trim(s);
        let h: String = text::strip_leading(t.as_str(), '#');
        let d: Vec<char> = text::chars_of(h.as_str());
        if d.len() != 6 && d.len() != 8 {
            return None;
        }
        match parse_hex(d.as_slice()) {
            None => None,
            Some(v) => if d.len() == 6 {
                Some(
                    Color {
                        r: (v / 0x1_0000 % 256) as u8,
                        g: (v / 0x100 % 256) as u8,
                        b: (v % 256) as u8,
                        a: 255,
                    },
                )
            } else {
                Some(
                    Color {
                        r: (v / 0x100_0000 % 256) as u8,
                        g: (v / 0x1_0000 % 256) as u8,
                        b: (v / 0x100 % 256) as u8,
                        a: (v % 256) as u8,
                    },
                )
            },
        }
    }
}

#[verifier::allow_in_spec]
pub fn white() -> (c: Color)
    returns
        (Color { r: 255, g: 255, b: 255, a: 255 }),
{
    Color { r: 255, g: 255, b: 255, a: 255 }
}

#[verifier::allow_in_spec]
pub fn black() -> (c: Color)
    returns
        (Color { r: 0, g: 0, b: 0, a: 255 }),
{
    Color { r: 0, g: 0, b: 0, a: 255 }
}

#[verifier::allow_in_spec]
pub fn green() -> (c: Color)
    returns
        (Color { r: 0x4c, g: 0xaf, b: 0x50, a: 255 }),
{
    Color { r: 0x4c, g: 0xaf, b: 0x50, a: 255 }
}

#[verifier::allow_in_spec]
pub fn yellow() -> (c: Color)
    returns
        (Color { r: 0xff, g: 0xc1, b: 0x07, a: 255 }),
{
    Color { r: 0xff, g: 0xc1, b: 0x07, a: 255 }
}

#[verifier::allow_in_spec]
pub fn orange() -> (c: Color)
    returns
        (Color { r: 0xff, g: 0x98, b: 0x00, a: 255 }),
{
    Color { r: 0xff, g: 0x98, b: 0x00, a: 255 }
}

#[verifier::allow_in_spec]
pub fn red() -> (c: Color)
    returns
        (Color { r: 0xf4, g: 0x43, b: 0x36, a: 255 }),
{
    Color { r: 0xf4, g: 0x43, b: 0x36, a: 255 }
}

/// Bits of the number nearest to six tenths.
pub const SIX_TENTHS: u32 = 0x3f19_999a;

/// Bits of three quarters.
pub const THREE_QUARTERS: u32 = 0x3f40_0000;

/// Bits of the number nearest to nine tenths.
pub const NINE_TENTHS: u32 = 0x3f66_6666;

/// The step of utilisation that a value is in: below six tenths, below three
/// quarters, below nine tenths, or above.
pub open spec fn usage_step(v: Single) -> int {
    if v.lt(Single { bits: SIX_TENTHS }) {
        0
    } else if v.lt(Single { bits: THREE_QUARTERS }) {
        1
    } else if v.lt(Single { bits: NINE_TENTHS }) {
        2
    } else {
        3
    }
}

pub fn step_of(v: Single) -> (r: u8)
    ensures
        r == usage_step(v),
        r <= 3,
{
    if v.less(Single { bits: SIX_TENTHS }) {
        0
    } else if v.less(Single { bits: THREE_QUARTERS }) {
        1
    } else if v.less(Single { bits: NINE_TENTHS }) {
        2
    } else {
        3
    }
}

/// Colour for a utilisation from 0 to 1: `base`, then yellow, orange, red.
pub fn usage_color(v: Single, base: Color) -> (c: Color)
    ensures
        c == (if usage_step(v) == 0 {
            base
        } else if usage_step(v) == 1 {
            yellow()
        } else if usage_step(v) == 2 {
            orange()
        } else {
            red()
        }),
{
    match step_of(v) {
        0 => base,
        1 => yellow(),
        2 => orange(),
        _ => red(),
    }
}

#[derive(Clone, Copy, Debug, PartialEq, Eq, Hash, Structural)]
pub struct FontSpec {
    pub px: i32,
    pub weight: i32,
}

pub const FW_NORMAL: i32 = 400;

pub const FW_SEMIBOLD: i32 = 600;

// ---------------------------------------------------------------------------
// The framebuffer

/// A framebuffer: rows from the top, four bytes per pixel, opacity highest,
/// colours multiplied by it.
pub struct Canvas {
    pub w: i32,
    pub h: i32,
    pub px: Vec<u32>,
}

/// A channel of a pixel: 0 blue, 1 green, 2 red, 3 opacity.
pub open spec fn channel(p: u32, n: int) -> int {
    if n == 3 {
        p as int / 0x100_0000
    } else if n == 2 {
        p as int / 0x1_0000 % 256
    } else if n == 1 {
        p as int / 0x100 % 256
    } else {
        p as int % 256
    }
}

/// A channel of one pixel laid over another.
pub open spec fn channel_over(s: u32, d: u32, n: int) -> int {
    let v = channel(s, n) + channel(d, n) * (255 - channel(s, 3)) / 255;
    if v > 255 {
        255
    } else {
        v
    }
}

/// One pixel laid over another; one without opacity changes nothing.
pub open spec fn over(s: u32, d: u32) -> u32 {
    if channel(s, 3) == 0 {
        d
    } else {
        (channel_over(s, d, 3) * 0x100_0000 + channel_over(s, d, 2) * 0x1_0000 + channel_over(
            s,
            d,
            1,
        ) * 0x100 + channel_over(s, d, 0)) as u32
    }
}

fn mix(sc: u32, dc: u32, sa: u32) -> (r: u32)
    requires
        sc <= 255,
        dc <= 255,
        sa <= 255,
    ensures
        r == ({
            let v = sc + dc * (255 - sa) / 255;
            if v > 255 {
                255
            } else {
                v
            }
        }),
        r <= 255,
{
    let inv: u32 = 255 - sa;
    assert(dc * inv <= 255 * 255) by (nonlinear_arith)
        requires
            dc <= 255,
            inv <= 255,
    ;
    let v: u32 = sc + dc * inv / 255;
    if v > 255 {
        255
    } else {
        v
    }
}

pub fn pixel_over(s: u32, d: u32) -> (r: u32)
    ensures
        r == over(s, d),
{
    let sa: u32 = s / 0x100_0000;
    if sa == 0 {
        return d;
    }
    let a: u32 = mix(sa, d / 0x100_0000, sa);
    let r: u32 = mix(s / 0x1_0000 % 256, d / 0x1_0000 % 256, sa);
    let g: u32 = mix(s / 0x100 % 256, d / 0x100 % 256, sa);
    let b: u32 = mix(s % 256, d % 256, sa);
    a * 0x100_0000 + r * 0x1_0000 + g * 0x100 + b
}

/// The pixel of the source that lies over position `k` of the canvas when the
/// source's corner is at (x, y); `None` where it does not reach.
pub open spec fn source_index(w: int, src_w: int, src_h: int, x: int, y: int, k: int) -> Option<int> {
    let sx = k % w - x;
    let sy = k / w - y;
    if 0 <= sx < src_w && 0 <= sy < src_h {
        Some(sy * src_w + sx)
    } else {
        None
    }
}

/// The pixels after another framebuffer was laid over them at (x, y).
pub open spec fn composited(c: Canvas, src: Canvas, x: int, y: int) -> Seq<u32> {
    Seq::new(
        c.px@.len(),
        |k: int|
            match source_index(c.w as int, src.w as int, src.h as int, x, y, k) {
                Some(i) => over(src.px@[i], c.px@[k]),
                None => c.px@[k],
            },
    )
}

/// A pixel of the framebuffer can be seen.
pub open spec fn visible_at(px: Seq<u32>, k: int) -> bool {
    channel(px[k], 3) != 0
}

/// `r` is one more than the last row of the framebuffer with a pixel that can be
/// seen, or zero.
pub open spec fn is_used_height(c: Canvas, r: int) -> bool {
    if forall|k: int| 0 <= k < c.px@.len() ==> !#[trigger] visible_at(c.px@, k) {
        r == 0
    } else {
        exists|k: int|
            0 <= k < c.px@.len() && #[trigger] visible_at(c.px@, k) && r == k / (c.w as int) + 1
                && forall|j: int| k < j < c.px@.len() ==> !#[trigger] visible_at(c.px@, j)
    }
}

impl Canvas {
    pub open spec fn wf(self) -> bool {
        &&& self.w >= 0
        &&& self.h >= 0
        &&& self.px@.len() == self.w * self.h
    }

    pub fn new() -> (r: Canvas)
        ensures
            r.wf(),
            r.w == 0,
            r.h == 0,
    {
        Canvas { w: 0, h: 0, px: Vec::new() }
    }

    /// Gives the framebuffer a size of at least one pixel; a new size starts
    /// out clear, the same size keeps the pixels.
    pub fn resize(&mut self, w: i32, h: i32)
        requires
            old(self).wf(),
            at_least_one(w) * at_least_one(h) <= i32::MAX,
        ensures
            final(self).wf(),
            final(self).w == at_least_one(w),
            final(self).h == at_least_one(h),
            if at_least_one(w) == old(self).w && at_least_one(h) == old(self).h {
                final(self).px == old(self).px
            } else {
                final(self).px@ == Seq::new((final(self).w * final(self).h) as nat, |k: int| 0u32)
            },
    {
        let w1: i32 = if w > 1 {
            w
        } else {
            1
        };
        let h1: i32 = if h > 1 {
            h
        } else {
            1
        };
        if w1 != self.w || h1 != self.h {
            assert(w1 * h1 >= 0) by (nonlinear_arith)
                requires
                    w1 >= 1,
                    h1 >= 1,
            ;
            let n: usize = (w1 * h1) as usize;
            let mut px: Vec<u32> = Vec::new();
            let mut i: usize = 0;
            while i < n
                invariant
                    i <= n,
                    px@ == Seq::new(i as nat, |k: int| 0u32),
                decreases n - i,
            {
                px.push(0);
                i += 1;
            }
            self.w = w1;
            self.h = h1;
            self.px = px;
        }
    }

    /// Makes every pixel transparent.
    pub fn clear(&mut self)
        requires
            old(self).wf(),
        ensures
            final(self).wf(),
            final(self).w == old(self).w,
            final(self).h == old(self).h,
            final(self).px@ == Seq::new(old(self).px@.len(), |k: int| 0u32),
    {
        let mut i: usize = 0;
        while i < self.px.len()
            invariant
                i <= self.px@.len(),
                self.px@.len() == old(self).px@.len(),
                self.w == old(self).w,
                self.h == old(self).h,
                forall|k: int| 0 <= k < i ==> #[trigger] self.px@[k] == 0u32,
            decreases self.px.len() - i,
        {
            self.px.set(i, 0);
            i += 1;
        }
        assert(self.px@ =~= Seq::new(old(self).px@.len(), |k: int| 0u32));
    }

    /// Lays another framebuffer over this one with its corner at (x, y); what
    /// reaches over the edges is cut off.
    pub fn blit(&mut self, src: &Canvas, x: i32, y: i32)
        requires
            old(self).wf(),
            src.wf(),
        ensures
            final(self).wf(),
            final(self).w == old(self).w,
            final(self).h == old(self).h,
            final(self).px@ == composited(*old(self), *src, x as int, y as int),
    {
        let ghost px0 = self.px@;
        let n: usize = self.px.len();
        let mut k: usize = 0;
        let w: i64 = self.w as i64;
        while k < n
            invariant
                k <= n,
                n == px0.len(),
                w == self.w,
                self.w == old(self).w,
                self.h == old(self).h,
                self.px@.len() == n,
                n == self.w * self.h,
                self.w >= 0,
                self.h >= 0,
                px0 == old(self).px@,
                src.wf(),
                src.px.len() == src.w * src.h,
                forall|j: int| k <= j < n ==> #[trigger] self.px@[j] == px0[j],
                forall|j: int|
                    0 <= j < k ==> #[trigger] self.px@[j] == composited(
                        *old(self),
                        *src,
                        x as int,
                        y as int,
                    )[j],
            decreases n - k,
        {
            assert(w > 0) by (nonlinear_arith)
                requires
                    n == w * self.h,
                    n > 0,
                    w >= 0,
            ;
            assert(n <= i32::MAX * i32::MAX) by (nonlinear_arith)
                requires
                    n == self.w * self.h,
                    0 <= self.w <= i32::MAX,
                    0 <= self.h <= i32::MAX,
            ;
            let at: i64 = k as i64;
            assert(at / w <= at) by (nonlinear_arith)
                requires
                    w > 0,
                    at >= 0,
            ;
            let sx: i64 = at % w - x as i64;
            let sy: i64 = at / w - y as i64;
            if 0 <= sx && sx < src.w as i64 && 0 <= sy && sy < src.h as i64 {
                assert(sy * src.w + sx < src.w * src.h && sy * src.w + sx >= 0 && sy * src.w
                    <= i32::MAX * i32::MAX) by (nonlinear_arith)
                    requires
                        0 <= sx < src.w,
                        0 <= sy < src.h,
                        src.w <= i32::MAX,
                        src.h <= i32::MAX,
                ;
                assert(sy * src.w >= 0) by (nonlinear_arith)
                    requires
                        sy >= 0,
                        src.w > sx,
                        sx >= 0,
                ;
                assert(src.px@.len() <= usize::MAX);
                let i: usize = (sy * (src.w as i64) + sx) as usize;
                assert(i == sy * src.w + sx);
                assert(source_index(w as int, src.w as int, src.h as int, x as int, y as int, k as int)
                    == Some(i as int));
                let v: u32 = pixel_over(src.px[i], self.px[k]);
                self.px.set(k, v);
            }
            k += 1;
        }
        assert(self.px@ =~= composited(*old(self), *src, x as int, y as int));
    }

    /// One more than the last row with a pixel that can be seen; zero where
    /// there is none.
    pub fn used_height(&self) -> (r: i32)
        requires
            self.wf(),
        ensures
            is_used_height(*self, r as int),
            0 <= r <= self.h,
    {
        let mut k: usize = self.px.len();
        while k > 0
            invariant
                self.wf(),
                k <= self.px@.len(),
                forall|j: int| k <= j < self.px@.len() ==> !#[trigger] visible_at(self.px@, j),
            decreases k,
        {
            k -= 1;
            if self.px[k] / 0x100_0000 != 0 {
                assert(visible_at(self.px@, k as int));
                assert(self.w > 0) by (nonlinear_arith)
                    requires
                        self.w >= 0,
                        k < self.w * self.h,
                        k >= 0,
                ;
                assert((k as int) / (self.w as int) < self.h) by (nonlinear_arith)
                    requires
                        k < self.w * self.h,
                        self.w > 0,
                        k >= 0,
                ;
                assert((k as int) / (self.w as int) >= 0) by (nonlinear_arith)
                    requires
                        self.w > 0,
                        k >= 0,
                ;
                let row: usize = k / (self.w as usize);
                return row as i32 + 1;
            }
        }
        0
    }
}

pub open spec fn at_least_one(n: i32) -> int {
    if n > 1 {
        n as int
    } else {
        1
    }
}

/// Laying a framebuffer over another leaves every pixel that it does not
/// reach as it was.
pub proof fn law_blit_is_local(c: Canvas, src: Canvas, x: int, y: int, k: int)
    requires
        0 <= k < c.px@.len(),
        source_index(c.w as int, src.w as int, src.h as int, x, y, k).is_none(),
    ensures
        composited(c, src, x, y)[k] == c.px@[k],
{
}

/// A pixel without opacity changes nothing, and a fully opaque one replaces
/// what is under it.
pub proof fn law_opaque_replaces(s: u32, d: u32)
    ensures
        channel(s, 3) == 0 ==> over(s, d) == d,
        channel(s, 3) == 255 ==> over(s, d) == s,
{
    if channel(s, 3) == 255 {
        assert(channel(d, 0) * 0 == 0 && channel(d, 1) * 0 == 0 && channel(d, 2) * 0 == 0
            && channel(d, 3) * 0 == 0);
        assert(s == channel(s, 3) * 0x100_0000 + channel(s, 2) * 0x1_0000 + channel(s, 1) * 0x100
            + channel(s, 0));
    }
}

// ---------------------------------------------------------------------------
// Clipped text

/// The first `n` characters without white space at the end, and an ellipsis.
pub open spec fn clipped(s: Seq<char>, n: int) -> Seq<char> {
    text::skip_back(s.take(n), |c: char| text::is_white(c)).push('\u{2026}')
}

/// The shortened forms of a text that may be drawn in its place, the longest
/// first: all but its last character with an ellipsis, and so on down to one
/// character.
pub fn clip_candidates(s: &str) -> (r: Vec<String>)
    ensures
        text::views(r@) == Seq::new(
            (if s@.len() > 1 {
                s@.len() - 1
            } else {
                0
            }) as nat,
            |i: int| clipped(s@, s@.len() - 1 - i),
        ),
{
    let a: Vec<char> = text::chars_of(s);
    let mut r: Vec<String> = Vec::new();
    let mut n: usize = a.len();
    while n > 1
        invariant
            a@ == s@,
            n <= a.len(),
            n >= 1 || a.len() == 0,
            r@.len() == a.len() - n,
            forall|i: int| 0 <= i < r@.len() ==> (#[trigger] r@[i])@ == clipped(s@, s@.len() - 1 - i),
        decreases n,
    {
        n -= 1;
        let head: Vec<char> = text::slice_of(a.as_slice(), 0, n);
        assert(head@ =~= s@.take(n as int));
        let t: Vec<char> = text::trim_end_chars(head.as_slice());
        let mut c: String = text::string_of(t.as_slice());
        c.push('\u{2026}');
        r.push(c);
    }
    assert(text::views(r@) =~= Seq::new(
        (if s@.len() > 1 {
            s@.len() - 1
        } else {
            0
        }) as nat,
        |i: int| clipped(s@, s@.len() - 1 - i),
    ));
    r
}

// ---------------------------------------------------------------------------
// Drawing, as far as it is counted

/// How much of a pixel the text covers: the mean of its three colours.
pub open spec fn mean_channel(p: u32) -> int {
    (channel(p, 2) + channel(p, 1) + channel(p, 0)) / 3
}

/// The coverage of text that was drawn in white on black.
pub fn coverage_mask(px: &[u32]) -> (r: Vec<u8>)
    ensures
        r@.len() == px@.len(),
        forall|i: int| 0 <= i < px@.len() ==> #[trigger] r@[i] == mean_channel(px@[i]),
{
    let mut r: Vec<u8> = Vec::new();
    let mut i: usize = 0;
    while i < px.len()
        invariant
            i <= px.len(),
            r@.len() == i,
            forall|j: int| 0 <= j < i ==> #[trigger] r@[j] == mean_channel(px@[j]),
        decreases px.len() - i,
    {
        let p: u32 = px[i];
        let sum: u32 = p / 0x1_0000 % 256 + p / 0x100 % 256 + p % 256;
        r.push((sum / 3) as u8);
        i += 1;
    }
    r
}

/// The part of a range of length `len` from `at` that lies between zero and
/// `limit`: where it begins, and where it ends.
pub open spec fn clipped_range(at: int, len: int, limit: int) -> (int, int) {
    (
        if at > 0 {
            at
        } else {
            0
        },
        if at + len < limit {
            at + len
        } else {
            limit
        },
    )
}

pub fn clip_range(at: i32, len: i32, limit: i32) -> (r: (i32, i32))
    requires
        i32::MIN <= at + len,
    ensures
        (r.0 as int, r.1 as int) == clipped_range(at as int, len as int, limit as int),
{
    let end: i64 = at as i64 + len as i64;
    (
        if at > 0 {
            at
        } else {
            0
        },
        if end < limit as i64 {
            end as i32
        } else {
            limit
        },
    )
}

/// How a chart shows its samples.
#[derive(Clone, Copy, Debug, PartialEq, Eq, Structural)]
pub struct ChartPlan {
    /// Fewer samples than columns are stretched over the full width.
    pub stretched: bool,
    /// Columns that are drawn, from `x`.
    pub columns: i32,
    pub x: i32,
    /// Samples that are left out at the beginning.
    pub skipped: usize,
}

/// A chart of width `w` at `x` shows the last samples, one per column, at its
/// right side; fewer than there are columns are stretched over the full width.
/// Nothing is shown without samples or columns.
pub open spec fn plan_of(x: int, w: int, n: nat) -> Option<(bool, int, int, int)> {
    if w <= 0 || n == 0 {
        None
    } else if n < w {
        Some((true, w, x, 0))
    } else {
        Some((false, w, x, n - w))
    }
}

pub fn chart_plan(x: i32, w: i32, n: usize) -> (r: Option<ChartPlan>)
    ensures
        match r {
            Some(p) => plan_of(x as int, w as int, n as nat) == Some(
                (p.stretched, p.columns as int, p.x as int, p.skipped as int),
            ),
            None => plan_of(x as int, w as int, n as nat).is_none(),
        },
{
    if w <= 0 || n == 0 {
        return None;
    }
    if n < w as usize {
        return Some(ChartPlan { stretched: true, columns: w, x, skipped: 0 });
    }
    Some(ChartPlan { stretched: false, columns: w, x, skipped: n - w as usize })
}

/// Whatever is shown fills the chart, ends at its right side, and leaves out no
/// sample but the oldest of more than there are columns.
pub proof fn law_charts_end_at_the_right(x: int, w: int, n: nat)
    requires
        plan_of(x, w, n).is_some(),
    ensures
        ({
            let p = plan_of(x, w, n)->0;
            &&& p.2 == x
            &&& p.2 + p.1 == x + w
            &&& p.3 == (if n > w {
                n - w
            } else {
                0
            })
        }),
{
}

/// Character `c` is written for the digit `v`, small or capital.
pub open spec fn writes(c: char, v: int) -> bool {
    &&& 0 <= v < 16
    &&& c == "0123456789abcdef"@[v] || c == "0123456789ABCDEF"@[v]
}

proof fn lemma_writes(c: char, v: int)
    requires
        writes(c, v),
    ensures
        hex_value(c) == Some(v as nat),
        c != '#' && c != '+',
        !text::is_white(c),
{
    reveal_strlit("0123456789abcdef");
    reveal_strlit("0123456789ABCDEF");
    if v < 10 {
        assert("0123456789abcdef"@[v] as u32 == '0' as u32 + v);
        assert("0123456789ABCDEF"@[v] as u32 == '0' as u32 + v);
    } else {
        assert("0123456789abcdef"@[v] as u32 == 'a' as u32 + v - 10);
        assert("0123456789ABCDEF"@[v] as u32 == 'A' as u32 + v - 10);
    }
}

proof fn lemma_written_number(d: Seq<char>, v: Seq<int>)
    requires
        d.len() == v.len(),
        forall|i: int| 0 <= i < d.len() ==> writes(#[trigger] d[i], v[i]),
    ensures
        all_hex(d),
        d.len() > 0 ==> hex_number(d) == hex_number(d.drop_last()) * 16 + v[d.len() - 1],
{
    assert forall|i: int| 0 <= i < d.len() implies hex_value(#[trigger] d[i]).is_some() by {
        lemma_writes(d[i], v[i]);
    }
    if d.len() > 0 {
        lemma_writes(d[d.len() - 1], v[d.len() - 1]);
    }
}

/// The number that a run of digits is written for.
spec fn worth(v: Seq<int>) -> int
    decreases v.len(),
{
    if v.len() == 0 {
        0
    } else {
        worth(v.drop_last()) * 16 + v.last()
    }
}

proof fn lemma_worth(d: Seq<char>, v: Seq<int>)
    requires
        d.len() == v.len(),
        forall|i: int| 0 <= i < d.len() ==> writes(#[trigger] d[i], v[i]),
    ensures
        hex_number(d) == worth(v),
    decreases d.len(),
{
    if d.len() > 0 {
        lemma_written_number(d, v);
        assert forall|i: int| 0 <= i < d.len() - 1 implies writes(
            #[trigger] d.drop_last()[i],
            v.drop_last()[i],
        ) by {
            assert(writes(d[i], v[i]));
        }
        lemma_worth(d.drop_last(), v.drop_last());
    }
}

proof fn lemma_behind_hash(d: Seq<char>, v: Seq<int>, s: Seq<char>)
    requires
        d.len() >= 1,
        v.len() == d.len(),
        forall|i: int| 0 <= i < d.len() ==> writes(#[trigger] d[i], v[i]),
        s == d || s == seq!['#'] + d,
    ensures
        text::without_leading(text::trimmed(s), '#') == d,
        parsed_hex(d) == Some(hex_number(d)),
{
    lemma_writes(d[0], v[0]);
    lemma_writes(d[d.len() - 1], v[d.len() - 1]);
    lemma_written_number(d, v);
    let white = |c: char| text::is_white(c);
    assert(!white('#') && !white(d[0]) && !white(d[d.len() - 1]));
    assert(s[0] == '#' || s[0] == d[0]);
    assert(text::skip_front(s, white) == s);
    assert(s.last() == d[d.len() - 1]);
    assert(text::skip_back(s, white) == s);
    let hash = text::is_char('#');
    assert(text::skip_front(d, hash) == d);
    if s != d {
        assert(s.skip(1) =~= d);
        assert(hash(s[0]));
    }
}

proof fn lemma_six(v: Seq<int>)
    requires
        v.len() == 6,
        forall|i: int| 0 <= i < 6 ==> 0 <= #[trigger] v[i] < 16,
    ensures
        worth(v) / 0x1_0000 % 256 == v[0] * 16 + v[1],
        worth(v) / 0x100 % 256 == v[2] * 16 + v[3],
        worth(v) % 256 == v[4] * 16 + v[5],
        worth(v) >= 0,
{
    reveal_with_fuel(worth, 7);
    let (a, b, c) = (v[0] * 16 + v[1], v[2] * 16 + v[3], v[4] * 16 + v[5]);
    assert(worth(v) == a * 0x1_0000 + b * 0x100 + c);
    text::lemma_quotient(a, b * 0x100 + c, 0x1_0000);
    text::lemma_quotient(a * 0x100 + b, c, 0x100);
    text::lemma_quotient(a, b, 0x100);
    text::lemma_quotient(0, a, 0x100);
}

proof fn lemma_eight(v: Seq<int>)
    requires
        v.len() == 8,
        forall|i: int| 0 <= i < 8 ==> 0 <= #[trigger] v[i] < 16,
    ensures
        worth(v) / 0x100_0000 % 256 == v[0] * 16 + v[1],
        worth(v) / 0x1_0000 % 256 == v[2] * 16 + v[3],
        worth(v) / 0x100 % 256 == v[4] * 16 + v[5],
        worth(v) % 256 == v[6] * 16 + v[7],
        worth(v) >= 0,
{
    reveal_with_fuel(worth, 9);
    let (a, b, c, d) = (
        v[0] * 16 + v[1],
        v[2] * 16 + v[3],
        v[4] * 16 + v[5],
        v[6] * 16 + v[7],
    );
    assert(worth(v) == a * 0x100_0000 + b * 0x1_0000 + c * 0x100 + d);
    text::lemma_quotient(a, b * 0x1_0000 + c * 0x100 + d, 0x100_0000);
    text::lemma_quotient(0, a, 0x100);
    text::lemma_quotient(a * 0x100 + b, c * 0x100 + d, 0x1_0000);
    text::lemma_quotient(a, b, 0x100);
    text::lemma_quotient(a * 0x1_0000 + b * 0x100 + c, d, 0x100);
    text::lemma_quotient(a * 0x100 + b, c, 0x100);
}

/// A colour behind a hash sign is read back pair by pair of digits, red first;
/// it is opaque where no fourth pair says otherwise.
pub proof fn law_colour_is_read_in_pairs(d: Seq<char>, v: Seq<int>, s: Seq<char>)
    requires
        d.len() == 6 || d.len() == 8,
        v.len() == d.len(),
        forall|i: int| 0 <= i < d.len() ==> writes(#[trigger] d[i], v[i]),
        s == d || s == seq!['#'] + d,
    ensures
        parsed_color(s) matches Some(c) && c.r == v[0] * 16 + v[1] && c.g == v[2] * 16 + v[3] && c.b
            == v[4] * 16 + v[5] && c.a == (if d.len() == 8 {
            v[6] * 16 + v[7]
        } else {
            255
        }),
{
    lemma_behind_hash(d, v, s);
    lemma_worth(d, v);
    assert forall|i: int| 0 <= i < v.len() implies 0 <= #[trigger] v[i] < 16 by {
        assert(writes(d[i], v[i]));
    }
    if d.len() == 6 {
        lemma_six(v);
        assert(0 <= v[0] < 16 && 0 <= v[1] < 16 && 0 <= v[2] < 16 && 0 <= v[3] < 16 && 0 <= v[4] < 16
            && 0 <= v[5] < 16);
    } else {
        lemma_eight(v);
        assert(0 <= v[0] < 16 && 0 <= v[1] < 16 && 0 <= v[2] < 16 && 0 <= v[3] < 16 && 0 <= v[4] < 16
            && 0 <= v[5] < 16 && 0 <= v[6] < 16 && 0 <= v[7] < 16);
    }
}

/// The higher of two utilisations is in the same step or a later one, and no
/// step is passed over: the base colour below six tenths, red from nine on.
pub proof fn law_steps_rise(a: Single, b: Single)
    requires
        !a.nan() && !b.nan(),
        !b.lt(a),
    ensures
        0 <= usage_step(a) <= usage_step(b) <= 3,
        usage_step(b) == 0 <==> b.rank() < (Single { bits: SIX_TENTHS }).rank(),
        usage_step(b) == 3 <==> b.rank() >= (Single { bits: NINE_TENTHS }).rank(),
{
}

/// Laying a framebuffer at (x, y) puts its pixel at (i, j) over the pixel at
/// (x + i, y + j).
pub proof fn law_blit_moves_each_pixel(c: Canvas, src: Canvas, x: int, y: int, i: int, j: int)
    requires
        c.wf(),
        src.wf(),
        0 <= i < src.w && 0 <= j < src.h,
        0 <= x + i < c.w && 0 <= y + j < c.h,
    ensures
        0 <= (y + j) * c.w + x + i < c.px@.len(),
        composited(c, src, x, y)[(y + j) * c.w + x + i] == over(
            src.px@[j * src.w + i],
            c.px@[(y + j) * c.w + x + i],
        ),
{
    let w = c.w as int;
    let h = c.h as int;
    let a = x + i;
    let b = y + j;
    let k = b * w + a;
    assert(0 <= k < w * h) by (nonlinear_arith)
        requires
            k == b * w + a,
            0 <= a < w,
            0 <= b < h,
    ;
    vstd::arithmetic::div_mod::lemma_fundamental_div_mod_converse(k, w, b, a);
    assert(source_index(w, src.w as int, src.h as int, x, y, k) == Some(j * src.w + i));
}

proof fn lemma_share(d: int, k: int)
    by (nonlinear_arith)
    requires
        0 <= d <= 255,
        0 <= k <= 255,
    ensures
        0 <= d * k / 255 <= d,
{
}

proof fn lemma_channels(p: u32, a: int, r: int, g: int, b: int)
    requires
        p == a * 0x100_0000 + r * 0x1_0000 + g * 0x100 + b,
        0 <= a <= 255 && 0 <= r <= 255 && 0 <= g <= 255 && 0 <= b <= 255,
    ensures
        channel(p, 3) == a && channel(p, 2) == r && channel(p, 1) == g && channel(p, 0) == b,
{
    text::lemma_quotient(a, r * 0x1_0000 + g * 0x100 + b, 0x100_0000);
    text::lemma_quotient(a * 0x100 + r, g * 0x100 + b, 0x1_0000);
    text::lemma_quotient(a, r, 0x100);
    text::lemma_quotient(a * 0x1_0000 + r * 0x100 + g, b, 0x100);
    text::lemma_quotient(a * 0x100 + r, g, 0x100);
}

proof fn lemma_parts(s: u32)
    ensures
        s == channel(s, 3) * 0x100_0000 + channel(s, 2) * 0x1_0000 + channel(s, 1) * 0x100 + channel(
            s,
            0,
        ),
        0 <= channel(s, 0) <= 255 && 0 <= channel(s, 1) <= 255 && 0 <= channel(s, 2) <= 255 && 0
            <= channel(s, 3) <= 255,
{
    let v = s as int;
    assert(v / 0x1_0000 == v / 0x100 / 0x100);
    assert(v / 0x100_0000 == v / 0x1_0000 / 0x100);
    assert(v == v / 0x100 * 0x100 + v % 0x100);
    assert(v / 0x100 == v / 0x1_0000 * 0x100 + v / 0x100 % 0x100);
    assert(v / 0x1_0000 == v / 0x100_0000 * 0x100 + v / 0x1_0000 % 0x100);
}

proof fn lemma_channel_over(s: u32, d: u32, n: int)
    requires
        0 <= n <= 3,
    ensures
        channel(s, n) <= channel_over(s, d, n) <= channel(s, n) + channel(d, n),
        channel_over(s, d, n) <= 255,
        d == 0 ==> channel_over(s, d, n) == channel(s, n),
{
    lemma_parts(s);
    lemma_parts(d);
    lemma_share(channel(d, n), 255 - channel(s, 3));
}

/// What lies over nothing is as it is by itself; and over anything, each channel
/// is at least that of the upper pixel and at most both together.
pub proof fn law_layers_add_up(s: u32, d: u32, n: int)
    requires
        0 <= n <= 3,
        channel(s, 3) > 0,
    ensures
        over(s, 0) == s,
        channel(s, n) <= channel(over(s, d), n) <= channel(s, n) + channel(d, n),
        channel(over(s, d), n) <= 255,
{
    lemma_parts(s);
    lemma_channel_over(s, d, 0);
    lemma_channel_over(s, d, 1);
    lemma_channel_over(s, d, 2);
    lemma_channel_over(s, d, 3);
    lemma_channel_over(s, 0, 0);
    lemma_channel_over(s, 0, 1);
    lemma_channel_over(s, 0, 2);
    lemma_channel_over(s, 0, 3);
    lemma_channels(
        over(s, d),
        channel_over(s, d, 3),
        channel_over(s, d, 2),
        channel_over(s, d, 1),
        channel_over(s, d, 0),
    );
}

/// No pixel can be seen from the used height down, and one can be seen in the
/// row above it.
pub proof fn law_nothing_is_seen_below(c: Canvas, r: int, k: int) -> (seen: int)
    requires
        c.wf(),
        is_used_height(c, r),
        0 <= k < c.px@.len(),
    ensures
        visible_at(c.px@, k) ==> k / (c.w as int) < r,
        r > 0 ==> 0 <= seen < c.px@.len() && visible_at(c.px@, seen) && seen / (c.w as int) == r - 1,
        r == 0 ==> !visible_at(c.px@, k),
{
    if forall|k: int| 0 <= k < c.px@.len() ==> !#[trigger] visible_at(c.px@, k) {
        0
    } else {
        let last = choose|k: int|
            0 <= k < c.px@.len() && #[trigger] visible_at(c.px@, k) && r == k / (c.w as int) + 1
                && forall|j: int| k < j < c.px@.len() ==> !#[trigger] visible_at(c.px@, j);
        let w = c.w as int;
        assert(w > 0) by (nonlinear_arith)
            requires
                w >= 0,
                0 <= k < w * c.h,
        ;
        if visible_at(c.px@, k) {
            assert(k <= last);
            vstd::arithmetic::div_mod::lemma_div_is_ordered(k, last, w);
        }
        vstd::arithmetic::div_mod::lemma_div_pos_is_pos(last, w);
        last
    }
}

proof fn lemma_skip_back(s: Seq<char>, drop: spec_fn(char) -> bool)
    ensures
        text::skip_back(s, drop).len() <= s.len(),
        text::skip_back(s, drop) == s.take(text::skip_back(s, drop).len() as int),
        text::skip_back(s, drop).len() > 0 ==> !drop(text::skip_back(s, drop).last()),
        forall|i: int| text::skip_back(s, drop).len() <= i < s.len() ==> drop(#[trigger] s[i]),
    decreases s.len(),
{
    if s.len() > 0 && drop(s.last()) {
        lemma_skip_back(s.drop_last(), drop);
        let n = text::skip_back(s.drop_last(), drop).len() as int;
        assert(s.drop_last().take(n) =~= s.take(n));
        assert forall|i: int| n <= i < s.len() implies drop(#[trigger] s[i]) by {
            if i < s.len() - 1 {
                assert(s.drop_last()[i] == s[i]);
            }
        }
    } else {
        assert(s.take(s.len() as int) =~= s);
    }
}

/// A clipped text is a beginning of the text with an ellipsis behind it, is no
/// longer than what was asked for and one more, and leaves out nothing but white
/// space before that.
pub proof fn law_clipped_text_is_a_beginning(s: Seq<char>, n: int)
    requires
        0 <= n <= s.len(),
    ensures
        ({
            let c = clipped(s, n);
            let k = c.len() - 1;
            &&& 0 <= k <= n
            &&& c.last() == '\u{2026}'
            &&& c.drop_last() == s.take(k)
            &&& k > 0 ==> !text::is_white(s[k - 1])
            &&& forall|i: int| k <= i < n ==> text::is_white(#[trigger] s[i])
        }),
{
    let f = |c: char| text::is_white(c);
    lemma_skip_back(s.take(n), f);
    let k = clipped(s, n).len() - 1;
    assert(s.take(n).take(k) =~= s.take(k));
    assert(clipped(s, n).drop_last() =~= s.take(k));
    assert forall|i: int| k <= i < n implies text::is_white(#[trigger] s[i]) by {
        assert(f(s.take(n)[i]));
    }
}

/// The coverage of a pixel of one grey is that grey, and of any pixel lies
/// between the least and the greatest of its colours.
pub proof fn law_coverage_is_the_grey(p: u32, low: int, high: int)
    requires
        low <= channel(p, 0) <= high,
        low <= channel(p, 1) <= high,
        low <= channel(p, 2) <= high,
    ensures
        low <= mean_channel(p) <= high,
{
}

/// A place is in the clipped range exactly where it is in the range and in the
/// framebuffer.
pub proof fn law_clipping_keeps_what_is_inside(at: int, len: int, limit: int, k: int)
    ensures
        (clipped_range(at, len, limit).0 <= k < clipped_range(at, len, limit).1) <==> (at <= k < at
            + len && 0 <= k < limit),
{
}

proof fn lemma_hex_char(d: int, upper: bool)
    requires
        0 <= d < 16,
    ensures
        writes(text::hex_char(d, upper), d),
{
    reveal_strlit("0123456789abcdef");
    reveal_strlit("0123456789ABCDEF");
    let c = text::hex_char(d, upper);
    if d < 10 {
        assert(c as u32 == '0' as u32 + d);
        assert("0123456789abcdef"@[d] as u32 == '0' as u32 + d);
    } else if upper {
        assert(c as u32 == 'A' as u32 + d - 10);
        assert("0123456789ABCDEF"@[d] as u32 == 'A' as u32 + d - 10);
    } else {
        assert(c as u32 == 'a' as u32 + d - 10);
        assert("0123456789abcdef"@[d] as u32 == 'a' as u32 + d - 10);
    }
}

/// A number that is written in hexadecimal digits is read back, however wide and
/// in whatever case it is written.
pub proof fn law_hex_is_read_back(n: nat, width: nat, upper: bool)
    ensures
        hex_number(text::hex(n, width, upper)) == n,
        all_hex(text::hex(n, width, upper)),
    decreases n + width,
{
    if n > 0 || width > 0 {
        let w = if width > 0 {
            (width - 1) as nat
        } else {
            0
        };
        let h = text::hex(n, width, upper);
        let rest = text::hex(n / 16, w, upper);
        let d = (n % 16) as int;
        law_hex_is_read_back(n / 16, w, upper);
        lemma_hex_char(d, upper);
        lemma_writes(text::hex_char(d, upper), d);
        assert(h == rest.push(text::hex_char(d, upper)));
        assert(h.drop_last() =~= rest);
        assert forall|i: int| 0 <= i < h.len() implies hex_value(#[trigger] h[i]).is_some() by {
            if i < h.len() - 1 {
                assert(h[i] == rest[i]);
            }
        }
    }
}

} // verus!

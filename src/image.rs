//! Gradient images and their plain-text PPM encoding.
use vstd::prelude::*;
use crate::vec3::{Vec3, Color, Triple, triple, lemma_view_fits};
use vstd::arithmetic::div_mod::{lemma_div_is_ordered, lemma_div_by_multiple, lemma_fundamental_div_mod_converse};

verus! {

/// One gradient channel at index `i` of an extent `n`: `255 * i / (n - 1)`,
/// and zero where the extent is a single pixel.
pub open spec fn channel(i: int, n: int) -> int {
    if n > 1 {
        255 * i / (n - 1)
    } else {
        0
    }
}

/// The gradient color of column `i`, row `j` in a `w` by `h` image.
pub open spec fn gradient(i: int, j: int, w: int, h: int) -> Triple {
    triple(channel(i, w), channel(j, h), 0)
}

/// All gradient colors of a `w` by `h` image, row-major, top row first.
pub open spec fn gradient_pixels(w: nat, h: nat) -> Seq<Triple> {
    Seq::new(w * h, |k: int| gradient(k % (w as int), k / (w as int), w as int, h as int))
}

/// The ASCII digit for `d` in `0..10`.
pub open spec fn digit_byte(d: nat) -> u8 {
    (48 + d) as u8
}

/// The decimal digits of `n`, most significant first, without leading zeros.
pub open spec fn decimal(n: nat) -> Seq<u8>
    decreases n,
{
    if n < 10 {
        seq![digit_byte(n)]
    } else {
        decimal(n / 10).push(digit_byte(n % 10))
    }
}

/// The three header lines: format tag, dimensions, largest channel value.
pub open spec fn header(w: nat, h: nat) -> Seq<u8> {
    seq![80u8, 51u8, 10u8] + decimal(w) + seq![32u8] + decimal(h) + seq![10u8, 50u8, 53u8, 53u8, 10u8]
}

/// One pixel line: three decimal channels separated by single spaces.
pub open spec fn pixel_line(t: Triple) -> Seq<u8> {
    decimal(t.x as nat) + seq![32u8] + decimal(t.y as nat) + seq![32u8] + decimal(t.z as nat) + seq![10u8]
}

/// The pixel lines of `s`, in order.
pub open spec fn pixel_lines(s: Seq<Triple>) -> Seq<u8>
    decreases s.len(),
{
    if s.len() == 0 {
        Seq::<u8>::empty()
    } else {
        pixel_line(s[0]) + pixel_lines(s.subrange(1, s.len() as int))
    }
}

/// The complete text of a `w` by `h` image with pixels `s`.
pub open spec fn ppm_text(w: nat, h: nat, s: Seq<Triple>) -> Seq<u8> {
    header(w, h) + pixel_lines(s)
}

/// A grid of colors, `width * height` of them, row-major with row zero on top.
pub struct Image {
    width: usize,
    height: usize,
    pixels: Vec<Color>,
}

impl Image {
    pub closed spec fn width_view(&self) -> nat {
        self.width as nat
    }

    pub closed spec fn height_view(&self) -> nat {
        self.height as nat
    }

    /// The colors in row-major order.
    pub closed spec fn pixels_view(&self) -> Seq<Triple> {
        Seq::new(self.pixels@.len(), |k: int| self.pixels@[k]@)
    }

    /// There is one color for each cell of the grid, and the cells can be counted.
    pub open spec fn wf(&self) -> bool {
        &&& self.pixels_view().len() == self.width_view() * self.height_view()
        &&& self.width_view() * self.height_view() <= usize::MAX
    }

    /// An image from its dimensions and its row-major colors; refused unless
    /// there is exactly one color per cell.
    pub fn new(width: usize, height: usize, pixels: Vec<Color>) -> (r: Option<Image>)
        ensures
            r is Some <==> pixels@.len() == width * height,
            r matches Some(img) ==> img.wf() && img.width_view() == width && img.height_view()
                == height && img.pixels_view() == Seq::new(pixels@.len(), |k: int| pixels@[k]@),
    {
        assert(width as u128 * height as u128 <= 0xffff_ffff_ffff_ffff * 0xffff_ffff_ffff_ffffu128)
            by (nonlinear_arith)
            requires
                width <= 0xffff_ffff_ffff_ffffu128,
                height <= 0xffff_ffff_ffff_ffffu128,
        ;
        if width as u128 * height as u128 == pixels.len() as u128 {
            Some(Image { width, height, pixels })
        } else {
            None
        }
    }

    pub fn width(&self) -> (r: usize)
        ensures
            r == self.width_view(),
    {
        self.width
    }

    pub fn height(&self) -> (r: usize)
        ensures
            r == self.height_view(),
    {
        self.height
    }

    /// The color of column `i`, row `j`.
    pub fn pixel(&self, i: usize, j: usize) -> (r: Color)
        requires
            self.wf(),
            i < self.width_view(),
            j < self.height_view(),
        ensures
            r@ == self.pixels_view()[j * self.width_view() + i],
    {
        proof {
            assert(self.pixels@.len() == self.width * self.height);
            assert(j * self.width + i < self.width * self.height) by (nonlinear_arith)
                requires
                    i < self.width,
                    j < self.height,
            ;
            assert(j * self.width + i < self.pixels@.len());
        }
        self.pixels[j * self.width + i]
    }
}

/// One gradient channel; see `channel`.
fn gradient_channel(i: usize, n: usize) -> (r: u8)
    requires
        i < n,
    ensures
        r == channel(i as int, n as int),
{
    if n > 1 {
        let d: u128 = (n - 1) as u128;
        let v: u128 = (255u128 * (i as u128)) / d;
        proof {
            lemma_div_is_ordered(255 * i as int, 255 * d as int, d as int);
            lemma_div_by_multiple(255, d as int);
            assert(255 * d == d * 255);
        }
        v as u8
    } else {
        0
    }
}

/// The gradient color of column `i`, row `j` in a `width` by `height` image:
/// red grows left to right, green top to bottom, blue is zero.
pub fn gradient_pixel(i: usize, j: usize, width: usize, height: usize) -> (r: Color)
    requires
        i < width,
        j < height,
    ensures
        r@ == gradient(i as int, j as int, width as int, height as int),
{
    Vec3::new(gradient_channel(i, width), gradient_channel(j, height), 0u8)
}

/// The `width` by `height` gradient image.
pub fn render_gradient(width: usize, height: usize) -> (r: Image)
    requires
        width * height <= usize::MAX,
    ensures
        r.wf(),
        r.width_view() == width,
        r.height_view() == height,
        r.pixels_view() == gradient_pixels(width as nat, height as nat),
{
    let total: usize = width * height;
    let mut pixels: Vec<Color> = Vec::new();
    let mut k: usize = 0;
    while k < total
        invariant
            total == width * height,
            k <= total,
            pixels@.len() == k,
            forall|m: int|
                0 <= m < k ==> #[trigger] pixels@[m]@ == gradient(
                    m % (width as int),
                    m / (width as int),
                    width as int,
                    height as int,
                ),
        decreases total - k,
    {
        let i: usize = k % width;
        let j: usize = k / width;
        proof {
            assert(j < height) by (nonlinear_arith)
                requires
                    k < width * height,
                    j == k / width,
                    width > 0,
            ;
        }
        pixels.push(gradient_pixel(i, j, width, height));
        k = k + 1;
    }
    let img = Image { width, height, pixels };
    assert(img.pixels_view() =~= gradient_pixels(width as nat, height as nat));
    img
}

/// Appends the decimal digits of `n`.
fn push_decimal(out: &mut Vec<u8>, n: u64)
    ensures
        final(out)@ == old(out)@ + decimal(n as nat),
    decreases n,
{
    if n >= 10 {
        push_decimal(out, n / 10);
    }
    out.push(48u8 + (n % 10) as u8);
    proof {
        if n >= 10 {
            assert(final(out)@ =~= old(out)@ + decimal(n as nat));
        } else {
            assert(final(out)@ =~= old(out)@ + decimal(n as nat));
        }
    }
}

/// The plain-text encoding of `img`: the header, then one line per pixel.
pub fn encode_ppm(img: &Image) -> (r: Vec<u8>)
    requires
        img.wf(),
    ensures
        r@ == ppm_text(img.width_view(), img.height_view(), img.pixels_view()),
{
    let mut out: Vec<u8> = Vec::new();
    out.push(80u8);
    out.push(51u8);
    out.push(10u8);
    push_decimal(&mut out, img.width as u64);
    out.push(32u8);
    push_decimal(&mut out, img.height as u64);
    out.push(10u8);
    out.push(50u8);
    out.push(53u8);
    out.push(53u8);
    out.push(10u8);
    let ghost h = header(img.width_view(), img.height_view());
    assert(out@ =~= h);
    let mut k: usize = 0;
    while k < img.pixels.len()
        invariant
            k <= img.pixels@.len(),
            out@ == h + pixel_lines(img.pixels_view().take(k as int)),
        decreases img.pixels@.len() - k,
    {
        let c = img.pixels[k];
        push_decimal(&mut out, c.x() as u64);
        out.push(32u8);
        push_decimal(&mut out, c.y() as u64);
        out.push(32u8);
        push_decimal(&mut out, c.z() as u64);
        out.push(10u8);
        proof {
            let s = img.pixels_view();
            assert(s.take(k + 1) =~= s.take(k as int).push(s[k as int]));
            lemma_pixel_lines_push(s.take(k as int), s[k as int]);
            assert(out@ =~= h + pixel_lines(s.take(k + 1)));
        }
        k = k + 1;
    }
    assert(img.pixels_view().take(k as int) =~= img.pixels_view());
    out
}

/// Appending a pixel appends its line.
proof fn lemma_pixel_lines_push(s: Seq<Triple>, t: Triple)
    ensures
        pixel_lines(s.push(t)) == pixel_lines(s) + pixel_line(t),
    decreases s.len(),
{
    if s.len() == 0 {
        assert(s.push(t).subrange(1, 1) =~= Seq::<Triple>::empty());
        assert(s.push(t)[0] == t);
        assert(pixel_lines(Seq::<Triple>::empty()) == Seq::<u8>::empty());
        assert(pixel_lines(s) == Seq::<u8>::empty());
        assert(pixel_lines(s.push(t)) =~= pixel_lines(s) + pixel_line(t));
    } else {
        let rest = s.subrange(1, s.len() as int);
        lemma_pixel_lines_push(rest, t);
        assert(s.push(t).subrange(1, s.len() + 1int) =~= rest.push(t));
        assert(pixel_lines(s.push(t)) =~= pixel_lines(s) + pixel_line(t));
    }
}

pub open spec fn is_digit(c: u8) -> bool {
    48 <= c <= 57
}

/// `b[pos..end]` is the decimal text of `v`, and the run of digits stops at `end`.
pub open spec fn number_at(b: Seq<u8>, pos: int, end: int, v: nat) -> bool {
    &&& 0 <= pos < end <= b.len()
    &&& b.subrange(pos, end) == decimal(v)
    &&& (end == b.len() || !is_digit(b[end]))
}

/// The decimal text of `v`, the byte `sep`, then `tail`.
pub open spec fn field_text(v: nat, sep: u8, tail: Seq<u8>) -> Seq<u8> {
    decimal(v) + seq![sep] + tail
}

/// `w`, `h` and `s` describe an image that this library can hold.
pub open spec fn valid_model(w: nat, h: nat, s: Seq<Triple>) -> bool {
    &&& w <= usize::MAX
    &&& h <= usize::MAX
    &&& w * h <= usize::MAX
    &&& s.len() == w * h
    &&& forall|k: int|
        0 <= k < s.len() ==> 0 <= #[trigger] s[k].x <= 255 && 0 <= s[k].y <= 255 && 0 <= s[k].z
            <= 255
}

/// `b` is the text of a `w` by `h` image with pixels `s`.
pub open spec fn encodes(b: Seq<u8>, w: nat, h: nat, s: Seq<Triple>) -> bool {
    valid_model(w, h, s) && b == ppm_text(w, h, s)
}

/// Decimal text is a non-empty run of digits; it starts with a zero only for zero.
proof fn lemma_decimal_shape(n: nat)
    ensures
        decimal(n).len() >= 1,
        decimal(n).len() == 1 <==> n < 10,
        forall|i: int| 0 <= i < decimal(n).len() ==> is_digit(#[trigger] decimal(n)[i]),
        decimal(n)[0] == 48 ==> n == 0,
    decreases n,
{
    if n >= 10 {
        lemma_decimal_shape(n / 10);
        assert(forall|i: int|
            0 <= i < decimal(n / 10).len() ==> decimal(n)[i] == #[trigger] decimal(n / 10)[i]);
    }
}

/// One more digit on a positive number appends its digit to the text.
proof fn lemma_decimal_step(v: nat, d: nat)
    requires
        v >= 1,
        d < 10,
    ensures
        decimal(v * 10 + d) == decimal(v).push(digit_byte(d)),
{
    let n = v * 10 + d;
    lemma_fundamental_div_mod_converse(n as int, 10, v as int, d as int);
}

/// Different numbers have different decimal texts.
proof fn lemma_decimal_injective(m: nat, n: nat)
    requires
        decimal(m) == decimal(n),
    ensures
        m == n,
    decreases n,
{
    lemma_decimal_shape(m);
    lemma_decimal_shape(n);
    if n >= 10 {
        assert(decimal(m).drop_last() =~= decimal(m / 10));
        assert(decimal(n).drop_last() =~= decimal(n / 10));
        lemma_decimal_injective(m / 10, n / 10);
        assert(m >= 10);
        assert(decimal(m).last() == digit_byte(m % 10));
        assert(decimal(n).last() == digit_byte(n % 10));
        assert(m % 10 == n % 10);
        vstd::arithmetic::div_mod::lemma_fundamental_div_mod(m as int, 10);
        vstd::arithmetic::div_mod::lemma_fundamental_div_mod(n as int, 10);
    } else {
        assert(decimal(m)[0] == decimal(n)[0]);
    }
}

/// A number whose text begins the text of `n` is at most `n`.
proof fn lemma_decimal_prefix_le(m: nat, n: nat)
    requires
        decimal(m).len() <= decimal(n).len(),
        decimal(n).take(decimal(m).len() as int) == decimal(m),
    ensures
        m <= n,
    decreases n,
{
    lemma_decimal_shape(m);
    lemma_decimal_shape(n);
    if decimal(m).len() == decimal(n).len() {
        assert(decimal(n).take(decimal(m).len() as int) =~= decimal(n));
        lemma_decimal_injective(m, n);
    } else {
        assert(n >= 10);
        assert(decimal(n / 10) =~= decimal(n).drop_last());
        assert(decimal(n / 10).take(decimal(m).len() as int) =~= decimal(m));
        lemma_decimal_prefix_le(m, n / 10);
    }
}

/// At a given position there is at most one number.
proof fn lemma_number_at_unique(b: Seq<u8>, pos: int, e1: int, v1: nat, e2: int, v2: nat)
    requires
        number_at(b, pos, e1, v1),
        number_at(b, pos, e2, v2),
    ensures
        e1 == e2,
        v1 == v2,
{
    lemma_decimal_shape(v1);
    lemma_decimal_shape(v2);
    if e1 < e2 {
        assert(b[e1] == b.subrange(pos, e2)[e1 - pos]);
        assert(false);
    }
    if e2 < e1 {
        assert(b[e2] == b.subrange(pos, e1)[e2 - pos]);
        assert(false);
    }
    lemma_decimal_injective(v1, v2);
}

/// A run of digits from `pos` to `cur` that spells a number above `limit`
/// leaves no number within `limit` at `pos`.
proof fn lemma_no_number_within(b: Seq<u8>, pos: int, cur: int, w: nat, limit: nat)
    requires
        0 <= pos < cur <= b.len(),
        b.subrange(pos, cur) == decimal(w),
        w > limit,
    ensures
        forall|end: int, v: nat| !(#[trigger] number_at(b, pos, end, v) && v <= limit),
{
    lemma_decimal_shape(w);
    assert forall|end: int, v: nat| !(#[trigger] number_at(b, pos, end, v) && v <= limit) by {
        if number_at(b, pos, end, v) && v <= limit {
            if end < cur {
                assert(b[end] == decimal(w)[end - pos]);
            }
            assert(decimal(v).take(cur - pos) =~= decimal(w));
            lemma_decimal_prefix_le(w, v);
        }
    }
}

/// Reads the number at `pos` that is at most `limit`: a maximal run of digits
/// without a leading zero.
fn read_decimal(b: &Vec<u8>, pos: usize, limit: u64) -> (r: Option<(u64, usize)>)
    ensures
        r matches Some((v, end)) ==> number_at(b@, pos as int, end as int, v as nat) && v <= limit,
        r is None ==> forall|end: int, v: nat| !(#[trigger] number_at(b@, pos as int, end, v) && v <= limit),
{
    let n = b.len();
    if pos >= n || b[pos] < 48 || b[pos] > 57 {
        proof {
            assert forall|end: int, v: nat| !(#[trigger] number_at(b@, pos as int, end, v) && v <= limit) by {
                if number_at(b@, pos as int, end, v) {
                    lemma_decimal_shape(v);
                    assert(b@[pos as int] == decimal(v)[0]);
                }
            }
        }
        return None;
    }
    let mut v: u64 = (b[pos] - 48) as u64;
    let mut cur: usize = pos + 1;
    assert(b@.subrange(pos as int, cur as int) =~= decimal(v as nat));
    if v > limit {
        proof {
            lemma_no_number_within(b@, pos as int, cur as int, v as nat, limit as nat);
        }
        return None;
    }
    if v == 0 {
        if cur < n && b[cur] >= 48 && b[cur] <= 57 {
            proof {
                assert forall|end: int, w: nat| !(#[trigger] number_at(b@, pos as int, end, w) && w <= limit) by {
                    if number_at(b@, pos as int, end, w) {
                        lemma_decimal_shape(w);
                        assert(b@[pos as int] == decimal(w)[0]);
                    }
                }
            }
            return None;
        }
        return Some((0, cur));
    }
    while cur < n && b[cur] >= 48 && b[cur] <= 57
        invariant
            n == b@.len(),
            pos < cur <= n,
            1 <= v <= limit,
            b@.subrange(pos as int, cur as int) == decimal(v as nat),
        decreases n - cur,
    {
        let d: u64 = (b[cur] - 48) as u64;
        if limit < d || v > (limit - d) / 10 {
            proof {
                if limit >= d {
                    vstd::arithmetic::div_mod::lemma_fundamental_div_mod((limit - d) as int, 10);
                }
                lemma_decimal_step(v as nat, d as nat);
                assert(b@.subrange(pos as int, cur + 1) =~= decimal(v as nat).push(b@[cur as int]));
                lemma_no_number_within(b@, pos as int, cur + 1, (v * 10 + d) as nat, limit as nat);
            }
            return None;
        }
        proof {
            vstd::arithmetic::div_mod::lemma_fundamental_div_mod((limit - d) as int, 10);
            lemma_decimal_step(v as nat, d as nat);
            assert(b@.subrange(pos as int, cur + 1) =~= decimal(v as nat).push(b@[cur as int]));
        }
        v = v * 10 + d;
        cur = cur + 1;
    }
    Some((v, cur))
}

/// Reads a number that is at most `limit` and the byte `sep` after it;
/// returns the number and the position past `sep`.
fn read_field(b: &Vec<u8>, pos: usize, limit: u64, sep: u8) -> (r: Option<(u64, usize)>)
    requires
        !is_digit(sep),
    ensures
        r matches Some((v, next)) ==> v <= limit && pos < next <= b@.len() && b@.subrange(
            pos as int,
            next as int,
        ) == decimal(v as nat) + seq![sep],
        forall|v: nat, tail: Seq<u8>|
            v <= limit && pos <= b@.len() && b@.subrange(pos as int, b@.len() as int)
                == #[trigger] field_text(v, sep, tail) ==> r == Some::<(u64, usize)>(
                (v as u64, (pos + decimal(v).len() + 1) as usize),
            ),
{
    let found = read_decimal(b, pos, limit);
    proof {
        assert forall|v: nat, tail: Seq<u8>|
            v <= limit && pos <= b@.len() && b@.subrange(pos as int, b@.len() as int)
                == #[trigger] field_text(v, sep, tail) implies found == Some::<(u64, usize)>(
                (v as u64, (pos + decimal(v).len()) as usize),
            ) && b@[pos + decimal(v).len()] == sep by {
            let e = pos + decimal(v).len();
            let rest = b@.subrange(pos as int, b@.len() as int);
            assert(rest[decimal(v).len() as int] == sep);
            assert(b@.subrange(pos as int, e) =~= rest.take(decimal(v).len() as int));
            assert(rest.take(decimal(v).len() as int) =~= decimal(v));
            assert(number_at(b@, pos as int, e, v));
            if let Some((fv, fe)) = found {
                lemma_number_at_unique(b@, pos as int, e, v, fe as int, fv as nat);
            }
        }
    }
    match found {
        None => None,
        Some((v, end)) => {
            if end < b.len() && b[end] == sep {
                assert(b@.subrange(pos as int, end + 1) =~= b@.subrange(pos as int, end as int).push(sep));
                Some((v, end + 1))
            } else {
                None
            }
        },
    }
}

/// `b[pos]` exists and equals `c`.
fn byte_is(b: &Vec<u8>, pos: usize, c: u8) -> (r: bool)
    ensures
        r == (pos < b@.len() && b@[pos as int] == c),
{
    pos < b.len() && b[pos] == c
}

/// The fields of one pixel line, then `tail`.
pub open spec fn line_then(t: Triple, tail: Seq<u8>) -> Seq<u8> {
    field_text(t.x as nat, 32, field_text(t.y as nat, 32, field_text(t.z as nat, 10, tail)))
}

/// The text of an image, split at the header fields that a reader meets in turn.
proof fn lemma_text_shape(w: nat, h: nat, s: Seq<Triple>)
    ensures
        ppm_text(w, h, s) == seq![80u8, 51u8, 10u8] + field_text(
            w,
            32,
            field_text(h, 10, seq![50u8, 53u8, 53u8, 10u8] + pixel_lines(s)),
        ),
{
    assert(ppm_text(w, h, s) =~= seq![80u8, 51u8, 10u8] + field_text(
        w,
        32,
        field_text(h, 10, seq![50u8, 53u8, 53u8, 10u8] + pixel_lines(s)),
    ));
}

/// The lines from pixel `k` on: the fields of pixel `k`, then the rest.
proof fn lemma_lines_shape(s: Seq<Triple>, k: int)
    requires
        0 <= k < s.len(),
        0 <= s[k].x && 0 <= s[k].y && 0 <= s[k].z,
    ensures
        pixel_lines(s.subrange(k, s.len() as int)) == line_then(
            s[k],
            pixel_lines(s.subrange(k + 1, s.len() as int)),
        ),
{
    let q = s.subrange(k, s.len() as int);
    assert(q.subrange(1, q.len() as int) =~= s.subrange(k + 1, s.len() as int));
    assert(q[0] == s[k]);
    assert(pixel_lines(q) =~= line_then(s[k], pixel_lines(s.subrange(k + 1, s.len() as int))));
}

/// Past a field, what follows is its tail.
proof fn lemma_skip_field(b: Seq<u8>, pos: int, v: nat, sep: u8, tail: Seq<u8>)
    requires
        0 <= pos <= b.len(),
        b.subrange(pos, b.len() as int) == field_text(v, sep, tail),
    ensures
        pos + decimal(v).len() + 1 <= b.len(),
        b.subrange(pos + decimal(v).len() + 1, b.len() as int) == tail,
{
    let f = field_text(v, sep, tail);
    assert(f.len() == decimal(v).len() + 1 + tail.len());
    assert(b.subrange(pos + decimal(v).len() + 1, b.len() as int) =~= f.subrange(
        decimal(v).len() + 1int,
        f.len() as int,
    ));
    assert(f.subrange(decimal(v).len() + 1int, f.len() as int) =~= tail);
}

/// The colors of `pixels` as triples.
pub open spec fn colors_view(pixels: Seq<Color>) -> Seq<Triple> {
    Seq::new(pixels.len(), |k: int| pixels[k]@)
}

/// Each channel of `t` is a byte value.
pub open spec fn byte_triple(t: Triple) -> bool {
    0 <= t.x <= 255 && 0 <= t.y <= 255 && 0 <= t.z <= 255
}

/// Reads one pixel line at `pos`; returns its color and the position after it.
fn read_pixel(b: &Vec<u8>, pos: usize) -> (r: Option<(Color, usize)>)
    requires
        pos <= b@.len(),
    ensures
        r matches Some((c, next)) ==> pos < next <= b@.len() && b@.subrange(pos as int, next as int)
            == pixel_line(c@),
        forall|t: Triple, tail: Seq<u8>|
            byte_triple(t) && b@.subrange(pos as int, b@.len() as int) == #[trigger] line_then(
                t,
                tail,
            ) ==> r is Some && r->Some_0.0@ == t && b@.subrange(r->Some_0.1 as int, b@.len() as int)
                == tail,
{
    let len = b.len();
    let (x, c1) = match read_field(b, pos, 255, 32) {
        Some(f) => f,
        None => return None,
    };
    proof {
        assert forall|t: Triple, tail: Seq<u8>|
            byte_triple(t) && b@.subrange(pos as int, len as int) == #[trigger] line_then(
                t,
                tail,
            ) implies x == t.x && b@.subrange(c1 as int, len as int) == field_text(
            t.y as nat,
            32,
            field_text(t.z as nat, 10, tail),
        ) by {
            lemma_skip_field(
                b@,
                pos as int,
                t.x as nat,
                32,
                field_text(t.y as nat, 32, field_text(t.z as nat, 10, tail)),
            );
        }
    }
    let (y, c2) = match read_field(b, c1, 255, 32) {
        Some(f) => f,
        None => return None,
    };
    proof {
        assert forall|t: Triple, tail: Seq<u8>|
            byte_triple(t) && b@.subrange(pos as int, len as int) == #[trigger] line_then(
                t,
                tail,
            ) implies y == t.y && b@.subrange(c2 as int, len as int) == field_text(
            t.z as nat,
            10,
            tail,
        ) by {
            lemma_skip_field(b@, c1 as int, t.y as nat, 32, field_text(t.z as nat, 10, tail));
        }
    }
    let (z, c3) = match read_field(b, c2, 255, 10) {
        Some(f) => f,
        None => return None,
    };
    let c = Vec3::new(x as u8, y as u8, z as u8);
    proof {
        assert(b@.subrange(pos as int, c3 as int) =~= b@.subrange(pos as int, c1 as int)
            + b@.subrange(c1 as int, c2 as int) + b@.subrange(c2 as int, c3 as int));
        assert(b@.subrange(pos as int, c3 as int) =~= pixel_line(c@));
        assert forall|t: Triple, tail: Seq<u8>|
            byte_triple(t) && b@.subrange(pos as int, len as int) == #[trigger] line_then(
                t,
                tail,
            ) implies c@ == t && b@.subrange(c3 as int, len as int) == tail by {
            lemma_skip_field(b@, c2 as int, t.z as nat, 10, tail);
        }
    }
    Some((c, c3))
}

/// Reads the three header lines; returns the dimensions and the position
/// after the header.
fn read_header(bytes: &Vec<u8>) -> (r: Option<(usize, usize, usize)>)
    ensures
        r matches Some((w, h, pos)) ==> pos <= bytes@.len() && bytes@.subrange(0, pos as int)
            == header(w as nat, h as nat),
        forall|w: nat, h: nat, s: Seq<Triple>| #[trigger]
            encodes(bytes@, w, h, s) ==> r is Some && r->Some_0.0 == w && r->Some_0.1 == h
                && bytes@.subrange(r->Some_0.2 as int, bytes@.len() as int) == pixel_lines(s),
{
    let len = bytes.len();
    let ghost lit = seq![50u8, 53u8, 53u8, 10u8];
    proof {
        assert forall|w0: nat, h0: nat, s0: Seq<Triple>| #[trigger]
            encodes(bytes@, w0, h0, s0) implies bytes@[0] == 80 && bytes@[1] == 51 && bytes@[2]
            == 10 && bytes@.subrange(3, len as int) == field_text(
            w0,
            32,
            field_text(h0, 10, lit + pixel_lines(s0)),
        ) by {
            lemma_text_shape(w0, h0, s0);
            let f = field_text(w0, 32, field_text(h0, 10, lit + pixel_lines(s0)));
            assert(bytes@.subrange(3, len as int) =~= f);
        }
    }
    if !(byte_is(bytes, 0, 80) && byte_is(bytes, 1, 51) && byte_is(bytes, 2, 10)) {
        return None;
    }
    let (w64, p1) = match read_field(bytes, 3, usize::MAX as u64, 32) {
        Some(f) => f,
        None => return None,
    };
    proof {
        assert forall|w0: nat, h0: nat, s0: Seq<Triple>| #[trigger]
            encodes(bytes@, w0, h0, s0) implies w64 == w0 && bytes@.subrange(p1 as int, len as int)
            == field_text(h0, 10, lit + pixel_lines(s0)) by {
            lemma_skip_field(bytes@, 3, w0, 32, field_text(h0, 10, lit + pixel_lines(s0)));
        }
    }
    let (h64, p2) = match read_field(bytes, p1, usize::MAX as u64, 10) {
        Some(f) => f,
        None => return None,
    };
    proof {
        assert forall|w0: nat, h0: nat, s0: Seq<Triple>| #[trigger]
            encodes(bytes@, w0, h0, s0) implies h64 == h0 && bytes@.subrange(p2 as int, len as int)
            == lit + pixel_lines(s0) by {
            lemma_skip_field(bytes@, p1 as int, h0, 10, lit + pixel_lines(s0));
        }
    }
    if !(byte_is(bytes, p2, 50) && byte_is(bytes, p2 + 1, 53) && byte_is(bytes, p2 + 2, 53)
        && byte_is(bytes, p2 + 3, 10)) {
        proof {
            assert forall|w0: nat, h0: nat, s0: Seq<Triple>| #[trigger]
                encodes(bytes@, w0, h0, s0) implies false by {
                let q = bytes@.subrange(p2 as int, len as int);
                assert(q[0] == bytes@[p2 as int] && q[1] == bytes@[p2 + 1] && q[2] == bytes@[p2
                    + 2] && q[3] == bytes@[p2 + 3]);
            }
        }
        return None;
    }
    let pos: usize = p2 + 4;
    proof {
        assert(bytes@.subrange(0, pos as int) =~= seq![80u8, 51u8, 10u8] + bytes@.subrange(
            3,
            p1 as int,
        ) + bytes@.subrange(p1 as int, p2 as int) + bytes@.subrange(p2 as int, pos as int));
        assert(bytes@.subrange(p2 as int, pos as int) =~= lit);
        assert(bytes@.subrange(0, pos as int) =~= header(w64 as nat, h64 as nat));
        assert forall|w0: nat, h0: nat, s0: Seq<Triple>| #[trigger]
            encodes(bytes@, w0, h0, s0) implies bytes@.subrange(pos as int, len as int)
            == pixel_lines(s0) by {
            let q = bytes@.subrange(p2 as int, len as int);
            assert(bytes@.subrange(pos as int, len as int) =~= q.subrange(4, q.len() as int));
            assert((lit + pixel_lines(s0)).subrange(4, q.len() as int) =~= pixel_lines(s0));
        }
    }
    Some((w64 as usize, h64 as usize, pos))
}

/// Reads back a plain-text image. It accepts exactly the texts that
/// `encode_ppm` writes, each as the image it was written from.
pub fn decode_ppm(bytes: &Vec<u8>) -> (r: Option<Image>)
    ensures
        r matches Some(img) ==> img.wf() && bytes@ == ppm_text(
            img.width_view(),
            img.height_view(),
            img.pixels_view(),
        ),
        forall|w: nat, h: nat, s: Seq<Triple>| #[trigger]
            encodes(bytes@, w, h, s) ==> r is Some && r->Some_0.width_view() == w
                && r->Some_0.height_view() == h && r->Some_0.pixels_view() == s,
{
    let len = bytes.len();
    let (width, height, start) = match read_header(bytes) {
        Some(hd) => hd,
        None => return None,
    };
    let total = match width.checked_mul(height) {
        Some(t) => t,
        None => return None,
    };
    let mut cur: usize = start;
    let mut pixels: Vec<Color> = Vec::new();
    let mut k: usize = 0;
    proof {
        assert(header(width as nat, height as nat) + pixel_lines(colors_view(pixels@)) =~= header(
            width as nat,
            height as nat,
        ));
        assert forall|w0: nat, h0: nat, s0: Seq<Triple>| #[trigger]
            encodes(bytes@, w0, h0, s0) implies colors_view(pixels@) == s0.take(0)
            && s0.subrange(0, s0.len() as int) == s0 by {
            assert(colors_view(pixels@) =~= s0.take(0));
            assert(s0.subrange(0, s0.len() as int) =~= s0);
        }
    }
    while k < total
        invariant
            len == bytes@.len(),
            total == width * height,
            k <= total,
            cur <= len,
            pixels@.len() == k,
            bytes@.subrange(0, cur as int) == header(width as nat, height as nat) + pixel_lines(
                colors_view(pixels@),
            ),
            forall|w0: nat, h0: nat, s0: Seq<Triple>| #[trigger]
                encodes(bytes@, w0, h0, s0) ==> w0 == width && h0 == height && colors_view(
                    pixels@,
                ) == s0.take(k as int) && bytes@.subrange(cur as int, len as int) == pixel_lines(
                    s0.subrange(k as int, s0.len() as int),
                ),
        decreases total - k,
    {
        proof {
            assert forall|w0: nat, h0: nat, s0: Seq<Triple>| #[trigger]
                encodes(bytes@, w0, h0, s0) implies byte_triple(s0[k as int])
                && bytes@.subrange(cur as int, len as int) == line_then(
                s0[k as int],
                pixel_lines(s0.subrange(k + 1, s0.len() as int)),
            ) by {
                lemma_lines_shape(s0, k as int);
            }
        }
        let (c, next) = match read_pixel(bytes, cur) {
            Some(p) => p,
            None => return None,
        };
        let ghost before = pixels@;
        pixels.push(c);
        proof {
            assert(colors_view(pixels@) =~= colors_view(before).push(c@));
            lemma_pixel_lines_push(colors_view(before), c@);
            assert(bytes@.subrange(0, next as int) =~= bytes@.subrange(0, cur as int)
                + bytes@.subrange(cur as int, next as int));
            assert(bytes@.subrange(0, next as int) =~= header(width as nat, height as nat)
                + pixel_lines(colors_view(pixels@)));
            assert forall|w0: nat, h0: nat, s0: Seq<Triple>| #[trigger]
                encodes(bytes@, w0, h0, s0) implies colors_view(pixels@) == s0.take(k + 1) by {
                assert(s0.take(k + 1) =~= s0.take(k as int).push(s0[k as int]));
            }
        }
        cur = next;
        k = k + 1;
    }
    if cur != len {
        proof {
            assert forall|w0: nat, h0: nat, s0: Seq<Triple>| #[trigger]
                encodes(bytes@, w0, h0, s0) implies false by {
                assert(s0.subrange(k as int, s0.len() as int) =~= Seq::<Triple>::empty());
            }
        }
        return None;
    }
    let img = Image { width, height, pixels };
    proof {
        assert(bytes@.subrange(0, len as int) =~= bytes@);
        assert(img.pixels_view() =~= colors_view(img.pixels@));
        assert forall|w0: nat, h0: nat, s0: Seq<Triple>| #[trigger]
            encodes(bytes@, w0, h0, s0) implies img.pixels_view() == s0 by {
            assert(s0.take(k as int) =~= s0);
        }
    }
    Some(img)
}

/// Encoding then decoding gives back the image: the text of a well-formed
/// image is the text of exactly that image, so `decode_ppm` returns its
/// width, height and pixels.
pub proof fn law_encoding_round_trip(img: &Image)
    requires
        img.wf(),
    ensures
        encodes(
            ppm_text(img.width_view(), img.height_view(), img.pixels_view()),
            img.width_view(),
            img.height_view(),
            img.pixels_view(),
        ),
{
    assert forall|k: int| 0 <= k < img.pixels_view().len() implies byte_triple(
        #[trigger] img.pixels_view()[k],
    ) by {
        lemma_view_fits(img.pixels@[k]);
    }
}

} // verus!

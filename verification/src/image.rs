use vstd::prelude::*;

verus! {

/// The background byte of channel `c` of the placeholder image.
pub open spec fn background_byte(transparent: bool, c: int) -> u8 {
    if transparent {
        0
    } else {
        255
    }
}

/// The byte of channel `c` of a pixel on the placeholder's red diagonal.
pub open spec fn marker_byte(transparent: bool, c: int) -> u8 {
    if c == 0 {
        255
    } else if c == 3 && !transparent {
        255
    } else if c == 3 {
        0
    } else {
        0
    }
}

/// Pixel `q` of a `size` by `size` image lies on its main diagonal.
pub open spec fn on_diagonal(size: int, q: int) -> bool {
    exists|i: int| 0 <= i < size && q == #[trigger] (i * (size + 1))
}

/// The placeholder image shown for an empty mesh: a `size` by `size` RGBA
/// image of background pixels (white, or clear when `transparent`) crossed
/// by a red diagonal from its first pixel to its last.
pub open spec fn placeholder_spec(size: int, transparent: bool, q: int, c: int) -> u8 {
    if on_diagonal(size, q) {
        marker_byte(transparent, c)
    } else {
        background_byte(transparent, c)
    }
}

/// Builds the placeholder RGBA image (`size * size` pixels, four bytes each).
pub fn placeholder_image(size: u32, transparent: bool) -> (img: Vec<u8>)
    requires
        size * size * 4 <= u32::MAX,
    ensures
        img.len() == size * size * 4,
        forall|q: int, c: int|
            0 <= q < size * size && 0 <= c < 4 ==> #[trigger] img@[4 * q + c] == placeholder_spec(
                size as int,
                transparent,
                q,
                c,
            ),
{
    let npix: u32 = size * size;
    let bg: u8 = if transparent { 0 } else { 255 };
    let mut img: Vec<u8> = Vec::new();
    let mut q: u32 = 0;
    while q < npix
        invariant
            npix == size * size,
            npix * 4 <= u32::MAX,
            bg == background_byte(transparent, 0),
            0 <= q <= npix,
            img.len() == 4 * q,
            forall|k: int| 0 <= k < img.len() ==> #[trigger] img@[k] == bg,
        decreases npix - q,
    {
        img.push(bg);
        img.push(bg);
        img.push(bg);
        img.push(bg);
        q = q + 1;
    }
    let mut i: u32 = 0;
    while i < size
        invariant
            npix == size * size,
            npix * 4 <= u32::MAX,
            img.len() == 4 * npix,
            0 <= i <= size,
            forall|qq: int, c: int|
                0 <= qq < npix && 0 <= c < 4 ==> #[trigger] img@[4 * qq + c] == (if exists|ii: int|
                    0 <= ii < i && qq == #[trigger] (ii * (size + 1)) {
                    marker_byte(transparent, c)
                } else {
                    background_byte(transparent, c)
                }),
        decreases size - i,
    {
        proof {
            assert(i * size + i < size * size) by (nonlinear_arith)
                requires
                    i < size,
            ;
        }
        let d: u32 = i * size + i;
        assert(d == i * (size + 1)) by (nonlinear_arith)
            requires
                d == i * size + i,
        ;
        let idx: usize = (d as usize) * 4;
        if idx < img.len() - 3 {
            img.set(idx, 255);
            img.set(idx + 1, 0);
            img.set(idx + 2, 0);
            if !transparent {
                img.set(idx + 3, 255);
            }
        }
        proof {
            assert forall|qq: int, c: int| 0 <= qq < npix && 0 <= c < 4 implies #[trigger] img@[4
                * qq + c] == (if exists|ii: int|
                0 <= ii < i + 1 && qq == #[trigger] (ii * (size + 1)) {
                marker_byte(transparent, c)
            } else {
                background_byte(transparent, c)
            }) by {
                if qq == d {
                    assert(qq == i * (size + 1));
                } else {
                    if exists|ii: int| 0 <= ii < i + 1 && qq == #[trigger] (ii * (size + 1)) {
                        let ii = choose|ii: int| 0 <= ii < i + 1 && qq == #[trigger] (ii * (size + 1));
                        assert(ii != i);
                        assert(0 <= ii < i && qq == ii * (size + 1));
                    }
                }
            }
        }
        i = i + 1;
    }
    img
}

/// Reorders the bytes of every pixel from BGRA to RGBA (swaps the first and
/// third byte of each group of four).
pub fn bgra_to_rgba(buffer: &Vec<u8>) -> (out: Vec<u8>)
    requires
        buffer.len() % 4 == 0,
    ensures
        out@ == swap_red_blue(buffer@),
{
    let n = buffer.len();
    let mut out: Vec<u8> = Vec::new();
    let mut p: usize = 0;
    while p < n
        invariant
            n == buffer.len(),
            n % 4 == 0,
            p % 4 == 0,
            0 <= p <= n,
            out@ == swap_red_blue(buffer@).take(p as int),
        decreases n - p,
    {
        out.push(buffer[p + 2]);
        out.push(buffer[p + 1]);
        out.push(buffer[p]);
        out.push(buffer[p + 3]);
        p = p + 4;
        assert(out@ =~= swap_red_blue(buffer@).take(p as int));
    }
    assert(swap_red_blue(buffer@).take(n as int) =~= swap_red_blue(buffer@));
    out
}

/// `s` with the first and third byte of every group of four swapped.
pub open spec fn swap_red_blue(s: Seq<u8>) -> Seq<u8> {
    Seq::new(
        s.len(),
        |p: int|
            if p % 4 == 0 {
                s[p + 2]
            } else if p % 4 == 2 {
                s[p - 2]
            } else {
                s[p]
            },
    )
}

/// Swapping red and blue twice gives back the same pixels.
pub proof fn lemma_swap_red_blue_involution(s: Seq<u8>)
    requires
        s.len() % 4 == 0,
    ensures
        swap_red_blue(swap_red_blue(s)) == s,
{
    assert(swap_red_blue(swap_red_blue(s)) =~= s);
}

/// Every byte of `data` is 255: the image is plain white, opaque.
pub fn all_bytes_max(data: &Vec<u8>) -> (r: bool)
    ensures
        r <==> forall|k: int| 0 <= k < data.len() ==> data@[k] == 255,
{
    let n = data.len();
    let mut i: usize = 0;
    while i < n
        invariant
            n == data.len(),
            0 <= i <= n,
            forall|k: int| 0 <= k < i ==> data@[k] == 255,
        decreases n - i,
    {
        if data[i] != 255 {
            return false;
        }
        i = i + 1;
    }
    true
}


/// Byte `j` of row `r` in an image with rows of `row` bytes.
pub open spec fn at_row(r: int, row: int, j: int) -> int {
    r * row + j
}

proof fn lemma_row_bounds(r: int, j: int, row: int, k: int)
    requires
        0 <= r < k,
        0 <= j < row,
    ensures
        0 <= at_row(r, row, j) < k * row,
        r * row + row <= k * row,
{
    vstd::arithmetic::mul::lemma_mul_inequality(r + 1, k, row);
    vstd::arithmetic::mul::lemma_mul_is_distributive_add(row, r, 1);
    vstd::arithmetic::mul::lemma_mul_nonnegative(r, row);
    assert((r + 1) * row == r * row + row) by {
        vstd::arithmetic::mul::lemma_mul_is_commutative(r + 1, row);
        vstd::arithmetic::mul::lemma_mul_is_commutative(r, row);
    }
}

/// `out` holds the first `k` rows of `img` (rows of `row` bytes, `s` rows in
/// all) in reverse order: its row `r` is row `s - 1 - r` of `img`.
pub open spec fn rows_reversed(out: Seq<u8>, img: Seq<u8>, s: int, row: int, k: int) -> bool {
    &&& out.len() == k * row
    &&& forall|r: int, j: int|
        0 <= r < k && 0 <= j < row ==> #[trigger] out[at_row(r, row, j)] == img[at_row(
            s - 1 - r,
            row,
            j,
        )]
}

/// Turns an image of `size` rows of `size` RGBA pixels upside down.
pub fn flip_rows(img: &Vec<u8>, size: u32) -> (out: Vec<u8>)
    requires
        size * 4 <= u32::MAX,
        size * size * 4 <= usize::MAX,
        img.len() >= size * size * 4,
    ensures
        rows_reversed(out@, img@, size as int, size * 4, size as int),
{
    let row_size: usize = (size * 4) as usize;
    let ghost row = row_size as int;
    let mut out: Vec<u8> = Vec::new();
    let mut k: u32 = 0;
    proof {
        assert(size * size * 4 == size * (size * 4)) by (nonlinear_arith);
    }
    while k < size
        invariant
            row == size * 4,
            row_size == row,
            size * size * 4 <= usize::MAX,
            size * size * 4 == size * row,
            img.len() >= size * row,
            0 <= k <= size,
            rows_reversed(out@, img@, size as int, row, k as int),
        decreases size - k,
    {
        let r: u32 = size - 1 - k;
        proof {
            lemma_row_bounds(r as int, 0, row, size as int);
        }
        assert(r * size * 4 <= size * size * 4) by (nonlinear_arith)
            requires
                r < size,
        ;
        assert(r * size <= size * size) by (nonlinear_arith)
            requires
                r < size,
        ;
        let start: usize = r as usize * size as usize * 4;
        assert(start == r * row) by (nonlinear_arith)
            requires
                start == r * size * 4,
                row == size * 4,
        ;
        let ghost before = out@;
        let mut j: usize = 0;
        while j < row_size
            invariant
                row == size * 4,
                row_size == row,
                img.len() >= size * row,
                0 <= r < size,
                k == size - 1 - r,
                start == r * row,
                start + row <= size * row,
                0 <= j <= row,
                out@.len() == k * row + j,
                out@.take(k * row) == before,
                before.len() == k * row,
                forall|jj: int| 0 <= jj < j ==> #[trigger] out@[k * row + jj] == img@[start + jj],
            decreases row_size - j,
        {
            out.push(img[start + j]);
            j = j + 1;
            assert(out@.take(k * row) =~= before);
        }
        proof {
            assert forall|rr: int, jj: int| 0 <= rr < k + 1 && 0 <= jj < row implies #[trigger] out@[at_row(
                rr,
                row,
                jj,
            )] == img@[at_row(size - 1 - rr, row, jj)] by {
                if rr < k {
                    lemma_row_bounds(rr, jj, row, k as int);
                    assert(out@[at_row(rr, row, jj)] == before[at_row(rr, row, jj)]);
                } else {
                    assert(at_row(rr, row, jj) == k * row + jj);
                }
            }
            assert(out@.len() == (k + 1) * row) by (nonlinear_arith)
                requires
                    out@.len() == k * row + row,
            ;
        }
        k = k + 1;
    }
    out
}


/// Turning an image upside down twice gives back the image.
pub proof fn lemma_flip_rows_twice(img: Seq<u8>, once: Seq<u8>, twice: Seq<u8>, s: int, row: int)
    requires
        0 < row,
        0 <= s,
        img.len() == s * row,
        rows_reversed(once, img, s, row, s),
        rows_reversed(twice, once, s, row, s),
    ensures
        twice == img,
{
    assert forall|p: int| 0 <= p < img.len() implies twice[p] == img[p] by {
        let r = p / row;
        let j = p % row;
        vstd::arithmetic::div_mod::lemma_fundamental_div_mod(p, row);
        vstd::arithmetic::div_mod::lemma_remainder(p, row);
        assert(p == at_row(r, row, j)) by {
            vstd::arithmetic::mul::lemma_mul_is_commutative(r, row);
        }
        assert(0 <= r < s) by {
            vstd::arithmetic::div_mod::lemma_div_pos_is_pos(p, row);
            if r >= s {
                vstd::arithmetic::mul::lemma_mul_inequality(s, r, row);
            }
        }
        assert(twice[at_row(r, row, j)] == once[at_row(s - 1 - r, row, j)]);
        assert(once[at_row(s - 1 - r, row, j)] == img[at_row(s - 1 - (s - 1 - r), row, j)]);
    }
    assert(twice =~= img);
}


/// The image turned upside down: `s` rows of `row` bytes, row `r` taken
/// from row `s - 1 - r`.
pub open spec fn flipped_image(img: Seq<u8>, s: int, row: int) -> Seq<u8> {
    Seq::new((s * row) as nat, |p: int| img[at_row(s - 1 - p / row, row, p % row)])
}

/// Rows reversed row by row are the flipped image.
pub proof fn lemma_rows_reversed_is_flipped(out: Seq<u8>, img: Seq<u8>, s: int, row: int)
    requires
        0 < row,
        0 <= s,
        rows_reversed(out, img, s, row, s),
    ensures
        out == flipped_image(img, s, row),
{
    vstd::arithmetic::mul::lemma_mul_nonnegative(s, row);
    assert forall|p: int| 0 <= p < out.len() implies out[p] == flipped_image(img, s, row)[p] by {
        let r = p / row;
        let j = p % row;
        vstd::arithmetic::div_mod::lemma_fundamental_div_mod(p, row);
        vstd::arithmetic::div_mod::lemma_remainder(p, row);
        assert(p == at_row(r, row, j)) by {
            vstd::arithmetic::mul::lemma_mul_is_commutative(r, row);
        }
        assert(0 <= r < s) by {
            vstd::arithmetic::div_mod::lemma_div_pos_is_pos(p, row);
            if r >= s {
                vstd::arithmetic::mul::lemma_mul_inequality(s, r, row);
            }
        }
        assert(out[at_row(r, row, j)] == img[at_row(s - 1 - r, row, j)]);
    }
    assert(out =~= flipped_image(img, s, row));
}

/// The placeholder image as a byte sequence.
pub open spec fn placeholder_pixels(size: int, transparent: bool) -> Seq<u8> {
    Seq::new((size * size * 4) as nat, |p: int| placeholder_spec(size, transparent, p / 4, p % 4))
}

/// Offset of the first byte of pixel `(x, y)` in an RGBA image `w` pixels wide.
pub open spec fn pixel_at(x: int, y: int, w: int) -> int {
    (y * w + x) * 4
}

/// The pixel starting at byte `p` is part of the picture: it is not clear
/// (alpha above zero) on a transparent image, and not white on an opaque one.
pub open spec fn is_content(img: Seq<u8>, p: int, transparent: bool) -> bool {
    if transparent {
        img[p + 3] > 0
    } else {
        img[p] < 255 || img[p + 1] < 255 || img[p + 2] < 255
    }
}

pub open spec fn content_xy(img: Seq<u8>, w: int, h: int, transparent: bool, x: int, y: int) -> bool {
    0 <= x < w && 0 <= y < h && is_content(img, pixel_at(x, y, w), transparent)
}

pub open spec fn has_content(img: Seq<u8>, w: int, h: int, transparent: bool) -> bool {
    exists|x: int, y: int| #[trigger] content_xy(img, w, h, transparent, x, y)
}

/// `[x0, x1] x [y0, y1]` is the smallest box holding every content pixel.
pub open spec fn is_content_box(
    img: Seq<u8>,
    w: int,
    h: int,
    transparent: bool,
    x0: int,
    x1: int,
    y0: int,
    y1: int,
) -> bool {
    &&& forall|x: int, y: int|
        #[trigger] content_xy(img, w, h, transparent, x, y) ==> x0 <= x <= x1 && y0 <= y <= y1
    &&& exists|y: int| #[trigger] content_xy(img, w, h, transparent, x0, y)
    &&& exists|y: int| #[trigger] content_xy(img, w, h, transparent, x1, y)
    &&& exists|x: int| #[trigger] content_xy(img, w, h, transparent, x, y0)
    &&& exists|x: int| #[trigger] content_xy(img, w, h, transparent, x, y1)
}

/// Rows `y0 .. y0 + k` of the image, each cut to the `cw` pixels from
/// column `x0`, one after the other.
pub open spec fn crop_rows(img: Seq<u8>, w: int, x0: int, cw: int, y0: int, k: nat) -> Seq<u8>
    decreases k,
{
    if k == 0 {
        Seq::empty()
    } else {
        let start = pixel_at(x0, y0 + k - 1, w);
        crop_rows(img, w, x0, cw, y0, (k - 1) as nat) + img.subrange(start, start + cw * 4)
    }
}

proof fn lemma_pixel_in_image(x: int, y: int, w: int, h: int)
    requires
        0 <= x < w,
        0 <= y < h,
    ensures
        0 <= pixel_at(x, y, w),
        pixel_at(x, y, w) + 4 <= w * h * 4,
        y * w + x < w * h,
{
    lemma_row_bounds(y, x, w, h);
    vstd::arithmetic::mul::lemma_mul_is_commutative(w, h);
}

/// The smallest box `(x0, x1, y0, y1)` that holds every pixel of the
/// picture in an RGBA image of `width` by `height` pixels, if it has any.
pub fn content_bounds(img: &Vec<u8>, width: u32, height: u32, transparent: bool) -> (r: Option<
    (u32, u32, u32, u32),
>)
    requires
        width > 0,
        img.len() == width * height * 4,
        width * height * 4 <= u32::MAX,
    ensures
        r is None <==> !has_content(img@, width as int, height as int, transparent),
        r matches Some(b) ==> {
            &&& b.0 <= b.1 < width
            &&& b.2 <= b.3 < height
            &&& is_content_box(
                img@,
                width as int,
                height as int,
                transparent,
                b.0 as int,
                b.1 as int,
                b.2 as int,
                b.3 as int,
            )
        },
{
    let ghost im = img@;
    let ghost w = width as int;
    let ghost h = height as int;
    let mut min_x: u32 = width;
    let mut min_y: u32 = height;
    let mut max_x: u32 = 0;
    let mut max_y: u32 = 0;
    let ghost mut found = false;
    let mut y: u32 = 0;
    while y < height
        invariant
            im == img@,
            w == width,
            h == height,
            width > 0,
            img.len() == width * height * 4,
            width * height * 4 <= u32::MAX,
            0 <= y <= height,
            !found ==> min_x == width && min_y == height && max_x == 0 && max_y == 0,
            !found ==> forall|xx: int, yy: int|
                yy < y ==> !#[trigger] content_xy(im, w, h, transparent, xx, yy),
            found ==> min_x <= max_x < width && min_y <= max_y < y,
            found ==> forall|xx: int, yy: int|
                #[trigger] content_xy(im, w, h, transparent, xx, yy) && yy < y ==> min_x <= xx
                    <= max_x && min_y <= yy <= max_y,
            found ==> exists|yy: int| #[trigger] content_xy(im, w, h, transparent, min_x as int, yy),
            found ==> exists|yy: int| #[trigger] content_xy(im, w, h, transparent, max_x as int, yy),
            found ==> exists|xx: int| #[trigger] content_xy(im, w, h, transparent, xx, min_y as int),
            found ==> exists|xx: int| #[trigger] content_xy(im, w, h, transparent, xx, max_y as int),
        decreases height - y,
    {
        let mut x: u32 = 0;
        while x < width
            invariant
                im == img@,
                w == width,
                h == height,
                width > 0,
                img.len() == width * height * 4,
                width * height * 4 <= u32::MAX,
                0 <= y < height,
                0 <= x <= width,
                !found ==> min_x == width && min_y == height && max_x == 0 && max_y == 0,
                !found ==> forall|xx: int, yy: int|
                    (yy < y || (yy == y && xx < x)) ==> !#[trigger] content_xy(im, w, h, transparent, xx, yy),
                found ==> min_x <= max_x < width && min_y <= max_y <= y,
                found ==> forall|xx: int, yy: int|
                    #[trigger] content_xy(im, w, h, transparent, xx, yy) && (yy < y || (yy == y && xx
                        < x)) ==> min_x <= xx <= max_x && min_y <= yy <= max_y,
                found ==> exists|yy: int| #[trigger] content_xy(im, w, h, transparent, min_x as int, yy),
                found ==> exists|yy: int| #[trigger] content_xy(im, w, h, transparent, max_x as int, yy),
                found ==> exists|xx: int| #[trigger] content_xy(im, w, h, transparent, xx, min_y as int),
                found ==> exists|xx: int| #[trigger] content_xy(im, w, h, transparent, xx, max_y as int),
            decreases width - x,
        {
            proof {
                lemma_pixel_in_image(x as int, y as int, w, h);
            }
            let p: usize = (y as usize * width as usize + x as usize) * 4;
            let opaque = if transparent {
                img[p + 3] > 0
            } else {
                img[p] < 255 || img[p + 1] < 255 || img[p + 2] < 255
            };
            assert(opaque == content_xy(im, w, h, transparent, x as int, y as int));
            if opaque {
                let ghost (ox0, ox1, oy0, oy1) = (min_x, max_x, min_y, max_y);
                let ghost was = found;
                if x < min_x {
                    min_x = x;
                }
                if y < min_y {
                    min_y = y;
                }
                if x > max_x {
                    max_x = x;
                }
                if y > max_y {
                    max_y = y;
                }
                proof {
                    found = true;
                    if !was {
                        assert(min_x == x && max_x == x && min_y == y && max_y == y);
                    }
                    assert(exists|yy: int| #[trigger] content_xy(im, w, h, transparent, min_x as int, yy)) by {
                        if min_x == x {
                            assert(content_xy(im, w, h, transparent, x as int, y as int));
                        }
                    }
                    assert(exists|yy: int| #[trigger] content_xy(im, w, h, transparent, max_x as int, yy)) by {
                        if max_x == x {
                            assert(content_xy(im, w, h, transparent, x as int, y as int));
                        }
                    }
                    assert(exists|xx: int| #[trigger] content_xy(im, w, h, transparent, xx, min_y as int)) by {
                        if min_y == y {
                            assert(content_xy(im, w, h, transparent, x as int, y as int));
                        }
                    }
                    assert(exists|xx: int| #[trigger] content_xy(im, w, h, transparent, xx, max_y as int)) by {
                        if max_y == y {
                            assert(content_xy(im, w, h, transparent, x as int, y as int));
                        }
                    }
                }
            }
            x = x + 1;
        }
        y = y + 1;
    }
    if min_x >= width || min_y >= height {
        assert(!has_content(im, w, h, transparent)) by {
            if has_content(im, w, h, transparent) {
                let (xx, yy) = choose|xx: int, yy: int| #[trigger] content_xy(im, w, h, transparent, xx, yy);
                assert(content_xy(im, w, h, transparent, xx, yy));
            }
        }
        return None;
    }
    assert(found);
    assert(is_content_box(im, w, h, transparent, min_x as int, max_x as int, min_y as int, max_y as int));
    Some((min_x, max_x, min_y, max_y))
}

/// Cuts an RGBA image (`width` by `height` pixels) down to the smallest box
/// that holds every pixel of the picture; an image with no such pixel comes
/// back unchanged.
pub fn auto_crop_image(img: &Vec<u8>, width: u32, height: u32, transparent: bool) -> (out: Vec<u8>)
    requires
        width > 0,
        img.len() == width * height * 4,
        width * height * 4 <= u32::MAX,
    ensures
        !has_content(img@, width as int, height as int, transparent) ==> out@ == img@,
        has_content(img@, width as int, height as int, transparent) ==> exists|
            x0: int,
            x1: int,
            y0: int,
            y1: int,
        |
            #![trigger is_content_box(img@, width as int, height as int, transparent, x0, x1, y0, y1)]
            is_content_box(img@, width as int, height as int, transparent, x0, x1, y0, y1)
                && out@ == crop_rows(
                img@,
                width as int,
                x0,
                x1 - x0 + 1,
                y0,
                (y1 - y0 + 1) as nat,
            ),
{
    let ghost im = img@;
    let ghost w = width as int;
    let ghost h = height as int;
    let bounds = content_bounds(img, width, height, transparent);
    if bounds.is_none() {
        let mut copy: Vec<u8> = Vec::new();
        let n = img.len();
        let mut i: usize = 0;
        while i < n
            invariant
                n == img.len(),
                0 <= i <= n,
                copy@ == img@.take(i as int),
            decreases n - i,
        {
            copy.push(img[i]);
            i = i + 1;
            assert(copy@ =~= img@.take(i as int));
        }
        assert(img@.take(n as int) =~= img@);
        return copy;
    }
    let (min_x, max_x, min_y, max_y) = bounds.unwrap();
    crop_to_box(img, width, height, min_x, max_x, min_y, max_y)
}

/// Cuts an RGBA image (`width` by `height` pixels) down to the box of
/// columns `min_x ..= max_x` and rows `min_y ..= max_y`.
pub fn crop_to_box(
    img: &Vec<u8>,
    width: u32,
    height: u32,
    min_x: u32,
    max_x: u32,
    min_y: u32,
    max_y: u32,
) -> (out: Vec<u8>)
    requires
        width > 0,
        img.len() == width * height * 4,
        width * height * 4 <= u32::MAX,
        min_x <= max_x < width,
        min_y <= max_y < height,
    ensures
        out@ == crop_rows(
            img@,
            width as int,
            min_x as int,
            max_x - min_x + 1,
            min_y as int,
            (max_y - min_y + 1) as nat,
        ),
        out@.len() == (max_x - min_x + 1) * (max_y - min_y + 1) * 4,
{
    let ghost im = img@;
    let ghost w = width as int;
    let ghost h = height as int;
    let crop_width: u32 = max_x - min_x + 1;
    let ghost cw = crop_width as int;
    let mut out: Vec<u8> = Vec::new();
    let mut yy: u32 = min_y;
    while yy <= max_y
        invariant
            im == img@,
            w == width,
            h == height,
            width > 0,
            img.len() == width * height * 4,
            width * height * 4 <= u32::MAX,
            min_x <= max_x < width,
            min_y <= max_y < height,
            cw == crop_width,
            crop_width == max_x - min_x + 1,
            min_y <= yy <= max_y + 1,
            out@ == crop_rows(im, w, min_x as int, cw, min_y as int, (yy - min_y) as nat),
            out@.len() == (yy - min_y) * cw * 4,
        decreases max_y + 1 - yy,
    {
        proof {
            lemma_pixel_in_image(min_x as int, yy as int, w, h);
            lemma_pixel_in_image(max_x as int, yy as int, w, h);
        }
        let start: usize = (yy as usize * width as usize + min_x as usize) * 4;
        let end: usize = start + (crop_width as usize) * 4;
        assert(end == pixel_at(max_x as int, yy as int, w) + 4);
        let ghost before = out@;
        let mut i: usize = start;
        while i < end
            invariant
                img.len() == width * height * 4,
                start <= i <= end,
                end <= img.len(),
                out@ == before + img@.subrange(start as int, i as int),
            decreases end - i,
        {
            out.push(img[i]);
            i = i + 1;
            assert(out@ =~= before + img@.subrange(start as int, i as int));
        }
        assert(out@.len() == (yy - min_y) * cw * 4 + cw * 4);
        assert((yy - min_y) * cw * 4 + cw * 4 == (yy + 1 - min_y) * cw * 4) by (nonlinear_arith);
        yy = yy + 1;
        assert(out@ =~= crop_rows(im, w, min_x as int, cw, min_y as int, (yy - min_y) as nat));
    }
    assert((max_y + 1 - min_y) * cw * 4 == (max_x - min_x + 1) * (max_y - min_y + 1) * 4) by (nonlinear_arith)
        requires
            cw == max_x - min_x + 1,
    ;
    out
}

/// The content box of the image, when it has content.
pub open spec fn content_box(img: Seq<u8>, w: int, h: int, transparent: bool) -> (int, int, int, int) {
    choose|x0: int, x1: int, y0: int, y1: int|
        is_content_box(img, w, h, transparent, x0, x1, y0, y1)
}

/// The image cut down to its content box; unchanged when it has no content.
pub open spec fn cropped_image(img: Seq<u8>, w: int, h: int, transparent: bool) -> Seq<u8> {
    if has_content(img, w, h, transparent) {
        let b = content_box(img, w, h, transparent);
        crop_rows(img, w, b.0, b.1 - b.0 + 1, b.2, (b.3 - b.2 + 1) as nat)
    } else {
        img
    }
}

/// An image has at most one content box.
pub proof fn lemma_content_box_unique(
    img: Seq<u8>,
    w: int,
    h: int,
    transparent: bool,
    a: (int, int, int, int),
    b: (int, int, int, int),
)
    requires
        is_content_box(img, w, h, transparent, a.0, a.1, a.2, a.3),
        is_content_box(img, w, h, transparent, b.0, b.1, b.2, b.3),
    ensures
        a == b,
{
    let ya0 = choose|y: int| #[trigger] content_xy(img, w, h, transparent, a.0, y);
    let yb0 = choose|y: int| #[trigger] content_xy(img, w, h, transparent, b.0, y);
    let ya1 = choose|y: int| #[trigger] content_xy(img, w, h, transparent, a.1, y);
    let yb1 = choose|y: int| #[trigger] content_xy(img, w, h, transparent, b.1, y);
    let xa0 = choose|x: int| #[trigger] content_xy(img, w, h, transparent, x, a.2);
    let xb0 = choose|x: int| #[trigger] content_xy(img, w, h, transparent, x, b.2);
    let xa1 = choose|x: int| #[trigger] content_xy(img, w, h, transparent, x, a.3);
    let xb1 = choose|x: int| #[trigger] content_xy(img, w, h, transparent, x, b.3);
}

/// What `auto_crop_image` returns is the cropped image.
pub proof fn lemma_auto_crop_is_cropped(img: Seq<u8>, w: int, h: int, transparent: bool, out: Seq<u8>)
    requires
        !has_content(img, w, h, transparent) ==> out == img,
        has_content(img, w, h, transparent) ==> exists|x0: int, x1: int, y0: int, y1: int|
            #![trigger is_content_box(img, w, h, transparent, x0, x1, y0, y1)]
            is_content_box(img, w, h, transparent, x0, x1, y0, y1) && out == crop_rows(
                img,
                w,
                x0,
                x1 - x0 + 1,
                y0,
                (y1 - y0 + 1) as nat,
            ),
    ensures
        out == cropped_image(img, w, h, transparent),
{
    if has_content(img, w, h, transparent) {
        let (x0, x1, y0, y1) = choose|x0: int, x1: int, y0: int, y1: int|
            #![trigger is_content_box(img, w, h, transparent, x0, x1, y0, y1)]
            is_content_box(img, w, h, transparent, x0, x1, y0, y1) && out == crop_rows(
                img,
                w,
                x0,
                x1 - x0 + 1,
                y0,
                (y1 - y0 + 1) as nat,
            );
        let b = content_box(img, w, h, transparent);
        lemma_content_box_unique(img, w, h, transparent, (x0, x1, y0, y1), b);
    }
}

/// The bytes of a row of `width` RGBA pixels as the GPU copies it out:
/// `width * 4` rounded up to a multiple of `alignment`.
pub open spec fn spec_padded_row_bytes(width: int, alignment: int) -> int {
    let unpadded = width * 4;
    let rows = if unpadded % alignment == 0 {
        unpadded / alignment
    } else {
        unpadded / alignment + 1
    };
    rows * alignment
}

/// The bytes per row of a texture copy: a row of `width` RGBA pixels
/// rounded up to the copy alignment.
pub fn padded_row_bytes(width: u32, alignment: u32) -> (r: u32)
    requires
        alignment > 0,
        width * 4 <= u32::MAX,
        spec_padded_row_bytes(width as int, alignment as int) <= u32::MAX,
    ensures
        r == spec_padded_row_bytes(width as int, alignment as int),
        width * 4 <= r,
        r % alignment == 0,
{
    let unpadded = width * 4;
    let q = unpadded / alignment;
    let rows = if unpadded % alignment == 0 {
        q
    } else {
        q + 1
    };
    proof {
        vstd::arithmetic::div_mod::lemma_fundamental_div_mod(unpadded as int, alignment as int);
        vstd::arithmetic::div_mod::lemma_mod_pos_bound(unpadded as int, alignment as int);
        assert(rows * alignment <= u32::MAX);
        assert(unpadded <= rows * alignment) by (nonlinear_arith)
            requires
                unpadded == alignment * q + unpadded % alignment,
                unpadded % alignment < alignment,
                rows == q || rows == q + 1,
                unpadded % alignment != 0 ==> rows == q + 1,
        ;
        vstd::arithmetic::div_mod::lemma_mod_multiples_basic(rows as int, alignment as int);
        vstd::arithmetic::mul::lemma_mul_is_commutative(rows as int, alignment as int);
    }
    rows * alignment
}

/// The first `k` rows of a padded copy, each cut to its `unpadded` bytes,
/// one after the other.
pub open spec fn unpadded_rows(mapped: Seq<u8>, unpadded: int, padded: int, k: nat) -> Seq<u8>
    decreases k,
{
    if k == 0 {
        Seq::empty()
    } else {
        let start = (k - 1) * padded;
        unpadded_rows(mapped, unpadded, padded, (k - 1) as nat) + mapped.subrange(
            start,
            start + unpadded,
        )
    }
}

/// Reads `height` rows of `unpadded` bytes out of a texture copy whose rows
/// are `padded` bytes apart.
pub fn unpad_rows(mapped: &Vec<u8>, unpadded: usize, padded: usize, height: usize) -> (out: Vec<
    u8,
>)
    requires
        unpadded <= padded,
        height > 0 ==> (height - 1) * padded + unpadded <= mapped.len(),
    ensures
        out@ == unpadded_rows(mapped@, unpadded as int, padded as int, height as nat),
{
    let mut out: Vec<u8> = Vec::new();
    let mut row: usize = 0;
    while row < height
        invariant
            unpadded <= padded,
            height > 0 ==> (height - 1) * padded + unpadded <= mapped.len(),
            0 <= row <= height,
            out@ == unpadded_rows(mapped@, unpadded as int, padded as int, row as nat),
        decreases height - row,
    {
        proof {
            assert(row * padded + unpadded <= (height - 1) * padded + unpadded) by (nonlinear_arith)
                requires
                    row < height,
            ;
        }
        let start: usize = row * padded;
        let end: usize = start + unpadded;
        let ghost before = out@;
        let mut i: usize = start;
        while i < end
            invariant
                start <= i <= end,
                end <= mapped.len(),
                out@ == before + mapped@.subrange(start as int, i as int),
            decreases end - i,
        {
            out.push(mapped[i]);
            i = i + 1;
            assert(out@ =~= before + mapped@.subrange(start as int, i as int));
        }
        row = row + 1;
        assert(out@ =~= unpadded_rows(mapped@, unpadded as int, padded as int, row as nat));
    }
    out
}

} // verus!

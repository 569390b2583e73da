use vstd::prelude::*;
use vstd::arithmetic::div_mod::{lemma_fundamental_div_mod, lemma_fundamental_div_mod_converse, lemma_mod_bound};
use vstd::arithmetic::mul::lemma_mul_inequality;

verus! {

/// What a pixel buffer holds: the bytes of its rows, one after the other,
/// each row `rowstride` bytes apart, each pixel `n_channels` bytes (red,
/// green, blue, then alpha where there are four).
pub struct Image {
    pub data: Seq<u8>,
    pub n_channels: nat,
    pub width: nat,
    pub height: nat,
    pub rowstride: nat,
}

impl Image {
    /// The shape of every buffer of 8-bit samples: three or four channels, at
    /// least one pixel, rows that hold their pixels, and as many bytes as the
    /// full rows before the last plus the pixels of the last one.
    pub open spec fn wf(self) -> bool {
        &&& self.n_channels == 3 || self.n_channels == 4
        &&& self.width > 0
        &&& self.height > 0
        &&& self.width * self.n_channels <= self.rowstride
        &&& self.data.len() == (self.height - 1) * self.rowstride + self.width * self.n_channels
        &&& self.data.len() <= isize::MAX
    }

    /// Where channel `c` of the pixel in column `x` and row `y` is stored.
    pub open spec fn index(self, x: int, y: int, c: int) -> int {
        y * self.rowstride + x * self.n_channels + c
    }

    /// Channel `c` of the pixel in column `x` and row `y`.
    pub open spec fn octet(self, x: int, y: int, c: int) -> u8 {
        self.data[self.index(x, y, c)]
    }

    /// Channel `c` of pixel number `k`, pixels counted row by row.
    pub open spec fn composante(self, k: int, c: int) -> u8 {
        self.octet(k % (self.width as int), k / (self.width as int), c)
    }

    /// The same buffer after `put_pixel`: red, green and blue written, and
    /// alpha where the buffer has it.
    pub open spec fn avec_pixel(self, x: int, y: int, r: u8, g: u8, b: u8, a: u8) -> Image {
        let i = self.index(x, y, 0);
        let d = self.data.update(i, r).update(i + 1, g).update(i + 2, b);
        Image {
            data: if self.n_channels == 4 { d.update(i + 3, a) } else { d },
            ..self
        }
    }

    /// New pixel buffer of `width` by `height` pixels of three channels, each
    /// row padded to a multiple of four bytes, every byte zero.
    pub open spec fn vierge(width: nat, height: nat) -> Image {
        let rs = pas_rvb(width as int);
        Image {
            data: Seq::new(taille_rvb(width as int, height as int) as nat, |i: int| 0u8),
            n_channels: 3,
            width,
            height,
            rowstride: rs as nat,
        }
    }
}

/// The row stride of a new buffer of three 8-bit channels: its row of
/// pixels, rounded up to a multiple of four bytes.
pub open spec fn pas_rvb(width: int) -> int {
    ((3 * width + 3) / 4) * 4
}

/// The bytes of a new buffer of three 8-bit channels: the full rows before
/// the last, then the pixels of the last.
pub open spec fn taille_rvb(width: int, height: int) -> int {
    (height - 1) * pas_rvb(width) + 3 * width
}

/// A channel of a pixel inside the buffer lies inside the buffer.
pub proof fn lemma_index_borne(img: Image, x: int, y: int, c: int)
    requires
        img.wf(),
        0 <= x < img.width,
        0 <= y < img.height,
        0 <= c < img.n_channels,
    ensures
        0 <= img.index(x, y, c) < img.data.len(),
        0 <= y * img.rowstride <= img.index(x, y, c),
        0 <= x * img.n_channels,
{
    lemma_mul_inequality(y, img.height - 1, img.rowstride as int);
    lemma_mul_inequality(x + 1, img.width as int, img.n_channels as int);
    lemma_mul_inequality(0, y, img.rowstride as int);
    lemma_mul_inequality(0, x, img.n_channels as int);
    assert((x + 1) * img.n_channels == x * img.n_channels + img.n_channels) by (nonlinear_arith);
}

/// The row, the column and the channel can be read back from the place where
/// a channel is stored.
pub proof fn lemma_index_decompose(img: Image, x: int, y: int, c: int)
    requires
        img.wf(),
        0 <= x < img.width,
        0 <= y,
        0 <= c < img.n_channels,
    ensures
        img.index(x, y, c) / (img.rowstride as int) == y,
        img.index(x, y, c) % (img.rowstride as int) == x * img.n_channels + c,
        (x * img.n_channels + c) / (img.n_channels as int) == x,
        (x * img.n_channels + c) % (img.n_channels as int) == c,
        x * img.n_channels + c < img.width * img.n_channels,
{
    let nc = img.n_channels as int;
    lemma_mul_inequality(x + 1, img.width as int, nc);
    assert((x + 1) * nc == x * nc + nc) by (nonlinear_arith);
    lemma_mul_inequality(0, x, nc);
    assert(y * img.rowstride == img.rowstride * y) by (nonlinear_arith);
    lemma_fundamental_div_mod_converse(
        img.index(x, y, c),
        img.rowstride as int,
        y,
        x * nc + c,
    );
    lemma_fundamental_div_mod_converse(x * nc + c, nc, x, c);
}

/// Every byte of the buffer is either a channel of a pixel or lies in the
/// padding at the end of a row.
pub proof fn lemma_octet_decompose(img: Image, i: int)
    requires
        img.wf(),
        0 <= i < img.data.len(),
    ensures
        ({
            let y = i / (img.rowstride as int);
            let o = i % (img.rowstride as int);
            &&& 0 <= y < img.height
            &&& 0 <= o < img.rowstride
            &&& i == y * img.rowstride + o
            &&& o < img.width * img.n_channels ==> {
                &&& 0 <= o / (img.n_channels as int) < img.width
                &&& 0 <= o % (img.n_channels as int) < img.n_channels
                &&& i == img.index(o / (img.n_channels as int), y, o % (img.n_channels as int))
            }
        }),
{
    let rs = img.rowstride as int;
    let nc = img.n_channels as int;
    let y = i / rs;
    let o = i % rs;
    lemma_ligne_positive(img);
    lemma_fundamental_div_mod(i, rs);
    assert(rs * y == y * rs) by (nonlinear_arith);
    lemma_mod_bound(i, rs);
    assert(0 <= y) by (nonlinear_arith)
        requires
            i >= 0,
            rs > 0,
            y == i / rs,
    ;
    if y >= img.height {
        lemma_mul_inequality(img.height as int, y, rs);
        assert(img.height * rs == (img.height - 1) * rs + rs) by (nonlinear_arith);
    }
    if o < img.width * nc {
        lemma_fundamental_div_mod(o, nc);
        assert(nc * (o / nc) == (o / nc) * nc) by (nonlinear_arith);
        assert(0 <= o / nc) by (nonlinear_arith)
            requires
                o >= 0,
                nc > 0,
        ;
        if o / nc >= img.width {
            lemma_mul_inequality(img.width as int, o / nc, nc);
        }
    }
}

/// Every row holds at least one byte.
pub proof fn lemma_ligne_positive(img: Image)
    requires
        img.wf(),
    ensures
        img.width * img.n_channels >= 3,
        img.rowstride >= 3,
{
    assert(img.width * img.n_channels >= 3) by (nonlinear_arith)
        requires
            img.width >= 1,
            img.n_channels >= 3,
    ;
}

/// The sides of a buffer are below the bound on its bytes.
pub proof fn lemma_dimensions_bornees(img: Image)
    requires
        img.wf(),
    ensures
        img.width <= isize::MAX,
        img.height <= isize::MAX,
{
    lemma_ligne_positive(img);
    lemma_mul_inequality(1, img.n_channels as int, img.width as int);
    lemma_mul_inequality(1, img.rowstride as int, img.height - 1);
    assert(img.width * img.n_channels == img.n_channels * img.width) by (nonlinear_arith);
    assert((img.height - 1) * img.rowstride == img.rowstride * (img.height - 1)) by (nonlinear_arith);
}

/// A pixel number splits into a column below the width and a row.
pub proof fn lemma_division_pixel(w: int, k: int)
    requires
        w > 0,
        k >= 0,
    ensures
        0 <= k % w < w,
        0 <= k / w,
        k == (k / w) * w + k % w,
        k == 0 ==> k % w == 0 && k / w == 0,
{
    lemma_fundamental_div_mod(k, w);
    lemma_mod_bound(k, w);
    assert(w * (k / w) == (k / w) * w) by (nonlinear_arith);
    assert(0 <= k / w) by (nonlinear_arith)
        requires
            k >= 0,
            w > 0,
    ;
    if k == 0 {
        lemma_fundamental_div_mod_converse(0, w, 0, 0);
    }
}

/// Pixel `y * width + x` lies in column `x` and row `y`.
pub proof fn lemma_pixel_numero(img: Image, k: int, x: int, y: int)
    requires
        img.width > 0,
        0 <= x < img.width,
        k == y * img.width + x,
    ensures
        k % (img.width as int) == x,
        k / (img.width as int) == y,
{
    assert(y * img.width == img.width * y) by (nonlinear_arith);
    lemma_fundamental_div_mod_converse(k, img.width as int, y, x);
}

/// A pixel number below `width * height` lies in a row of the buffer.
pub proof fn lemma_pixel_dans_image(img: Image, k: int, x: int, y: int)
    requires
        img.width > 0,
        0 <= x < img.width,
        0 <= y,
        k == y * img.width + x,
        k < img.width * img.height,
    ensures
        y < img.height,
{
    if y >= img.height {
        lemma_mul_inequality(img.height as int, y, img.width as int);
        assert(img.width * img.height == img.height * img.width) by (nonlinear_arith);
    }
}

/// The pixels of a buffer are fewer than its bytes.
pub proof fn lemma_nb_pixels(img: Image)
    requires
        img.wf(),
    ensures
        img.width * img.height <= img.width * img.n_channels * img.height,
        img.width * img.n_channels * img.height <= img.data.len(),
{
    let w = img.width as int;
    let h = img.height as int;
    let nc = img.n_channels as int;
    lemma_mul_inequality(1, nc, w);
    assert(w * h <= w * nc * h) by (nonlinear_arith)
        requires
            w <= nc * w,
            h >= 0,
            w >= 0,
    ;
    lemma_mul_inequality(w * nc, img.rowstride as int, h - 1);
    assert(w * nc * h == w * nc * (h - 1) + w * nc) by (nonlinear_arith);
    assert(img.rowstride * (h - 1) == (h - 1) * img.rowstride) by (nonlinear_arith);
}

/// An image kept as the bytes of its pixels, laid out as `Image` says.
#[derive(Clone)]
pub struct PixelBuffer {
    buffer: Vec<u8>,
    n_channels: usize,
    height: usize,
    width: usize,
    rowstride: usize,
}

impl View for PixelBuffer {
    type V = Image;

    closed spec fn view(&self) -> Image {
        Image {
            data: self.buffer@,
            n_channels: self.n_channels as nat,
            width: self.width as nat,
            height: self.height as nat,
            rowstride: self.rowstride as nat,
        }
    }
}

impl PixelBuffer {
    /// Takes the bytes of an image with its layout; `None` where the layout
    /// does not fit the bytes (see `Image::wf`).
    pub fn new(buffer: Vec<u8>, n_channels: usize, width: usize, height: usize, rowstride: usize) -> (r:
        Option<PixelBuffer>)
        ensures
            ({
                let img = Image {
                    data: buffer@,
                    n_channels: n_channels as nat,
                    width: width as nat,
                    height: height as nat,
                    rowstride: rowstride as nat,
                };
                &&& r is Some <==> img.wf()
                &&& r matches Some(p) ==> p@ == img
            }),
    {
        if n_channels != 3 && n_channels != 4 {
            return None;
        }
        if width == 0 || height == 0 {
            return None;
        }
        if buffer.len() > isize::MAX as usize {
            return None;
        }
        let ligne = match width.checked_mul(n_channels) {
            Some(l) => l,
            None => return None,
        };
        if ligne > rowstride {
            return None;
        }
        let lignes_pleines = match (height - 1).checked_mul(rowstride) {
            Some(l) => l,
            None => {
                proof {
                    lemma_mul_inequality(0, (height - 1) as int, rowstride as int);
                }
                return None;
            },
        };
        let total = match lignes_pleines.checked_add(ligne) {
            Some(t) => t,
            None => return None,
        };
        if total != buffer.len() {
            return None;
        }
        Some(PixelBuffer { buffer, n_channels, height, width, rowstride })
    }

    /// A new buffer of `width` by `height` pixels of three channels, rows
    /// padded to a multiple of four bytes, every byte zero.
    pub fn vierge(width: usize, height: usize) -> (r: PixelBuffer)
        requires
            width > 0,
            height > 0,
            taille_rvb(width as int, height as int) <= isize::MAX,
        ensures
            r@ == Image::vierge(width as nat, height as nat),
            r@.wf(),
    {
        let ghost rs = pas_rvb(width as int);
        proof {
            lemma_mul_inequality(0, (height - 1) as int, rs);
            assert(3 * width <= rs);
        }
        let pas = (3 * width + 3) / 4 * 4;
        let taille = (height - 1) * pas + 3 * width;
        let buffer = vec![0u8; taille];
        let r = PixelBuffer { buffer, n_channels: 3, height, width, rowstride: pas };
        proof {
            assert(r@.data =~= Image::vierge(width as nat, height as nat).data);
        }
        r
    }

    pub fn width(&self) -> (r: usize)
        ensures
            r == self@.width,
    {
        self.width
    }

    pub fn height(&self) -> (r: usize)
        ensures
            r == self@.height,
    {
        self.height
    }

    pub fn n_channels(&self) -> (r: usize)
        ensures
            r == self@.n_channels,
    {
        self.n_channels
    }

    pub fn rowstride(&self) -> (r: usize)
        ensures
            r == self@.rowstride,
    {
        self.rowstride
    }

    /// The bytes of the image.
    pub fn buffer(&self) -> (r: &[u8])
        ensures
            r@ == self@.data,
    {
        self.buffer.as_slice()
    }

    /// Gives the bytes of the image away.
    pub fn into_buffer(self) -> (r: Vec<u8>)
        ensures
            r@ == self@.data,
    {
        self.buffer
    }

    /// The red, green and blue channels of the pixel in column `x` and row
    /// `y`; an error where `x` is beyond the width or `y` beyond the height
    /// (one column and one row past the last are let through).
    pub fn get_pixel(&self, x: usize, y: usize) -> (r: Result<[u8; 3], &'static str>)
        requires
            self@.wf(),
            x > self@.width || y > self@.height || self@.index(x as int, y as int, 2)
                < self@.data.len(),
        ensures
            x > self@.width || y > self@.height ==> r == Err::<[u8; 3], &'static str>(
                "Coordinates are out of the buffer !",
            ),
            !(x > self@.width || y > self@.height) ==> r == Ok::<[u8; 3], &'static str>(
                [
                    self@.octet(x as int, y as int, 0),
                    self@.octet(x as int, y as int, 1),
                    self@.octet(x as int, y as int, 2),
                ],
            ),
    {
        if x > self.width || y > self.height {
            return Err("Coordinates are out of the buffer !");
        }
        proof {
            lemma_mul_inequality(0, y as int, self.rowstride as int);
            lemma_mul_inequality(0, x as int, self.n_channels as int);
        }
        let i = (y * self.rowstride) + (x * self.n_channels);
        Ok([self.buffer[i], self.buffer[i + 1], self.buffer[i + 2]])
    }

    /// Writes the pixel in column `x` and row `y`: red, green and blue, and
    /// alpha where the buffer has four channels.
    pub fn put_pixel(&mut self, x: usize, y: usize, red: u8, green: u8, blue: u8, alpha: u8)
        requires
            old(self)@.wf(),
            x < old(self)@.width,
            y < old(self)@.height,
        ensures
            final(self)@ == old(self)@.avec_pixel(x as int, y as int, red, green, blue, alpha),
            final(self)@.wf(),
    {
        proof {
            lemma_index_borne(self@, x as int, y as int, self.n_channels - 1);
        }
        let pos = y * self.rowstride + x * self.n_channels;
        self.buffer.set(pos, red);
        self.buffer.set(pos + 1, green);
        self.buffer.set(pos + 2, blue);
        if self.n_channels == 4 {
            self.buffer.set(pos + 3, alpha);
        }
    }
}

} // verus!

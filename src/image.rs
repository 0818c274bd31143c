use vstd::prelude::*;
use vstd::arithmetic::div_mod::lemma_fundamental_div_mod;
use vstd::arithmetic::div_mod::lemma_fundamental_div_mod_converse;

verus! {

/// Mathematical model of an image: a `width` by `height` grid of pixels stored
/// row by row, so that pixel `(x, y)` sits at `y * width + x`.
pub struct ImageView<P> {
    pub width: nat,
    pub height: nat,
    pub pixels: Seq<P>,
}

impl<P> ImageView<P> {
    pub open spec fn wf(self) -> bool {
        self.pixels.len() == self.width * self.height
    }

    pub open spec fn contains(self, x: int, y: int) -> bool {
        0 <= x < self.width && 0 <= y < self.height
    }

    pub open spec fn pixel(self, x: int, y: int) -> P {
        self.pixels[y * self.width + x]
    }

    /// The same image with pixel `(x, y)` replaced by `p`.
    pub open spec fn with_pixel(self, x: int, y: int, p: P) -> ImageView<P> {
        ImageView { width: self.width, height: self.height, pixels: self.pixels.update(y * self.width + x, p) }
    }

    /// The first `n` pixels, in row-major order, of the block `w` pixels wide
    /// whose top-left corner is `(x, y)`.
    pub open spec fn block_pixels(self, x: int, y: int, w: nat, n: nat) -> Seq<P> {
        Seq::new(n, |i: int| self.pixel(x + i % (w as int), y + i / (w as int)))
    }

    /// The `w` by `h` block of this image whose top-left corner is `(x, y)`.
    pub open spec fn block(self, x: int, y: int, w: nat, h: nat) -> ImageView<P> {
        ImageView { width: w, height: h, pixels: self.block_pixels(x, y, w, w * h) }
    }

    /// Pixel `(x, y)` once `t` has been copied in: the tile's own pixel where
    /// the tile covers `(x, y)`, this image's pixel elsewhere.
    pub open spec fn pasted_pixel(self, t: Tile<P>, x: int, y: int) -> P {
        if t.covers(x, y) {
            t.image@.pixel(x - t.x, y - t.y)
        } else {
            self.pixel(x, y)
        }
    }

    /// This image with the pixels of tile `t` copied in at the tile's offset.
    pub open spec fn paste(self, t: Tile<P>) -> ImageView<P> {
        ImageView {
            width: self.width,
            height: self.height,
            pixels: Seq::new(
                self.pixels.len(),
                |i: int| self.pasted_pixel(t, i % (self.width as int), i / (self.width as int)),
            ),
        }
    }

    /// This image with every tile of `tiles` copied in, in order.
    pub open spec fn paste_all(self, tiles: Seq<Tile<P>>) -> ImageView<P>
        decreases tiles.len(),
    {
        if tiles.len() == 0 {
            self
        } else {
            self.paste_all(tiles.drop_last()).paste(tiles.last())
        }
    }
}

/// Whether a `width` by `height` image splits into a grid of `tiles_w` by
/// `tiles_h` tiles of one size.
pub open spec fn divides_evenly(width: nat, height: nat, tiles_w: nat, tiles_h: nat) -> bool {
    &&& tiles_w > 0
    &&& tiles_h > 0
    &&& width % tiles_w == 0
    &&& height % tiles_h == 0
}

/// Whether `t` is tile number `k` of the `tiles_w` by `tiles_h` grid over `img`.
/// Tiles are numbered down each column of the grid, column after column; the
/// tile's id counts along the rows instead.
pub open spec fn is_grid_tile<P>(img: ImageView<P>, tiles_w: nat, tiles_h: nat, k: int, t: Tile<P>) -> bool {
    let size_w = img.width / tiles_w;
    let size_h = img.height / tiles_h;
    let u = k / (tiles_h as int);
    let v = k % (tiles_h as int);
    &&& t.x == u * size_w
    &&& t.y == v * size_h
    &&& t.id == u + v * tiles_w
    &&& t.image@ == img.block(u * size_w, v * size_h, size_w, size_h)
}

/// A `width` by `height` grid of pixels in one flat row-major buffer.
pub struct Image<P> {
    width: usize,
    height: usize,
    data: Vec<P>,
}

impl<P> View for Image<P> {
    type V = ImageView<P>;

    closed spec fn view(&self) -> ImageView<P> {
        ImageView { width: self.width as nat, height: self.height as nat, pixels: self.data@ }
    }
}

impl<P> Image<P> {
    #[verifier::type_invariant]
    spec fn inv(self) -> bool {
        &&& self.data.len() == self.width * self.height
        &&& self.width <= u32::MAX
        &&& self.height <= u32::MAX
    }
}

/// A block of an image, owned apart from it: its pixels, where its top-left
/// corner sits in the parent image, and an id.
pub struct Tile<P> {
    pub x: u32,
    pub y: u32,
    pub id: u32,
    pub image: Image<P>,
}

impl<P> Tile<P> {
    pub open spec fn covers(self, x: int, y: int) -> bool {
        &&& self.x <= x < self.x + self.image@.width
        &&& self.y <= y < self.y + self.image@.height
    }

    /// Whether the tile lies wholly inside `img` at its offset.
    pub open spec fn fits_in(self, img: ImageView<P>) -> bool {
        &&& self.x + self.image@.width <= img.width
        &&& self.y + self.image@.height <= img.height
    }
}

proof fn lemma_index(w: int, h: int, x: int, y: int)
    requires
        0 <= x < w,
        0 <= y < h,
    ensures
        0 <= y * w + x < w * h,
        (y * w + x) % w == x,
        (y * w + x) / w == y,
{
    assert(0 <= y * w + x < w * h) by (nonlinear_arith)
        requires
            0 <= x < w,
            0 <= y < h,
    ;
    lemma_fundamental_div_mod_converse(y * w + x, w, y, x);
}

proof fn lemma_split_index(w: int, h: int, i: int)
    requires
        0 <= w,
        0 <= h,
        0 <= i < w * h,
    ensures
        0 <= i % w < w,
        0 <= i / w < h,
        i == (i / w) * w + i % w,
{
    assert(w > 0) by (nonlinear_arith)
        requires
            0 <= w,
            0 <= h,
            0 <= i < w * h,
    ;
    lemma_fundamental_div_mod(i, w);
    let q = i / w;
    let r = i % w;
    assert(q * w == w * q) by (nonlinear_arith);
    assert(0 <= q < h) by (nonlinear_arith)
        requires
            w > 0,
            0 <= r < w,
            0 <= i < w * h,
            i == w * q + r,
    ;
}

impl<P> ImageView<P> {
    /// Two well-formed images of one size with the same pixels are equal.
    pub proof fn lemma_ext_equal(self, other: ImageView<P>)
        requires
            self.wf(),
            other.wf(),
            self.width == other.width,
            self.height == other.height,
            forall|x: int, y: int| self.contains(x, y) ==> #[trigger] self.pixel(x, y) == other.pixel(x, y),
        ensures
            self == other,
    {
        assert forall|i: int| 0 <= i < self.pixels.len() implies self.pixels[i] == other.pixels[i] by {
            lemma_split_index(self.width as int, self.height as int, i);
            let x = i % (self.width as int);
            let y = i / (self.width as int);
            assert(self.contains(x, y));
            assert(self.pixel(x, y) == other.pixel(x, y));
        }
        assert(self.pixels =~= other.pixels);
    }

    pub proof fn lemma_with_pixel(self, x: int, y: int, p: P)
        requires
            self.wf(),
            self.contains(x, y),
        ensures
            self.with_pixel(x, y, p).wf(),
            forall|x2: int, y2: int| #[trigger] self.contains(x2, y2) ==>
                self.with_pixel(x, y, p).pixel(x2, y2) == if x2 == x && y2 == y { p } else { self.pixel(x2, y2) },
    {
        lemma_index(self.width as int, self.height as int, x, y);
        assert forall|x2: int, y2: int| #[trigger] self.contains(x2, y2) implies
            self.with_pixel(x, y, p).pixel(x2, y2) == if x2 == x && y2 == y { p } else { self.pixel(x2, y2) } by {
            lemma_index(self.width as int, self.height as int, x2, y2);
        }
    }

    pub proof fn lemma_block(self, x: int, y: int, w: nat, h: nat)
        ensures
            self.block(x, y, w, h).wf(),
            forall|u: int, v: int| #[trigger] self.block(x, y, w, h).contains(u, v) ==>
                self.block(x, y, w, h).pixel(u, v) == self.pixel(x + u, y + v),
    {
        assert forall|u: int, v: int| #[trigger] self.block(x, y, w, h).contains(u, v) implies
            self.block(x, y, w, h).pixel(u, v) == self.pixel(x + u, y + v) by {
            lemma_index(w as int, h as int, u, v);
        }
    }

    pub proof fn lemma_paste(self, t: Tile<P>)
        requires
            self.wf(),
        ensures
            self.paste(t).wf(),
            self.paste(t).width == self.width,
            self.paste(t).height == self.height,
            forall|x: int, y: int| #[trigger] self.contains(x, y) ==>
                self.paste(t).pixel(x, y) == self.pasted_pixel(t, x, y),
    {
        assert forall|x: int, y: int| #[trigger] self.contains(x, y) implies
            self.paste(t).pixel(x, y) == self.pasted_pixel(t, x, y) by {
            lemma_index(self.width as int, self.height as int, x, y);
        }
    }
}

impl<P: Copy> Image<P> {
    /// Creates a `width` by `height` image with every pixel set to `fill`.
    pub fn new(width: usize, height: usize, fill: P) -> (r: Image<P>)
        requires
            width <= u32::MAX,
            height <= u32::MAX,
            width * height <= usize::MAX,
        ensures
            r@ == (ImageView { width: width as nat, height: height as nat, pixels: Seq::new((width * height) as nat, |i: int| fill) }),
    {
        let n = width * height;
        let mut data: Vec<P> = Vec::new();
        let mut i: usize = 0;
        while i < n
            invariant
                i <= n,
                data@ =~= Seq::new(i as nat, |j: int| fill),
            decreases n - i,
        {
            data.push(fill);
            i = i + 1;
        }
        Image { width, height, data }
    }

    pub fn width(&self) -> (r: u32)
        ensures
            r == self@.width,
            self@.wf(),
    {
        proof {
            use_type_invariant(self);
        }
        self.width as u32
    }

    pub fn height(&self) -> (r: u32)
        ensures
            r == self@.height,
            self@.wf(),
    {
        proof {
            use_type_invariant(self);
        }
        self.height as u32
    }

    pub fn get_pixel(&self, x: u32, y: u32) -> (r: &P)
        requires
            self@.contains(x as int, y as int),
        ensures
            *r == self@.pixel(x as int, y as int),
    {
        proof {
            use_type_invariant(self);
            lemma_index(self.width as int, self.height as int, x as int, y as int);
        }
        &self.data[y as usize * self.width + x as usize]
    }

    pub fn put_pixel(&mut self, x: u32, y: u32, color: P)
        requires
            old(self)@.contains(x as int, y as int),
        ensures
            final(self)@ == old(self)@.with_pixel(x as int, y as int, color),
    {
        proof {
            use_type_invariant(&*self);
            lemma_index(self.width as int, self.height as int, x as int, y as int);
        }
        let i = y as usize * self.width + x as usize;
        self.data[i] = color;
    }
}


impl<P: Copy> Image<P> {
    /// Copies the `width` by `height` block whose top-left corner is `(x, y)`
    /// into a tile of its own, with id 0.
    pub fn get_tile(&self, x: u32, y: u32, width: usize, height: usize) -> (r: Tile<P>)
        requires
            x + width <= self@.width,
            y + height <= self@.height,
        ensures
            r.x == x,
            r.y == y,
            r.id == 0,
            r.image@ == self@.block(x as int, y as int, width as nat, height as nat),
    {
        proof {
            use_type_invariant(self);
        }
        let mut data: Vec<P> = Vec::new();
        let mut v: usize = 0;
        while v < height
            invariant
                v <= height,
                x + width <= self@.width,
                y + height <= self@.height,
                self@.width <= u32::MAX,
                self@.height <= u32::MAX,
                data@ =~= self@.block_pixels(x as int, y as int, width as nat, (v * width) as nat),
            decreases height - v,
        {
            let mut u: usize = 0;
            while u < width
                invariant
                    u <= width,
                    v < height,
                    x + width <= self@.width,
                    y + height <= self@.height,
                    self@.width <= u32::MAX,
                    self@.height <= u32::MAX,
                    data@ =~= self@.block_pixels(x as int, y as int, width as nat, (v * width + u) as nat),
                decreases width - u,
            {
                proof {
                    lemma_index(width as int, height as int, u as int, v as int);
                }
                let p = *self.get_pixel(x + u as u32, y + v as u32);
                                data.push(p);
                proof {
                    assert(data@ =~= self@.block_pixels(x as int, y as int, width as nat, (v * width + u + 1) as nat));
                }
                u = u + 1;
            }
            proof {
                assert(v * width + width == (v + 1) * width) by (nonlinear_arith);
            }
            v = v + 1;
        }
        proof {
            assert(height * width == width * height) by (nonlinear_arith);
        }
        Tile { x, y, id: 0, image: Image { width, height, data } }
    }

    /// Whether the image splits into a grid of `tiles_w` by `tiles_h` tiles of
    /// one size, each with an id that fits in a `u32`.
    pub fn can_split_into_tiles(&self, tiles_w: usize, tiles_h: usize) -> (r: bool)
        ensures
            r == (divides_evenly(self@.width, self@.height, tiles_w as nat, tiles_h as nat)
                && tiles_w * tiles_h <= u32::MAX),
    {
        if tiles_w == 0 || tiles_h == 0 {
            return false;
        }
        if self.width % tiles_w != 0 || self.height % tiles_h != 0 {
            return false;
        }
        let tw = tiles_w as u128;
        let th = tiles_h as u128;
        proof {
            assert(tw * th <= 0xffff_ffff_ffff_ffff * 0xffff_ffff_ffff_ffffu128) by (nonlinear_arith)
                requires
                    tw <= 0xffff_ffff_ffff_ffffu128,
                    th <= 0xffff_ffff_ffff_ffffu128,
            ;
        }
        tw * th <= u32::MAX as u128
    }

    /// Cuts the image into a grid of `tiles_w` by `tiles_h` tiles of one size.
    pub fn split_into_tiles(&self, tiles_w: usize, tiles_h: usize) -> (r: Vec<Tile<P>>)
        requires
            divides_evenly(self@.width, self@.height, tiles_w as nat, tiles_h as nat),
            tiles_w * tiles_h <= u32::MAX,
        ensures
            r.len() == tiles_w * tiles_h,
            forall|k: int| 0 <= k < r.len() ==> is_grid_tile(self@, tiles_w as nat, tiles_h as nat, k, #[trigger] r[k]),
    {
        proof {
            use_type_invariant(self);
            lemma_fundamental_div_mod(self.width as int, tiles_w as int);
            lemma_fundamental_div_mod(self.height as int, tiles_h as int);
        }
        let size_w = self.width / tiles_w;
        let size_h = self.height / tiles_h;
        let mut tiles: Vec<Tile<P>> = Vec::new();
        let mut u: usize = 0;
        while u < tiles_w
            invariant
                u <= tiles_w,
                tiles_w > 0,
                tiles_h > 0,
                tiles_w * tiles_h <= u32::MAX,
                size_w == self@.width / (tiles_w as nat),
                size_h == self@.height / (tiles_h as nat),
                tiles_w * size_w == self@.width,
                tiles_h * size_h == self@.height,
                self@.width <= u32::MAX,
                self@.height <= u32::MAX,
                tiles.len() == u * tiles_h,
                forall|k: int| 0 <= k < tiles.len() ==> is_grid_tile(self@, tiles_w as nat, tiles_h as nat, k, #[trigger] tiles[k]),
            decreases tiles_w - u,
        {
            let mut v: usize = 0;
            while v < tiles_h
                invariant
                    u < tiles_w,
                    v <= tiles_h,
                    tiles_w > 0,
                    tiles_h > 0,
                    tiles_w * tiles_h <= u32::MAX,
                    size_w == self@.width / (tiles_w as nat),
                    size_h == self@.height / (tiles_h as nat),
                    tiles_w * size_w == self@.width,
                    tiles_h * size_h == self@.height,
                    self@.width <= u32::MAX,
                    self@.height <= u32::MAX,
                    tiles.len() == u * tiles_h + v,
                    forall|k: int| 0 <= k < tiles.len() ==> is_grid_tile(self@, tiles_w as nat, tiles_h as nat, k, #[trigger] tiles[k]),
                decreases tiles_h - v,
            {
                proof {
                    lemma_index(tiles_h as int, tiles_w as int, v as int, u as int);
                    lemma_index(tiles_w as int, tiles_h as int, u as int, v as int);
                    assert(u * size_w + size_w <= tiles_w * size_w) by (nonlinear_arith)
                        requires
                            u < tiles_w,
                    ;
                    assert(v * size_h + size_h <= tiles_h * size_h) by (nonlinear_arith)
                        requires
                            v < tiles_h,
                    ;
                }
                let mut tile = self.get_tile((u * size_w) as u32, (v * size_h) as u32, size_w, size_h);
                tile.id = (u + v * tiles_w) as u32;
                let ghost k = tiles.len() as int;
                tiles.push(tile);
                proof {
                    assert(k / (tiles_h as int) == u && k % (tiles_h as int) == v);
                    assert(is_grid_tile(self@, tiles_w as nat, tiles_h as nat, k, tiles[k]));
                }
                v = v + 1;
            }
            proof {
                assert(u * tiles_h + tiles_h == (u + 1) * tiles_h) by (nonlinear_arith);
            }
            u = u + 1;
        }
        tiles
    }
}


impl<P: Copy> Image<P> {
    /// Copies the pixels of `tile` into the image at the tile's offset.
    pub fn set_tile(&mut self, tile: &Tile<P>)
        requires
            tile.fits_in(old(self)@),
        ensures
            final(self)@ == old(self)@.paste(*tile),
    {
        proof {
            use_type_invariant(&*self);
            use_type_invariant(&tile.image);
        }
        let ghost base = self@;
        let tw = tile.image.width();
        let th = tile.image.height();
        let mut u: u32 = 0;
        while u < tw
            invariant
                u <= tw,
                tw == tile.image@.width,
                th == tile.image@.height,
                tile.image@.wf(),
                tile.fits_in(base),
                base.wf(),
                base.width <= u32::MAX,
                base.height <= u32::MAX,
                self@.wf(),
                self@.width == base.width,
                self@.height == base.height,
                forall|x: int, y: int| #[trigger] base.contains(x, y) ==> self@.pixel(x, y) == if tile.covers(x, y) && x - tile.x < u {
                    tile.image@.pixel(x - tile.x, y - tile.y)
                } else {
                    base.pixel(x, y)
                },
            decreases tw - u,
        {
            let mut v: u32 = 0;
            while v < th
                invariant
                    u < tw,
                    v <= th,
                    tw == tile.image@.width,
                    th == tile.image@.height,
                    tile.image@.wf(),
                    tile.fits_in(base),
                    base.wf(),
                    base.width <= u32::MAX,
                    base.height <= u32::MAX,
                    self@.wf(),
                    self@.width == base.width,
                    self@.height == base.height,
                    forall|x: int, y: int| #[trigger] base.contains(x, y) ==> self@.pixel(x, y) == if tile.covers(x, y) && (x - tile.x < u || (x - tile.x == u && y - tile.y < v)) {
                        tile.image@.pixel(x - tile.x, y - tile.y)
                    } else {
                        base.pixel(x, y)
                    },
                decreases th - v,
            {
                let p = *tile.image.get_pixel(u, v);
                let ghost prev = self@;
                self.put_pixel(tile.x + u, tile.y + v, p);
                proof {
                    prev.lemma_with_pixel(tile.x + u, tile.y + v, p);
                    assert forall|x: int, y: int| #[trigger] base.contains(x, y) implies self@.pixel(x, y) == if tile.covers(x, y) && (x - tile.x < u || (x - tile.x == u && y - tile.y < v + 1)) {
                        tile.image@.pixel(x - tile.x, y - tile.y)
                    } else {
                        base.pixel(x, y)
                    } by {
                        assert(prev.contains(x, y));
                    }
                }
                v = v + 1;
            }
            u = u + 1;
        }
        proof {
            base.lemma_paste(*tile);
            assert forall|x: int, y: int| self@.contains(x, y) implies #[trigger] self@.pixel(x, y) == base.paste(*tile).pixel(x, y) by {
                assert(base.contains(x, y));
            }
            self@.lemma_ext_equal(base.paste(*tile));
        }
    }

    /// Copies every tile of `tiles` into the image, in order.
    pub fn set_tiles(&mut self, tiles: &Vec<Tile<P>>)
        requires
            forall|k: int| 0 <= k < tiles.len() ==> (#[trigger] tiles[k]).fits_in(old(self)@),
        ensures
            final(self)@ == old(self)@.paste_all(tiles@),
    {
        let ghost base = self@;
        let mut k: usize = 0;
        while k < tiles.len()
            invariant
                k <= tiles.len(),
                forall|j: int| 0 <= j < tiles.len() ==> (#[trigger] tiles[j]).fits_in(base),
                self@ == base.paste_all(tiles@.subrange(0, k as int)),
                self@.width == base.width,
                self@.height == base.height,
            decreases tiles.len() - k,
        {
            self.set_tile(&tiles[k]);
            proof {
                assert(tiles@.subrange(0, k + 1).drop_last() =~= tiles@.subrange(0, k as int));
            }
            k = k + 1;
        }
        proof {
            assert(tiles@.subrange(0, tiles.len() as int) =~= tiles@);
        }
    }
}

impl<P> Tile<P> {
    /// Where pixel `(x, y)` of the tile sits in the image it was cut from.
    pub fn tile_to_image_coordinates(&self, x: u32, y: u32) -> (r: (u32, u32))
        requires
            self.x + x <= u32::MAX,
            self.y + y <= u32::MAX,
        ensures
            r.0 == self.x + x,
            r.1 == self.y + y,
    {
        (self.x + x, self.y + y)
    }
}


impl<P> ImageView<P> {
    pub proof fn lemma_paste_all_size(self, tiles: Seq<Tile<P>>)
        requires
            self.wf(),
        ensures
            self.paste_all(tiles).wf(),
            self.paste_all(tiles).width == self.width,
            self.paste_all(tiles).height == self.height,
        decreases tiles.len(),
    {
        if tiles.len() > 0 {
            self.lemma_paste_all_size(tiles.drop_last());
            self.paste_all(tiles.drop_last()).lemma_paste(tiles.last());
        }
    }

    /// After pasting a sequence of tiles, a pixel comes from the last tile
    /// that covers it.
    pub proof fn lemma_paste_all_pixel(self, tiles: Seq<Tile<P>>, j: int, x: int, y: int)
        requires
            self.wf(),
            self.contains(x, y),
            0 <= j < tiles.len(),
            tiles[j].covers(x, y),
            forall|k: int| j < k < tiles.len() ==> !(#[trigger] tiles[k]).covers(x, y),
        ensures
            self.paste_all(tiles).pixel(x, y) == tiles[j].image@.pixel(x - tiles[j].x, y - tiles[j].y),
        decreases tiles.len(),
    {
        let rest = tiles.drop_last();
        self.lemma_paste_all_size(rest);
        self.paste_all(rest).lemma_paste(tiles.last());
        assert(self.paste_all(rest).contains(x, y));
        if j < tiles.len() - 1 {
            assert forall|k: int| j < k < rest.len() implies !(#[trigger] rest[k]).covers(x, y) by {
                assert(rest[k] == tiles[k]);
            }
            self.lemma_paste_all_pixel(rest, j, x, y);
        }
    }
}

/// Every pixel of an image lies in exactly one tile of an even grid over it,
/// so the tiles can be filled in side by side without sharing a pixel.
pub proof fn lemma_grid_tiles_partition<P>(img: ImageView<P>, tiles_w: nat, tiles_h: nat, tiles: Seq<Tile<P>>, x: int, y: int) -> (j: int)
    requires
        divides_evenly(img.width, img.height, tiles_w, tiles_h),
        tiles.len() == tiles_w * tiles_h,
        forall|k: int| 0 <= k < tiles.len() ==> is_grid_tile(img, tiles_w, tiles_h, k, #[trigger] tiles[k]),
        img.contains(x, y),
    ensures
        0 <= j < tiles.len(),
        tiles[j].covers(x, y),
        tiles[j].image@.pixel(x - tiles[j].x, y - tiles[j].y) == img.pixel(x, y),
        forall|k: int| 0 <= k < tiles.len() && k != j ==> !(#[trigger] tiles[k]).covers(x, y),
{
    let tw = tiles_w as int;
    let th = tiles_h as int;
    let sw = (img.width / tiles_w) as int;
    let sh = (img.height / tiles_h) as int;
    lemma_fundamental_div_mod(img.width as int, tw);
    lemma_fundamental_div_mod(img.height as int, th);
    assert(sw > 0 && sh > 0) by (nonlinear_arith)
        requires
            0 <= x < tw * sw,
            0 <= y < th * sh,
            tw > 0,
            th > 0,
    ;
    let u = x / sw;
    let v = y / sh;
    lemma_fundamental_div_mod(x, sw);
    lemma_fundamental_div_mod(y, sh);
    assert(0 <= u < tw) by (nonlinear_arith)
        requires
            x == sw * u + x % sw,
            0 <= x % sw < sw,
            0 <= x < tw * sw,
    ;
    assert(0 <= v < th) by (nonlinear_arith)
        requires
            y == sh * v + y % sh,
            0 <= y % sh < sh,
            0 <= y < th * sh,
    ;
    let j = u * th + v;
    lemma_index(th, tw, v, u);
    assert(is_grid_tile(img, tiles_w, tiles_h, j, tiles[j]));
    assert(u * sw == sw * u) by (nonlinear_arith);
    assert(v * sh == sh * v) by (nonlinear_arith);
    assert forall|k: int| 0 <= k < tiles.len() && k != j implies !(#[trigger] tiles[k]).covers(x, y) by {
        if tiles[k].covers(x, y) {
            assert(is_grid_tile(img, tiles_w, tiles_h, k, tiles[k]));
            let uk = k / th;
            let vk = k % th;
            lemma_fundamental_div_mod(k, th);
            lemma_fundamental_div_mod_converse(x, sw, uk, x - uk * sw);
            lemma_fundamental_div_mod_converse(y, sh, vk, y - vk * sh);
            assert(uk * th == th * uk) by (nonlinear_arith);
        }
    }
    img.lemma_block(u * sw, v * sh, sw as nat, sh as nat);
    assert(img.block(u * sw, v * sh, sw as nat, sh as nat).contains(x - u * sw, y - v * sh));
    j
}

/// The tiles of an even grid carry distinct ids, each below the number of
/// tiles.
pub proof fn lemma_grid_tile_ids_distinct<P>(img: ImageView<P>, tiles_w: nat, tiles_h: nat, tiles: Seq<Tile<P>>)
    requires
        divides_evenly(img.width, img.height, tiles_w, tiles_h),
        tiles.len() == tiles_w * tiles_h,
        forall|k: int| 0 <= k < tiles.len() ==> is_grid_tile(img, tiles_w, tiles_h, k, #[trigger] tiles[k]),
    ensures
        forall|k: int| 0 <= k < tiles.len() ==> (#[trigger] tiles[k]).id < tiles.len(),
        forall|a: int, b: int| 0 <= a < tiles.len() && 0 <= b < tiles.len() && a != b ==> (#[trigger] tiles[a]).id != (#[trigger] tiles[b]).id,
{
    let tw = tiles_w as int;
    let th = tiles_h as int;
    assert forall|k: int| 0 <= k < tiles.len() implies (#[trigger] tiles[k]).id < tiles.len()
        && (tiles[k].id as int) % tw == k / th && (tiles[k].id as int) / tw == k % th by {
        assert(is_grid_tile(img, tiles_w, tiles_h, k, tiles[k]));
        lemma_split_index(th, tw, k);
        lemma_index(tw, th, k / th, k % th);
        assert(th * tw == tw * th) by (nonlinear_arith);
    }
    assert forall|a: int, b: int| 0 <= a < tiles.len() && 0 <= b < tiles.len() && a != b implies (#[trigger] tiles[a]).id != (#[trigger] tiles[b]).id by {
        lemma_split_index(th, tw, a);
        lemma_split_index(th, tw, b);
    }
}

/// Cutting an image into an even grid of tiles and copying every tile back,
/// onto the image itself or onto any other image of the same size, gives back
/// the original image pixel for pixel.
pub proof fn lemma_tiling_round_trip<P>(
    img: ImageView<P>,
    base: ImageView<P>,
    tiles_w: nat,
    tiles_h: nat,
    tiles: Seq<Tile<P>>,
)
    requires
        img.wf(),
        base.wf(),
        base.width == img.width,
        base.height == img.height,
        divides_evenly(img.width, img.height, tiles_w, tiles_h),
        tiles.len() == tiles_w * tiles_h,
        forall|k: int| 0 <= k < tiles.len() ==> is_grid_tile(img, tiles_w, tiles_h, k, #[trigger] tiles[k]),
    ensures
        base.paste_all(tiles) == img,
{
    base.lemma_paste_all_size(tiles);
    let out = base.paste_all(tiles);
    assert forall|x: int, y: int| out.contains(x, y) implies #[trigger] out.pixel(x, y) == img.pixel(x, y) by {
        let j = lemma_grid_tiles_partition(img, tiles_w, tiles_h, tiles, x, y);
        base.lemma_paste_all_pixel(tiles, j, x, y);
    }
    out.lemma_ext_equal(img);
}

} // verus!

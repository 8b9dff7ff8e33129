use vstd::prelude::*;
use crate::color::{Color, white};

verus! {

/// Largest number of texels that one image may hold.
pub const MAX_TEXELS: u32 = 0x0100_0000;

/// A decoded image: `colors[y * width + x]` is the texel at `(x, y)`.
pub struct TextureImage {
    pub width: u32,
    pub height: u32,
    pub colors: Vec<Color>,
}

/// An image under the key that renderers ask for it by.
pub struct TextureEntry {
    pub key: char,
    pub image: TextureImage,
}

/// Images by key; a lookup takes the first entry with the key.
pub struct TextureManager {
    pub images: Vec<TextureEntry>,
}

impl TextureImage {
    pub open spec fn wf(&self) -> bool {
        &&& 1 <= self.width
        &&& 1 <= self.height
        &&& self.width * self.height <= MAX_TEXELS
        &&& self.colors@.len() == self.width * self.height
    }

    /// The texel at `(tx, ty)`, coordinates clamped to the image.
    pub open spec fn texel(&self, tx: int, ty: int) -> Color {
        let x = if tx < self.width { tx } else { self.width - 1 };
        let y = if ty < self.height { ty } else { self.height - 1 };
        self.colors@[y * self.width + x]
    }

    /// An image of the given size, or `None` where the size is zero, too large, or does
    /// not match the number of colours.
    pub fn new(width: u32, height: u32, colors: Vec<Color>) -> (r: Option<TextureImage>)
        ensures
            r is Some <==> (TextureImage { width, height, colors }).wf(),
            r matches Some(img) ==> img.width == width && img.height == height && img.colors@
                == colors@,
    {
        if width == 0 || height == 0 || width > MAX_TEXELS || height > MAX_TEXELS {
            proof {
                if width > MAX_TEXELS && height >= 1 {
                    assert(width * height >= width) by (nonlinear_arith)
                        requires
                            height >= 1,
                    {
                    }
                }
                if height > MAX_TEXELS && width >= 1 {
                    assert(width * height >= height) by (nonlinear_arith)
                        requires
                            width >= 1,
                    {
                    }
                }
            }
            return None;
        }
        assert(width * height <= 0x1_0000_0000_0000) by (nonlinear_arith)
            requires
                width <= 0x0100_0000,
                height <= 0x0100_0000,
        {
        }
        if width as u64 * height as u64 > MAX_TEXELS as u64 {
            return None;
        }
        if colors.len() as u64 != width as u64 * height as u64 {
            return None;
        }
        Some(TextureImage { width, height, colors })
    }

    pub fn get(&self, tx: u32, ty: u32) -> (c: Color)
        requires
            self.wf(),
        ensures
            c == self.texel(tx as int, ty as int),
    {
        let x = if tx < self.width { tx } else { self.width - 1 };
        let y = if ty < self.height { ty } else { self.height - 1 };
        proof {
            assert(y * self.width + x < self.width * self.height) by (nonlinear_arith)
                requires
                    y < self.height,
                    x < self.width,
            {
            }
        }
        self.colors[(y as usize) * (self.width as usize) + x as usize]
    }
}

/// `i` is the first index in `s` whose key is `ch`.
pub open spec fn first_with_key(s: Seq<TextureEntry>, ch: char, i: int) -> bool {
    &&& 0 <= i < s.len()
    &&& s[i].key == ch
    &&& forall|j: int| 0 <= j < i ==> (#[trigger] s[j]).key != ch
}

proof fn lemma_first_unique(s: Seq<TextureEntry>, ch: char, i: int, j: int)
    requires
        first_with_key(s, ch, i),
        first_with_key(s, ch, j),
    ensures
        i == j,
{
    if i < j {
        assert(s[i].key != ch);
    }
    if j < i {
        assert(s[j].key != ch);
    }
}

proof fn lemma_first_transfer(s1: Seq<TextureEntry>, s2: Seq<TextureEntry>, ch: char, k: int)
    requires
        first_with_key(s1, ch, k),
        k < s2.len(),
        forall|j: int| 0 <= j <= k ==> (#[trigger] s1[j]).key == s2[j].key,
    ensures
        first_with_key(s2, ch, k),
{
    assert forall|j: int| 0 <= j < k implies (#[trigger] s2[j]).key != ch by {
        assert(s1[j].key == s2[j].key);
    }
}

impl TextureManager {
    pub open spec fn wf(&self) -> bool {
        forall|i: int| 0 <= i < self.images@.len() ==> (#[trigger] self.images@[i]).image.wf()
    }

    pub open spec fn has(&self, ch: char) -> bool {
        exists|i: int| first_with_key(self.images@, ch, i)
    }

    /// The image under a key (meaningful where `has(ch)`).
    pub open spec fn image_of(&self, ch: char) -> TextureImage {
        self.images@[choose|i: int| first_with_key(self.images@, ch, i)].image
    }

    /// The texel that a lookup gives: white where no image has the key.
    pub open spec fn sample(&self, ch: char, tx: int, ty: int) -> Color {
        if self.has(ch) {
            self.image_of(ch).texel(tx, ty)
        } else {
            white()
        }
    }

    /// Width and height of the image under a key; one by one where there is none (every
    /// lookup then gives white, whatever the coordinates).
    pub open spec fn dims(&self, ch: char) -> (int, int) {
        if self.has(ch) {
            (self.image_of(ch).width as int, self.image_of(ch).height as int)
        } else {
            (1, 1)
        }
    }

    pub fn texture_size(&self, ch: char) -> (r: (u32, u32))
        requires
            self.wf(),
        ensures
            (r.0 as int, r.1 as int) == self.dims(ch),
            1 <= r.0 <= MAX_TEXELS,
            1 <= r.1 <= MAX_TEXELS,
    {
        match self.get_texture(ch) {
            Some(img) => {
                proof {
                    assert(img.width * img.height >= img.width) by (nonlinear_arith)
                        requires
                            img.height >= 1,
                    {
                    }
                    assert(img.width * img.height >= img.height) by (nonlinear_arith)
                        requires
                            img.width >= 1,
                    {
                    }
                }
                (img.width, img.height)
            },
            None => (1, 1),
        }
    }

    pub fn new() -> (r: TextureManager)
        ensures
            r.wf(),
            r.images@.len() == 0,
    {
        TextureManager { images: Vec::new() }
    }

    fn find(&self, ch: char) -> (r: Option<usize>)
        ensures
            r matches Some(i) ==> first_with_key(self.images@, ch, i as int),
            r is None ==> !self.has(ch),
            r is None ==> forall|j: int| 0 <= j < self.images@.len() ==> (#[trigger] self.images@[j]).key != ch,
    {
        let mut i: usize = 0;
        while i < self.images.len()
            invariant
                0 <= i <= self.images@.len(),
                forall|j: int| 0 <= j < i ==> (#[trigger] self.images@[j]).key != ch,
            decreases self.images.len() - i,
        {
            if self.images[i].key == ch {
                return Some(i);
            }
            i = i + 1;
        }
        None
    }

    /// Stores an image under a key, in place of any image already there.
    pub fn insert(&mut self, key: char, image: TextureImage)
        requires
            old(self).wf(),
            image.wf(),
        ensures
            final(self).wf(),
            final(self).has(key),
            final(self).image_of(key) == image,
            forall|ch: char| ch != key ==> (#[trigger] final(self).has(ch)) == old(self).has(ch),
            forall|ch: char|
                ch != key && old(self).has(ch) ==> #[trigger] final(self).image_of(ch) == old(
                    self,
                ).image_of(ch),
    {
        let found = self.find(key);
        match found {
            Some(i) => {
                self.images.set(i, TextureEntry { key, image });
                proof {
                    assert forall|j: int| 0 <= j < self.images@.len() implies (#[trigger] self.images@[j]).key
                        == old(self).images@[j].key by {
                    }
                    assert(first_with_key(self.images@, key, i as int));
                    assert forall|ch: char|
                        #![trigger self.has(ch)]
                        #![trigger self.image_of(ch)]
                        ch != key implies self.has(ch) == old(self).has(ch)
                        && (old(self).has(ch) ==> self.image_of(ch) == old(self).image_of(ch)) by {
                        if old(self).has(ch) {
                            let j = choose|j: int| first_with_key(old(self).images@, ch, j);
                            lemma_first_transfer(old(self).images@, self.images@, ch, j);
                            let k = choose|k: int| first_with_key(self.images@, ch, k);
                            lemma_first_unique(self.images@, ch, j, k);
                            assert(j != i);
                            assert(self.images@[j] == old(self).images@[j]);
                        }
                        if self.has(ch) {
                            let k = choose|k: int| first_with_key(self.images@, ch, k);
                            lemma_first_transfer(self.images@, old(self).images@, ch, k);
                        }
                    }
                    let k = choose|k: int| first_with_key(self.images@, key, k);
                    lemma_first_unique(self.images@, key, i as int, k);
                }
            },
            None => {
                self.images.push(TextureEntry { key, image });
                proof {
                    let n = old(self).images@.len() as int;
                    assert forall|j: int| 0 <= j < n implies #[trigger] self.images@[j] == old(
                        self,
                    ).images@[j] by {
                    }
                    assert(first_with_key(self.images@, key, n));
                    let k = choose|k: int| first_with_key(self.images@, key, k);
                    lemma_first_unique(self.images@, key, n, k);
                    assert forall|ch: char|
                        #![trigger self.has(ch)]
                        #![trigger self.image_of(ch)]
                        ch != key implies self.has(ch) == old(self).has(ch)
                        && (old(self).has(ch) ==> self.image_of(ch) == old(self).image_of(ch)) by {
                        if old(self).has(ch) {
                            let j = choose|j: int| first_with_key(old(self).images@, ch, j);
                            lemma_first_transfer(old(self).images@, self.images@, ch, j);
                            let k = choose|k: int| first_with_key(self.images@, ch, k);
                            lemma_first_unique(self.images@, ch, j, k);
                        }
                        if self.has(ch) {
                            let k = choose|k: int| first_with_key(self.images@, ch, k);
                            lemma_first_transfer(self.images@, old(self).images@, ch, k);
                        }
                    }
                }
            },
        }
    }

    /// The image under a key, if any.
    pub fn get_texture(&self, ch: char) -> (r: Option<&TextureImage>)
        requires
            self.wf(),
        ensures
            r is Some <==> self.has(ch),
            r matches Some(img) ==> *img == self.image_of(ch) && img.wf(),
    {
        match self.find(ch) {
            Some(i) => {
                proof {
                    let k = choose|k: int| first_with_key(self.images@, ch, k);
                    lemma_first_unique(self.images@, ch, i as int, k);
                }
                Some(&self.images[i].image)
            },
            None => None,
        }
    }

    /// The texel at `(tx, ty)` of the image under `ch`, coordinates clamped to the
    /// image; white where no image has the key.
    pub fn get_pixel_color(&self, ch: char, tx: u32, ty: u32) -> (c: Color)
        requires
            self.wf(),
        ensures
            c == self.sample(ch, tx as int, ty as int),
    {
        match self.get_texture(ch) {
            Some(img) => img.get(tx, ty),
            None => Color::white(),
        }
    }
}

} // verus!

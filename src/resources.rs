use vstd::prelude::*;
use crate::ident::Ident;

verus! {

/// Pixel layout of an image.
#[allow(non_camel_case_types)]
#[derive(Clone, Copy, Debug, PartialEq, Eq, Structural)]
pub enum l2d_image_format {
    l2d_IMAGE_FORMAT_RGBA_8888,
    l2d_IMAGE_FORMAT_RGB_888,
    l2d_IMAGE_FORMAT_RGB_565,
    l2d_IMAGE_FORMAT_A_8,
}

pub open spec fn bpp(format: l2d_image_format) -> nat {
    match format {
        l2d_image_format::l2d_IMAGE_FORMAT_RGBA_8888 => 4,
        l2d_image_format::l2d_IMAGE_FORMAT_RGB_888 => 3,
        l2d_image_format::l2d_IMAGE_FORMAT_RGB_565 => 2,
        l2d_image_format::l2d_IMAGE_FORMAT_A_8 => 1,
    }
}

/// Bytes per pixel of a format.
pub fn bytes_per_pixel(format: l2d_image_format) -> (r: u32)
    ensures
        r == bpp(format),
{
    match format {
        l2d_image_format::l2d_IMAGE_FORMAT_RGBA_8888 => 4,
        l2d_image_format::l2d_IMAGE_FORMAT_RGB_888 => 3,
        l2d_image_format::l2d_IMAGE_FORMAT_RGB_565 => 2,
        l2d_image_format::l2d_IMAGE_FORMAT_A_8 => 1,
    }
}

#[derive(Clone, Copy, Debug, PartialEq, Eq, Structural)]
pub enum ResourceError {
    /// No image data was registered under the name.
    ResourceNotFound,
    /// The pixel data does not match the stated size and format.
    DecodeFailure,
    /// The handle names no image of this cache.
    InvalidHandle,
}

/// Index of a cached image.
#[derive(Clone, Copy, Debug, PartialEq, Eq, Structural)]
pub struct ImageHandle(pub usize);

/// What is known of a cached image or of registered image data.
#[derive(Clone, Copy, Debug, PartialEq, Eq, Structural)]
pub struct ImageInfo {
    pub key: Ident,
    pub flags: u32,
    pub width: u32,
    pub height: u32,
    pub format: l2d_image_format,
}

struct Source {
    info: ImageInfo,
    data: Vec<u8>,
}

struct Slot {
    info: ImageInfo,
    refs: u64,
    data: Vec<u8>,
}

/// Image cache: raw image data registered by name, and decoded images
/// shared by reference count, one per name and load flags. An image whose
/// count drops to zero keeps its pixels until the cache itself is dropped.
pub struct Resources {
    sources: Vec<Source>,
    slots: Vec<Slot>,
}

pub open spec fn image_len(i: ImageInfo) -> nat {
    i.width as nat * i.height as nat * bpp(i.format)
}

impl Resources {
    /// Registered image data, by name (the `flags` field is unused).
    pub closed spec fn sources(&self) -> Seq<ImageInfo> {
        self.sources@.map_values(|s: Source| s.info)
    }

    /// Cached images.
    pub closed spec fn images(&self) -> Seq<ImageInfo> {
        self.slots@.map_values(|s: Slot| s.info)
    }

    /// Reference count of each cached image.
    pub closed spec fn refs(&self) -> Seq<u64> {
        self.slots@.map_values(|s: Slot| s.refs)
    }

    /// One source per name, one image per name and flags; every image holds
    /// the pixels its size and format call for.
    pub closed spec fn wf(&self) -> bool {
        &&& self.slots@.len() == self.refs().len()
        &&& forall|i: int, j: int| 0 <= i < j < self.sources@.len()
            ==> self.sources@[i].info.key != self.sources@[j].info.key
        &&& forall|i: int, j: int| 0 <= i < j < self.slots@.len()
            ==> !(self.slots@[i].info.key == self.slots@[j].info.key
                && self.slots@[i].info.flags == self.slots@[j].info.flags)
        &&& forall|i: int| 0 <= i < self.sources@.len()
            ==> self.sources@[i].data@.len() == image_len(#[trigger] self.sources@[i].info)
        &&& forall|i: int| 0 <= i < self.slots@.len()
            ==> #[trigger] self.slots@[i].data@.len() == image_len(self.slots@[i].info)
    }

    /// An empty cache with no registered data.
    pub fn init_default() -> (r: Resources)
        ensures
            r.wf(),
            r.sources().len() == 0,
            r.images().len() == 0,
    {
        Resources { sources: Vec::new(), slots: Vec::new() }
    }

    pub open spec fn has_source(&self, key: Ident) -> bool {
        exists|i: int| 0 <= i < self.sources().len() && #[trigger] self.sources()[i].key == key
    }

    pub open spec fn has_image(&self, key: Ident, flags: u32) -> bool {
        exists|i: int| 0 <= i < self.images().len() && #[trigger] self.images()[i].key == key
            && self.images()[i].flags == flags
    }

    fn find_source(&self, key: Ident) -> (r: Option<usize>)
        ensures
            r.is_none() == !self.has_source(key),
            r.is_some() ==> r.unwrap() < self.sources().len() && self.sources()[r.unwrap() as int].key == key,
    {
        let mut i: usize = 0;
        while i < self.sources.len()
            invariant
                i <= self.sources@.len(),
                forall|j: int| 0 <= j < i ==> self.sources()[j].key != key,
            decreases self.sources@.len() - i,
        {
            if self.sources[i].info.key == key {
                return Some(i);
            }
            i = i + 1;
        }
        None
    }

    fn find_image(&self, key: Ident, flags: u32) -> (r: Option<usize>)
        ensures
            r.is_none() == !self.has_image(key, flags),
            r.is_some() ==> r.unwrap() < self.images().len()
                && self.images()[r.unwrap() as int].key == key
                && self.images()[r.unwrap() as int].flags == flags,
    {
        let mut i: usize = 0;
        while i < self.slots.len()
            invariant
                i <= self.slots@.len(),
                forall|j: int| 0 <= j < i ==> !(self.images()[j].key == key && self.images()[j].flags == flags),
            decreases self.slots@.len() - i,
        {
            if self.slots[i].info.key == key && self.slots[i].info.flags == flags {
                return Some(i);
            }
            i = i + 1;
        }
        None
    }
    /// Registered data for a name.
    pub open spec fn source_info(&self, key: Ident) -> ImageInfo {
        self.sources()[choose|i: int| 0 <= i < self.sources().len() && #[trigger] self.sources()[i].key == key]
    }

    /// Registers pixel data under `key`, replacing earlier data of that name.
    /// Fails with `DecodeFailure` when the data does not hold exactly
    /// `width * height` pixels of `format`.
    pub fn set_image_data(
        &mut self,
        key: Ident,
        width: u32,
        height: u32,
        format: l2d_image_format,
        data: Vec<u8>,
    ) -> (r: Result<(), ResourceError>)
        requires
            old(self).wf(),
        ensures
            final(self).wf(),
            final(self).images() == old(self).images(),
            final(self).refs() == old(self).refs(),
            r.is_ok() == (data@.len() == image_len(ImageInfo { key, flags: 0, width, height, format })),
            r.is_err() ==> r == Err::<(), ResourceError>(ResourceError::DecodeFailure)
                && final(self).sources() == old(self).sources(),
            r.is_ok() ==> final(self).has_source(key)
                && final(self).source_info(key) == (ImageInfo { key, flags: 0, width, height, format })
                && forall|k: Ident| k != key ==> (#[trigger] final(self).has_source(k) == old(self).has_source(k)),
    {
        let info = ImageInfo { key, flags: 0, width, height, format };
        let b: u32 = bytes_per_pixel(format);
        proof {
            assert(width as nat * height as nat <= 0xffff_ffff_ffff_ffff) by (nonlinear_arith)
                requires width <= 0xffff_ffff, height <= 0xffff_ffff;
        }
        let wh: u128 = width as u128 * height as u128;
        proof {
            assert(wh <= 0xffff_ffff_ffff_ffff) by (nonlinear_arith)
                requires wh == width as nat * height as nat, width <= 0xffff_ffff, height <= 0xffff_ffff;
            assert(wh * b <= 4 * 0xffff_ffff_ffff_ffff) by (nonlinear_arith)
                requires wh <= 0xffff_ffff_ffff_ffff, b <= 4;
        }
        let need: u128 = wh * b as u128;
        if data.len() as u128 != need {
            return Err(ResourceError::DecodeFailure);
        }
        let ghost old_self = *self;
        match self.find_source(key) {
            Some(i) => {
                self.sources.set(i, Source { info, data });
                proof {
                    assert(self.sources() == old_self.sources().update(i as int, info));
                    assert forall|a: int, c: int| 0 <= a < c < self.sources@.len()
                        implies self.sources@[a].info.key != self.sources@[c].info.key by {
                        assert(self.sources@[a].info.key == old_self.sources@[a].info.key);
                        assert(self.sources@[c].info.key == old_self.sources@[c].info.key);
                    }
                    assert(self.sources()[i as int].key == key);
                    let c = choose|j: int| 0 <= j < self.sources().len() && #[trigger] self.sources()[j].key == key;
                    assert(c == i);
                    assert forall|k: Ident| k != key implies #[trigger] self.has_source(k) == old_self.has_source(k) by {
                        if old_self.has_source(k) {
                            let j = choose|j: int| 0 <= j < old_self.sources().len() && #[trigger] old_self.sources()[j].key == k;
                            assert(self.sources()[j].key == k);
                        }
                        if self.has_source(k) {
                            let j = choose|j: int| 0 <= j < self.sources().len() && #[trigger] self.sources()[j].key == k;
                            assert(old_self.sources()[j].key == k);
                        }
                    }
                }
            },
            None => {
                self.sources.push(Source { info, data });
                proof {
                    let n = old_self.sources().len() as int;
                    assert(self.sources() == old_self.sources().push(info));
                    assert forall|a: int, c: int| 0 <= a < c < self.sources@.len()
                        implies self.sources@[a].info.key != self.sources@[c].info.key by {
                        if c == n {
                            assert(old_self.sources()[a].key != key);
                        }
                    }
                    assert(self.sources()[n].key == key);
                    let c = choose|j: int| 0 <= j < self.sources().len() && #[trigger] self.sources()[j].key == key;
                    assert(c == n);
                    assert forall|k: Ident| k != key implies #[trigger] self.has_source(k) == old_self.has_source(k) by {
                        if old_self.has_source(k) {
                            let j = choose|j: int| 0 <= j < old_self.sources().len() && #[trigger] old_self.sources()[j].key == k;
                            assert(self.sources()[j].key == k);
                        }
                        if self.has_source(k) {
                            let j = choose|j: int| 0 <= j < self.sources().len() && #[trigger] self.sources()[j].key == k;
                            assert(old_self.sources()[j].key == k);
                        }
                    }
                }
            },
        }
        proof {
            assert(self.images() =~= old_self.images());
            assert(self.refs() =~= old_self.refs());
        }
        Ok(())
    }
    /// Index of the cached image of a name and flags.
    pub open spec fn image_index(&self, key: Ident, flags: u32) -> int {
        choose|i: int| 0 <= i < self.images().len() && #[trigger] self.images()[i].key == key
            && self.images()[i].flags == flags
    }

    /// Loads an image: a cached one for the same name and flags gains a
    /// reference; otherwise the registered data of that name becomes a new
    /// cached image with one reference. Fails with `ResourceNotFound` when
    /// neither exists, and then changes nothing.
    pub fn load_image(&mut self, key: Ident, flags: u32) -> (r: Result<ImageHandle, ResourceError>)
        requires
            old(self).wf(),
        ensures
            final(self).wf(),
            r == load_result(*old(self), key, flags),
            load_effect(*old(self), *final(self), key, flags),
            final(self).sources() == old(self).sources(),
            old(self).has_image(key, flags) ==> {
                let i = old(self).image_index(key, flags);
                &&& r == Ok::<ImageHandle, ResourceError>(ImageHandle(i as usize))
                &&& final(self).images() == old(self).images()
                &&& final(self).refs() == old(self).refs().update(i,
                    if old(self).refs()[i] == u64::MAX { u64::MAX } else { (old(self).refs()[i] + 1) as u64 })
            },
            !old(self).has_image(key, flags) && old(self).has_source(key) ==> {
                &&& r == Ok::<ImageHandle, ResourceError>(ImageHandle(old(self).images().len() as usize))
                &&& final(self).images() == old(self).images().push(ImageInfo { flags, ..old(self).source_info(key) })
                &&& final(self).refs() == old(self).refs().push(1)
            },
            !old(self).has_image(key, flags) && !old(self).has_source(key) ==> {
                &&& r == Err::<ImageHandle, ResourceError>(ResourceError::ResourceNotFound)
                &&& final(self).images() == old(self).images()
                &&& final(self).refs() == old(self).refs()
            },
    {
        let ghost old_self = *self;
        match self.find_image(key, flags) {
            Some(i) => {
                proof {
                    let c = old_self.image_index(key, flags);
                    if c != i as int {
                        assert(old_self.slots@[c].info.key == old_self.slots@[i as int].info.key);
                        if c < i as int {
                            assert(!(old_self.slots@[c].info.key == old_self.slots@[i as int].info.key
                                && old_self.slots@[c].info.flags == old_self.slots@[i as int].info.flags));
                        } else {
                            assert(!(old_self.slots@[i as int].info.key == old_self.slots@[c].info.key
                                && old_self.slots@[i as int].info.flags == old_self.slots@[c].info.flags));
                        }
                    }
                }
                let refs = self.slots[i].refs;
                let n: u64 = if refs == u64::MAX { u64::MAX } else { refs + 1 };
                let mut slot = self.slots.remove(i);
                slot.refs = n;
                self.slots.insert(i, slot);
                proof {
                    assert(self.slots@ == old_self.slots@.update(i as int, slot));
                    assert(self.images() =~= old_self.images());
                    assert(self.refs() =~= old_self.refs().update(i as int, n));
                    assert(self.sources() =~= old_self.sources());
                    assert forall|a: int, b: int| 0 <= a < b < self.slots@.len()
                        implies !(self.slots@[a].info.key == self.slots@[b].info.key
                            && self.slots@[a].info.flags == self.slots@[b].info.flags) by {
                        assert(self.slots@[a].info == old_self.slots@[a].info);
                        assert(self.slots@[b].info == old_self.slots@[b].info);
                    }
                    assert forall|a: int| 0 <= a < self.slots@.len()
                        implies #[trigger] self.slots@[a].data@.len() == image_len(self.slots@[a].info) by {
                        assert(old_self.slots@[a].data@.len() == image_len(old_self.slots@[a].info));
                        if a != i as int {
                            assert(self.slots@[a] == old_self.slots@[a]);
                        } else {
                            assert(self.slots@[a].data == old_self.slots@[a].data);
                        }
                    }
                }
                Ok(ImageHandle(i))
            },
            None => {
                match self.find_source(key) {
                    Some(j) => {
                        proof {
                            let c = choose|c: int| 0 <= c < self.sources().len() && #[trigger] self.sources()[c].key == key;
                            if c != j as int {
                                if c < j as int {
                                    assert(self.sources@[c].info.key != self.sources@[j as int].info.key);
                                } else {
                                    assert(self.sources@[j as int].info.key != self.sources@[c].info.key);
                                }
                            }
                        }
                        let src = &self.sources[j];
                        let info = ImageInfo { flags, ..src.info };
                        let data = src.data.clone();
                        let n = self.slots.len();
                        self.slots.push(Slot { info, refs: 1, data });
                        proof {
                            assert(self.images() =~= old_self.images().push(info));
                            assert(self.refs() =~= old_self.refs().push(1));
                            assert(self.sources() =~= old_self.sources());
                            assert forall|a: int, b: int| 0 <= a < b < self.slots@.len()
                                implies !(self.slots@[a].info.key == self.slots@[b].info.key
                                    && self.slots@[a].info.flags == self.slots@[b].info.flags) by {
                                if b == n as int {
                                    assert(!(old_self.images()[a].key == key && old_self.images()[a].flags == flags));
                                } else {
                                    assert(self.slots@[a] == old_self.slots@[a]);
                                    assert(self.slots@[b] == old_self.slots@[b]);
                                }
                            }
                            assert forall|a: int| 0 <= a < self.slots@.len()
                                implies #[trigger] self.slots@[a].data@.len() == image_len(self.slots@[a].info) by {
                                if a < n as int {
                                    assert(old_self.slots@[a].data@.len() == image_len(old_self.slots@[a].info));
                                    assert(self.slots@[a] == old_self.slots@[a]);
                                } else {
                                    assert(old_self.sources@[j as int].data@.len() == image_len(old_self.sources@[j as int].info));
                                }
                            }
                        }
                        Ok(ImageHandle(n))
                    },
                    None => Err(ResourceError::ResourceNotFound),
                }
            },
        }
    }

    /// Drops one reference to a cached image.
    /// Fails with `InvalidHandle` for a handle of no image, or of one that
    /// holds no reference.
    pub fn image_release(&mut self, image: ImageHandle) -> (r: Result<(), ResourceError>)
        requires
            old(self).wf(),
        ensures
            final(self).wf(),
            final(self).sources() == old(self).sources(),
            final(self).images() == old(self).images(),
            r.is_ok() == (image.0 < old(self).refs().len() && old(self).refs()[image.0 as int] > 0),
            r.is_ok() ==> final(self).refs() == old(self).refs().update(image.0 as int,
                (old(self).refs()[image.0 as int] - 1) as u64),
            r.is_err() ==> r == Err::<(), ResourceError>(ResourceError::InvalidHandle)
                && final(self).refs() == old(self).refs(),
            final(self).refs() == release_refs(old(self).refs(), image),
    {
        let i = image.0;
        if i >= self.slots.len() || self.slots[i].refs == 0 {
            return Err(ResourceError::InvalidHandle);
        }
        let ghost old_self = *self;
        let mut slot = self.slots.remove(i);
        slot.refs = slot.refs - 1;
        self.slots.insert(i, slot);
        proof {
            assert(self.slots@ == old_self.slots@.update(i as int, slot));
            assert(self.images() =~= old_self.images());
            assert(self.refs() =~= old_self.refs().update(i as int, slot.refs));
            assert(self.sources() =~= old_self.sources());
            assert forall|a: int| 0 <= a < self.slots@.len()
                implies #[trigger] self.slots@[a].data@.len() == image_len(self.slots@[a].info) by {
                assert(old_self.slots@[a].data@.len() == image_len(old_self.slots@[a].info));
                assert(self.slots@[a].data == old_self.slots@[a].data);
            }
            assert forall|a: int, b: int| 0 <= a < b < self.slots@.len()
                implies !(self.slots@[a].info.key == self.slots@[b].info.key
                    && self.slots@[a].info.flags == self.slots@[b].info.flags) by {
                assert(self.slots@[a].info == old_self.slots@[a].info);
                assert(self.slots@[b].info == old_self.slots@[b].info);
            }
        }
        Ok(())
    }

    /// Reference count of a cached image.
    pub fn image_refs(&self, image: ImageHandle) -> (r: Option<u64>)
        ensures
            r == (if image.0 < self.refs().len() {
                Some(self.refs()[image.0 as int])
            } else {
                None
            }),
    {
        if image.0 < self.slots.len() {
            Some(self.slots[image.0].refs)
        } else {
            None
        }
    }

    /// What is known of a cached image.
    pub fn image_info(&self, image: ImageHandle) -> (r: Option<ImageInfo>)
        ensures
            r == (if image.0 < self.images().len() {
                Some(self.images()[image.0 as int])
            } else {
                None
            }),
    {
        if image.0 < self.slots.len() {
            Some(self.slots[image.0].info)
        } else {
            None
        }
    }
}

/// What `load_image` returns on a cache in state `o`.
pub open spec fn load_result(o: Resources, key: Ident, flags: u32) -> Result<ImageHandle, ResourceError> {
    if o.has_image(key, flags) {
        Ok(ImageHandle(o.image_index(key, flags) as usize))
    } else if o.has_source(key) {
        Ok(ImageHandle(o.images().len() as usize))
    } else {
        Err(ResourceError::ResourceNotFound)
    }
}

/// `n` is the cache `o` after loading the image of `key` and `flags`: the
/// cached image gains a reference, or the registered data becomes a new
/// cached image with one reference, or nothing changes when neither exists.
pub open spec fn load_effect(o: Resources, n: Resources, key: Ident, flags: u32) -> bool {
    &&& n.wf()
    &&& n.sources() == o.sources()
    &&& if o.has_image(key, flags) {
        let i = o.image_index(key, flags);
        &&& n.images() == o.images()
        &&& n.refs() == o.refs().update(i, if o.refs()[i] == u64::MAX { u64::MAX } else { (o.refs()[i] + 1) as u64 })
    } else if o.has_source(key) {
        &&& n.images() == o.images().push(ImageInfo { flags, ..o.source_info(key) })
        &&& n.refs() == o.refs().push(1)
    } else {
        &&& n.images() == o.images()
        &&& n.refs() == o.refs()
    }
}

/// Reference counts after releasing one handle; a handle of no image, or of
/// one without references, changes nothing.
pub open spec fn release_refs(refs: Seq<u64>, h: ImageHandle) -> Seq<u64> {
    if h.0 < refs.len() && refs[h.0 as int] > 0 {
        refs.update(h.0 as int, (refs[h.0 as int] - 1) as u64)
    } else {
        refs
    }
}

/// Reference counts after releasing each handle in turn.
pub open spec fn release_all(refs: Seq<u64>, hs: Seq<ImageHandle>) -> Seq<u64>
    decreases hs.len(),
{
    if hs.len() == 0 {
        refs
    } else {
        release_refs(release_all(refs, hs.drop_last()), hs.last())
    }
}

} // verus!

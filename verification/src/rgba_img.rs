//! Decoded RGBA images: the shared thumbnail buffer, decoding through the
//! `image` crate behind trusted wrappers, the bounded downsampling step,
//! and the zip-packed animation frame sequence.
use vstd::prelude::*;
use std::sync::Arc;
use crate::strings::{
    strStripPrefix,
    strStripSuffix,
    parseI32,
    u64ToString,
    hasPrefix,
    hasSuffix,
    parsedInt,
};

verus! {

/// Mathematical value of an [`RgbImg`]: the raw RGBA bytes, the dimensions,
/// and whether the image is one of the shared placeholder icons.
pub ghost struct RgbImgV {
    pub pixels: Seq<u8>,
    pub width: u32,
    pub height: u32,
    pub isDefault: bool,
}

impl RgbImgV {
    /// The pixel buffer holds exactly `width * height` four-byte RGBA pixels.
    pub open spec fn wellFormed(self) -> bool {
        self.pixels.len() == 4 * self.width * self.height
    }
}

/// An immutable RGBA pixel buffer. Placeholder icons (the generic file and
/// folder images) carry `isDefault == true` and are never worth a UI update.
pub struct RgbImg {
    pixels: Vec<u8>,
    width: u32,
    height: u32,
    isDefault: bool,
}

impl View for RgbImg {
    type V = RgbImgV;

    closed spec fn view(&self) -> RgbImgV {
        RgbImgV {
            pixels: self.pixels@,
            width: self.width,
            height: self.height,
            isDefault: self.isDefault,
        }
    }
}

impl RgbImg {
    pub fn new(pixels: Vec<u8>, width: u32, height: u32, isDefault: bool) -> (r: Self)
        requires
            pixels@.len() == 4 * width * height,
        ensures
            r@ == (RgbImgV { pixels: pixels@, width, height, isDefault }),
            r@.wellFormed(),
    {
        Self { pixels, width, height, isDefault }
    }

    /// Whether this image is a shared placeholder rather than a genuine
    /// thumbnail. Placeholders never produce an update event.
    pub fn isDefault(&self) -> (r: bool)
        ensures
            r == self@.isDefault,
    {
        self.isDefault
    }

    pub fn width(&self) -> (r: u32)
        ensures
            r == self@.width,
    {
        self.width
    }

    pub fn height(&self) -> (r: u32)
        ensures
            r == self@.height,
    {
        self.height
    }

    pub fn pixelBytes(&self) -> (r: &Vec<u8>)
        ensures
            r@ == self@.pixels,
    {
        &self.pixels
    }

    /// Tag this image as a shared placeholder.
    pub fn markDefault(self) -> (r: Self)
        ensures
            r@ == (RgbImgV {
                pixels: self@.pixels,
                width: self@.width,
                height: self@.height,
                isDefault: true,
            }),
    {
        Self { pixels: self.pixels, width: self.width, height: self.height, isDefault: true }
    }
}

/// Relies on `Arc::clone`: the returned handle is the same shared image.
#[verifier::external_body]
pub(crate) fn cloneArc(a: &Arc<RgbImg>) -> (r: Arc<RgbImg>)
    ensures
        r == *a,
{
    a.clone()
}

/// What decoding a byte string yields: `None` when the bytes are not a
/// readable image, otherwise the RGBA buffer and its dimensions. The result
/// is a function of the bytes alone.
pub uninterp spec fn decodeOf(bytes: Seq<u8>) -> Option<RgbImgV>;

/// Relies on `image::load_from_memory` (format guessed from the bytes) and
/// `DynamicImage::to_rgba8`: decoding is deterministic in the bytes, and the
/// returned buffer holds exactly `width * height` RGBA pixels.
#[verifier::external_body]
pub(crate) fn decodeRgba(bytes: &Vec<u8>) -> (r: Result<RgbImg, String>)
    ensures
        match r {
            Ok(img) => decodeOf(bytes@) == Some(img@) && img@.wellFormed() && !img@.isDefault,
            Err(_) => decodeOf(bytes@) is None,
        },
{
    match image::load_from_memory(bytes) {
        Ok(decoded) => {
            let rgba = decoded.to_rgba8();
            let width = rgba.width();
            let height = rgba.height();
            Ok(RgbImg { pixels: rgba.into_raw(), width, height, isDefault: false })
        },
        Err(err) => Err(err.to_string()),
    }
}

/// What resampling an RGBA buffer to new dimensions yields; a function of
/// the buffer, its dimensions and the target dimensions alone.
pub uninterp spec fn resizeOf(
    pixels: Seq<u8>,
    width: u32,
    height: u32,
    nwidth: u32,
    nheight: u32,
) -> Seq<u8>;

/// Relies on `image::imageops::resize` with the `Triangle` filter: the
/// result is an `nwidth` by `nheight` RGBA buffer determined by the inputs.
#[verifier::external_body]
pub(crate) fn resizeRgba(img: &RgbImg, nwidth: u32, nheight: u32) -> (r: RgbImg)
    requires
        img@.wellFormed(),
        nwidth > 0,
        nheight > 0,
        img@.width > 0,
        img@.height > 0,
    ensures
        r@ == (RgbImgV {
            pixels: resizeOf(img@.pixels, img@.width, img@.height, nwidth, nheight),
            width: nwidth,
            height: nheight,
            isDefault: img@.isDefault,
        }),
        r@.wellFormed(),
{
    let buffer = image::RgbaImage::from_raw(img.width, img.height, img.pixels.clone()).unwrap();
    let out = image::imageops::resize(&buffer, nwidth, nheight, image::imageops::FilterType::Triangle);
    RgbImg { pixels: out.into_raw(), width: nwidth, height: nheight, isDefault: img.isDefault }
}

/// The larger of the two dimensions.
pub open spec fn maxDim(w: u32, h: u32) -> int {
    if w >= h {
        w as int
    } else {
        h as int
    }
}

/// At least one: a downsampled dimension never collapses to zero.
pub open spec fn clampPos(x: int) -> int {
    if x < 1 {
        1
    } else {
        x
    }
}

/// Width after scaling the longer side down to `m`, rounding down.
pub open spec fn scaledW(w: u32, h: u32, m: u32) -> int {
    clampPos((w * m) / maxDim(w, h))
}

/// Height after scaling the longer side down to `m`, rounding down.
pub open spec fn scaledH(w: u32, h: u32, m: u32) -> int {
    clampPos((h * m) / maxDim(w, h))
}

/// Dimensions for downsampling a `w` by `h` image so that its longer side
/// becomes `maxSize`, keeping the aspect ratio and never reaching zero.
pub fn scaledDimensions(w: u32, h: u32, maxSize: u32) -> (r: (u32, u32))
    requires
        w > 0,
        h > 0,
        maxSize > 0,
        w > maxSize || h > maxSize,
    ensures
        r.0 == scaledW(w, h, maxSize),
        r.1 == scaledH(w, h, maxSize),
        1 <= r.0 <= maxSize,
        1 <= r.1 <= maxSize,
{
    let s: u32 = if w >= h {
        w
    } else {
        h
    };
    proof {
        assert(w * maxSize <= 0xffff_ffffu64 * 0xffff_ffffu64) by (nonlinear_arith)
            requires
                w <= 0xffff_ffffu64,
                maxSize <= 0xffff_ffffu64,
        ;
        assert(h * maxSize <= 0xffff_ffffu64 * 0xffff_ffffu64) by (nonlinear_arith)
            requires
                h <= 0xffff_ffffu64,
                maxSize <= 0xffff_ffffu64,
        ;
    }
    let sw: u64 = (w as u64 * maxSize as u64) / s as u64;
    let sh: u64 = (h as u64 * maxSize as u64) / s as u64;
    proof {
        assert((w * maxSize) / (s as int) <= maxSize) by (nonlinear_arith)
            requires
                w <= s,
                s > 0,
                maxSize > 0,
        ;
        assert((h * maxSize) / (s as int) <= maxSize) by (nonlinear_arith)
            requires
                h <= s,
                s > 0,
                maxSize > 0,
        ;
    }
    let rw: u32 = if sw < 1 {
        1
    } else {
        sw as u32
    };
    let rh: u32 = if sh < 1 {
        1
    } else {
        sh as u32
    };
    (rw, rh)
}

/// The image that the bounded decode yields from a decoded value: downsample
/// when either dimension exceeds the bound, keep the image otherwise.
pub open spec fn sizeLimitedV(v: RgbImgV, maxSize: Option<u32>) -> RgbImgV {
    match maxSize {
        Some(m) => {
            if v.width > 0 && v.height > 0 && (v.width > m || v.height > m) {
                RgbImgV {
                    pixels: resizeOf(
                        v.pixels,
                        v.width,
                        v.height,
                        scaledW(v.width, v.height, m) as u32,
                        scaledH(v.width, v.height, m) as u32,
                    ),
                    width: scaledW(v.width, v.height, m) as u32,
                    height: scaledH(v.width, v.height, m) as u32,
                    isDefault: v.isDefault,
                }
            } else {
                v
            }
        },
        None => v,
    }
}

impl RgbImg {
    /// Decode an image from raw file bytes and, when a bound is given and
    /// either dimension exceeds it, downsample so the longer side equals the
    /// bound. Fails exactly when the bytes are not a readable image.
    pub fn decodeSizeLimited(bytes: &Vec<u8>, maxSize: Option<u32>) -> (r: Result<RgbImg, String>)
        requires
            maxSize matches Some(m) ==> m > 0,
        ensures
            match r {
                Ok(img) => decodeOf(bytes@) matches Some(v) && img@ == sizeLimitedV(v, maxSize)
                    && img@.wellFormed() && !img@.isDefault,
                Err(_) => decodeOf(bytes@) is None,
            },
    {
        let img = match decodeRgba(bytes) {
            Ok(img) => img,
            Err(e) => {
                return Err(e);
            },
        };
        match maxSize {
            None => Ok(img),
            Some(m) => {
                let w = img.width();
                let h = img.height();
                if w > 0 && h > 0 && (w > m || h > m) {
                    let dims = scaledDimensions(w, h, m);
                    Ok(resizeRgba(&img, dims.0, dims.1))
                } else {
                    Ok(img)
                }
            },
        }
    }

    /// Decode with the standard thumbnail bound of 256 pixels.
    pub fn decodeThumbnail(bytes: &Vec<u8>) -> (r: Result<RgbImg, String>)
        ensures
            match r {
                Ok(img) => decodeOf(bytes@) matches Some(v) && img@ == sizeLimitedV(
                    v,
                    Some(256u32),
                ) && img@.wellFormed() && !img@.isDefault,
                Err(_) => decodeOf(bytes@) is None,
            },
    {
        Self::decodeSizeLimited(bytes, Some(256))
    }
}

/// The number of entries in a zip archive, as a function of its bytes.
pub uninterp spec fn zipCountOf(bytes: Seq<u8>) -> Option<usize>;

/// Relies on `zip::ZipArchive::new` and `ZipArchive::len` over an in-memory
/// cursor: the central directory, and so the entry count, is a function of
/// the archive bytes alone.
#[verifier::external_body]
fn zipEntryCount(bytes: &Vec<u8>) -> (r: Result<usize, String>)
    ensures
        match r {
            Ok(n) => zipCountOf(bytes@) == Some(n),
            Err(_) => zipCountOf(bytes@) is None,
        },
{
    match zip::ZipArchive::new(std::io::Cursor::new(bytes.as_slice())) {
        Ok(archive) => Ok(archive.len()),
        Err(err) => Err(err.to_string()),
    }
}

/// The stored name of entry `index`, as a function of the archive bytes.
pub uninterp spec fn zipNameOf(bytes: Seq<u8>, index: usize) -> Seq<char>;

/// Relies on `ZipArchive::by_index` and `ZipFile::name`: the name of entry
/// `index` is a function of the archive bytes and the index alone.
#[verifier::external_body]
fn zipEntryName(bytes: &Vec<u8>, index: usize) -> (r: Result<String, String>)
    ensures
        r matches Ok(name) ==> name@ == zipNameOf(bytes@, index),
{
    let mut archive = match zip::ZipArchive::new(std::io::Cursor::new(bytes.as_slice())) {
        Ok(a) => a,
        Err(err) => return Err(err.to_string()),
    };
    let name = match archive.by_index(index) {
        Ok(file) => Ok(file.name().to_string()),
        Err(err) => Err(err.to_string()),
    };
    name
}

/// The decompressed contents of entry `index`, as a function of the archive
/// bytes.
pub uninterp spec fn zipDataOf(bytes: Seq<u8>, index: usize) -> Seq<u8>;

/// Relies on `ZipArchive::by_index` and `Read::read_to_end` on the entry:
/// the decompressed contents of entry `index` are a function of the archive
/// bytes and the index alone.
#[verifier::external_body]
fn zipEntryData(bytes: &Vec<u8>, index: usize) -> (r: Result<Vec<u8>, String>)
    ensures
        r matches Ok(data) ==> data@ == zipDataOf(bytes@, index),
{
    let mut archive = match zip::ZipArchive::new(std::io::Cursor::new(bytes.as_slice())) {
        Ok(a) => a,
        Err(err) => return Err(err.to_string()),
    };
    let mut file = match archive.by_index(index) {
        Ok(f) => f,
        Err(err) => return Err(err.to_string()),
    };
    let mut data: Vec<u8> = Vec::new();
    match std::io::Read::read_to_end(&mut file, &mut data) {
        Ok(_) => Ok(data),
        Err(err) => Err(err.to_string()),
    }
}

/// The frame number a zip entry name denotes under a naming scheme
/// `<prefix><integer><extension>`, when it follows the scheme.
pub open spec fn frameNumOfName(name: Seq<char>, prefix: Seq<char>, ext: Seq<char>) -> Option<
    int,
> {
    if hasPrefix(name, prefix) && hasSuffix(name.skip(prefix.len() as int), ext) {
        parsedInt(
            name.skip(prefix.len() as int).take(name.len() - prefix.len() - ext.len()),
        )
    } else {
        None
    }
}

/// The frame slot entry `i` of the archive fills: its parsed frame number,
/// shifted down by the first frame's number.
pub open spec fn frameSlotOf(
    bytes: Seq<u8>,
    i: usize,
    prefix: Seq<char>,
    ext: Seq<char>,
    indexStart: int,
) -> Option<int> {
    match frameNumOfName(zipNameOf(bytes, i), prefix, ext) {
        Some(v) => if v >= indexStart {
            Some(v - indexStart)
        } else {
            None
        },
        None => None,
    }
}

/// Frame slot `j` is justified by some archive entry: that entry's name
/// denotes slot `j` and its contents decode to exactly this image.
pub open spec fn slotJustified(
    bytes: Seq<u8>,
    prefix: Seq<char>,
    ext: Seq<char>,
    indexStart: int,
    count: int,
    j: int,
    img: Arc<RgbImg>,
) -> bool {
    exists|e: usize|
        e < count && frameSlotOf(bytes, e, prefix, ext, indexStart) == Some(j) && decodeOf(
            zipDataOf(bytes, e),
        ) == Some(img@)
}

/// Which frame of a loaded sequence is due at a given time.
pub open spec fn frameIndexAt(t: u64, perFrame: u64, count: int) -> int {
    ((t as int) / (perFrame as int)) % count
}

/// An animation: frames in playback order and the time each is shown.
pub struct ImageSequence {
    frames: Vec<Arc<RgbImg>>,
    timePerFrame: u64,
}

impl ImageSequence {
    /// The frames, in playback order.
    pub closed spec fn framesView(&self) -> Seq<Arc<RgbImg>> {
        self.frames@
    }

    /// Microseconds each frame is shown.
    pub closed spec fn spec_timePerFrame(&self) -> u64 {
        self.timePerFrame
    }

    /// A playable sequence: at least one frame, a positive frame time.
    pub open spec fn wf(&self) -> bool {
        self.framesView().len() > 0 && self.spec_timePerFrame() > 0
    }

    /// Microseconds each frame is shown.
    pub fn timePerFrame(&self) -> (r: u64)
        ensures
            r == self.spec_timePerFrame(),
    {
        self.timePerFrame
    }

    pub fn frameCount(&self) -> (r: usize)
        ensures
            r == self.framesView().len(),
    {
        self.frames.len()
    }

    /// The frame due at the given time since the animation started: frames
    /// advance every `timePerFrame` microseconds and wrap around.
    pub fn getFrame(&self, timeSinceStart: u64) -> (r: &Arc<RgbImg>)
        requires
            self.wf(),
        ensures
            *r == self.framesView()[frameIndexAt(
                timeSinceStart,
                self.spec_timePerFrame(),
                self.framesView().len() as int,
            )],
    {
        let index: u64 = timeSinceStart / self.timePerFrame;
        let wrapped: u64 = index % (self.frames.len() as u64);
        &self.frames[wrapped as usize]
    }

    /// Load an animation from the bytes of a zip archive whose entries are
    /// named `<namePrefix><number><extension>`, the numbers starting at
    /// `indexStart` and covering every frame. On success every frame slot
    /// holds the decoded image of an entry whose name denotes that slot.
    pub fn read(
        zipBytes: &Vec<u8>,
        namePrefix: &str,
        extension: &str,
        indexStart: i32,
        timePerFrameMicros: u64,
    ) -> (r: Result<ImageSequence, String>)
        requires
            timePerFrameMicros > 0,
        ensures
            r matches Ok(s) ==> {
                &&& s.wf()
                &&& s.spec_timePerFrame() == timePerFrameMicros
                &&& (zipCountOf(zipBytes@) matches Some(n) && n > 0 && s.framesView().len() == n)
                &&& (forall|j: int|
                    0 <= j < s.framesView().len() ==> slotJustified(
                        zipBytes@,
                        namePrefix@,
                        seq!['.'] + extension@,
                        indexStart as int,
                        s.framesView().len() as int,
                        j,
                        #[trigger] s.framesView()[j],
                    ))
            },
    {
        let ghost extV: Seq<char> = seq!['.'] + extension@;
        let mut extWithDot: String = String::from_str(".");
        extWithDot.append(extension);
        proof {
            reveal_strlit(".");
            assert("."@ =~= seq!['.']);
            assert(extWithDot@ == extV);
        }
        let count = match zipEntryCount(zipBytes) {
            Ok(n) => n,
            Err(err) => {
                return Err(err);
            },
        };
        if count == 0 {
            return Err(String::from_str("empty archive"));
        }
        let mut slots: Vec<Option<Arc<RgbImg>>> = Vec::new();
        let mut j: usize = 0;
        while j < count
            invariant
                j <= count,
                slots@.len() == j,
                forall|a: int| 0 <= a < j ==> (#[trigger] slots@[a]) is None,
            decreases count - j,
        {
            slots.push(None);
            j = j + 1;
        }
        let mut i: usize = 0;
        while i < count
            invariant
                i <= count,
                slots@.len() == count,
                zipCountOf(zipBytes@) == Some(count),
                extV == seq!['.'] + extension@,
                extWithDot@ == extV,
                forall|a: int|
                    0 <= a < count ==> match #[trigger] slots@[a] {
                        Some(img) => slotJustified(
                            zipBytes@,
                            namePrefix@,
                            extV,
                            indexStart as int,
                            count as int,
                            a,
                            img,
                        ),
                        None => true,
                    },
            decreases count - i,
        {
            let name = match zipEntryName(zipBytes, i) {
                Ok(n) => n,
                Err(err) => {
                    return Err(err);
                },
            };
            let afterPrefix = match strStripPrefix(name.as_str(), namePrefix) {
                Some(s) => s,
                None => {
                    let mut msg = String::from_str("entry name without the frame prefix: ");
                    msg.append(name.as_str());
                    return Err(msg);
                },
            };
            let numStr = match strStripSuffix(afterPrefix, extWithDot.as_str()) {
                Some(s) => s,
                None => {
                    let mut msg = String::from_str("entry name without the frame extension: ");
                    msg.append(name.as_str());
                    return Err(msg);
                },
            };
            let num = match parseI32(numStr) {
                Some(n) => n,
                None => {
                    let mut msg = String::from_str("entry name without a frame number: ");
                    msg.append(name.as_str());
                    return Err(msg);
                },
            };
            if num < indexStart {
                let mut msg = String::from_str("frame number below the first frame: ");
                msg.append(name.as_str());
                return Err(msg);
            }
            proof {
                assert(afterPrefix@ == name@.skip(namePrefix@.len() as int));
                assert(afterPrefix@.len() == name@.len() - namePrefix@.len());
                assert(numStr@ == afterPrefix@.take(afterPrefix@.len() - extV.len()));
                assert(numStr@ == name@.skip(namePrefix@.len() as int).take(
                    name@.len() - namePrefix@.len() - extV.len(),
                ));
                assert(frameNumOfName(name@, namePrefix@, extV) == Some(num as int));
                assert(frameSlotOf(zipBytes@, i, namePrefix@, extV, indexStart as int) == Some(
                    num - indexStart,
                ));
            }
            let offset: i64 = num as i64 - indexStart as i64;
            if (offset as u64) < (count as u64) {
                let data = match zipEntryData(zipBytes, i) {
                    Ok(d) => d,
                    Err(err) => {
                        return Err(err);
                    },
                };
                let img = match decodeRgba(&data) {
                    Ok(im) => im,
                    Err(err) => {
                        return Err(err);
                    },
                };
                let slot: usize = offset as usize;
                let ghost imgV = img@;
                let ghost slotsPre = slots@;
                slots.set(slot, Some(Arc::new(img)));
                proof {
                    assert(slot as int == num - indexStart);
                    assert(decodeOf(zipDataOf(zipBytes@, i)) == Some(imgV));
                    assert(slots@[slot as int] matches Some(im2) && im2@ == imgV);
                    assert forall|a: int| 0 <= a < count implies match #[trigger] slots@[a] {
                        Some(im3) => slotJustified(
                            zipBytes@,
                            namePrefix@,
                            extV,
                            indexStart as int,
                            count as int,
                            a,
                            im3,
                        ),
                        None => true,
                    } by {
                        if a == slot {
                            assert(frameSlotOf(
                                zipBytes@,
                                i,
                                namePrefix@,
                                extV,
                                indexStart as int,
                            ) == Some(a));
                            assert(slotJustified(
                                zipBytes@,
                                namePrefix@,
                                extV,
                                indexStart as int,
                                count as int,
                                a,
                                slots@[a]->Some_0,
                            ));
                        } else {
                            assert(slots@[a] == slotsPre[a]);
                        }
                    }
                }
            }
            i = i + 1;
        }
        let mut frames: Vec<Arc<RgbImg>> = Vec::new();
        let mut k: usize = 0;
        while k < count
            invariant
                k <= count,
                slots@.len() == count,
                zipCountOf(zipBytes@) == Some(count),
                frames@.len() == k,
                forall|a: int|
                    0 <= a < count ==> match #[trigger] slots@[a] {
                        Some(img) => slotJustified(
                            zipBytes@,
                            namePrefix@,
                            extV,
                            indexStart as int,
                            count as int,
                            a,
                            img,
                        ),
                        None => true,
                    },
                forall|a: int|
                    0 <= a < k ==> slotJustified(
                        zipBytes@,
                        namePrefix@,
                        extV,
                        indexStart as int,
                        count as int,
                        a,
                        #[trigger] frames@[a],
                    ),
                extV == seq!['.'] + extension@,
            decreases count - k,
        {
            match &slots[k] {
                Some(img) => {
                    let ghost framesPre = frames@;
                    frames.push(cloneArc(img));
                    proof {
                        let im = slots@[k as int]->Some_0;
                        assert(frames@[k as int] == im);
                        assert(slotJustified(
                            zipBytes@,
                            namePrefix@,
                            extV,
                            indexStart as int,
                            count as int,
                            k as int,
                            frames@[k as int],
                        ));
                        assert(forall|a: int| 0 <= a < k ==> #[trigger] frames@[a] == framesPre[a]);
                    }
                },
                None => {
                    let mut msg = String::from_str("missing frame ");
                    let numText = u64ToString(k as u64);
                    msg.append(numText.as_str());
                    return Err(msg);
                },
            }
            k = k + 1;
        }
        let s = ImageSequence { frames, timePerFrame: timePerFrameMicros };
        proof {
            assert forall|j: int| 0 <= j < s.framesView().len() implies slotJustified(
                zipBytes@,
                namePrefix@,
                seq!['.'] + extension@,
                indexStart as int,
                s.framesView().len() as int,
                j,
                #[trigger] s.framesView()[j],
            ) by {
                assert(s.framesView()[j] == frames@[j]);
                assert(slotJustified(
                    zipBytes@,
                    namePrefix@,
                    extV,
                    indexStart as int,
                    count as int,
                    j,
                    frames@[j],
                ));
            }
        }
        Ok(s)
    }
}

} // verus!

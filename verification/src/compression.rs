//! How hard `wasmcheck` compresses before reporting a size.

use vstd::prelude::*;

use crate::error::WasmCheckError;
use crate::text::{dec, push_decimal, push_str, string_from_chars};

verus! {

/// `true` for a gzip level in `0..=9` and a brotli quality in `0..=11`.
pub open spec fn compression_valid(gzip_level: u32, brotli_quality: i32) -> bool {
    gzip_level <= 9 && 0 <= brotli_quality <= 11
}

/// The gzip level and brotli quality used to measure a bundle.
///
/// The default models what a server or CDN does on the fly — gzip level 6,
/// brotli quality 5 — rather than the best compression achievable.
#[derive(Debug, Clone, Copy, PartialEq, Eq, Structural, Hash)]
pub struct Compression {
    gzip_level: u32,
    brotli_quality: i32,
}

impl View for Compression {
    type V = (u32, i32);

    closed spec fn view(&self) -> (u32, i32) {
        (self.gzip_level, self.brotli_quality)
    }
}

impl Compression {
    /// The gzip level [`Compression::cdn`] uses.
    pub const CDN_GZIP_LEVEL: u32 = 6;

    /// The brotli quality [`Compression::cdn`] uses.
    pub const CDN_BROTLI_QUALITY: i32 = 5;

    /// The gzip level [`Compression::max`] uses.
    pub const MAX_GZIP_LEVEL: u32 = 9;

    /// The brotli quality [`Compression::max`] uses.
    pub const MAX_BROTLI_QUALITY: i32 = 11;

    #[verifier::type_invariant]
    closed spec fn inv(self) -> bool {
        compression_valid(self.gzip_level, self.brotli_quality)
    }

    /// Two settings with the same levels are the same setting.
    pub proof fn lemma_view_eq(a: Compression, b: Compression)
        requires
            a@ == b@,
        ensures
            a == b,
    {
    }

    /// What a server or CDN does on the fly: gzip 6, brotli 5. This is the
    /// default.
    pub fn cdn() -> (r: Self)
        ensures
            r@ == (6u32, 5i32),
    {
        Compression { gzip_level: 6, brotli_quality: 5 }
    }

    /// Precompression at the highest setting: gzip 9, brotli 11.
    pub fn max() -> (r: Self)
        ensures
            r@ == (9u32, 11i32),
    {
        Compression { gzip_level: 9, brotli_quality: 11 }
    }

    /// A custom setting.
    ///
    /// Fails with [`WasmCheckError::InvalidGzipLevel`] when `gzip_level` is
    /// above 9, else with [`WasmCheckError::InvalidBrotliQuality`] when
    /// `brotli_quality` is outside `0..=11`.
    pub fn new(gzip_level: u32, brotli_quality: i32) -> (r: Result<Self, WasmCheckError>)
        ensures
            gzip_level > 9 ==> (r matches Err(WasmCheckError::InvalidGzipLevel(v))
                && v == gzip_level),
            gzip_level <= 9 && !(0 <= brotli_quality <= 11) ==> (r matches Err(
                WasmCheckError::InvalidBrotliQuality(v),
            ) && v == brotli_quality),
            compression_valid(gzip_level, brotli_quality) ==> (r matches Ok(c) && c@ == (
            gzip_level,
            brotli_quality,
            )),
    {
        if gzip_level > 9 {
            return Err(WasmCheckError::InvalidGzipLevel(gzip_level as i64));
        }
        if brotli_quality < 0 || brotli_quality > 11 {
            return Err(WasmCheckError::InvalidBrotliQuality(brotli_quality as i64));
        }
        Ok(Compression { gzip_level, brotli_quality })
    }

    /// The gzip compression level, `0..=9`.
    pub fn gzip_level(&self) -> (r: u32)
        ensures
            r == self@.0,
            r <= 9,
    {
        proof {
            use_type_invariant(self);
        }
        self.gzip_level
    }

    /// The brotli quality, `0..=11`.
    pub fn brotli_quality(&self) -> (r: i32)
        ensures
            r == self@.1,
            0 <= r <= 11,
    {
        proof {
            use_type_invariant(self);
        }
        self.brotli_quality
    }

    /// The same setting with a different gzip level.
    ///
    /// Fails with [`WasmCheckError::InvalidGzipLevel`] when `level` is above 9.
    pub fn with_gzip_level(self, level: u32) -> (r: Result<Self, WasmCheckError>)
        ensures
            level > 9 ==> (r matches Err(WasmCheckError::InvalidGzipLevel(v)) && v == level),
            level <= 9 ==> (r matches Ok(c) && c@ == (level, self@.1)),
    {
        proof {
            use_type_invariant(self);
        }
        Self::new(level, self.brotli_quality)
    }

    /// The same setting with a different brotli quality.
    ///
    /// Fails with [`WasmCheckError::InvalidBrotliQuality`] when `quality` is
    /// outside `0..=11`.
    pub fn with_brotli_quality(self, quality: i32) -> (r: Result<Self, WasmCheckError>)
        ensures
            !(0 <= quality <= 11) ==> (r matches Err(WasmCheckError::InvalidBrotliQuality(v))
                && v == quality),
            0 <= quality <= 11 ==> (r matches Ok(c) && c@ == (self@.0, quality)),
    {
        proof {
            use_type_invariant(self);
        }
        Self::new(self.gzip_level, quality)
    }

    /// `true` when this is the [`Compression::cdn`] preset, i.e. the default.
    pub fn is_default(&self) -> (r: bool)
        ensures
            r == (self@ == (6u32, 5i32)),
    {
        self.gzip_level == 6 && self.brotli_quality == 5
    }

    /// `"gzip level 6, brotli quality 5"`.
    pub fn to_text(&self) -> (r: String)
        ensures
            r@ == "gzip level "@ + dec(self@.0 as nat) + ", brotli quality "@ + dec(
                self@.1 as nat,
            ),
    {
        proof {
            use_type_invariant(self);
        }
        let mut out: Vec<char> = Vec::new();
        push_str(&mut out, "gzip level ");
        push_decimal(&mut out, self.gzip_level as u64);
        push_str(&mut out, ", brotli quality ");
        push_decimal(&mut out, self.brotli_quality as u64);
        string_from_chars(out.as_slice())
    }
}

impl Default for Compression {
    fn default() -> (r: Self)
        ensures
            r@ == (6u32, 5i32),
    {
        Self::cdn()
    }
}

} // verus!

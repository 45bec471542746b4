//! Shared result types used by every adapter and by the preference store.

use vstd::prelude::*;

verus! {

/// Rendering mode of a chapter: `Normal` means paginated single-page
/// images, `Long` means one continuous vertical strip.
#[derive(Clone, Copy, PartialEq, Eq, Structural, Debug)]
pub enum Format {
    Normal,
    Long,
}

/// A chapter number, held as a decimal `mantissa / 10^scale` so that
/// fractional chapters such as "10.5" can be represented exactly.
#[derive(Clone, Copy, PartialEq, Eq, Structural, Debug)]
pub struct ChapterNumber {
    pub mantissa: u64,
    pub scale: u32,
}

impl ChapterNumber {
    /// The number zero, the default when a chapter carries no numeric label.
    pub fn zero() -> (r: ChapterNumber)
        ensures
            r.mantissa == 0,
            r.scale == 0,
    {
        ChapterNumber { mantissa: 0, scale: 0 }
    }

    /// A whole number, used when a chapter's position stands in for its number.
    pub fn whole(n: u64) -> (r: ChapterNumber)
        ensures
            r.mantissa == n,
            r.scale == 0,
    {
        ChapterNumber { mantissa: n, scale: 0 }
    }
}

/// A manga as shown in a search-result list.
#[derive(Clone, Debug)]
pub struct SearchItem {
    /// Adapter-opaque identifier, unique within the issuing adapter.
    pub id: String,
    pub title: String,
    pub description: String,
    pub cover_url: String,
}

/// One chapter of a manga.
#[derive(Clone, Debug)]
pub struct Chapter {
    /// Adapter-opaque identifier.
    pub id: String,
    /// Display label, e.g. "Vol.2 Chap.10".
    pub name: String,
    pub number: ChapterNumber,
    /// Populated only by the caller layer; `None` when no read state is known.
    pub read: Option<bool>,
}

/// Detail view of a manga: its description plus its chapters, newest first
/// by upstream convention.
#[derive(Clone, Debug)]
pub struct Manga {
    pub desc: SearchItem,
    pub chapters: Vec<Chapter>,
}

/// The fully resolved images of one chapter, in page order.
#[derive(Clone, Debug)]
pub struct ChapterImages {
    pub images: Vec<String>,
    pub format: Format,
}

} // verus!

//! The user-preference store: liked titles, per-title view mode and
//! per-adapter read-chapter sets.
//!
//! The state lives in memory as plain vectors of keyed entries; every
//! lookup and mutation is specified against the membership and
//! last-match-lookup model of [`crate::assoc`].  Loading from and saving
//! to the preference file are string transformations (see
//! [`crate::prefs_codec`]); the surrounding shell owns the file itself.

use vstd::prelude::*;

use crate::assoc::{
    find_last, lemma_find_last_push, lemma_push_has, lemma_push_nodup, lemma_remove_by_clean,
    lemma_remove_by_find_last, lemma_remove_by_has, lemma_remove_by_nodup, nodup_by, remove_by,
    seq_has,
};
use crate::model::{Chapter, Format, Manga};

verus! {

/// The composite identity of a manga in the preference store: the same
/// `manga_id` string is only unique within one adapter's id-space, so
/// the adapter index is part of the key.
pub struct StoredManga {
    pub connector_idx: u32,
    pub manga_id: String,
}

impl StoredManga {
    pub open spec fn key(self) -> (int, Seq<char>) {
        (self.connector_idx as int, self.manga_id@)
    }
}

/// A per-title view-mode override.
pub struct ViewEntry {
    pub connector_idx: u32,
    pub manga_id: String,
    pub format: Format,
}

impl ViewEntry {
    pub open spec fn key(self) -> (int, Seq<char>) {
        (self.connector_idx as int, self.manga_id@)
    }
}

/// A chapter marked as read, scoped to one adapter.
pub struct ReadEntry {
    pub connector_idx: u32,
    pub chapter_id: String,
}

impl ReadEntry {
    pub open spec fn key(self) -> (int, Seq<char>) {
        (self.connector_idx as int, self.chapter_id@)
    }
}

pub open spec fn liked_key_is(idx: int, id: Seq<char>) -> spec_fn(StoredManga) -> bool {
    |m: StoredManga| m.key() == (idx, id)
}

pub open spec fn view_key_is(idx: int, id: Seq<char>) -> spec_fn(ViewEntry) -> bool {
    |v: ViewEntry| v.key() == (idx, id)
}

pub open spec fn read_key_is(idx: int, id: Seq<char>) -> spec_fn(ReadEntry) -> bool {
    |r: ReadEntry| r.key() == (idx, id)
}

pub open spec fn liked_key() -> spec_fn(StoredManga) -> (int, Seq<char>) {
    |m: StoredManga| m.key()
}

pub open spec fn view_key() -> spec_fn(ViewEntry) -> (int, Seq<char>) {
    |v: ViewEntry| v.key()
}

pub open spec fn read_key() -> spec_fn(ReadEntry) -> (int, Seq<char>) {
    |r: ReadEntry| r.key()
}

/// The whole persisted per-user state.
pub struct PrefData {
    /// Liked titles, in insertion order, no duplicates.
    pub liked: Vec<StoredManga>,
    /// Per-title view-mode overrides, one entry per `(adapter, manga)`.
    pub views: Vec<ViewEntry>,
    /// Chapters marked read, one entry per `(adapter, chapter)`.
    pub read: Vec<ReadEntry>,
}

impl PrefData {
    /// Is `(idx, id)` in the liked set?
    pub open spec fn liked_has(self, idx: int, id: Seq<char>) -> bool {
        seq_has(self.liked@, liked_key_is(idx, id))
    }

    /// The view-mode override of `(idx, id)`, if one was set.
    pub open spec fn view_of(self, idx: int, id: Seq<char>) -> Option<Format> {
        match find_last(self.views@, view_key_is(idx, id)) {
            Some(e) => Some(e.format),
            None => None,
        }
    }

    /// Is chapter `id` of adapter `idx` marked read?
    pub open spec fn read_has(self, idx: int, id: Seq<char>) -> bool {
        seq_has(self.read@, read_key_is(idx, id))
    }

    /// Each table keys its entries uniquely.
    pub open spec fn wf(self) -> bool {
        &&& nodup_by(self.liked@, liked_key())
        &&& nodup_by(self.views@, view_key())
        &&& nodup_by(self.read@, read_key())
    }

    pub fn new() -> (r: PrefData)
        ensures
            r.wf(),
            r.liked@ == Seq::<StoredManga>::empty(),
            r.views@ == Seq::<ViewEntry>::empty(),
            r.read@ == Seq::<ReadEntry>::empty(),
    {
        PrefData { liked: Vec::new(), views: Vec::new(), read: Vec::new() }
    }

    /// Is `(connector_idx, manga_id)` currently liked?
    pub fn is_liked(&self, connector_idx: u32, manga_id: &str) -> (r: bool)
        ensures
            r == self.liked_has(connector_idx as int, manga_id@),
    {
        let ghost p = liked_key_is(connector_idx as int, manga_id@);
        let id: String = manga_id.to_owned();
        let mut i: usize = 0;
        while i < self.liked.len()
            invariant
                i <= self.liked@.len(),
                id@ == manga_id@,
                p == liked_key_is(connector_idx as int, manga_id@),
                forall|j: int| 0 <= j < i ==> !p(#[trigger] self.liked@[j]),
            decreases self.liked@.len() - i,
        {
            let e = &self.liked[i];
            if e.connector_idx == connector_idx && e.manga_id == id {
                assert(p(self.liked@[i as int]));
                assert(self.liked@.contains(self.liked@[i as int]));
                return true;
            }
            i += 1;
        }
        proof {
            if seq_has(self.liked@, p) {
                let x = choose|x: StoredManga| self.liked@.contains(x) && p(x);
                let j = choose|j: int| 0 <= j < self.liked@.len() && self.liked@[j] == x;
                assert(!p(self.liked@[j]));
            }
        }
        false
    }

    /// Add `(connector_idx, id)` to the liked set if absent, remove it if
    /// present; returns the new membership state.
    pub fn toggle_liked(&mut self, connector_idx: u32, id: &str) -> (r: bool)
        requires
            old(self).wf(),
        ensures
            final(self).wf(),
            r == !old(self).liked_has(connector_idx as int, id@),
            toggle_rel(*old(self), *final(self), connector_idx as int, id@),
            old(self).liked_has(connector_idx as int, id@) ==> final(self).liked@ == remove_by(
                old(self).liked@,
                liked_key_is(connector_idx as int, id@),
            ),
            !old(self).liked_has(connector_idx as int, id@) ==> {
                &&& final(self).liked@.len() == old(self).liked@.len() + 1
                &&& final(self).liked@.drop_last() == old(self).liked@
                &&& final(self).liked@.last().connector_idx == connector_idx
                &&& final(self).liked@.last().manga_id@ == id@
            },
            final(self).views == old(self).views,
            final(self).read == old(self).read,
    {
        let ghost p = liked_key_is(connector_idx as int, id@);
        let was = self.is_liked(connector_idx, id);
        if was {
            let ids: String = id.to_owned();
            let mut out: Vec<StoredManga> = Vec::new();
            let mut i: usize = 0;
            while i < self.liked.len()
                invariant
                    i <= self.liked@.len(),
                    ids@ == id@,
                    p == liked_key_is(connector_idx as int, id@),
                    out@ == remove_by(self.liked@.take(i as int), p),
                decreases self.liked@.len() - i,
            {
                let e = &self.liked[i];
                let ghost pre = self.liked@.take(i as int);
                proof {
                    assert(self.liked@.take(i + 1).drop_last() =~= pre);
                    assert(self.liked@.take(i + 1).last() == self.liked@[i as int]);
                }
                if !(e.connector_idx == connector_idx && e.manga_id == ids) {
                    assert(!p(self.liked@[i as int]));
                    out.push(StoredManga { connector_idx: e.connector_idx, manga_id: e.manga_id.clone() });
                } else {
                    assert(p(self.liked@[i as int]));
                }
                i += 1;
            }
            proof {
                assert(self.liked@.take(self.liked@.len() as int) =~= self.liked@);
                lemma_remove_by_nodup(self.liked@, p, liked_key());
                lemma_remove_by_clean(self.liked@, p);
                assert forall|i2: int, s2: Seq<char>| !(i2 == connector_idx as int && s2 == id@) implies
                    seq_has(remove_by(self.liked@, p), liked_key_is(i2, s2)) == seq_has(
                        self.liked@,
                        liked_key_is(i2, s2),
                    ) by {
                    lemma_remove_by_has(self.liked@, p, liked_key_is(i2, s2));
                }
            }
            self.liked = out;
            false
        } else {
            let entry = StoredManga { connector_idx, manga_id: id.to_owned() };
            proof {
                assert(p(entry));
                lemma_push_nodup(self.liked@, entry, liked_key());
                assert forall|i2: int, s2: Seq<char>|
                    seq_has(self.liked@.push(entry), liked_key_is(i2, s2)) == (seq_has(
                        self.liked@,
                        liked_key_is(i2, s2),
                    ) || liked_key_is(i2, s2)(entry)) by {
                    lemma_push_has(self.liked@, entry, liked_key_is(i2, s2));
                }
            }
            self.liked.push(entry);
            true
        }
    }

    /// Record the view-mode override for `(connector_idx, manga_id)`:
    /// `Long` when `long` holds, `Normal` otherwise.
    pub fn set_manga_view(&mut self, connector_idx: u32, manga_id: &str, long: bool)
        requires
            old(self).wf(),
        ensures
            final(self).wf(),
            final(self).view_of(connector_idx as int, manga_id@) == Some(
                if long {
                    Format::Long
                } else {
                    Format::Normal
                },
            ),
            forall|i2: int, s2: Seq<char>|
                !(i2 == connector_idx as int && s2 == manga_id@) ==> final(self).view_of(i2, s2)
                    == old(self).view_of(i2, s2),
            final(self).views@.drop_last() == remove_by(
                old(self).views@,
                view_key_is(connector_idx as int, manga_id@),
            ),
            final(self).views@.len() > 0,
            final(self).views@.last().connector_idx == connector_idx,
            final(self).views@.last().manga_id@ == manga_id@,
            final(self).liked == old(self).liked,
            final(self).read == old(self).read,
    {
        let ghost p = view_key_is(connector_idx as int, manga_id@);
        let ids: String = manga_id.to_owned();
        let mut out: Vec<ViewEntry> = Vec::new();
        let mut i: usize = 0;
        while i < self.views.len()
            invariant
                i <= self.views@.len(),
                ids@ == manga_id@,
                p == view_key_is(connector_idx as int, manga_id@),
                out@ == remove_by(self.views@.take(i as int), p),
            decreases self.views@.len() - i,
        {
            let e = &self.views[i];
            let ghost pre = self.views@.take(i as int);
            proof {
                assert(self.views@.take(i + 1).drop_last() =~= pre);
                assert(self.views@.take(i + 1).last() == self.views@[i as int]);
            }
            if !(e.connector_idx == connector_idx && e.manga_id == ids) {
                assert(!p(self.views@[i as int]));
                out.push(
                    ViewEntry {
                        connector_idx: e.connector_idx,
                        manga_id: e.manga_id.clone(),
                        format: e.format,
                    },
                );
            } else {
                assert(p(self.views@[i as int]));
            }
            i += 1;
        }
        let entry = ViewEntry {
            connector_idx,
            manga_id: manga_id.to_owned(),
            format: if long {
                Format::Long
            } else {
                Format::Normal
            },
        };
        proof {
            assert(self.views@.take(self.views@.len() as int) =~= self.views@);
            let cleaned = remove_by(self.views@, p);
            lemma_remove_by_nodup(self.views@, p, view_key());
            lemma_remove_by_clean(self.views@, p);
            assert(p(entry));
            lemma_push_nodup(cleaned, entry, view_key());
            lemma_find_last_push(cleaned, entry, p);
            assert forall|i2: int, s2: Seq<char>| !(i2 == connector_idx as int && s2 == manga_id@)
                implies #[trigger] find_last(cleaned.push(entry), view_key_is(i2, s2)) == find_last(
                self.views@,
                view_key_is(i2, s2),
            ) by {
                let q = view_key_is(i2, s2);
                lemma_find_last_push(cleaned, entry, q);
                assert(!q(entry));
                lemma_remove_by_find_last(self.views@, p, q);
            }
        }
        out.push(entry);
        self.views = out;
    }

    /// The stored view-mode override of `(connector_idx, manga_id)`, if any.
    pub fn get_manga_view(&self, connector_idx: u32, manga_id: &str) -> (r: Option<Format>)
        ensures
            r == self.view_of(connector_idx as int, manga_id@),
    {
        let ghost p = view_key_is(connector_idx as int, manga_id@);
        let ids: String = manga_id.to_owned();
        let mut i: usize = self.views.len();
        proof {
            assert(self.views@.take(self.views@.len() as int) =~= self.views@);
        }
        while i > 0
            invariant
                i <= self.views@.len(),
                ids@ == manga_id@,
                p == view_key_is(connector_idx as int, manga_id@),
                find_last(self.views@, p) == find_last(self.views@.take(i as int), p),
            decreases i,
        {
            i -= 1;
            let e = &self.views[i];
            let ghost cur = self.views@.take(i + 1);
            proof {
                assert(cur.last() == self.views@[i as int]);
                assert(cur.drop_last() =~= self.views@.take(i as int));
            }
            if e.connector_idx == connector_idx && e.manga_id == ids {
                assert(p(self.views@[i as int]));
                return Some(e.format);
            }
            assert(!p(self.views@[i as int]));
        }
        proof {
            assert(self.views@.take(0) =~= Seq::<ViewEntry>::empty());
        }
        None
    }

    /// Is chapter `chapter_id` of adapter `connector_idx` marked read?
    pub fn is_chapter_read(&self, connector_idx: u32, chapter_id: &str) -> (r: bool)
        ensures
            r == self.read_has(connector_idx as int, chapter_id@),
    {
        let ghost p = read_key_is(connector_idx as int, chapter_id@);
        let id: String = chapter_id.to_owned();
        let mut i: usize = 0;
        while i < self.read.len()
            invariant
                i <= self.read@.len(),
                id@ == chapter_id@,
                p == read_key_is(connector_idx as int, chapter_id@),
                forall|j: int| 0 <= j < i ==> !p(#[trigger] self.read@[j]),
            decreases self.read@.len() - i,
        {
            let e = &self.read[i];
            if e.connector_idx == connector_idx && e.chapter_id == id {
                assert(p(self.read@[i as int]));
                assert(self.read@.contains(self.read@[i as int]));
                return true;
            }
            i += 1;
        }
        proof {
            if seq_has(self.read@, p) {
                let x = choose|x: ReadEntry| self.read@.contains(x) && p(x);
                let j = choose|j: int| 0 <= j < self.read@.len() && self.read@[j] == x;
                assert(!p(self.read@[j]));
            }
        }
        false
    }

    /// Mark chapter `chapter_id` of adapter `connector_idx` as read.
    /// Marking an already-read chapter changes nothing.
    pub fn mark_chapter_read(&mut self, connector_idx: u32, chapter_id: &str)
        requires
            old(self).wf(),
        ensures
            final(self).wf(),
            forall|i2: int, s2: Seq<char>|
                final(self).read_has(i2, s2) == (old(self).read_has(i2, s2) || (i2
                    == connector_idx as int && s2 == chapter_id@)),
            old(self).read_has(connector_idx as int, chapter_id@) ==> final(self).read
                == old(self).read,
            !old(self).read_has(connector_idx as int, chapter_id@) ==> {
                &&& final(self).read@.drop_last() == old(self).read@
                &&& final(self).read@.last().connector_idx == connector_idx
                &&& final(self).read@.last().chapter_id@ == chapter_id@
            },
            final(self).liked == old(self).liked,
            final(self).views == old(self).views,
    {
        let ghost p = read_key_is(connector_idx as int, chapter_id@);
        if !self.is_chapter_read(connector_idx, chapter_id) {
            let entry = ReadEntry { connector_idx, chapter_id: chapter_id.to_owned() };
            proof {
                assert(p(entry));
                lemma_push_nodup(self.read@, entry, read_key());
                assert forall|i2: int, s2: Seq<char>|
                    seq_has(self.read@.push(entry), read_key_is(i2, s2)) == (seq_has(
                        self.read@,
                        read_key_is(i2, s2),
                    ) || read_key_is(i2, s2)(entry)) by {
                    lemma_push_has(self.read@, entry, read_key_is(i2, s2));
                }
            }
            self.read.push(entry);
        }
    }

    /// Stamp the caller-layer read state onto a fetched manga: a chapter
    /// marked read under this adapter gets `Some(true)`, every other
    /// chapter keeps `None`.
    pub fn decorate_read(&self, connector_idx: u32, manga: &mut Manga)
        ensures
            final(manga).desc == old(manga).desc,
            final(manga).chapters@.len() == old(manga).chapters@.len(),
            forall|j: int|
                0 <= j < old(manga).chapters@.len() ==> {
                    let c0 = old(manga).chapters@[j];
                    let c1 = #[trigger] final(manga).chapters@[j];
                    c1.id@ == c0.id@ && c1.name@ == c0.name@ && c1.number == c0.number && c1.read
                        == (if self.read_has(connector_idx as int, c0.id@) {
                        Some(true)
                    } else {
                        None::<bool>
                    })
                },
    {
        let mut out: Vec<Chapter> = Vec::new();
        let mut i: usize = 0;
        while i < manga.chapters.len()
            invariant
                i <= manga.chapters@.len(),
                out@.len() == i,
                forall|j: int|
                    0 <= j < i ==> {
                        let c0 = manga.chapters@[j];
                        let c1 = #[trigger] out@[j];
                        c1.id@ == c0.id@ && c1.name@ == c0.name@ && c1.number == c0.number
                            && c1.read == (if self.read_has(connector_idx as int, c0.id@) {
                            Some(true)
                        } else {
                            None::<bool>
                        })
                    },
            decreases manga.chapters@.len() - i,
        {
            let c = &manga.chapters[i];
            let read = if self.is_chapter_read(connector_idx, c.id.as_str()) {
                Some(true)
            } else {
                None
            };
            out.push(Chapter { id: c.id.clone(), name: c.name.clone(), number: c.number, read });
            i += 1;
        }
        manga.chapters = out;
    }
}

/// How one `toggle_liked` call relates the store before to the store
/// after: the toggled key flips its liked membership, every other key
/// keeps it.
pub open spec fn toggle_rel(d0: PrefData, d1: PrefData, idx: int, id: Seq<char>) -> bool {
    forall|i2: int, s2: Seq<char>|
        #[trigger] d1.liked_has(i2, s2) == (if i2 == idx && s2 == id {
            !d0.liked_has(i2, s2)
        } else {
            d0.liked_has(i2, s2)
        })
}

/// Toggling the liked state of the same title twice restores the
/// original liked membership, whatever the store held before.
pub proof fn lemma_toggle_liked_twice(d0: PrefData, d1: PrefData, d2: PrefData, idx: int, id: Seq<char>)
    requires
        toggle_rel(d0, d1, idx, id),
        toggle_rel(d1, d2, idx, id),
    ensures
        forall|i2: int, s2: Seq<char>| #[trigger] d2.liked_has(i2, s2) == d0.liked_has(i2, s2),
{
    assert forall|i2: int, s2: Seq<char>| #[trigger] d2.liked_has(i2, s2) == d0.liked_has(i2, s2) by {
        assert(d1.liked_has(i2, s2) == (if i2 == idx && s2 == id {
            !d0.liked_has(i2, s2)
        } else {
            d0.liked_has(i2, s2)
        }));
        assert(d2.liked_has(i2, s2) == (if i2 == idx && s2 == id {
            !d1.liked_has(i2, s2)
        } else {
            d1.liked_has(i2, s2)
        }));
    }
}

/// The in-memory preference store.  The surrounding shell keeps one of
/// these per process, loads it at startup and saves it after every
/// mutation; see [`crate::prefs_codec`] for the file representation.
pub struct UserPrefs {
    pub data: PrefData,
}

impl UserPrefs {
    /// A fresh store with empty state, as used before the preference
    /// file has been read (or when none exists yet).
    pub fn new() -> (r: UserPrefs)
        ensures
            r.data.wf(),
            r.data.liked@ == Seq::<StoredManga>::empty(),
            r.data.views@ == Seq::<ViewEntry>::empty(),
            r.data.read@ == Seq::<ReadEntry>::empty(),
    {
        UserPrefs { data: PrefData::new() }
    }
}

} // verus!

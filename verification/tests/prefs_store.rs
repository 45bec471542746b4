use bunni::model::{Chapter, ChapterNumber, Format, Manga, SearchItem};
use bunni::prefs::UserPrefs;

fn sample_manga() -> Manga {
    Manga {
        desc: SearchItem {
            id: "m1".to_string(),
            title: "T".to_string(),
            description: String::new(),
            cover_url: String::new(),
        },
        chapters: vec![
            Chapter {
                id: "c1".to_string(),
                name: "Chap.1".to_string(),
                number: ChapterNumber::whole(1),
                read: None,
            },
            Chapter {
                id: "c2".to_string(),
                name: "Chap.2".to_string(),
                number: ChapterNumber::whole(2),
                read: None,
            },
        ],
    }
}

#[test]
fn toggle_twice_restores_membership() {
    let mut p = UserPrefs::new();
    assert!(!p.data.is_liked(0, "m1"));
    assert!(p.data.toggle_liked(0, "m1"));
    assert!(p.data.is_liked(0, "m1"));
    // the same manga id under another adapter is a different title
    assert!(!p.data.is_liked(1, "m1"));
    assert!(!p.data.toggle_liked(0, "m1"));
    assert!(!p.data.is_liked(0, "m1"));
}

#[test]
fn view_overrides_are_scoped_per_adapter() {
    let mut p = UserPrefs::new();
    assert_eq!(p.data.get_manga_view(0, "m1"), None);
    p.data.set_manga_view(0, "m1", true);
    p.data.set_manga_view(1, "m1", false);
    assert_eq!(p.data.get_manga_view(0, "m1"), Some(Format::Long));
    assert_eq!(p.data.get_manga_view(1, "m1"), Some(Format::Normal));
    p.data.set_manga_view(0, "m1", false);
    assert_eq!(p.data.get_manga_view(0, "m1"), Some(Format::Normal));
    assert_eq!(p.data.get_manga_view(0, "m2"), None);
}

#[test]
fn marking_read_decorates_fetched_manga() {
    let mut p = UserPrefs::new();
    p.data.mark_chapter_read(0, "c1");
    let mut m = sample_manga();
    p.data.decorate_read(0, &mut m);
    assert_eq!(m.chapters[0].read, Some(true));
    assert_eq!(m.chapters[1].read, None);

    // nothing was marked under adapter 1
    let mut m2 = sample_manga();
    p.data.decorate_read(1, &mut m2);
    assert_eq!(m2.chapters[0].read, None);
    assert_eq!(m2.chapters[1].read, None);
}

#[test]
fn save_then_load_reproduces_the_state() {
    let mut p = UserPrefs::new();
    p.data.toggle_liked(0, "m1");
    p.data.toggle_liked(1, "m\u{1ed9}c/thi\u{ea}n");
    p.data.set_manga_view(0, "m1", true);
    p.data.set_manga_view(1, "m2", false);
    p.data.mark_chapter_read(0, "c1");
    p.data.mark_chapter_read(0, "c\"quoted\nid");
    let text = p.save();

    let mut q = UserPrefs::new();
    q.load(&text).unwrap();
    assert_eq!(q.data.liked.len(), 2);
    assert!(q.data.is_liked(0, "m1"));
    assert!(q.data.is_liked(1, "m\u{1ed9}c/thi\u{ea}n"));
    assert!(!q.data.is_liked(2, "m1"));
    assert_eq!(q.data.get_manga_view(0, "m1"), Some(Format::Long));
    assert_eq!(q.data.get_manga_view(1, "m2"), Some(Format::Normal));
    assert!(q.data.is_chapter_read(0, "c1"));
    assert!(q.data.is_chapter_read(0, "c\"quoted\nid"));
    assert!(!q.data.is_chapter_read(1, "c1"));

    // saving the reloaded store writes the same text
    assert_eq!(q.save(), text);
}

#[test]
fn empty_store_round_trips() {
    let p = UserPrefs::new();
    let text = p.save();
    assert_eq!(text, "{\"liked\":[],\"views\":[],\"read\":[]}");
    let mut q = UserPrefs::new();
    q.load(&text).unwrap();
    assert!(q.data.liked.is_empty());
}

#[test]
fn malformed_preference_text_is_rejected() {
    let mut p = UserPrefs::new();
    assert!(p.load("not json at all").is_err());
    assert!(p.load("{}").is_err());
    assert!(p.load("{\"liked\":[],\"views\":[]}").is_err());
    // a duplicate liked entry is invalid
    let dup = "{\"liked\":[{\"connector_idx\":0,\"manga_id\":\"a\"},{\"connector_idx\":0,\"manga_id\":\"a\"}],\"views\":[],\"read\":[]}";
    assert!(p.load(dup).is_err());
    // an index that does not fit in 32 bits is invalid
    let big = "{\"liked\":[{\"connector_idx\":4294967296,\"manga_id\":\"a\"}],\"views\":[],\"read\":[]}";
    assert!(p.load(big).is_err());
    // the rejected loads left the store unchanged
    assert!(p.data.liked.is_empty());

    let ok = "{\"liked\":[{\"connector_idx\":4294967295,\"manga_id\":\"a\"}],\"views\":[],\"read\":[]}";
    assert!(p.load(ok).is_ok());
    assert!(p.data.is_liked(4294967295, "a"));
}

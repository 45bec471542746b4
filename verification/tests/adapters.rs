use bunni::json::{parse_json, render_json, Json};
use bunni::kakalot_pages::{
    chapter_images_from_parts, chapters_from_parts, image_request_urls, image_requests_from,
    parse_manga_page, parse_search_page, rewrite_src, search_items_from_parts,
};
use bunni::mangadex::{AdapterError, MangaDex};
use bunni::mangakakalot::{change_alias, decode_manga_id, encode_manga_id, MangaKakalot};
use bunni::model::Format;

#[test]
fn alias_diacritic_fold() {
    assert_eq!(change_alias("M\u{1ed9}c Thi\u{ea}n"), "moc_thien");
}

#[test]
fn alias_collapses_and_trims_underscores() {
    assert_eq!(change_alias("  Hello,  World!! "), "hello_world");
    assert_eq!(change_alias("__a__b__"), "a_b");
    assert_eq!(change_alias(""), "");
    assert_eq!(change_alias("!!!"), "");
    assert_eq!(change_alias("One Piece 2"), "one_piece_2");
}

#[test]
fn id_encoding_round_trip() {
    let path = "https://chapmanganato.to/manga-aa951409/chapter-1";
    let id = encode_manga_id(path);
    assert!(!id.contains('/'));
    assert_eq!(decode_manga_id(&id), path);
    assert_eq!(encode_manga_id("a/b"), "a b");
    assert_eq!(decode_manga_id("a b"), "a/b");
}

#[test]
fn kakalot_urls() {
    let k = MangaKakalot::new();
    assert_eq!(k.name(), "MangaKakalot");
    assert_eq!(k.search_url(""), "https://mangakakalot.com/manga_list");
    assert_eq!(
        k.search_url("M\u{1ed9}c Thi\u{ea}n"),
        "https://mangakakalot.com/search/story/moc_thien"
    );
    assert_eq!(k.request_url("https: a b"), "https:/a/b");
}

#[test]
fn mangadex_urls() {
    let d = MangaDex::new();
    assert_eq!(d.name(), "MangaDex");
    assert_eq!(d.url(), "https://api.mangadex.org");
    assert_eq!(
        d.search_url("one"),
        "https://api.mangadex.org/manga?title=one&includes[]=cover_art&limit=50"
    );
    assert_eq!(
        d.manga_url("m1"),
        "https://api.mangadex.org/manga/m1?includes[]=cover_art"
    );
    assert_eq!(
        d.feed_url("m1"),
        "https://api.mangadex.org/chapter?limit=100&manga=m1&translatedLanguage[]=en&order[chapter]=desc"
    );
    assert_eq!(
        d.chapter_url("c1"),
        "https://api.mangadex.org/chapter/c1?includes[]=manga"
    );
    assert_eq!(
        d.at_home_url("c1"),
        "https://api.mangadex.org/at-home/server/c1"
    );
}

#[test]
fn search_covers_are_synthesized() {
    let d = MangaDex::new();
    let body = r#"{"result":"ok","data":[
        {"id":"m1","attributes":{"title":{"en":"One"},"description":{"en":"d1"}},
         "relationships":[{"type":"author"},{"type":"cover_art","attributes":{"fileName":"f1.jpg"}}]},
        {"id":"m2","attributes":{"title":{"en":"One Two"},"description":{}},
         "relationships":[]}
    ]}"#;
    let items = d.parse_search(body).unwrap();
    assert_eq!(items.len(), 2);
    assert_eq!(items[0].id, "m1");
    assert_eq!(items[0].title, "One");
    assert_eq!(items[0].description, "d1");
    assert_eq!(
        items[0].cover_url,
        "https://uploads.mangadex.org/covers/m1/f1.jpg.256.jpg"
    );
    // no cover relationship at all: empty file name, no fabricated one
    assert_eq!(
        items[1].cover_url,
        "https://uploads.mangadex.org/covers/m2/.256.jpg"
    );
    assert_eq!(items[1].description, "");
}

#[test]
fn localized_title_falls_back() {
    let d = MangaDex::new();
    let body = r#"{"data":[
        {"id":"a","attributes":{"title":{"jp":"\u540d\u524d"},"description":{}},"relationships":[]},
        {"id":"b","attributes":{"title":{},"description":{}},"relationships":[]}
    ]}"#;
    let items = d.parse_search(body).unwrap();
    assert_eq!(items[0].title, "\u{540d}\u{524d}");
    assert_eq!(items[1].title, "");
}

#[test]
fn localized_description_falls_back_too() {
    // the same fixed priority order covers descriptions: primary
    // locale, then secondary, then empty
    let d = MangaDex::new();
    let body = r#"{"data":[
        {"id":"a","attributes":{"title":{"en":"T"},"description":{"jp":"\u540d"}},"relationships":[]}
    ]}"#;
    let items = d.parse_search(body).unwrap();
    assert_eq!(items[0].description, "\u{540d}");
}

#[test]
fn search_error_kinds() {
    let d = MangaDex::new();
    assert_eq!(d.parse_search("not json").unwrap_err(), AdapterError::BadJson);
    assert_eq!(d.parse_search("{}").unwrap_err(), AdapterError::BadShape);
    // cover relationship present but without attributes: a hard shape failure
    let body = r#"{"data":[{"id":"m","attributes":{"title":{},"description":{}},
        "relationships":[{"type":"cover_art"}]}]}"#;
    assert_eq!(d.parse_search(body).unwrap_err(), AdapterError::BadShape);
}

#[test]
fn chapter_names_and_numbers() {
    let d = MangaDex::new();
    let manga_body = r#"{"data":{"id":"m1","attributes":{"title":{"en":"T"},"description":{}},"relationships":[]}}"#;
    let feed_body = r#"{"data":[
        {"id":"c1","attributes":{"volume":"2","chapter":"10"},"relationships":[]},
        {"id":"c2","attributes":{"volume":null,"chapter":"3"},"relationships":[]},
        {"id":"c3","attributes":{"volume":null,"chapter":"10.5"},"relationships":[]},
        {"id":"c4","attributes":{"volume":null,"chapter":null},"relationships":[]},
        {"id":"c5","attributes":{"volume":null,"chapter":"extra"},"relationships":[]}
    ]}"#;
    let m = d.parse_manga(manga_body, feed_body).unwrap();
    assert_eq!(m.desc.id, "m1");
    assert_eq!(m.chapters.len(), 5);
    assert_eq!(m.chapters[0].name, "Vol.2 Chap.10");
    assert_eq!(m.chapters[0].number.mantissa, 10);
    assert_eq!(m.chapters[0].number.scale, 0);
    // only a chapter label: no leading space
    assert_eq!(m.chapters[1].name, "Chap.3");
    assert_eq!(m.chapters[2].number.mantissa, 105);
    assert_eq!(m.chapters[2].number.scale, 1);
    // absent or non-numeric labels default to zero
    assert_eq!(m.chapters[3].name, "");
    assert_eq!(m.chapters[3].number.mantissa, 0);
    assert_eq!(m.chapters[4].number.mantissa, 0);
    assert!(m.chapters.iter().all(|c| c.read.is_none()));
}

#[test]
fn chapter_images_and_format() {
    let d = MangaDex::new();
    let chapter_long = r#"{"data":{"id":"c1","attributes":{"volume":null,"chapter":"1"},
        "relationships":[{"type":"scanlation_group"},
            {"type":"manga","attributes":{"tags":[
                {"attributes":{"name":{"en":"Action"}}},
                {"attributes":{"name":{"en":"Long Strip"}}}
            ]}}]}}"#;
    let at_home = r#"{"baseUrl":"https://x.org","chapter":{"hash":"h1","data":["1.png","2.png"]}}"#;
    let ci = d.parse_chapter(chapter_long, at_home).unwrap();
    assert_eq!(ci.format, Format::Long);
    assert_eq!(
        ci.images,
        vec![
            "https://x.org/data/h1/1.png".to_string(),
            "https://x.org/data/h1/2.png".to_string()
        ]
    );

    let chapter_normal = r#"{"data":{"id":"c1","attributes":{},
        "relationships":[{"type":"manga","attributes":{"tags":[]}}]}}"#;
    let ci2 = d.parse_chapter(chapter_normal, at_home).unwrap();
    assert_eq!(ci2.format, Format::Normal);

    // a chapter without its parent-manga relationship cannot be
    // classified: hard failure, not a silent default
    let chapter_bad = r#"{"data":{"id":"c1","attributes":{},"relationships":[]}}"#;
    assert_eq!(
        d.parse_chapter(chapter_bad, at_home).unwrap_err(),
        AdapterError::BadShape
    );
}

#[test]
fn scraped_search_rows() {
    let parts = vec![
        (
            Some("https://site/manga-1".to_string()),
            Some("Title One".to_string()),
            Some("https://cdn/c1.jpg".to_string()),
        ),
        (
            Some("https://site/manga-2".to_string()),
            Some("Title Two".to_string()),
            Some("https://cdn/c2.jpg".to_string()),
        ),
    ];
    let items = search_items_from_parts(parts).unwrap();
    assert_eq!(items[0].id, "https:  site manga-1");
    assert_eq!(items[0].title, "Title One");
    assert_eq!(items[0].description, "");
    assert_eq!(items[0].cover_url, "https://cdn/c1.jpg");
    assert_eq!(items[1].id, "https:  site manga-2");

    let bad = vec![(None, Some("t".to_string()), Some("c".to_string()))];
    assert!(search_items_from_parts(bad).is_err());
}

#[test]
fn scraped_chapter_rows_use_positions() {
    let rows = vec![
        (Some("https://site/ch-9".to_string()), Some("Chapter 9".to_string())),
        (Some("https://site/ch-8".to_string()), Some("Chapter 8".to_string())),
    ];
    let cs = chapters_from_parts(rows).unwrap();
    assert_eq!(cs[0].id, "https:  site ch-9");
    // the number is the row's display position, not the chapter's own
    // numbering: the newest chapter is number 0 whatever its label says
    assert_eq!(cs[0].number.mantissa, 0);
    assert_eq!(cs[1].number.mantissa, 1);
    assert!(cs[0].read.is_none());
}

#[test]
fn image_sources_filtered_and_rewritten() {
    let srcs = vec![
        Some("https://cdn/p1.jpg".to_string()),
        Some("https://tracker/a.log".to_string()),
        Some("https://convert_image_digi.mgicdn.com/img/p2.jpg".to_string()),
        None,
    ];
    let reqs = image_requests_from(srcs);
    assert_eq!(
        reqs,
        vec![
            "https://cdn/p1.jpg".to_string(),
            "https://images.weserv.nl/?url=convert_image_digi.mgicdn.com/img/p2.jpg".to_string(),
            // a missing attribute counts as an empty source and survives
            "".to_string(),
        ]
    );
    assert_eq!(
        rewrite_src(&"https://ordinary/img.png".to_string()),
        "https://ordinary/img.png"
    );
}

#[test]
fn images_inlined_as_data_uris() {
    let parts = vec![("image/png".to_string(), vec![1u8, 2, 3])];
    let ci = chapter_images_from_parts(parts);
    assert_eq!(ci.format, Format::Normal);
    assert_eq!(ci.images, vec!["data:image/png;base64,AQID".to_string()]);
}

#[test]
fn json_parser_accepts_documents() {
    assert!(parse_json("null").is_some());
    assert!(parse_json(" { \"a\" : [ 1 , 2.5e3 , \"x\" ] } ").is_some());
    assert!(parse_json("\"a\\nb\\u0041\"").is_some());
    match parse_json("\"\\ud83d\\ude00\"") {
        Some(Json::Str(s)) => assert_eq!(s, "\u{1F600}"),
        _ => panic!("surrogate pair not decoded"),
    }
    assert!(parse_json("").is_none());
    assert!(parse_json("{").is_none());
    assert!(parse_json("[1,]").is_none());
    assert!(parse_json("\"\\ud83d\"").is_none());
    assert!(parse_json("nul").is_none());
    assert!(parse_json("1 2").is_none());
}

#[test]
fn json_renders_and_reparses() {
    let v = Json::Obj(vec![
        ("k\"1".to_string(), Json::Arr(vec![Json::Null, Json::Bool(true), Json::Num("12".to_string())])),
        ("nl".to_string(), Json::Str("a\nb".to_string())),
    ]);
    let text = render_json(&v);
    assert_eq!(text, "{\"k\\\"1\":[null,true,12],\"nl\":\"a\\u000ab\"}");
    assert!(parse_json(&text).is_some());
}

#[test]
fn registry_names_in_order() {
    let c = bunni::connectors::Connectors::new();
    assert_eq!(c.len(), 2);
    assert_eq!(c.names(), vec!["MangaDex".to_string(), "MangaKakalot".to_string()]);
}

#[test]
fn scraped_search_page_end_to_end() {
    let page = "<html><body><div class=\"panel_story_list\"><div class=\"story_item\"><h3><a href=\"https://site/m1\">Title One</a></h3><img src=\"https://cdn/c1.jpg\"></div><div class=\"story_item\"><h3><a href=\"https://site/m2\">Title Two</a></h3><img src=\"https://cdn/c2.jpg\"></div></div></body></html>";
    let items = parse_search_page(page).unwrap();
    assert_eq!(items.len(), 2);
    assert_eq!(items[0].id, "https:  site m1");
    assert_eq!(items[0].title, "Title One");
    assert_eq!(items[0].description, "");
    assert_eq!(items[0].cover_url, "https://cdn/c1.jpg");
    assert_eq!(items[1].id, "https:  site m2");

    // a row without its cover image is a shape failure
    let bad = "<div class=\"panel_story_list\"><div class=\"story_item\"><h3><a href=\"x\">t</a></h3></div></div>";
    assert_eq!(parse_search_page(bad).unwrap_err(), AdapterError::BadShape);
}

#[test]
fn scraped_manga_page_end_to_end() {
    let page = "<html><body><div class=\"manga-info-top\"><div class=\"manga-info-pic\"><img src=\"https://cdn/cover.jpg\"></div><h1>Name</h1><div id=\"noidungm\">About it</div></div><div class=\"chapter-list\"><div class=\"row\"><a href=\"https://site/c2\">Chapter 2</a></div><div class=\"row\"><a href=\"https://site/c1\">Chapter 1</a></div></div></body></html>";
    let m = parse_manga_page(page, "https: site m1").unwrap();
    assert_eq!(m.desc.id, "https: site m1");
    assert_eq!(m.desc.title, "Name");
    assert_eq!(m.desc.description, "About it");
    assert_eq!(m.desc.cover_url, "https://cdn/cover.jpg");
    assert_eq!(m.chapters.len(), 2);
    assert_eq!(m.chapters[0].id, "https:  site c2");
    assert_eq!(m.chapters[0].name, "Chapter 2");
    assert_eq!(m.chapters[0].number.mantissa, 0);
    assert_eq!(m.chapters[1].number.mantissa, 1);

    // a missing description is empty, not an error
    let no_desc = "<div class=\"manga-info-top\"><div class=\"manga-info-pic\"><img src=\"https://cdn/cover.jpg\"></div><h1>Name</h1></div>";
    let m2 = parse_manga_page(no_desc, "id").unwrap();
    assert_eq!(m2.desc.description, "");
    assert!(m2.chapters.is_empty());

    // a page matching neither template fails cleanly
    assert_eq!(
        parse_manga_page("<html><body><p>404</p></body></html>", "id").unwrap_err(),
        AdapterError::BadShape
    );
}

#[test]
fn scraped_reader_page_end_to_end() {
    let page = "<div id=\"vungdoc\"><img src=\"https://cdn/p1.jpg\"><img src=\"https://tracker/a.log\"><img src=\"https://convert_image_digi.mgicdn.com/img/p2.jpg\"></div>";
    let reqs = image_request_urls(page);
    assert_eq!(
        reqs,
        vec![
            "https://cdn/p1.jpg".to_string(),
            "https://images.weserv.nl/?url=convert_image_digi.mgicdn.com/img/p2.jpg".to_string(),
        ]
    );
}

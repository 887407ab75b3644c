use emoji_picker::rank::rank;
use emoji_picker::rank::EmojiEntry;

fn catalog() -> Vec<EmojiEntry> {
    vec![
        EmojiEntry { name: "grinning face".to_string(), glyph: "😀".to_string() },
        EmojiEntry { name: "face with tears of joy".to_string(), glyph: "😂".to_string() },
        EmojiEntry { name: "grin".to_string(), glyph: "😁".to_string() },
    ]
}

#[test]
fn grin_query_filters_and_keeps_catalog_order_on_ties() {
    let c = catalog();
    let out = rank(&c, "grin");
    assert_eq!(out.len(), 2);
    assert_eq!(out[0].entry.name, "grinning face");
    assert_eq!(out[0].entry.glyph, "😀");
    assert_eq!(out[0].index, 0);
    assert_eq!(out[0].score, 0);
    assert_eq!(out[1].entry.name, "grin");
    assert_eq!(out[1].entry.glyph, "😁");
    assert_eq!(out[1].index, 2);
    assert_eq!(out[1].score, 0);
}

#[test]
fn non_matching_entry_is_excluded() {
    let out = rank(&catalog(), "gr");
    assert_eq!(out.len(), 2);
    assert!(out.iter().all(|r| r.entry.name != "face with tears of joy"));
}

#[test]
fn empty_query_keeps_the_full_catalog_in_order() {
    let c = catalog();
    let out = rank(&c, "");
    assert_eq!(out.len(), 3);
    for (i, r) in out.iter().enumerate() {
        assert_eq!(r.index, i);
        assert_eq!(r.score, 0);
        assert_eq!(r.entry.name, c[i].name);
        assert_eq!(r.entry.glyph, c[i].glyph);
    }
}

#[test]
fn lower_score_ranks_first() {
    let c = vec![
        EmojiEntry { name: "zzgrin".to_string(), glyph: "😁".to_string() },
        EmojiEntry { name: "grin".to_string(), glyph: "😀".to_string() },
    ];
    let out = rank(&c, "grin");
    assert_eq!(out.len(), 2);
    assert_eq!(out[0].entry.name, "grin");
    assert_eq!(out[0].score, 0);
    assert_eq!(out[1].entry.name, "zzgrin");
    assert_eq!(out[1].score, 2);
}

#[test]
fn ranking_is_stable_across_runs() {
    let c = catalog();
    let first = rank(&c, "f");
    let second = rank(&c, "f");
    assert_eq!(first.len(), second.len());
    for (a, b) in first.iter().zip(second.iter()) {
        assert_eq!(a.index, b.index);
        assert_eq!(a.score, b.score);
        assert_eq!(a.entry.name, b.entry.name);
        assert_eq!(a.entry.glyph, b.entry.glyph);
    }
}

use kbdgen_cli::index::{build_index, CorpusEntry, CorpusIndex};
use kbdgen_cli::names::{is_excluded, is_indexed, is_xml_named, locale_key_of, stem_of};
use kbdgen_cli::select::{canonical_files, select_by_lexicographic_max, sort_file_names};

fn entry(platform: &str, file_name: &str) -> CorpusEntry {
    CorpusEntry { platform: platform.to_string(), file_name: file_name.to_string() }
}

fn files_of<'a>(idx: &'a CorpusIndex, locale: &str, platform: &str) -> Option<Vec<String>> {
    for group in idx.locales.iter() {
        if group.locale.text == locale {
            for pf in group.platforms.iter() {
                if pf.platform.text == platform {
                    return Some(pf.files.clone());
                }
            }
        }
    }
    None
}

#[test]
fn stem_strips_the_extension() {
    assert_eq!(stem_of("se-t-k0-one.xml"), "se-t-k0-one");
    assert_eq!(stem_of("a.xml"), "a");
    assert_eq!(stem_of("x.y.xml"), "x.y");
    assert_eq!(stem_of(".xml"), ".xml");
    assert_eq!(stem_of("plain"), "plain");
}

#[test]
fn xml_naming_is_recognized() {
    assert!(is_xml_named("se.xml"));
    assert!(is_xml_named(".xml"));
    assert!(!is_xml_named("se.xm"));
    assert!(!is_xml_named("se.yaml"));
}

#[test]
fn locale_key_truncates_at_first_separator() {
    assert_eq!(locale_key_of("se-t-k0-one"), "se");
    assert_eq!(locale_key_of("sma-Latn-t-k0-mac"), "sma-Latn");
    assert_eq!(locale_key_of("en"), "en");
    assert_eq!(locale_key_of(""), "");
    assert_eq!(locale_key_of("-t"), "");
}

#[test]
fn exclusion_marker_is_the_leading_underscore() {
    assert!(is_excluded("_platform"));
    assert!(!is_excluded("se"));
    assert!(!is_excluded(""));
    assert!(is_indexed("se-t-k0-one.xml"));
    assert!(!is_indexed("_shared.xml"));
    assert!(!is_indexed("readme.txt"));
}

#[test]
fn scenario_two_platforms_one_locale() {
    // two win revisions and one mac revision of the same locale
    let entries = vec![
        entry("win", "se-t-k0-one.xml"),
        entry("win", "se-t-k0-two.xml"),
        entry("mac", "se-t-k0-one.xml"),
    ];
    let idx = build_index(&entries);
    assert_eq!(idx.locales.len(), 1);
    assert_eq!(idx.locales[0].locale.text, "se");
    assert_eq!(
        files_of(&idx, "se", "win").unwrap(),
        vec!["se-t-k0-one.xml".to_string(), "se-t-k0-two.xml".to_string()]
    );
    assert_eq!(files_of(&idx, "se", "mac").unwrap(), vec!["se-t-k0-one.xml".to_string()]);

    let group = idx.get_locale("se").unwrap();
    let canonical = canonical_files(group);
    assert_eq!(canonical.len(), 2);
    assert_eq!(canonical[0].platform.text, "win");
    assert_eq!(canonical[0].file, "se-t-k0-two.xml");
    assert_eq!(canonical[1].platform.text, "mac");
    assert_eq!(canonical[1].file, "se-t-k0-one.xml");
}

#[test]
fn excluded_stems_never_reach_the_index() {
    // files whose stem starts with the marker vanish, whatever the platform
    let entries = vec![
        entry("win", "_shared.xml"),
        entry("mac", "_shared.xml"),
        entry("win", "se-t-k0-one.xml"),
    ];
    let idx = build_index(&entries);
    assert_eq!(idx.locales.len(), 1);
    assert_eq!(idx.locales[0].locale.text, "se");
    assert_eq!(idx.locales[0].platforms.len(), 1);
    assert_eq!(idx.locales[0].platforms[0].platform.text, "win");
    assert_eq!(files_of(&idx, "se", "win").unwrap(), vec!["se-t-k0-one.xml".to_string()]);
    assert!(files_of(&idx, "_shared", "mac").is_none());
}

#[test]
fn all_excluded_corpus_gives_empty_index() {
    let entries = vec![entry("win", "_a.xml"), entry("mac", "_b.xml")];
    let idx = build_index(&entries);
    assert_eq!(idx.locales.len(), 0);
    assert!(idx.get_locale("_a").is_none());
}

#[test]
fn platform_with_no_surviving_files_never_appears() {
    // every file under `win` is excluded, so `win` appears under no locale
    let entries = vec![
        entry("win", "_one.xml"),
        entry("win", "_two.xml"),
        entry("mac", "se-t-k0-one.xml"),
        entry("chromeos", "nn-t-k0-chromeos.xml"),
    ];
    let idx = build_index(&entries);
    for group in idx.locales.iter() {
        for pf in group.platforms.iter() {
            assert_ne!(pf.platform.text, "win");
        }
    }
    assert!(files_of(&idx, "se", "mac").is_some());
    assert!(files_of(&idx, "nn", "chromeos").is_some());
}

#[test]
fn indexing_twice_gives_identical_indices() {
    // an unchanged corpus walked twice
    let entries = vec![
        entry("win", "se-t-k0-one.xml"),
        entry("mac", "se-t-k0-one.xml"),
        entry("win", "nn-t-k0-two.xml"),
    ];
    let a = build_index(&entries);
    let b = build_index(&entries);
    assert_eq!(a.locales.len(), b.locales.len());
    for (ga, gb) in a.locales.iter().zip(b.locales.iter()) {
        assert_eq!(ga.locale.text, gb.locale.text);
        assert_eq!(ga.platforms.len(), gb.platforms.len());
        for (pa, pb) in ga.platforms.iter().zip(gb.platforms.iter()) {
            assert_eq!(pa.platform.text, pb.platform.text);
            assert_eq!(pa.files, pb.files);
        }
    }
}

#[test]
fn walk_order_cannot_change_keys_or_files() {
    // the same corpus reported in another order
    let forward = vec![
        entry("win", "se-t-k0-one.xml"),
        entry("win", "se-t-k0-two.xml"),
        entry("mac", "se-t-k0-one.xml"),
    ];
    let backward = vec![
        entry("mac", "se-t-k0-one.xml"),
        entry("win", "se-t-k0-two.xml"),
        entry("win", "se-t-k0-one.xml"),
    ];
    let a = build_index(&forward);
    let b = build_index(&backward);
    let mut fa = files_of(&a, "se", "win").unwrap();
    let mut fb = files_of(&b, "se", "win").unwrap();
    fa.sort();
    fb.sort();
    assert_eq!(fa, fb);
    assert_eq!(files_of(&a, "se", "mac").unwrap(), files_of(&b, "se", "mac").unwrap());
}

#[test]
fn sorting_orders_candidates_ascending() {
    let pool = vec![
        "se-t-k0-two.xml".to_string(),
        "se-t-k0-one.xml".to_string(),
        "se-t-k0-three.xml".to_string(),
    ];
    let sorted = sort_file_names(&pool);
    assert_eq!(
        sorted,
        vec![
            "se-t-k0-one.xml".to_string(),
            "se-t-k0-three.xml".to_string(),
            "se-t-k0-two.xml".to_string(),
        ]
    );
    let empty: Vec<String> = Vec::new();
    assert!(sort_file_names(&empty).is_empty());
}

#[test]
fn canonical_choice_is_the_greatest_name() {
    // the same pool in any order selects the same, greatest name
    let pool = vec![
        "se-t-k0-two.xml".to_string(),
        "se-t-k0-one.xml".to_string(),
        "se-t-k0-three.xml".to_string(),
    ];
    assert_eq!(select_by_lexicographic_max(&pool), "se-t-k0-two.xml");
    let reversed: Vec<String> = pool.iter().rev().cloned().collect();
    assert_eq!(select_by_lexicographic_max(&reversed), "se-t-k0-two.xml");
    let single = vec!["nb-t-k0-android.xml".to_string()];
    assert_eq!(select_by_lexicographic_max(&single), "nb-t-k0-android.xml");
}

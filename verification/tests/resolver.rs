use kbdgen_cli::bundle::assemble_bundle;
use kbdgen_cli::index::LocaleKey;
use kbdgen_cli::layout::{place_definition, recognize_tag, resolve_modes, ModePayload,
    PlatformKind, UnifiedLayout};
use kbdgen_cli::lexord::{str_eq, str_le};

type Defs = Vec<(String, Option<ModePayload<String, String>>)>;

fn def(tag: &str, payload: Option<ModePayload<String, String>>) -> (
    String,
    Option<ModePayload<String, String>>,
) {
    (tag.to_string(), payload)
}

#[test]
fn lexicographic_order_on_names() {
    assert!(str_le("a", "b"));
    assert!(!str_le("b", "a"));
    assert!(str_le("a", "ab"));
    assert!(!str_le("ab", "a"));
    assert!(str_le("", "a"));
    assert!(str_le("same", "same"));
    assert!(str_le("se-t-k0-one.xml", "se-t-k0-two.xml"));
    assert!(str_eq("se", "se"));
    assert!(!str_eq("se", "sv"));
}

#[test]
fn tags_route_to_their_kinds() {
    assert!(matches!(recognize_tag("mobile"), Some(PlatformKind::Mobile)));
    assert!(matches!(recognize_tag("mac"), Some(PlatformKind::Mac)));
    assert!(matches!(recognize_tag("win"), Some(PlatformKind::Win)));
    assert!(matches!(recognize_tag("chrome"), Some(PlatformKind::Chrome)));
    assert!(recognize_tag("android").is_none());
    assert!(recognize_tag("Mobile").is_none());
    assert!(recognize_tag("").is_none());
}

#[test]
fn mobile_tag_fills_only_the_mobile_slot() {
    // a definition tagged "mobile" leaves every desktop slot empty
    let defs: Defs = vec![def("mobile", Some(ModePayload::Mobile("mobile modes".to_string())))];
    let layout = resolve_modes(defs);
    assert_eq!(layout.mobile, Some("mobile modes".to_string()));
    assert!(layout.mac.is_none());
    assert!(layout.win.is_none());
    assert!(layout.chrome.is_none());
}

#[test]
fn unrecognized_tags_are_dropped_silently() {
    // definitions with unknown tags leave the record unchanged
    let defs: Defs = vec![
        def("android", Some(ModePayload::Desktop("ignored".to_string()))),
        def("ios", None),
        def("", None),
    ];
    let layout = resolve_modes(defs);
    assert!(layout.mobile.is_none());
    assert!(layout.mac.is_none());
    assert!(layout.win.is_none());
    assert!(layout.chrome.is_none());
}

#[test]
fn each_recognized_tag_fills_its_own_slot() {
    let defs: Defs = vec![
        def("mobile", Some(ModePayload::Mobile("m".to_string()))),
        def("mac", Some(ModePayload::Desktop("d-mac".to_string()))),
        def("win", Some(ModePayload::Desktop("d-win".to_string()))),
        def("chrome", Some(ModePayload::Desktop("d-chrome".to_string()))),
        def("fancy", None),
    ];
    let layout = resolve_modes(defs);
    assert_eq!(layout.mobile, Some("m".to_string()));
    assert_eq!(layout.mac, Some("d-mac".to_string()));
    assert_eq!(layout.win, Some("d-win".to_string()));
    assert_eq!(layout.chrome, Some("d-chrome".to_string()));
}

#[test]
fn placing_routes_one_definition() {
    let mut layout: UnifiedLayout<String, String> = UnifiedLayout::empty();
    place_definition(&mut layout, "win", Some(ModePayload::Desktop("w".to_string())));
    assert_eq!(layout.win, Some("w".to_string()));
    assert!(layout.mobile.is_none());
    place_definition(&mut layout, "nope", Some(ModePayload::Desktop("x".to_string())));
    assert_eq!(layout.win, Some("w".to_string()));
    assert!(layout.mac.is_none());
    assert!(layout.chrome.is_none());
}

#[test]
fn bundle_wraps_one_locale() {
    let defs: Defs = vec![def("mac", Some(ModePayload::Desktop("d".to_string())))];
    let layout = resolve_modes(defs);
    let bundle = assemble_bundle(LocaleKey { text: "se".to_string() }, layout);
    assert_eq!(bundle.layouts.len(), 1);
    assert_eq!(bundle.layouts[0].0.text, "se");
    assert_eq!(bundle.layouts[0].1.mac, Some("d".to_string()));
    assert!(bundle.layouts[0].1.mobile.is_none());
}

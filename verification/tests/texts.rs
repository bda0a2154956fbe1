use tfm_core::digest::{hex_sha256, hex_text};
use tfm_core::path::{join, paths_equal};
use tfm_core::plugin::{
    language_to_tell, plugin_for_each, select_plugin, skips_directory, source_language, PluginError,
};
use tfm_core::text::{blank, decimal_text, text_eq, text_less};
use tfm_core::StringMap;

#[test]
fn fingerprints_are_sha256_in_hexadecimal() {
    assert_eq!(
        hex_sha256("Save"),
        "1509f561f2416598629b886ad7d3c05a7e221e4e0675c84bbff4ee6d9e03913d"
    );
    assert_eq!(
        hex_sha256("Зберегти"),
        "b42607446b6109ffa347b355e45e6452e425b804928f57429102905b33160595"
    );
}

#[test]
fn bytes_in_hexadecimal() {
    assert_eq!(hex_text(&vec![10, 20, 30, 0, 255]), "0a141e00ff");
    assert_eq!(hex_text(&vec![]), "");
}

#[test]
fn texts_are_ordered_like_str() {
    let texts = ["", "A", "Save", "Save changes", "a", "é", "я", "\u{ffff}", "\u{10000}"];
    for a in texts {
        for b in texts {
            assert_eq!(text_less(a, b), a < b);
            assert_eq!(text_eq(a, b), a == b);
        }
    }
}

#[test]
fn blank_texts_trim_to_nothing() {
    let texts = [
        "", " ", "\t\n\r\u{b}\u{c}", "\u{85}\u{a0}", "\u{1680}\u{2000}\u{200a}", "\u{2028}\u{2029}",
        "\u{202f}\u{205f}\u{3000}", "\u{200b}", "\u{180e}", "\u{1c}", "x", " x ", "я",
    ];
    for text in texts {
        assert_eq!(blank(text), text.trim().is_empty());
    }
}

#[test]
fn numerals() {
    for n in [0, 9, 10, 42, 100, 4294967295] {
        assert_eq!(decimal_text(n), n.to_string());
    }
}

#[test]
fn paths_are_compared_by_component() {
    let paths = [
        "", ".", "./", "/", "//", "a", "./a", "a/", "a/.", "/a", "/./a", "a/b", "a//b", "a/./b",
        "a/../b", "../a", ".a", "a.", "..", "a/b/", "./a/b", "src/main.rs", "src//main.rs",
    ];
    for a in paths {
        for b in paths {
            assert_eq!(
                paths_equal(a, b),
                std::path::Path::new(a) == std::path::Path::new(b)
            );
            assert_eq!(
                join(a, b).as_str(),
                std::path::Path::new(a).join(b).to_str().unwrap()
            );
        }
    }
}

#[test]
fn maps_keep_the_order_of_their_keys() {
    let mut map: StringMap<String> = StringMap::new();
    for key in ["b", "a", "ba", "", "b"] {
        map.insert(key.to_string(), format!("<{}>", map.len()));
    }
    assert_eq!(map.len(), 4);
    let keys: Vec<&str> = (0..map.len()).map(|i| map.key_at(i).as_str()).collect();
    assert_eq!(keys, vec!["", "a", "b", "ba"]);
    assert_eq!(map.value_at(2), "<4>");
    let copy = map.clone();
    map.remove("a");
    map.remove("missing");
    assert!(!map.contains_key("a"));
    assert_eq!(map.len(), 3);
    assert_eq!(copy.len(), 4);
    assert!(copy.get("a").is_some());
    assert!(copy != map);
}

#[test]
fn one_plugin_must_match() {
    let plugins: Vec<Vec<String>> = vec![
        vec!["rust".into()],
        vec!["typescript".into(), "tsx".into()],
        vec!["tsx".into()],
    ];
    assert_eq!(select_plugin(&plugins, "rust"), Ok(0));
    assert_eq!(select_plugin(&plugins, "typescript"), Ok(1));
    let none = select_plugin(&plugins, "javascript").unwrap_err();
    assert_eq!(none, PluginError::NoneMatches("javascript".into()));
    assert_eq!(none.message(), "no plugin supports javascript");
    let several = select_plugin(&plugins, "tsx").unwrap_err();
    assert_eq!(several, PluginError::SeveralMatch("tsx".into()));
    assert_eq!(several.message(), "more than one plugin supports tsx");
    assert_eq!(plugin_for_each(&plugins, "typescript"), Ok(Some(1)));
    assert_eq!(plugin_for_each(&plugins, "javascript"), Ok(None));
    assert_eq!(plugin_for_each(&plugins, "tsx"), Err(several));
}

#[test]
fn languages_and_skipped_directories() {
    assert_eq!(source_language("rs"), Some("rust".into()));
    assert_eq!(source_language("js"), Some("javascript".into()));
    assert_eq!(source_language("ts"), Some("typescript".into()));
    assert_eq!(source_language("tsx"), Some("tsx".into()));
    assert_eq!(source_language("md"), None);
    assert_eq!(language_to_tell(Some("ts")), "typescript");
    assert_eq!(language_to_tell(Some("md")), "rust");
    assert_eq!(language_to_tell(None), "rust");
    for name in [".git", ".l10n", "node_modules", "target"] {
        assert!(skips_directory(name));
    }
    assert!(!skips_directory("src"));
}

use pool_api::codec::hex_to_ascii_lossy;
use pool_api::strmap::StrMap;
use pool_api::text::decimal_string;

#[test]
fn coinbase_bytes_render_printable_text_and_markers() {
    assert_eq!(hex_to_ascii_lossy("41422043"), "AB C");
    assert_eq!(hex_to_ascii_lossy("0041ff"), ".A.");
    assert_eq!(hex_to_ascii_lossy("f09f8cb8"), "🌸");
    assert_eq!(hex_to_ascii_lossy("f09f"), "..");
    assert_eq!(hex_to_ascii_lossy("zz"), "");
    assert_eq!(hex_to_ascii_lossy("414"), "");
}

#[test]
fn decimal_text_of_integers() {
    assert_eq!(decimal_string(0), "0");
    assert_eq!(decimal_string(-45), "-45");
    assert_eq!(decimal_string(i128::MIN), i128::MIN.to_string());
}

#[test]
fn text_map_behaves_as_a_hash_map() {
    let mut m: StrMap<u64> = StrMap::new();
    m.insert("a".to_string(), 1);
    m.insert("b".to_string(), 2);
    m.insert("a".to_string(), 3);
    assert_eq!(m.len(), 2);
    assert_eq!(m.get("a"), Some(&3));
    assert_eq!(m.get("c"), None);
    assert_eq!(m.entries()[0].0, "a");
}

#[test]
fn printable_text_survives_hex_and_back() {
    for s in ["Mined by someminer", " /NiceHash/ ", "~!@#$%^&*()", ""] {
        assert_eq!(hex_to_ascii_lossy(&hex::encode(s)), s);
    }
    // Every rendered character is printable or a visible non-ASCII one, and
    // there are never more characters than bytes.
    let out = hex_to_ascii_lossy("00f09f8cb80a41e2");
    assert_eq!(out, ".🌸.A.");
    assert!(out.chars().count() <= 8);
}

use tokenize::gpu::{gpu_info, gpu_state, is_available, GpuState};
use tokenize::util::{is_cjk, xml_escape, xml_unescape};

#[test]
fn add_core_basic() {
    assert_eq!(tokenize::add_core(2, 2), 4);
}

#[test]
fn cjk_characters() {
    assert!(is_cjk('中'));
    assert!(is_cjk('한'));
    assert!(!is_cjk('a'));
}

#[test]
fn xml_round_trip() {
    let s = "a < b & \"c\" | [d]";
    let e = xml_escape(s);
    assert_eq!(e, "a &lt; b &amp; &quot;c&quot; &#124; &#91;d&#93;");
    assert_eq!(xml_unescape(&e), s);
}

#[test]
fn gpu_is_unavailable() {
    assert!(!is_available());
    let GpuState::Unavailable(reason) = gpu_state();
    assert!(reason.contains("rayon"));
    assert!(gpu_info().starts_with("{\"available\": false, \"reason\": \"gpu feature removed"));
}

#[test]
fn xml_round_trip_of_entities() {
    let s = "&amp; &lt;x&gt; 'q' ]]";
    assert_eq!(xml_unescape(&xml_escape(s)), s);
    assert_eq!(xml_escape("&lt;"), "&amp;lt;");
}

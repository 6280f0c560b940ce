use c_emit::escape::{
    _string_from_escape_to_c_ansi_id, _string_to_escape_to_c_ansi_id, format_to_escape_replace,
    get_temp_variable_name, string_from_escape_to_c_ansi_id, string_to_escape_to_c_ansi_id,
};

#[test]
fn test_string_escape_to_c_ansi_id() {
    assert_eq!(_string_to_escape_to_c_ansi_id("abc"), "abc");
    assert_eq!(_string_to_escape_to_c_ansi_id("ab_c"), "ab_X5F_c");
    assert_eq!(_string_to_escape_to_c_ansi_id("a b c"), "a_X20_b_X20_c");
    assert_eq!(
        _string_to_escape_to_c_ansi_id("a b c!"),
        "a_X20_b_X20_c_X21_"
    );
    assert_eq!(_string_to_escape_to_c_ansi_id("🈶🍤"), "_X1F236__X1F364_");
    assert_eq!(
        _string_to_escape_to_c_ansi_id("#:lam1-x"),
        "_X23__X3A_lam1_X2D_x"
    );
    assert_eq!(
        _string_to_escape_to_c_ansi_id("#:lam1-y"),
        "_X23__X3A_lam1_X2D_y"
    );
}

#[test]
fn test_string_from_escape_to_c_ansi_id() {
    assert_eq!(_string_from_escape_to_c_ansi_id("abc"), "abc");
    assert_eq!(_string_from_escape_to_c_ansi_id("ab_X5F_c"), "ab_c");
    assert_eq!(_string_from_escape_to_c_ansi_id("a_X20_b_X20_c"), "a b c");
    assert_eq!(
        _string_from_escape_to_c_ansi_id("a_X20_b_X20_c_X21_"),
        "a b c!"
    );
    assert_eq!(_string_from_escape_to_c_ansi_id("_X1F236__X1F364_"), "🈶🍤");
    assert_eq!(
        _string_from_escape_to_c_ansi_id("_X23__X003A_lam1_X2D_x"),
        "#:lam1-x"
    );
    assert_eq!(
        _string_from_escape_to_c_ansi_id("_X23__X003A_lam1_X2D_y"),
        "#:lam1-y"
    );
}

#[test]
fn test_format_to_escape_replace() {
    assert_eq!(
        format_to_escape_replace("hi", "Hello, {_a_b_C}!".to_string()),
        "Hello, hi_MM__X5F_a_X5F_b_X5F_C!"
    );
}

#[test]
fn round_trip_concrete() {
    let cases = ["", "abc", "ab_c", "a b c!", "🈶🍤", "#:lam1-x", "_X20_", "_MM_", "+-*/"];
    for s in cases {
        assert_eq!(
            _string_from_escape_to_c_ansi_id(&_string_to_escape_to_c_ansi_id(s)),
            s
        );
    }
}

#[test]
fn mangling_is_deterministic() {
    let a = string_to_escape_to_c_ansi_id("mod one", "name-1");
    let b = string_to_escape_to_c_ansi_id("mod one", "name-1");
    assert_eq!(a, b);
    assert_eq!(a, "mod_X20_one_MM_name_X2D_1");
}

#[test]
fn qualified_name_splits_back() {
    let q = string_to_escape_to_c_ansi_id("util", "my name");
    assert_eq!(q, "util_MM_my_X20_name");
    let (m, n) = string_from_escape_to_c_ansi_id(&q);
    assert_eq!(m, "util");
    assert_eq!(n, "my name");
}

#[test]
fn decode_failure_degrades_to_passthrough() {
    // a payload that is not hexadecimal
    assert_eq!(_string_from_escape_to_c_ansi_id("_XZZ_"), "_XZZ_");
    // an empty payload
    assert_eq!(_string_from_escape_to_c_ansi_id("_X_"), "_X_");
    // a surrogate code point, not a valid char
    assert_eq!(_string_from_escape_to_c_ansi_id("_XD800_"), "_XD800_");
    // a value beyond the code point range
    assert_eq!(_string_from_escape_to_c_ansi_id("_X110000_"), "_X110000_");
    // a payload too large for 32 bits
    assert_eq!(
        _string_from_escape_to_c_ansi_id("_X123456789AB_"),
        "_X123456789AB_"
    );
    // an underscore not opening an escape passes through
    assert_eq!(_string_from_escape_to_c_ansi_id("_Y"), "_Y");
    assert_eq!(_string_from_escape_to_c_ansi_id("_"), "_");
    // an unterminated bad escape is re-emitted unchanged, without a
    // fabricated terminator
    assert_eq!(_string_from_escape_to_c_ansi_id("_XZZ"), "_XZZ");
    // an unterminated escape with a valid payload still decodes
    assert_eq!(_string_from_escape_to_c_ansi_id("_X41"), "A");
}

#[test]
fn qualified_split_is_escape_aware() {
    // the module text itself ends in `MM`, so the raw text holds an
    // earlier `_MM_` substring; the escape-aware scan still splits right
    let q = string_to_escape_to_c_ansi_id(" MM", "x");
    assert_eq!(q, "_X20_MM_MM_x");
    let (m, n) = string_from_escape_to_c_ansi_id(&q);
    assert_eq!(m, " MM");
    assert_eq!(n, "x");
    // a passthrough character right after an escape closer
    let q2 = string_to_escape_to_c_ansi_id("€M", "y z");
    let (m2, n2) = string_from_escape_to_c_ansi_id(&q2);
    assert_eq!(m2, "€M");
    assert_eq!(n2, "y z");
}

#[test]
fn format_replace_handles_several_names() {
    assert_eq!(
        format_to_escape_replace("m", "{a} + {b} + {a}".to_string()),
        "m_MM_a + m_MM_b + m_MM_a"
    );
    assert_eq!(format_to_escape_replace("m", "no braces".to_string()), "no braces");
}

#[test]
fn temp_names_are_fresh_and_qualified() {
    let a = get_temp_variable_name("ns");
    let b = get_temp_variable_name("ns");
    assert!(a.starts_with("ns_MM__X5F_tmp_X5F_"));
    assert!(b.starts_with("ns_MM__X5F_tmp_X5F_"));
    assert_ne!(a, b);
    let other = c_emit::rand_id_generation::get_temp_variable_name();
    assert!(other.starts_with("_tmp_"));
}

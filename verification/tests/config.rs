//! Reading the configuration.

use cull::config::{
    ConfigError, Order, RawConfig, DEFAULT_BIND_ADDR, DEFAULT_SOURCE_DIR, DEFAULT_TZ_OFFSET_HOURS,
    DEFAULT_UNDO_DEPTH,
};
use std::collections::HashMap;

fn getter(pairs: &[(&str, &str)]) -> impl Fn(&str) -> Option<String> {
    let map: HashMap<String, String> = pairs
        .iter()
        .map(|(k, v)| (k.to_string(), v.to_string()))
        .collect();
    move |key: &str| map.get(key).cloned()
}

/// Whether a text is four numbers and a port.
fn is_addr(text: &str) -> bool {
    match text.rsplit_once(':') {
        Some((host, port)) => {
            host.split('.').count() == 4
                && host.split('.').all(|n| n.parse::<u8>().is_ok())
                && port.parse::<u16>().is_ok()
        }
        None => false,
    }
}

fn load(pairs: &[(&str, &str)]) -> Result<RawConfig, ConfigError> {
    RawConfig::load(getter(pairs), is_addr)
}

fn strings(texts: &[&str]) -> Vec<String> {
    texts.iter().map(|t| t.to_string()).collect()
}

#[test]
fn defaults_apply_when_unset() {
    let cfg = load(&[]).expect("defaults must parse");
    assert_eq!(cfg.source_dir, DEFAULT_SOURCE_DIR.as_bytes());
    assert_eq!(
        cfg.keep_dir,
        format!("{DEFAULT_SOURCE_DIR}/keep").as_bytes()
    );
    assert_eq!(
        cfg.trash_dir,
        format!("{DEFAULT_SOURCE_DIR}/trash").as_bytes()
    );
    assert_eq!(cfg.order, Order::Asc);
    assert_eq!(cfg.undo_depth, DEFAULT_UNDO_DEPTH);
    assert!(cfg.bind_addr.ends_with(":8080"));
    assert_eq!(cfg.extensions, strings(&["jpeg", "jpg", "png", "webp"]));
}

#[test]
fn default_values_are_as_documented() {
    let cfg = load(&[]).unwrap();
    assert_eq!(cfg.source_dir, b"/data/images");
    assert_eq!(cfg.undo_depth, 50);
    assert_eq!(cfg.bind_addr, "0.0.0.0:8080");
    assert_eq!(cfg.bind_addr, DEFAULT_BIND_ADDR);
    assert_eq!(cfg.tz_offset_hours, 0);
}

#[test]
fn empty_variables_count_as_unset() {
    let cfg = load(&[
        ("SOURCE_DIR", ""),
        ("KEEP_DIR", ""),
        ("TRASH_DIR", ""),
        ("ORDER", ""),
        ("EXTENSIONS", ""),
        ("UNDO_DEPTH", ""),
        ("BIND_ADDR", ""),
        ("TZ_OFFSET_HOURS", ""),
    ])
    .unwrap();
    assert_eq!(cfg.source_dir, b"/data/images");
    assert_eq!(cfg.keep_dir, b"/data/images/keep");
    assert_eq!(cfg.extensions.len(), 4);
    assert_eq!(cfg.undo_depth, 50);
}

#[test]
fn keep_trash_default_to_source_children() {
    let cfg = load(&[("SOURCE_DIR", "/data/out")]).unwrap();
    assert_eq!(cfg.keep_dir, b"/data/out/keep");
    assert_eq!(cfg.trash_dir, b"/data/out/trash");
}

#[test]
fn trailing_slash_of_source_is_not_doubled() {
    let cfg = load(&[("SOURCE_DIR", "/data/out/")]).unwrap();
    assert_eq!(cfg.keep_dir, b"/data/out/keep");
}

#[test]
fn explicit_keep_trash_override() {
    let cfg = load(&[
        ("SOURCE_DIR", "/data/out"),
        ("KEEP_DIR", "/elsewhere/k"),
        ("TRASH_DIR", "/elsewhere/t"),
    ])
    .unwrap();
    assert_eq!(cfg.keep_dir, b"/elsewhere/k");
    assert_eq!(cfg.trash_dir, b"/elsewhere/t");
}

#[test]
fn order_parsing_is_case_insensitive() {
    assert_eq!(load(&[("ORDER", "DESC")]).unwrap().order, Order::Desc);
    assert_eq!(load(&[("ORDER", " asc ")]).unwrap().order, Order::Asc);
}

#[test]
fn invalid_order_rejected() {
    let err = load(&[("ORDER", "sideways")]).unwrap_err();
    assert!(matches!(err, ConfigError::InvalidOrder(_)));
}

#[test]
fn rejected_order_is_trimmed_and_lowered() {
    let err = load(&[("ORDER", " SideWays ")]).unwrap_err();
    assert_eq!(err, ConfigError::InvalidOrder("sideways".to_string()));
}

#[test]
fn extensions_normalized() {
    let cfg = load(&[("EXTENSIONS", " .PNG, JPG ,,jpg")]).unwrap();
    assert_eq!(cfg.extensions, strings(&["jpg", "png"]));
}

#[test]
fn extensions_lose_dots_and_white_space_in_any_order() {
    let cfg = load(&[("EXTENSIONS", ". png, . .WebP ,..,  .")]).unwrap();
    assert_eq!(cfg.extensions, strings(&["png", "webp"]));
    assert!(matches!(
        load(&[("EXTENSIONS", " . ,.. .")]).unwrap_err(),
        ConfigError::EmptyExtensions
    ));
}

#[test]
fn empty_extensions_rejected() {
    let err = load(&[("EXTENSIONS", " , ,")]).unwrap_err();
    assert!(matches!(err, ConfigError::EmptyExtensions));
}

#[test]
fn undo_depth_must_be_positive_integer() {
    assert!(matches!(
        load(&[("UNDO_DEPTH", "0")]).unwrap_err(),
        ConfigError::InvalidUndoDepth(_)
    ));
    assert!(matches!(
        load(&[("UNDO_DEPTH", "abc")]).unwrap_err(),
        ConfigError::InvalidUndoDepth(_)
    ));
    assert_eq!(load(&[("UNDO_DEPTH", "10")]).unwrap().undo_depth, 10);
}

#[test]
fn undo_depth_beyond_the_machine_is_rejected() {
    assert_eq!(
        load(&[("UNDO_DEPTH", "99999999999999999999999")]).unwrap_err(),
        ConfigError::InvalidUndoDepth("99999999999999999999999".to_string())
    );
    assert_eq!(load(&[("UNDO_DEPTH", " +7 ")]).unwrap().undo_depth, 7);
}

#[test]
fn tz_offset_parsed_and_bounded() {
    assert_eq!(
        load(&[]).unwrap().tz_offset_hours,
        DEFAULT_TZ_OFFSET_HOURS
    );
    assert_eq!(
        load(&[("TZ_OFFSET_HOURS", "9")]).unwrap().tz_offset_hours,
        9
    );
    assert_eq!(
        load(&[("TZ_OFFSET_HOURS", "-5")]).unwrap().tz_offset_hours,
        -5
    );
    assert!(matches!(
        load(&[("TZ_OFFSET_HOURS", "540")]).unwrap_err(),
        ConfigError::InvalidTzOffset(_)
    ));
    assert!(matches!(
        load(&[("TZ_OFFSET_HOURS", "jst")]).unwrap_err(),
        ConfigError::InvalidTzOffset(_)
    ));
}

#[test]
fn tz_offset_bounds_are_inclusive() {
    assert_eq!(
        load(&[("TZ_OFFSET_HOURS", "26")]).unwrap().tz_offset_hours,
        26
    );
    assert_eq!(
        load(&[("TZ_OFFSET_HOURS", "-26")]).unwrap().tz_offset_hours,
        -26
    );
    assert!(load(&[("TZ_OFFSET_HOURS", "27")]).is_err());
    assert!(load(&[("TZ_OFFSET_HOURS", "-9223372036854775808")]).is_err());
}

#[test]
fn invalid_bind_addr_rejected() {
    assert!(matches!(
        load(&[("BIND_ADDR", "not-an-addr")]).unwrap_err(),
        ConfigError::InvalidBindAddr(_)
    ));
}

#[test]
fn first_variable_in_error_decides() {
    let err = load(&[
        ("ORDER", "up"),
        ("EXTENSIONS", ","),
        ("UNDO_DEPTH", "0"),
        ("BIND_ADDR", "x"),
        ("TZ_OFFSET_HOURS", "99"),
    ])
    .unwrap_err();
    assert_eq!(err, ConfigError::InvalidOrder("up".to_string()));
    let err = load(&[("BIND_ADDR", "x"), ("TZ_OFFSET_HOURS", "99")]).unwrap_err();
    assert_eq!(err, ConfigError::InvalidBindAddr("x".to_string()));
}

#[test]
fn messages_quote_the_value() {
    assert_eq!(
        ConfigError::InvalidOrder("side\"ways".to_string()).message(),
        "ORDER must be 'asc' or 'desc', got \"side\\\"ways\""
    );
    assert_eq!(
        load(&[("EXTENSIONS", ",")]).unwrap_err().message(),
        "EXTENSIONS resolved to an empty set"
    );
    assert_eq!(
        load(&[("UNDO_DEPTH", "abc")]).unwrap_err().message(),
        "UNDO_DEPTH must be a positive integer, got \"abc\""
    );
    assert_eq!(
        load(&[("BIND_ADDR", "nope")]).unwrap_err().message(),
        "BIND_ADDR is not a valid socket address: \"nope\""
    );
    assert_eq!(
        load(&[("TZ_OFFSET_HOURS", "jst")]).unwrap_err().message(),
        "TZ_OFFSET_HOURS must be an integer between -26 and 26, got \"jst\""
    );
}

use memory_core::dates::{ago_words, calculate_time_ago, format_date, time_ago_at};
use memory_core::entity::infer_entity_type;
use memory_core::relation::{normalize_lowered, normalize_relation};
use memory_core::relation_types;
use memory_core::segment::simple_segment;
use memory_core::text::{chars_of, contains_chars, trim_chars, utf8_len_of};
use memory_core::types::EntityType;

#[test]
fn test_normalize_relation() {
    assert_eq!(normalize_relation("之前"), relation_types::BEFORE);
    assert_eq!(normalize_relation("因为"), relation_types::BECAUSE);
    assert_eq!(normalize_relation("custom"), "custom");
}

#[test]
fn normalize_relation_lowers_and_trims() {
    assert_eq!(normalize_relation("  Custom_Rel "), "custom_rel");
    assert_eq!(normalize_relation(" 在 "), relation_types::LOCATED_AT);
    assert_eq!(normalize_relation("所以"), relation_types::AS_RESULT);
    assert_eq!(normalize_lowered("晚于"), relation_types::AFTER);
    assert_eq!(normalize_lowered("ABC"), "ABC");
}

#[test]
fn test_infer_entity_type() {
    assert_eq!(infer_entity_type("我的朋友张三"), EntityType::Person);
    assert_eq!(infer_entity_type("北京的公园"), EntityType::Place);
    assert_eq!(infer_entity_type("今天下午"), EntityType::Time);
    assert_eq!(infer_entity_type("一本书"), EntityType::Other);
}

#[test]
fn person_words_win_over_place_words() {
    assert_eq!(infer_entity_type("我家"), EntityType::Person);
    assert_eq!(infer_entity_type("家"), EntityType::Place);
    assert_eq!(infer_entity_type(""), EntityType::Other);
}

#[test]
fn test_format_date() {
    assert_eq!(format_date("2026-01-15-10-30"), "2026-01-15");
    assert_eq!(format_date("invalid"), "未知日期");
}

#[test]
fn format_date_needs_three_fields() {
    assert_eq!(format_date("2026-01"), "未知日期");
    assert_eq!(format_date("2026-01-15"), "2026-01-15");
    assert_eq!(format_date("a-b-c-d"), "a-b-c");
}

#[test]
fn time_ago_buckets() {
    let t: i64 = 1768473000; // 2026-01-15 10:30 UTC
    assert_eq!(time_ago_at("2026-01-15-10-30", t), "刚刚");
    assert_eq!(time_ago_at("2026-01-15-10-30", t - 100), "刚刚");
    assert_eq!(time_ago_at("2026-01-15-10-30", t + 59), "刚刚");
    assert_eq!(time_ago_at("2026-01-15-10-30", t + 5 * 60), "5分钟前");
    assert_eq!(time_ago_at("2026-01-15-10-30", t + 5 * 3600), "5小时前");
    assert_eq!(time_ago_at("2026-01-15-10-30", t + 3 * 86400), "3天前");
    assert_eq!(time_ago_at("2026-01-15-10-30", t + 15 * 86400), "2周前");
    assert_eq!(time_ago_at("2026-01-15-10-30", t + 65 * 86400), "2个月前");
}

#[test]
fn time_ago_rejects_bad_stamps() {
    assert_eq!(time_ago_at("2026-01-15", 0), "未知时间");
    assert_eq!(time_ago_at("2026-13-15-10-30", 0), "未知时间");
    assert_eq!(time_ago_at("2026-02-30-10-30", 0), "未知时间");
    // fields that are no numbers fall back to 2026-01-01 00:00
    assert_eq!(time_ago_at("x-x-x-x-x", 1767225600 + 7200), "2小时前");
    assert!(!calculate_time_ago("2020-01-01-00-00").is_empty());
}

#[test]
fn ago_words_exact() {
    assert_eq!(ago_words(3600 * 23), "23小时前");
    assert_eq!(ago_words(86400 * 27), "3周前");
    assert_eq!(ago_words(86400 * 400), "13个月前");
}

#[test]
fn text_helpers() {
    let v = chars_of("  你好 世界\u{3000}");
    assert_eq!(trim_chars(&v).iter().collect::<String>(), "你好 世界");
    assert_eq!(utf8_len_of(&chars_of("a家é")), 1 + 3 + 2);
    assert!(contains_chars(&chars_of("我的朋友"), &chars_of("朋友")));
    assert!(!contains_chars(&chars_of("朋"), &chars_of("朋友")));
    assert!(contains_chars(&chars_of("x"), &chars_of("")));
}

#[test]
fn segments_split_on_delimiters() {
    let segs = simple_segment(&chars_of("我的朋友张三，去了公园。 今天\"下午\"(好)"));
    assert_eq!(segs, vec!["我的朋友张三", "去了公园", "今天", "下午", "好"]);
    assert!(simple_segment(&chars_of("，。 ,")).is_empty());
}

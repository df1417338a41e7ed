use ll::chars::{chars_less, is_whitespace, push_decimal, push_signed_decimal, str_less, to_chars};
use ll::data::{Data, DataEntry, DataValue};
use ll::level::Level;
use ll::types::Tags;
use ll::utils::{extract_log_level_from_tags, extract_tags};

fn keys(data: &Data) -> Vec<String> {
    let mut v = vec![];
    for i in 0..data.len() {
        v.push(data.key_at(i).clone());
    }
    v
}

fn listing(data: &Data) -> Vec<String> {
    let mut v = vec![];
    for i in 0..data.len() {
        v.push(format!(
            "{}={} [{}]",
            data.key_at(i),
            data.entry_at(i).0.text(),
            data.entry_at(i).1.to_vec().join(",")
        ));
    }
    v
}

#[test]
fn tags_are_a_sorted_set() {
    let mut tags = Tags::new();
    assert_eq!(tags.len(), 0);
    tags.insert("trace".to_string());
    tags.insert("dontprint".to_string());
    tags.insert("trace".to_string());
    tags.insert("a".to_string());
    assert_eq!(tags.to_vec(), vec!["a", "dontprint", "trace"]);
    assert_eq!(tags.len(), 3);
    assert!(tags.contains("dontprint"));
    assert!(!tags.contains("dont"));
    assert_eq!(tags.get(1), "dontprint");
    assert_eq!(tags.clone_tags().to_vec(), tags.to_vec());
}

#[test]
fn extract_tags_keeps_untagged_names_as_given() {
    let (name, tags) = extract_tags("  plain name  ".to_string());
    assert_eq!(name, "  plain name  ");
    assert_eq!(tags.len(), 0);

    let (name, tags) = extract_tags("name # # ".to_string());
    assert_eq!(name, "name # # ");
    assert_eq!(tags.len(), 0);
}

#[test]
fn extract_tags_round_trip() {
    let (name, tags) = extract_tags("work #l2 #dontprint #another tag".to_string());
    assert_eq!(name, "work");
    assert_eq!(tags.to_vec(), vec!["another tag", "dontprint", "l2"]);

    let (name, tags) = extract_tags("a:b c #x".to_string());
    assert_eq!(name, "a:b c");
    assert_eq!(tags.to_vec(), vec!["x"]);
}

#[test]
fn extract_tags_trims_unicode_white_space() {
    let (name, tags) = extract_tags("\u{a0}name\t#\u{2003}tag\u{3000}#\u{85}".to_string());
    assert_eq!(name, "name");
    assert_eq!(tags.to_vec(), vec!["tag"]);
    assert!(is_whitespace('\u{2028}'));
    assert!(!is_whitespace('\u{200b}'));
    assert!(!is_whitespace('x'));
}

#[test]
fn level_of_tags_is_the_most_important() {
    let (_, tags) = extract_tags("x #trace #info".to_string());
    assert_eq!(extract_log_level_from_tags(&tags), Some(Level::Info));
    let (_, tags) = extract_tags("x #trace #debug".to_string());
    assert_eq!(extract_log_level_from_tags(&tags), Some(Level::Debug));
    let (_, tags) = extract_tags("x #other".to_string());
    assert_eq!(extract_log_level_from_tags(&tags), None);
    assert!(Level::Info.at_most(Level::Info));
    assert!(Level::Debug.at_most(Level::Trace));
    assert!(!Level::Trace.at_most(Level::Debug));
}

#[test]
fn strings_are_ordered_by_code_point() {
    assert!(str_less("a", "b"));
    assert!(str_less("a", "ab"));
    assert!(!str_less("ab", "a"));
    assert!(!str_less("a", "a"));
    assert!(str_less("", "a"));
    assert!(str_less("Z", "a"));
    assert!(str_less("z", "\u{e9}"));
    assert!(chars_less(&to_chars("abc"), &to_chars("abd")));
    assert_eq!(to_chars("h\u{e9}!"), vec!['h', '\u{e9}', '!']);
}

#[test]
fn integers_are_shown_in_decimal() {
    let mut s = String::from("n=");
    push_decimal(&mut s, 0);
    s.push(' ');
    push_decimal(&mut s, 1234567890);
    s.push(' ');
    push_decimal(&mut s, u64::MAX);
    assert_eq!(s, "n=0 1234567890 18446744073709551615");

    let mut s = String::new();
    push_signed_decimal(&mut s, -42);
    s.push(' ');
    push_signed_decimal(&mut s, i64::MIN);
    s.push(' ');
    push_signed_decimal(&mut s, i64::MAX);
    assert_eq!(s, "-42 -9223372036854775808 9223372036854775807");
}

#[test]
fn data_values_have_a_text() {
    assert_eq!(DataValue::String("hi".to_string()).text(), "hi");
    assert_eq!(DataValue::Int(-5).text(), "-5");
    assert_eq!(DataValue::Float("5.98".to_string()).text(), "5.98");
    assert_eq!(DataValue::Nothing.text(), "");
    assert_eq!(DataValue::from_bool(true).text(), "true");
    assert_eq!(DataValue::from_bool(false).text(), "false");
    assert_eq!(DataValue::from_option(Some("x".to_string())).text(), "x");
    assert!(matches!(DataValue::from_option(None), DataValue::Nothing));
    assert_eq!(DataValue::Int(7).clone_value().text(), "7");
}

#[test]
fn data_values_come_from_strings_and_integers() {
    assert_eq!(DataValue::from("s".to_string()).text(), "s");
    assert_eq!(DataValue::from(&"r".to_string()).text(), "r");
    assert_eq!(DataValue::from(Some("o".to_string())).text(), "o");
    assert!(matches!(DataValue::from(None::<String>), DataValue::Nothing));
    assert!(matches!(DataValue::from(-8i8), DataValue::Int(-8)));
    assert!(matches!(DataValue::from(-16i16), DataValue::Int(-16)));
    assert!(matches!(DataValue::from(-32i32), DataValue::Int(-32)));
    assert!(matches!(DataValue::from(i64::MIN), DataValue::Int(i64::MIN)));
    assert!(matches!(DataValue::from(-5isize), DataValue::Int(-5)));
    assert!(matches!(DataValue::from(8u8), DataValue::Int(8)));
    assert!(matches!(DataValue::from(16u16), DataValue::Int(16)));
    assert!(matches!(DataValue::from(32u32), DataValue::Int(32)));
    assert!(matches!(DataValue::from(64u64), DataValue::Int(64)));
    assert!(matches!(DataValue::from(u64::MAX), DataValue::Int(-1)));
    assert!(matches!(DataValue::from(1u64 << 63), DataValue::Int(i64::MIN)));
    assert!(matches!(DataValue::from(7usize), DataValue::Int(7)));
    assert!(matches!(DataValue::from(usize::MAX), DataValue::Int(-1)));
}

#[test]
fn data_add_parses_the_key_and_keeps_key_order() {
    let mut data = Data::empty();
    assert!(data.is_empty());
    data.add("zeta", DataValue::Int(1));
    data.add("alpha #info", DataValue::String("a".to_string()));
    data.add("mid #trace #dontprint", DataValue::Nothing);
    assert!(!data.is_empty());
    assert_eq!(
        listing(&data),
        vec!["alpha=a [info]", "mid= [dontprint,trace]", "zeta=1 []"]
    );
    data.add("zeta #debug", DataValue::Int(2));
    assert_eq!(
        listing(&data),
        vec!["alpha=a [info]", "mid= [dontprint,trace]", "zeta=2 [debug]"]
    );
    assert_eq!(data.text(), "  alpha: a\n  mid: \n  zeta: 2\n");
    assert_eq!(Data::empty().text(), "");
    assert_eq!(data.get("zeta").unwrap().0.text(), "2");
    assert!(data.get("zet").is_none());
    assert_eq!(listing(&data.clone_data()), listing(&data));
}

#[test]
fn data_insert_replaces() {
    let mut data = Data::empty();
    data.insert("k".to_string(), DataEntry(DataValue::Int(1), Tags::new()));
    data.insert("k".to_string(), DataEntry(DataValue::Int(2), Tags::new()));
    assert_eq!(listing(&data), vec!["k=2 []"]);
}

#[test]
fn data_merge_prefers_the_other_store() {
    let mut a = Data::empty();
    a.add("x", DataValue::Int(1));
    a.add("y", DataValue::Int(2));
    let mut b = Data::empty();
    b.add("y #info", DataValue::Int(20));
    b.add("z", DataValue::Int(30));
    a.merge(&b);
    assert_eq!(listing(&a), vec!["x=1 []", "y=20 [info]", "z=30 []"]);

    let before = listing(&a);
    a.merge(&Data::empty());
    assert_eq!(listing(&a), before);

    let mut e = Data::empty();
    e.merge(&a);
    assert_eq!(listing(&e), before);
}

#[test]
fn data_merge_is_associative() {
    let mut a = Data::empty();
    a.add("k", DataValue::Int(1));
    a.add("a", DataValue::Int(1));
    let mut b = Data::empty();
    b.add("k", DataValue::Int(2));
    b.add("b", DataValue::Int(2));
    let mut c = Data::empty();
    c.add("k", DataValue::Int(3));
    c.add("b", DataValue::Int(3));

    let mut left = a.clone_data();
    left.merge(&b);
    left.merge(&c);

    let mut bc = b.clone_data();
    bc.merge(&c);
    let mut right = a.clone_data();
    right.merge(&bc);

    assert_eq!(listing(&left), listing(&right));
    assert_eq!(listing(&left), vec!["a=1 []", "b=3 []", "k=3 []"]);
}

#[test]
fn data_filter_for_level_keeps_what_is_at_most_the_level() {
    let make = || {
        let mut data = Data::empty();
        data.add("data_trace #trace", DataValue::from_bool(true));
        data.add("data_debug #debug", DataValue::from_bool(true));
        data.add("data_info #info", DataValue::from_bool(true));
        data.add("data_default", DataValue::from_bool(true));
        data.add("both #trace #info", DataValue::from_bool(true));
        data
    };
    let mut data = make();
    data.filter_for_level(Level::Trace);
    assert_eq!(
        keys(&data),
        vec!["both", "data_debug", "data_default", "data_info", "data_trace"]
    );
    let mut data = make();
    data.filter_for_level(Level::Debug);
    assert_eq!(keys(&data), vec!["both", "data_debug", "data_default", "data_info"]);
    let mut data = make();
    data.filter_for_level(Level::Info);
    assert_eq!(keys(&data), vec!["both", "data_default", "data_info"]);
}

use discord_send_notifier::civil::{
    civil_from_epoch, format_rfc3339, now_utc_rfc3339, rfc3339_from_epoch, rfc3339_from_reading,
};
use discord_send_notifier::envfile::{env_file_path, parse_env_file, resolve_webhook_url};
use discord_send_notifier::payload::{
    build_payload, expand_mention, has_content, level_color, mention_str, parse_field, Args,
    EmbedField, Payload,
};

fn base_args() -> Args {
    Args {
        message: None,
        level: "info".to_string(),
        title: None,
        description: None,
        field: vec![],
        mention: None,
        footer: None,
        timestamp: false,
        webhook_url: None,
        env_file: None,
    }
}

fn field_is(f: &Option<EmbedField>, name: &str, value: &str, inline: bool) -> bool {
    match f {
        Some(f) => f.name == name && f.value == value && f.inline == inline,
        None => false,
    }
}

#[test]
fn colors_per_level() {
    assert_eq!(level_color("info"), 3447003);
    assert_eq!(level_color("success"), 3066993);
    assert_eq!(level_color("warning"), 15105570);
    assert_eq!(level_color("error"), 15158332);
    assert_eq!(level_color("unknown"), 3447003);
}

#[test]
fn mention_expansion() {
    assert_eq!(mention_str("here"), "@here");
    assert_eq!(mention_str("EVERYONE"), "@everyone");
    assert_eq!(mention_str("123456"), "123456");
}

#[test]
fn parse_env_file_basic() {
    let text = "# c\n\nDISCORD_WEBHOOK_URL=https://example/hook\n";
    assert_eq!(
        parse_env_file(text, "DISCORD_WEBHOOK_URL"),
        Some("https://example/hook".to_string())
    );
    assert_eq!(parse_env_file("KEY=\n", "KEY"), None);
    assert_eq!(parse_env_file("OTHER=1\n", "KEY"), None);
    assert_eq!(
        parse_env_file("  KEY  =  v  \n", "KEY"),
        Some("v".to_string())
    );
}

#[test]
fn parse_field_variants() {
    assert!(field_is(&parse_field("空き:2%:true"), "空き", "2%", true));
    assert!(field_is(&parse_field("Name:Value"), "Name", "Value", false));
    assert!(field_is(&parse_field("URL:http://x:y"), "URL", "http", false));
    assert!(parse_field(":v:true").is_none());
    assert!(parse_field("only-name").is_none());
}

#[test]
fn simple_message_is_content_only() {
    let mut a = base_args();
    a.message = Some("hello".to_string());
    let p = build_payload(&a);
    assert_eq!(p.content, Some("hello".to_string()));
    assert!(p.embed.is_none(), "embed should not exist for simple message");
}

#[test]
fn embed_built_when_title_present() {
    let mut a = base_args();
    a.title = Some("T".to_string());
    a.description = Some("D".to_string());
    a.level = "warning".to_string();
    let p = build_payload(&a);
    let embed = p.embed.unwrap();
    assert_eq!(embed.color, 15105570);
    assert_eq!(embed.title, Some("T".to_string()));
    assert_eq!(embed.description, Some("D".to_string()));
}

#[test]
fn embed_description_falls_back_to_message() {
    let mut a = base_args();
    a.title = Some("T".to_string());
    a.message = Some("body".to_string());
    let p = build_payload(&a);
    assert_eq!(p.embed.as_ref().unwrap().description, Some("body".to_string()));
    assert_eq!(p.content, Some("body".to_string()));
}

#[test]
fn embed_has_fields_and_footer_and_timestamp() {
    let mut a = base_args();
    a.level = "success".to_string();
    a.field = vec!["k1:v1:true".to_string(), "k2:v2".to_string()];
    a.footer = Some("🏢 ノード: shiten".to_string());
    a.timestamp = true;
    let p = build_payload(&a);
    let embed = p.embed.unwrap();
    let fields = &embed.fields;
    assert_eq!(fields.len(), 2);
    assert_eq!(fields[0].inline, true);
    assert_eq!(fields[1].inline, false);
    assert_eq!(embed.footer, Some("🏢 ノード: shiten".to_string()));
    assert!(embed.timestamp.unwrap().ends_with('Z'));
}

#[test]
fn mention_prepended_to_content() {
    let mut a = base_args();
    a.message = Some("deploy done".to_string());
    a.mention = Some("here".to_string());
    let p = build_payload(&a);
    assert_eq!(p.content, Some("@here deploy done".to_string()));
}

#[test]
fn webhook_precedence_arg_over_env() {
    let mut a = base_args();
    a.webhook_url = Some("https://arg/hook".to_string());
    assert_eq!(
        resolve_webhook_url(&a, Some("https://env/hook"), None),
        Some("https://arg/hook".to_string())
    );
}

#[test]
fn webhook_from_env_file() {
    let a = base_args();
    assert_eq!(
        resolve_webhook_url(&a, None, Some("DISCORD_WEBHOOK_URL=https://file/hook\n")),
        Some("https://file/hook".to_string())
    );
}

#[test]
fn rfc3339_shape() {
    let s = now_utc_rfc3339();
    assert_eq!(s.len(), 20);
    assert!(s.ends_with('Z') && s.contains('T'));
}

#[test]
fn civil_from_epoch_known() {
    assert_eq!(civil_from_epoch(0), (1970, 1, 1, 0, 0, 0));
    assert_eq!(civil_from_epoch(1609459200), (2021, 1, 1, 0, 0, 0));
}

#[test]
fn civil_from_epoch_edges() {
    assert_eq!(civil_from_epoch(-1), (1969, 12, 31, 23, 59, 59));
    assert_eq!(civil_from_epoch(68169600), (1972, 2, 29, 0, 0, 0));
    assert_eq!(civil_from_epoch(951782400), (2000, 2, 29, 0, 0, 0));
    assert_eq!(civil_from_epoch(951868800), (2000, 3, 1, 0, 0, 0));
    assert_eq!(civil_from_epoch(1709164800), (2024, 2, 29, 0, 0, 0));
    assert_eq!(civil_from_epoch(4107542400), (2100, 3, 1, 0, 0, 0));
    assert_eq!(civil_from_epoch(253402300799), (9999, 12, 31, 23, 59, 59));
    assert_eq!(civil_from_epoch(-62135596800), (1, 1, 1, 0, 0, 0));
    assert_eq!(civil_from_epoch(-62167219201), (-1, 12, 31, 23, 59, 59));
}

#[test]
fn civil_from_epoch_extremes_do_not_overflow() {
    let hi = civil_from_epoch(i64::MAX);
    let lo = civil_from_epoch(i64::MIN);
    assert!(hi.0 > 292_000_000_000);
    assert!(lo.0 < -292_000_000_000);
    assert!(1 <= hi.1 && hi.1 <= 12 && 1 <= lo.1 && lo.1 <= 12);
}

#[test]
fn rfc3339_text_of_known_instants() {
    assert_eq!(rfc3339_from_epoch(0), "1970-01-01T00:00:00Z");
    assert_eq!(rfc3339_from_epoch(1609459200 + 3723), "2021-01-01T01:02:03Z");
    assert_eq!(rfc3339_from_epoch(-62167219201), "-001-12-31T23:59:59Z");
    assert_eq!(format_rfc3339((12345, 6, 7, 8, 9, 10)), "12345-06-07T08:09:10Z");
    assert_eq!(format_rfc3339((-1234, 1, 2, 3, 4, 5)), "-1234-01-02T03:04:05Z");
}

#[test]
fn env_file_first_line_decides() {
    assert_eq!(parse_env_file("KEY=a\nKEY=b\n", "KEY"), Some("a".to_string()));
    assert_eq!(parse_env_file("KEY=\nKEY=b\n", "KEY"), None);
    assert_eq!(parse_env_file("# KEY=a\nKEY=b", "KEY"), Some("b".to_string()));
    assert_eq!(parse_env_file("KEY\n KEY = x=y \r\n", "KEY"), Some("x=y".to_string()));
    assert_eq!(parse_env_file("", "KEY"), None);
    assert_eq!(parse_env_file("\t\n   \nKEYS=1\nKEY=2", "KEY"), Some("2".to_string()));
}

#[test]
fn env_file_path_defaults_to_dot_env() {
    let mut a = base_args();
    assert_eq!(env_file_path(&a), ".env");
    a.env_file = Some("/etc/notifier.env".to_string());
    assert_eq!(env_file_path(&a), "/etc/notifier.env");
}

#[test]
fn webhook_sources_in_order() {
    let mut a = base_args();
    a.webhook_url = Some("   ".to_string());
    assert_eq!(
        resolve_webhook_url(&a, Some("  https://env/hook \n"), Some("DISCORD_WEBHOOK_URL=f")),
        Some("https://env/hook".to_string())
    );
    assert_eq!(
        resolve_webhook_url(&a, Some(""), Some("DISCORD_WEBHOOK_URL=f")),
        Some("f".to_string())
    );
    assert_eq!(resolve_webhook_url(&a, None, None), None);
}

#[test]
fn field_inline_flag_ignores_ascii_case() {
    assert!(field_is(&parse_field(" a : b : TRUE "), "a", "b", true));
    assert!(field_is(&parse_field("a:b:false"), "a", "b", false));
    assert!(field_is(&parse_field("a:"), "a", "", false));
    assert!(field_is(&parse_field("a:b:tru"), "a", "b", false));
    assert!(parse_field("  :b").is_none());
}

#[test]
fn mention_words_ignore_case_others_pass_through() {
    assert_eq!(mention_str("Here"), "@here");
    assert_eq!(mention_str("EveryOne"), "@everyone");
    assert_eq!(mention_str("ROLE"), "ROLE");
    assert_eq!(mention_str("<@&42>"), "<@&42>");
    assert_eq!(expand_mention("Everyone", "everyone"), "@everyone");
    assert_eq!(expand_mention("Here", "Here"), "Here");
}

#[test]
fn levels_are_case_sensitive() {
    assert_eq!(level_color("Success"), 3447003);
    assert_eq!(level_color(""), 3447003);
}

#[test]
fn payload_variants() {
    let mut a = base_args();
    assert!(!has_content(&a));
    a.level = "error".to_string();
    assert!(has_content(&a));
    let p: Payload = build_payload(&a);
    assert!(p.content.is_none());
    let e = p.embed.unwrap();
    assert_eq!(e.color, 15158332);
    assert!(e.description.is_none() && e.timestamp.is_none() && e.fields.is_empty());

    let mut b = base_args();
    b.mention = Some("everyone".to_string());
    assert!(has_content(&b));
    let p = build_payload(&b);
    assert_eq!(p.content, Some("@everyone".to_string()));
    assert!(p.embed.is_none());

    let mut c = base_args();
    c.field = vec!["bad".to_string(), "x:1".to_string()];
    let e = build_payload(&c).embed.unwrap();
    assert_eq!(e.fields.len(), 1);
    assert_eq!(e.fields[0].name, "x");
    assert_eq!(e.color, 3447003);
}

#[test]
fn rfc3339_matches_std_formatting() {
    for e in [
        0i64,
        -1,
        86399,
        951782400,
        1700000000,
        253402300799,
        -62167219201,
        -99999999999,
        -62135596800 - 86400 * 400,
        i64::MAX,
        i64::MIN,
    ] {
        let (y, mo, d, h, mi, s) = civil_from_epoch(e);
        let expected = format!("{y:04}-{mo:02}-{d:02}T{h:02}:{mi:02}:{s:02}Z");
        assert_eq!(rfc3339_from_epoch(e), expected);
        assert_eq!(format_rfc3339((y, mo, d, h, mi, s)), expected);
    }
}

#[test]
fn clock_reading_before_1970_is_the_epoch() {
    assert_eq!(rfc3339_from_reading(None), "1970-01-01T00:00:00Z");
    assert_eq!(rfc3339_from_reading(Some(1609459200)), "2021-01-01T00:00:00Z");
    assert_eq!(rfc3339_from_reading(Some(86399)), "1970-01-01T23:59:59Z");
}

#[test]
fn calendar_order_follows_time() {
    let a = civil_from_epoch(951868799);
    let b = civil_from_epoch(951868800);
    assert!(a < b);
    assert_eq!(a, (2000, 2, 29, 23, 59, 59));
}

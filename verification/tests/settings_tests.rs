use qcli::settings::{
    format_settings, OutputFormat, SettingValue, SettingsEntry, SettingsSnapshot,
};

fn snapshot(entries: Vec<(&str, SettingValue)>) -> SettingsSnapshot {
    SettingsSnapshot {
        entries: entries
            .into_iter()
            .map(|(k, value)| SettingsEntry { key: k.to_owned(), value })
            .collect(),
    }
}

#[test]
fn plain_json_keeps_keys_and_values_exactly() {
    // The settings response {"block0Hash":"abc","maxTxsPerBlock":255}
    // rendered as plain JSON prints those exact pairs, unmodified.
    let s = snapshot(vec![
        ("block0Hash", SettingValue::Text("abc".to_owned())),
        ("maxTxsPerBlock", SettingValue::Count(255)),
    ]);
    let rendered = format_settings(&s, &OutputFormat::Json);
    assert_eq!(rendered, "{\"block0Hash\":\"abc\",\"maxTxsPerBlock\":255}");
}

#[test]
fn plain_json_round_trips_through_a_json_parser() {
    let s = snapshot(vec![
        ("block0Hash", SettingValue::Text("abc".to_owned())),
        ("maxTxsPerBlock", SettingValue::Count(255)),
    ]);
    let rendered = format_settings(&s, &OutputFormat::Json);
    let parsed: serde_json::Value = serde_json::from_str(&rendered).expect("valid JSON");
    assert_eq!(parsed["block0Hash"].as_str(), Some("abc"));
    assert_eq!(parsed["maxTxsPerBlock"].as_u64(), Some(255));
}

#[test]
fn pretty_json_renders_one_entry_per_line() {
    let s = snapshot(vec![
        ("block0Hash", SettingValue::Text("abc".to_owned())),
        ("maxTxsPerBlock", SettingValue::Count(255)),
    ]);
    let rendered = format_settings(&s, &OutputFormat::JsonPretty);
    assert_eq!(rendered, "{\n  \"block0Hash\": \"abc\",\n  \"maxTxsPerBlock\": 255\n}");
}

#[test]
fn empty_snapshot_renders_as_empty_object() {
    let s = snapshot(vec![]);
    assert_eq!(format_settings(&s, &OutputFormat::Json), "{}");
    assert_eq!(format_settings(&s, &OutputFormat::JsonPretty), "{}");
}

#[test]
fn quotes_and_backslashes_are_escaped() {
    let s = snapshot(vec![("motd", SettingValue::Text("say \"hi\" \\ bye".to_owned()))]);
    let rendered = format_settings(&s, &OutputFormat::Json);
    assert_eq!(rendered, "{\"motd\":\"say \\\"hi\\\" \\\\ bye\"}");
    let parsed: serde_json::Value = serde_json::from_str(&rendered).expect("valid JSON");
    assert_eq!(parsed["motd"].as_str(), Some("say \"hi\" \\ bye"));
}

#[test]
fn control_characters_are_escaped() {
    let s = snapshot(vec![("motd", SettingValue::Text("a\nb\tc\u{1}d".to_owned()))]);
    let rendered = format_settings(&s, &OutputFormat::Json);
    assert_eq!(rendered, "{\"motd\":\"a\\nb\\tc\\u0001d\"}");
    let parsed: serde_json::Value = serde_json::from_str(&rendered).expect("valid JSON");
    assert_eq!(parsed["motd"].as_str(), Some("a\nb\tc\u{1}d"));
}

#[test]
fn rendering_matches_a_json_serializer() {
    // On a snapshot with sorted keys the plain rendering is byte-identical
    // to what a standard JSON serializer produces for the same object.
    let s = snapshot(vec![
        ("alert", SettingValue::Text("line1\nline2 \"q\" \\ \u{1f}".to_owned())),
        ("count", SettingValue::Count(42)),
    ]);
    let rendered = format_settings(&s, &OutputFormat::Json);
    let mut map = serde_json::Map::new();
    map.insert(
        "alert".to_owned(),
        serde_json::Value::String("line1\nline2 \"q\" \\ \u{1f}".to_owned()),
    );
    map.insert("count".to_owned(), serde_json::Value::Number(42u64.into()));
    let reference = serde_json::to_string(&serde_json::Value::Object(map)).expect("serializes");
    assert_eq!(rendered, reference);
}

#[test]
fn counts_render_in_decimal() {
    let s = snapshot(vec![
        ("zero", SettingValue::Count(0)),
        ("largest", SettingValue::Count(u64::MAX)),
    ]);
    let rendered = format_settings(&s, &OutputFormat::Json);
    assert_eq!(rendered, "{\"zero\":0,\"largest\":18446744073709551615}");
}

#[test]
fn single_entry_has_no_separator() {
    let s = snapshot(vec![("slotsPerEpoch", SettingValue::Count(100))]);
    assert_eq!(format_settings(&s, &OutputFormat::Json), "{\"slotsPerEpoch\":100}");
    assert_eq!(
        format_settings(&s, &OutputFormat::JsonPretty),
        "{\n  \"slotsPerEpoch\": 100\n}"
    );
}

use adventure_quest::settings_file::parse_settings_text;

#[test]
fn settings_text_reads_both_keys() {
    let settings = parse_settings_text("mouse_sensitivity=0.005000\nrender_chunk_distance=12\n");
    assert_eq!(settings.mouse_sensitivity, Some("0.005000"));
    assert_eq!(settings.render_chunk_distance, Some(12));
}

#[test]
fn settings_text_trims_keys_values_and_carriage_returns() {
    let settings = parse_settings_text("  render_chunk_distance =  7 \r\n mouse_sensitivity= 0.01\r\n");
    assert_eq!(settings.render_chunk_distance, Some(7));
    assert_eq!(settings.mouse_sensitivity, Some("0.01"));
}

#[test]
fn settings_text_keeps_the_last_line_of_a_key() {
    let settings = parse_settings_text("render_chunk_distance=5\nrender_chunk_distance=abc");
    assert_eq!(settings.render_chunk_distance, None);
    let settings = parse_settings_text("render_chunk_distance=abc\nrender_chunk_distance=9");
    assert_eq!(settings.render_chunk_distance, Some(9));
}

#[test]
fn settings_text_passes_over_other_lines() {
    let settings = parse_settings_text("# comment\nfov=90\n\nmouse_sensitivity=1=2\n");
    assert_eq!(settings.mouse_sensitivity, Some("1=2"));
    assert_eq!(settings.render_chunk_distance, None);

    let empty = parse_settings_text("");
    assert_eq!(empty.mouse_sensitivity, None);
    assert_eq!(empty.render_chunk_distance, None);
}

#[test]
fn settings_text_refuses_distances_beyond_i32() {
    let settings = parse_settings_text("render_chunk_distance=99999999999");
    assert_eq!(settings.render_chunk_distance, None);
    let settings = parse_settings_text("render_chunk_distance=-2147483648");
    assert_eq!(settings.render_chunk_distance, Some(i32::MIN));
}

use omarchy_hotspot::escape::{escape_qr_special, wifi_qr_payload};

#[test]
fn escape_qr_special_escapes_semicolon() {
    assert_eq!(escape_qr_special("Tryh4ckm3;"), "Tryh4ckm3\\;");
}

#[test]
fn escape_qr_special_escapes_all_special_chars() {
    assert_eq!(
        escape_qr_special("a;b,c:d\"e\\f"),
        "a\\;b\\,c\\:d\\\"e\\\\f"
    );
}

#[test]
fn escape_qr_special_leaves_plain_string_untouched() {
    assert_eq!(escape_qr_special("plainpass123"), "plainpass123");
}

#[test]
fn escape_of_empty_field_is_empty() {
    assert_eq!(escape_qr_special(""), "");
}

#[test]
fn escape_keeps_non_ascii_characters() {
    assert_eq!(escape_qr_special("café:ü"), "café\\:ü");
}

#[test]
fn escape_doubles_backslashes_only_once() {
    assert_eq!(escape_qr_special("\\\\"), "\\\\\\\\");
}

#[test]
fn payload_has_wpa_header_and_escaped_fields() {
    assert_eq!(
        wifi_qr_payload("DCT_Linux", "Tryh4ckm3;"),
        "WIFI:T:WPA;S:DCT_Linux;P:Tryh4ckm3\\;;;"
    );
}

/// Reads one field back the way a QR reader does: a backslash makes the
/// next character literal, an unescaped `;` ends the field.
fn read_field(t: &str) -> String {
    let mut out = String::new();
    let mut it = t.chars();
    while let Some(c) = it.next() {
        if c == ';' {
            break;
        }
        if c == '\\' {
            if let Some(n) = it.next() {
                out.push(n);
                continue;
            }
        }
        out.push(c);
    }
    out
}

#[test]
fn payload_fields_read_back() {
    let ssid = "my;net,work:\"x\\";
    let pass = "p:a;s\\s";
    let payload = wifi_qr_payload(ssid, pass);
    let after_header = &payload["WIFI:T:WPA;S:".len()..];
    assert_eq!(read_field(after_header), ssid);
    let esc_len = escape_qr_special(ssid).len();
    let after_label = &after_header[esc_len + ";P:".len()..];
    assert_eq!(read_field(after_label), pass);
}

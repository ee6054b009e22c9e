use image_to_ansi::render::{ansi_text, html_document, html_rows, html_with_font, push_decimal};

#[test]
fn push_decimal_writes_digits() {
    for n in [0u8, 7, 10, 42, 99, 100, 105, 255] {
        let mut s = String::from("x");
        push_decimal(&mut s, n);
        assert_eq!(s, format!("x{}", n));
    }
}

#[test]
fn ansi_text_of_a_grid() {
    let colors = vec![vec![(16, ' '), (231, '#')], vec![(94, '.')]];
    let text = ansi_text(&colors);
    assert_eq!(
        text,
        "\x1b[38;5;16m\x1b[48;5;16m \x1b[38;5;231m\x1b[48;5;231m#\x1b[0m\n\x1b[38;5;94m\x1b[48;5;94m.\x1b[0m\n"
    );
}

#[test]
fn ansi_text_matches_format_of_each_cell() {
    let colors = vec![vec![(0, 'a'), (9, 'b'), (57, 'c')], vec![], vec![(200, '%')]];
    let mut expected = String::new();
    for row in &colors {
        for cell in row {
            expected.push_str(&format!("\x1b[38;5;{}m\x1b[48;5;{}m{}", cell.0, cell.0, cell.1));
        }
        expected.push_str("\x1b[0m\n");
    }
    assert_eq!(ansi_text(&colors), expected);
}

#[test]
fn ansi_text_of_no_rows_is_empty() {
    assert_eq!(ansi_text(&Vec::new()), "");
}

#[test]
fn html_rows_of_a_grid() {
    let colors = vec![vec![(196, '#'), (16, ' ')], vec![(94, '.')]];
    let html = html_rows(&colors);
    assert_eq!(
        html,
        "<div class=\"ansi-line\"><span style=\"color: rgb(255,0,0); background-color: rgb(255,0,0);\">#</span>\
<span style=\"color: rgb(0,0,0); background-color: rgb(0,0,0);\"> </span></div>\
<div class=\"ansi-line\"><span style=\"color: rgb(102,51,0); background-color: rgb(102,51,0);\">.</span></div>"
    );
}

fn original_page(font_base64: &str, effective_cols: &str, rows_html: &str) -> String {
    format!(
        r#"<!DOCTYPE html>
<html>
<head>
<meta charset="utf-8">
<title>ANSI Art</title>
<style>
  @font-face {{
    font-family: "ConsolasEmbedded";
    src: url(data:font/woff2;base64,{font_base64}) format("woff2");
    font-weight: 400;
    font-style: normal;
  }}
  body {{ background: #000; margin: 0; padding: 2rem; }}
  .ansi-frame {{
    container-type: inline-size;
    width: 100%;
    max-width: 640px;
    margin: 0 auto;
    background: #000;
    overflow: hidden;
    user-select: none;
    -webkit-user-select: none;
    cursor: default;
  }}
  .ansi-pre {{
    margin: 0;
    padding: 0;
    line-height: 1;
    letter-spacing: 0;
    white-space: pre;
    width: max-content;
    font-family: "ConsolasEmbedded", Consolas, monospace;
  }}
  .ansi-line {{
    height: 1em;
    overflow: hidden;
    display: flex;
  }}
  .ansi-line span {{
    display: inline-block;
  }}
</style>
</head>
<body>
  <div class="ansi-frame">
    <pre class="ansi-pre" style="font-size: clamp(4px, calc(100cqw / {effective_cols}), 16px);">
{rows_html}    </pre>
  </div>
</body>
</html>
"#
    )
}

#[test]
fn html_document_is_the_page_template() {
    let colors = vec![vec![(231, '#')]];
    let page = html_document("QUJD", "43.984", &colors);
    assert_eq!(page, original_page("QUJD", "43.984", &html_rows(&colors)));
}

#[test]
fn html_with_font_embeds_base64_of_the_font() {
    let colors = vec![vec![(16, ' '), (21, '+')]];
    let page = html_with_font(b"abc", "1.5", &colors);
    assert_eq!(page, original_page("YWJj", "1.5", &html_rows(&colors)));
    let padded = html_with_font(b"ab", "1.5", &colors);
    assert_eq!(padded, original_page("YWI=", "1.5", &html_rows(&colors)));
    let empty = html_with_font(b"", "2", &Vec::new());
    assert_eq!(empty, original_page("", "2", ""));
}

fn base64_reference(data: &[u8]) -> String {
    const ALPHABET: &[u8] = b"ABCDEFGHIJKLMNOPQRSTUVWXYZabcdefghijklmnopqrstuvwxyz0123456789+/";
    let mut out = String::new();
    for group in data.chunks(3) {
        let a = group[0] as usize;
        let b = if group.len() > 1 { group[1] as usize } else { 0 };
        let c = if group.len() > 2 { group[2] as usize } else { 0 };
        out.push(ALPHABET[a / 4] as char);
        out.push(ALPHABET[(a % 4) * 16 + b / 16] as char);
        out.push(if group.len() > 1 { ALPHABET[(b % 16) * 4 + c / 64] as char } else { '=' });
        out.push(if group.len() > 2 { ALPHABET[c % 64] as char } else { '=' });
    }
    out
}

#[test]
fn html_with_font_embeds_standard_base64() {
    let colors = vec![vec![(16, ' ')]];
    let all_bytes: Vec<u8> = (0u8..=255).collect();
    for len in [0usize, 1, 2, 3, 4, 5, 6, 100, 254, 255, 256] {
        let data: Vec<u8> = all_bytes.iter().cycle().skip(len).take(len).cloned().collect();
        let page = html_with_font(&data, "7", &colors);
        assert_eq!(page, original_page(&base64_reference(&data), "7", &html_rows(&colors)));
    }
    let page = html_with_font(b"abcd", "7", &colors);
    assert_eq!(page, original_page("YWJjZA==", "7", &html_rows(&colors)));
}

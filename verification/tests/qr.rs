use omarchy_hotspot::qr::{qr_png_raster, qr_terminal_lines, render_terminal_qr};

const W: &str = "\x1b[47m  ";
const B: &str = "\x1b[40m  ";
const R: &str = "\x1b[0m";

#[test]
fn terminal_rendering_of_single_module() {
    let lines = render_terminal_qr(1, &vec![true]);
    let border = format!("{}{}", W.repeat(5), R);
    let middle = format!("{}{}{}{}", W, W, B, format!("{}{}{}", W, W, R));
    assert_eq!(lines, vec![border.clone(), border.clone(), middle, border.clone(), border]);
}

#[test]
fn terminal_rendering_keeps_row_order() {
    // row 0: dark light, row 1: light dark
    let lines = render_terminal_qr(2, &vec![true, false, false, true]);
    assert_eq!(lines.len(), 6);
    assert_eq!(lines[2], format!("{}{}{}{}{}{}{}", W, W, B, W, W, W, R));
    assert_eq!(lines[3], format!("{}{}{}{}{}{}{}", W, W, W, B, W, W, R));
}

#[test]
fn terminal_rendering_of_empty_symbol() {
    let lines = render_terminal_qr(0, &Vec::new());
    assert_eq!(lines, vec![format!("{}{}", W.repeat(4), R); 4]);
}

#[test]
fn qr_terminal_and_image_agree() {
    let lines = qr_terminal_lines("DCT_Linux", "Tryh4ckm3;").expect("payload fits");
    let img = qr_png_raster("DCT_Linux", "Tryh4ckm3;").expect("payload fits");
    assert_eq!(img.width, img.height);
    assert_eq!(img.pixels.len(), (img.width * img.height) as usize);
    let side = (img.width / 10 - 8) as usize;
    assert!(side >= 21 && side <= 177 && (side - 17) % 4 == 0);
    assert_eq!(lines.len(), side + 4);
    for y in 0..side {
        let cells: Vec<bool> = lines[y + 2]
            .split("\x1b[")
            .filter(|s| !s.is_empty())
            .filter_map(|s| if s.starts_with("40m") { Some(true) } else if s.starts_with("47m") { Some(false) } else { None })
            .collect();
        assert_eq!(cells.len(), side + 4);
        for x in 0..side {
            let px = (x + 4) * 10 + 5;
            let py = (y + 4) * 10 + 5;
            let dark = img.pixels[py * img.width as usize + px] == 0;
            assert_eq!(cells[x + 2], dark, "module ({}, {})", x, y);
        }
    }
    // the top-left finder pattern starts with a dark module
    assert!(lines[2].starts_with(&format!("{}{}{}", W, W, B)));
    // the quiet zone of the image is white
    assert!(img.pixels[..(img.width as usize * 40)].iter().all(|p| *p == 255));
}

#[test]
fn payload_too_long_for_a_symbol() {
    let long = "x".repeat(3000);
    assert!(qr_terminal_lines(&long, "password").is_none());
    assert!(qr_png_raster(&long, "password").is_none());
}

#[test]
fn terminal_rendering_is_a_rectangle() {
    let lines = qr_terminal_lines("net", "password1").expect("payload fits");
    let side = lines.len() - 4;
    for line in &lines {
        assert_eq!(line.chars().count(), 7 * (side + 4) + 4);
    }
    let border = format!("{}{}", W.repeat(side + 4), R);
    assert_eq!(lines[0], border);
    assert_eq!(lines[1], border);
    assert_eq!(lines[side + 2], border);
    assert_eq!(lines[side + 3], border);
}

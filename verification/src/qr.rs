//! QR symbols for the Wi-Fi payload: encoding through the `qrcode` crate,
//! a grayscale raster for the image viewer, and a text rendering for the
//! terminal.
use vstd::prelude::*;
use crate::escape::{wifi_payload, wifi_qr_payload};
use crate::netif::string_views;

verus! {

/// A QR symbol of the `qrcode` crate.
#[verifier::external_type_specification]
#[verifier::external_body]
pub struct ExQrCode(qrcode::QrCode);

/// The error that the `qrcode` crate reports when it cannot encode data.
#[verifier::external_type_specification]
#[verifier::external_body]
pub struct ExQrError(qrcode::types::QrError);

/// The modules of a symbol, row by row, `true` for a dark module.
pub uninterp spec fn qr_modules(code: qrcode::QrCode) -> Seq<bool>;

/// The number of modules on a side of a symbol, quiet zone not included.
pub uninterp spec fn qr_side(code: qrcode::QrCode) -> nat;

/// The symbol, as its side and its modules, that `QrCode::new` builds for
/// the given bytes, or `None` when the bytes do not fit in any symbol.
pub uninterp spec fn qr_symbol(data: Seq<u8>) -> Option<(nat, Seq<bool>)>;

/// `qrcode::QrCode::new`: encodes bytes at error-correction level M in the
/// smallest normal QR version (1 to 40) that holds them. Claimed: the call
/// succeeds exactly when `qr_symbol` of the bytes is a symbol, and then the
/// code holds that symbol; a normal version `v` has `4v + 17` modules on a
/// side and the code holds one module per cell. Which symbol (version, mask)
/// the crate picks is left to the name `qr_symbol`.
#[verifier::external_body]
fn qr_new(data: &[u8]) -> (r: Result<qrcode::QrCode, qrcode::types::QrError>)
    ensures
        r is Ok <==> qr_symbol(data@) is Some,
        r matches Ok(c) ==> qr_symbol(data@) == Some((qr_side(c), qr_modules(c))),
        r matches Ok(c) ==> 21 <= qr_side(c) <= 177,
        r matches Ok(c) ==> qr_modules(c).len() == qr_side(c) * qr_side(c),
{
    qrcode::QrCode::new(data)
}

/// `QrCode::width`: the number of modules on a side.
#[verifier::external_body]
fn qr_width(code: &qrcode::QrCode) -> (w: usize)
    ensures
        w == qr_side(*code),
{
    code.width()
}

/// `QrCode::to_vec`: the modules row by row, `true` for dark.
#[verifier::external_body]
#[allow(deprecated)]
fn qr_dark_modules(code: &qrcode::QrCode) -> (v: Vec<bool>)
    ensures
        v@ == qr_modules(*code),
{
    code.to_vec()
}

/// A grayscale image: `height` rows of `width` pixels, row by row.
pub struct GrayImage {
    pub width: u32,
    pub height: u32,
    pub pixels: Vec<u8>,
}

/// The raster of a symbol drawn with `quiet` light modules around it and
/// `unit` by `unit` pixels per module: dark modules are 0, light ones 255.
pub open spec fn gray_raster(modules: Seq<bool>, side: nat, quiet: nat, unit: nat) -> Seq<u8> {
    let dim = (side + 2 * quiet) * unit;
    Seq::new(
        dim * dim,
        |i: int|
            {
                let mx = (i % (dim as int)) / (unit as int);
                let my = (i / (dim as int)) / (unit as int);
                if quiet <= mx < side + quiet && quiet <= my < side + quiet && modules[(my
                    - quiet) * side + (mx - quiet)] {
                    0u8
                } else {
                    255u8
                }
            },
    )
}

/// `Renderer::<Luma<u8>>::build` after `quiet_zone` and `module_dimensions`:
/// draws a normal QR symbol (quiet zone of 4 modules when asked for) with
/// modules of `max(module_size, 1)` pixels square, dark modules black (0)
/// on white (255). Claimed: the size and the pixels are those of
/// `gray_raster`.
#[verifier::external_body]
fn qr_render_gray(code: &qrcode::QrCode, quiet_zone: bool, module_size: u32) -> (img: GrayImage)
    requires
        qr_side(*code) >= 21,
        qr_modules(*code).len() == qr_side(*code) * qr_side(*code),
        1 <= module_size,
        (qr_side(*code) + 8) * module_size <= u32::MAX,
        ((qr_side(*code) + 8) * module_size) * ((qr_side(*code) + 8) * module_size)
            <= usize::MAX,
    ensures
        img.width == (qr_side(*code) + if quiet_zone { 8nat } else { 0nat }) * module_size,
        img.height == img.width,
        img.pixels@ == gray_raster(
            qr_modules(*code),
            qr_side(*code),
            if quiet_zone { 4nat } else { 0nat },
            module_size as nat,
        ),
{
    let img = code.render::<image::Luma<u8>>().quiet_zone(quiet_zone).module_dimensions(
        module_size,
        module_size,
    ).build();
    GrayImage { width: img.width(), height: img.height(), pixels: img.into_raw() }
}

/// The payload bytes for a network: the UTF-8 encoding of the `WIFI:` text.
pub open spec fn payload_bytes(ssid: Seq<char>, password: Seq<char>) -> Seq<u8> {
    vstd::utf8::encode_utf8(wifi_payload(ssid, password))
}

/// The QR code image for joining a network: the symbol of its `WIFI:`
/// payload with the standard quiet zone and 10 by 10 pixels per module, or
/// `None` when the payload does not fit in a QR symbol.
pub fn qr_png_raster(ssid: &str, password: &str) -> (r: Option<GrayImage>)
    ensures
        r is Some <==> qr_symbol(payload_bytes(ssid@, password@)) is Some,
        r matches Some(img) ==> {
            let (side, modules) = qr_symbol(payload_bytes(ssid@, password@))->0;
            &&& img.width == (side + 8) * 10
            &&& img.height == img.width
            &&& img.pixels@ == gray_raster(modules, side, 4, 10)
        },
{
    let payload = wifi_qr_payload(ssid, password);
    match qr_new(payload.as_str().as_bytes()) {
        Ok(code) => {
            proof {
                let d = (qr_side(code) + 8) * 10;
                assert(d <= 1850);
                assert(d * d <= 1850 * 1850) by (nonlinear_arith)
                    requires
                        d <= 1850,
                ;
            }
            Some(qr_render_gray(&code, true, 10))
        },
        Err(_) => None,
    }
}

/// A terminal cell: two spaces on a black (dark module) or white background.
pub open spec fn block(dark: bool) -> Seq<char> {
    if dark {
        "\x1b[40m  "@
    } else {
        "\x1b[47m  "@
    }
}

/// The cells of a row of modules, left to right.
pub open spec fn blocks(row: Seq<bool>) -> Seq<char>
    decreases row.len(),
{
    if row.len() == 0 {
        seq![]
    } else {
        blocks(row.drop_last()) + block(row.last())
    }
}

/// A terminal line: the cells of a row, then the colour reset.
pub open spec fn terminal_line(row: Seq<bool>) -> Seq<char> {
    blocks(row) + "\x1b[0m"@
}

/// The symbol inside a light border two modules wide, as rows of modules.
pub open spec fn bordered_rows(modules: Seq<bool>, side: nat) -> Seq<Seq<bool>> {
    Seq::new(
        side + 4,
        |r: int|
            Seq::new(
                side + 4,
                |c: int| 2 <= r < side + 2 && 2 <= c < side + 2 && modules[(r - 2) * side + (c - 2)],
            ),
    )
}

/// The terminal rendering of a symbol: one line per bordered row.
pub open spec fn terminal_qr(modules: Seq<bool>, side: nat) -> Seq<Seq<char>> {
    bordered_rows(modules, side).map_values(|row: Seq<bool>| terminal_line(row))
}

proof fn lemma_cell_index(r: int, c: int, side: int)
    requires
        0 <= r < side,
        0 <= c < side,
    ensures
        0 <= r * side + c < side * side,
{
    assert(0 <= r * side + c < side * side) by (nonlinear_arith)
        requires
            0 <= r < side,
            0 <= c < side,
    ;
}

/// Renders a symbol for a terminal: a two-module light border around it,
/// each module as two spaces on a black or white background, each line
/// ending with a colour reset.
pub fn render_terminal_qr(side: usize, modules: &Vec<bool>) -> (lines: Vec<String>)
    requires
        modules@.len() == side * side,
    ensures
        string_views(lines@) == terminal_qr(modules@, side as nat),
{
    let total = modules.len();
    proof {
        assert(total == side * side);
        if side >= 2 {
            assert(side * side >= 2 * side) by (nonlinear_arith)
                requires
                    side >= 2,
            ;
        }
    }
    let n = side + 4;
    let ghost rows = bordered_rows(modules@, side as nat);
    let mut lines: Vec<String> = Vec::new();
    let mut r: usize = 0;
    while r < n
        invariant
            n == side + 4,
            modules@.len() == side * side,
            side * side <= usize::MAX,
            rows == bordered_rows(modules@, side as nat),
            r <= n,
            string_views(lines@) == rows.take(r as int).map_values(
                |row: Seq<bool>| terminal_line(row),
            ),
        decreases n - r,
    {
        let ghost row = rows[r as int];
        let mut line = String::new();
        let mut c: usize = 0;
        while c < n
            invariant
                n == side + 4,
                modules@.len() == side * side,
                side * side <= usize::MAX,
                rows == bordered_rows(modules@, side as nat),
                r < n,
                row == rows[r as int],
                row.len() == n,
                c <= n,
                line@ == blocks(row.take(c as int)),
            decreases n - c,
        {
            let dark = if 2 <= r && r < side + 2 && 2 <= c && c < side + 2 {
                proof {
                    lemma_cell_index((r - 2) as int, (c - 2) as int, side as int);
                }
                modules[(r - 2) * side + (c - 2)]
            } else {
                false
            };
            proof {
                assert(row.take(c + 1).drop_last() =~= row.take(c as int));
                assert(row.take(c + 1).last() == dark);
            }
            if dark {
                line.append("\x1b[40m  ");
            } else {
                line.append("\x1b[47m  ");
            }
            c += 1;
        }
        line.append("\x1b[0m");
        proof {
            assert(row.take(c as int) =~= row);
        }
        let ghost old_lines = lines@;
        lines.push(line);
        proof {
            assert(string_views(lines@) =~= string_views(old_lines).push(terminal_line(row)));
            assert(rows.take(r + 1) =~= rows.take(r as int).push(row));
            assert(rows.take(r + 1).map_values(|row: Seq<bool>| terminal_line(row)) =~= rows.take(
                r as int,
            ).map_values(|row: Seq<bool>| terminal_line(row)).push(terminal_line(row)));
        }
        r += 1;
    }
    proof {
        assert(rows.take(r as int) =~= rows);
    }
    lines
}

/// The terminal rendering of the QR code for joining a network, or `None`
/// when the payload does not fit in a QR symbol.
pub fn qr_terminal_lines(ssid: &str, password: &str) -> (r: Option<Vec<String>>)
    ensures
        r is Some <==> qr_symbol(payload_bytes(ssid@, password@)) is Some,
        r matches Some(lines) ==> {
            let (side, modules) = qr_symbol(payload_bytes(ssid@, password@))->0;
            string_views(lines@) == terminal_qr(modules, side)
        },
{
    let payload = wifi_qr_payload(ssid, password);
    match qr_new(payload.as_str().as_bytes()) {
        Ok(code) => {
            let side = qr_width(&code);
            let modules = qr_dark_modules(&code);
            Some(render_terminal_qr(side, &modules))
        },
        Err(_) => None,
    }
}

/// The cells of a row take seven characters each.
proof fn lemma_blocks_len(row: Seq<bool>)
    ensures
        blocks(row).len() == 7 * row.len(),
    decreases row.len(),
{
    reveal_strlit("\x1b[40m  ");
    reveal_strlit("\x1b[47m  ");
    if row.len() > 0 {
        lemma_blocks_len(row.drop_last());
    }
}

/// The terminal rendering is a rectangle: `side + 4` lines, each of
/// `side + 4` cells and a reset, so every line has the same length; the two
/// lines at the top and at the bottom and the two cells at each end of a
/// line are light border.
pub proof fn lemma_terminal_qr_shape(modules: Seq<bool>, side: nat)
    requires
        modules.len() == side * side,
    ensures
        terminal_qr(modules, side).len() == side + 4,
        forall|r: int|
            0 <= r < side + 4 ==> #[trigger] terminal_qr(modules, side)[r].len() == 7 * (side + 4)
                + 4,
        forall|r: int, c: int|
            0 <= r < side + 4 && 0 <= c < side + 4 && (r < 2 || r >= side + 2 || c < 2 || c
                >= side + 2) ==> !#[trigger] bordered_rows(modules, side)[r][c],
{
    reveal_strlit("\x1b[0m");
    assert forall|r: int| 0 <= r < side + 4 implies #[trigger] terminal_qr(modules, side)[r].len()
        == 7 * (side + 4) + 4 by {
        lemma_blocks_len(bordered_rows(modules, side)[r]);
    }
}

/// The terminal rendering and the image show the same symbol: the cell of
/// module `(x, y)` in the bordered rows is the module itself, and the pixel
/// at the top-left corner of that module in the image (4 modules of quiet
/// zone, 10 pixels per module) is black exactly when the module is dark.
pub proof fn lemma_terminal_matches_raster(modules: Seq<bool>, side: nat, x: int, y: int)
    requires
        modules.len() == side * side,
        0 <= x < side,
        0 <= y < side,
    ensures
        bordered_rows(modules, side)[y + 2][x + 2] == modules[y * side + x],
        ({
            let dim = (side + 8) * 10;
            let i = ((y + 4) * 10) * dim + (x + 4) * 10;
            &&& 0 <= i < gray_raster(modules, side, 4, 10).len()
            &&& gray_raster(modules, side, 4, 10)[i] == if modules[y * side + x] {
                0u8
            } else {
                255u8
            }
        }),
{
    let dim = (side + 8) * 10;
    let py = (y + 4) * 10;
    let px = (x + 4) * 10;
    let i = py * dim + px;
    assert(0 <= py < dim && 0 <= px < dim);
    assert(0 <= i < dim * dim) by (nonlinear_arith)
        requires
            0 <= py < dim,
            0 <= px < dim,
            i == py * dim + px,
    ;
    vstd::arithmetic::div_mod::lemma_fundamental_div_mod_converse(i, dim as int, py, px);
    vstd::arithmetic::div_mod::lemma_fundamental_div_mod_converse(px, 10, x + 4, 0);
    vstd::arithmetic::div_mod::lemma_fundamental_div_mod_converse(py, 10, y + 4, 0);
    assert(gray_raster(modules, side, 4, 10).len() == dim * dim);
}

/// A dark module is drawn as two spaces on a black background (`ESC[40m`),
/// a light one as two spaces on a white background (`ESC[47m`), and each
/// line ends with the reset `ESC[0m`.
pub proof fn lemma_cell_colours(row: Seq<bool>)
    ensures
        block(true) == seq!['\x1b', '[', '4', '0', 'm', ' ', ' '],
        block(false) == seq!['\x1b', '[', '4', '7', 'm', ' ', ' '],
        terminal_line(row) == blocks(row) + seq!['\x1b', '[', '0', 'm'],
{
    reveal_strlit("\x1b[40m  ");
    reveal_strlit("\x1b[47m  ");
    reveal_strlit("\x1b[0m");
    assert(block(true) =~= seq!['\x1b', '[', '4', '0', 'm', ' ', ' ']);
    assert(block(false) =~= seq!['\x1b', '[', '4', '7', 'm', ' ', ' ']);
    assert("\x1b[0m"@ =~= seq!['\x1b', '[', '0', 'm']);
}

} // verus!

# omarchy-hotspot

A verified library for an interactive Wi-Fi hotspot manager built on
`create_ap`, with a thin command-line front end.

- `src/` is the library, checked by Verus:
  - `text`: character-level helpers with exact specifications of
    `str::lines`, `str::split_whitespace`, `str::trim` and substring search;
  - `escape`: escaping of SSIDs and passwords for the `WIFI:` QR payload, and
    the proof that a QR reader gets both fields back;
  - `netif`: the interface list (loopback dropped, sorted), the leftover
    `ap*` interfaces, the wireless choices, the suggested defaults, and the
    default-route interface parsed from `/proc/net/route`;
  - `setup`: dependency checks and install commands (`omarchy pkg add`,
    `omarchy pkg aur add`), the `create_ap` patch check, `[Y/n]` answers,
    the password rule, the `create_ap` command line and the handling of its
    output;
  - `qr`: the QR symbol of the payload (through the `qrcode` crate), its
    grayscale raster and its terminal rendering.
- `app/main.rs` runs the program: prompts, files, processes, signals and
  printing.
- `tests/` runs the library on concrete values.

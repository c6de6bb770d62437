//! Escaping of SSIDs and passphrases for the `WIFI:` QR payload format.
use vstd::prelude::*;
use crate::text::push_char;


verus! {

/// The characters that the `WIFI:` payload format reserves.
pub open spec fn is_qr_special(c: char) -> bool {
    c == '\\' || c == ';' || c == ',' || c == ':' || c == '"'
}

/// How a single character is written in an escaped field.
pub open spec fn escape_char(c: char) -> Seq<char> {
    if is_qr_special(c) {
        seq!['\\', c]
    } else {
        seq![c]
    }
}

/// The escaped form of a whole field: each character escaped in turn.
pub open spec fn escaped(s: Seq<char>) -> Seq<char>
    decreases s.len(),
{
    if s.len() == 0 {
        seq![]
    } else {
        escaped(s.drop_last()) + escape_char(s.last())
    }
}

/// Escapes backslash, semicolon, comma, colon and double quote with a
/// leading backslash, leaving every other character as it is.
pub fn escape_qr_special(s: &str) -> (r: String)
    ensures
        r@ == escaped(s@),
{
    let cs = crate::text::chars_of(s);
    let mut r = String::new();
    let mut i: usize = 0;
    while i < cs.len()
        invariant
            i <= cs.len(),
            cs@ == s@,
            r@ == escaped(s@.take(i as int)),
        decreases cs.len() - i,
    {
        let c = cs[i];
        proof {
            assert(s@.take(i + 1).drop_last() =~= s@.take(i as int));
        }
        if c == '\\' || c == ';' || c == ',' || c == ':' || c == '"' {
            push_char(&mut r, '\\');
        }
        push_char(&mut r, c);
        i += 1;
    }
    proof {
        assert(s@.take(i as int) =~= s@);
    }
    r
}

} // verus!

verus! {

/// How a reader of a `WIFI:` payload decodes one field: a backslash makes
/// the next character literal, and the first unescaped `;` ends the field.
pub open spec fn read_field(t: Seq<char>) -> Seq<char>
    decreases t.len(),
{
    if t.len() == 0 {
        seq![]
    } else if t[0] == ';' {
        seq![]
    } else if t[0] == '\\' && t.len() >= 2 {
        seq![t[1]] + read_field(t.skip(2))
    } else {
        seq![t[0]] + read_field(t.skip(1))
    }
}

/// Escaping distributes over concatenation.
pub proof fn lemma_escaped_concat(a: Seq<char>, b: Seq<char>)
    ensures
        escaped(a + b) == escaped(a) + escaped(b),
    decreases b.len(),
{
    if b.len() == 0 {
        assert(a + b =~= a);
        assert(escaped(a) + escaped(b) =~= escaped(a));
    } else {
        lemma_escaped_concat(a, b.drop_last());
        assert((a + b).drop_last() =~= a + b.drop_last());
        assert((a + b).last() == b.last());
        assert(escaped(a) + escaped(b) =~= escaped(a) + escaped(b.drop_last()) + escape_char(b.last()));
    }
}

/// Escaping a field and then reading it back, up to the `;` that closes it,
/// gives the field back, whatever follows the `;`.
pub proof fn lemma_escape_then_read_field(s: Seq<char>, rest: Seq<char>)
    ensures
        read_field(escaped(s) + seq![';'] + rest) == s,
    decreases s.len(),
{
    if s.len() == 0 {
        assert(escaped(s) + seq![';'] + rest =~= seq![';'] + rest);
    } else {
        let c = s[0];
        let tail = s.drop_first();
        assert(s =~= seq![c] + tail);
        lemma_escaped_concat(seq![c], tail);
        assert(seq![c].drop_last() =~= Seq::<char>::empty());
        assert(seq![c].last() == c);
        assert(escaped(Seq::<char>::empty()) =~= Seq::<char>::empty());
        assert(escaped(seq![c]) =~= escape_char(c));
        lemma_escape_then_read_field(tail, rest);
        let t = escaped(s) + seq![';'] + rest;
        let inner = escaped(tail) + seq![';'] + rest;
        if is_qr_special(c) {
            assert(t =~= seq!['\\', c] + inner);
            assert(t.skip(2) =~= inner);
        } else {
            assert(t =~= seq![c] + inner);
            assert(t.skip(1) =~= inner);
        }
        assert(read_field(t) =~= seq![c] + tail);
    }
}

/// A field without reserved characters is written unchanged.
pub proof fn lemma_escape_plain_unchanged(s: Seq<char>)
    requires
        forall|i: int| 0 <= i < s.len() ==> !is_qr_special(#[trigger] s[i]),
    ensures
        escaped(s) == s,
    decreases s.len(),
{
    if s.len() > 0 {
        lemma_escape_plain_unchanged(s.drop_last());
        assert(!is_qr_special(s[s.len() - 1]));
        assert(escaped(s) =~= s.drop_last().push(s.last()));
        assert(s.drop_last().push(s.last()) =~= s);
    }
}

/// The escaped field is longer than the unescaped field by the number of reserved
/// characters it holds.
pub proof fn lemma_escaped_len(s: Seq<char>)
    ensures
        escaped(s).len() == s.len() + s.filter(|c: char| is_qr_special(c)).len(),
    decreases s.len(),
{
    reveal_with_fuel(Seq::filter, 1);
    if s.len() > 0 {
        lemma_escaped_len(s.drop_last());
    }
}

} // verus!

verus! {

/// The text of a `WIFI:` QR payload for a WPA network.
pub open spec fn wifi_payload(ssid: Seq<char>, password: Seq<char>) -> Seq<char> {
    "WIFI:T:WPA;S:"@ + escaped(ssid) + ";P:"@ + escaped(password) + ";;"@
}

/// Builds the `WIFI:T:WPA;S:<ssid>;P:<password>;;` payload, with both fields
/// escaped.
pub fn wifi_qr_payload(ssid: &str, password: &str) -> (r: String)
    ensures
        r@ == wifi_payload(ssid@, password@),
{
    let mut r = String::new();
    r.append("WIFI:T:WPA;S:");
    let s = escape_qr_special(ssid);
    r.append(s.as_str());
    r.append(";P:");
    let p = escape_qr_special(password);
    r.append(p.as_str());
    r.append(";;");
    r
}

/// A reader that skips the `WIFI:T:WPA;S:` header finds the SSID in the
/// first field, and the password in the field after the `P:` label.
pub proof fn lemma_payload_fields_read_back(ssid: Seq<char>, password: Seq<char>)
    ensures
        wifi_payload(ssid, password).take(13) == "WIFI:T:WPA;S:"@,
        read_field(wifi_payload(ssid, password).skip(13)) == ssid,
        wifi_payload(ssid, password).subrange(
            13 + escaped(ssid).len() as int + 1,
            13 + escaped(ssid).len() as int + 3,
        ) == "P:"@,
        read_field(wifi_payload(ssid, password).skip(13 + escaped(ssid).len() as int + 3)) == password,
{
    reveal_strlit("WIFI:T:WPA;S:");
    reveal_strlit(";P:");
    reveal_strlit(";;");
    reveal_strlit("P:");
    let p = wifi_payload(ssid, password);
    let es = escaped(ssid);
    let ep = escaped(password);
    assert(p.take(13) =~= "WIFI:T:WPA;S:"@);
    assert(p.skip(13) =~= es + seq![';'] + ("P:"@ + ep + ";;"@));
    lemma_escape_then_read_field(ssid, "P:"@ + ep + ";;"@);
    assert(p.subrange(13 + es.len() as int + 1, 13 + es.len() as int + 3) =~= "P:"@);
    assert(p.skip(13 + es.len() as int + 3) =~= ep + seq![';'] + seq![';']);
    lemma_escape_then_read_field(password, seq![';']);
}

/// Backslash, semicolon, comma, colon and double quote each get a leading
/// backslash; every other character is written as it is.
pub proof fn lemma_escape_single_character(c: char)
    ensures
        (c == '\\' || c == ';' || c == ',' || c == ':' || c == '"') ==> escaped(seq![c]) == seq![
            '\\',
            c,
        ],
        !(c == '\\' || c == ';' || c == ',' || c == ':' || c == '"') ==> escaped(seq![c]) == seq![c],
{
    assert(seq![c].drop_last() =~= Seq::<char>::empty());
    assert(seq![c].last() == c);
    assert(escaped(Seq::<char>::empty()) =~= Seq::<char>::empty());
    assert(escaped(seq![c]) =~= escape_char(c));
}

} // verus!

//! Network interfaces: which ones are offered, in what order, which one is
//! suggested, and which one carries the default route.
use vstd::prelude::*;
use vstd::relations::sorted_by;
use vstd::string::StringExecFns;
use crate::text::{has_prefix, chars_of, fields, fields_of, lines_of, string_from_chars, text_lines, views};

verus! {

/// The fields of a routing-table line name the default route when the
/// destination column (the second field) is `00000000`.
pub open spec fn is_default_route(f: Seq<Seq<char>>) -> bool {
    f.len() >= 2 && f[1] == "00000000"@
}

/// Tests whether a field is the all-zero destination `00000000`.
fn is_zero_destination(v: &Vec<char>) -> (b: bool)
    ensures
        b == (v@ == "00000000"@),
{
    proof {
        reveal_strlit("00000000");
    }
    if v.len() != 8 {
        return false;
    }
    let mut i: usize = 0;
    while i < 8
        invariant
            v.len() == 8,
            i <= 8,
            forall|j: int| 0 <= j < i ==> v@[j] == '0',
            "00000000"@ =~= seq!['0', '0', '0', '0', '0', '0', '0', '0'],
        decreases 8 - i,
    {
        if v[i] != '0' {
            assert(v@[i as int] != "00000000"@[i as int]);
            return false;
        }
        i += 1;
    }
    assert(v@ =~= "00000000"@);
    true
}

/// Finds the interface of the default route in the text of a kernel routing
/// table (`/proc/net/route`): the first field of the first line after the
/// header line whose second field is `00000000`.
pub fn default_gateway_interface(route_table: &str) -> (r: Option<String>)
    ensures
        ({
            let ls = text_lines(route_table@);
            match r {
                Some(name) => exists|i: int|
                    1 <= i < ls.len() && is_default_route(#[trigger] fields(ls[i])) && (forall|
                        j: int,
                    | 1 <= j < i ==> !is_default_route(#[trigger] fields(ls[j])))
                        && name@ == fields(ls[i])[0],
                None => forall|i: int|
                    1 <= i < ls.len() ==> !is_default_route(#[trigger] fields(ls[i])),
            }
        }),
{
    let cs = chars_of(route_table);
    let ls = lines_of(&cs);
    let ghost lv = views(ls@);
    let mut k: usize = 1;
    while k < ls.len()
        invariant
            lv == views(ls@),
            lv == text_lines(route_table@),
            1 <= k,
            forall|j: int| 1 <= j < k && j < lv.len() ==> !is_default_route(
                #[trigger] fields(lv[j]),
            ),
        decreases ls.len() - k,
    {
        let f = fields_of(&ls[k]);
        proof {
            assert(lv[k as int] == ls@[k as int]@);
        }
        if f.len() >= 2 && is_zero_destination(&f[1]) {
            let name = string_from_chars(&f[0]);
            proof {
                assert(views(f@)[0] == f@[0]@);
                assert(views(f@)[1] == f@[1]@);
                assert(is_default_route(fields(lv[k as int])));
            }
            return Some(name);
        }
        proof {
            if f.len() >= 2 {
                assert(views(f@)[1] == f@[1]@);
            }
        }
        k += 1;
    }
    None
}

/// Byte-wise lexicographic order, the order of `str`'s `Ord`.
pub open spec fn bytes_le(a: Seq<u8>, b: Seq<u8>) -> bool
    decreases a.len(),
{
    if a.len() == 0 {
        true
    } else if b.len() == 0 {
        false
    } else if a[0] != b[0] {
        a[0] < b[0]
    } else {
        bytes_le(a.drop_first(), b.drop_first())
    }
}

/// Interface names are ordered as strings: by their UTF-8 bytes.
pub open spec fn name_le(a: Seq<char>, b: Seq<char>) -> bool {
    bytes_le(vstd::utf8::encode_utf8(a), vstd::utf8::encode_utf8(b))
}

/// The order of interface names as a relation.
pub open spec fn name_order() -> spec_fn(Seq<char>, Seq<char>) -> bool {
    |a: Seq<char>, b: Seq<char>| name_le(a, b)
}

/// Selects every name but the loopback interface `lo`.
pub open spec fn not_loopback() -> spec_fn(Seq<char>) -> bool {
    |n: Seq<char>| n != "lo"@
}

/// The views of a sequence of strings.
pub open spec fn string_views(v: Seq<String>) -> Seq<Seq<char>> {
    v.map_values(|s: String| s@)
}

/// Any two byte strings are ordered one way or the other.
pub proof fn lemma_bytes_le_total(a: Seq<u8>, b: Seq<u8>)
    ensures
        bytes_le(a, b) || bytes_le(b, a),
    decreases a.len(),
{
    if a.len() > 0 && b.len() > 0 && a[0] == b[0] {
        lemma_bytes_le_total(a.drop_first(), b.drop_first());
    }
}

/// The byte order is transitive.
pub proof fn lemma_bytes_le_transitive(a: Seq<u8>, b: Seq<u8>, c: Seq<u8>)
    requires
        bytes_le(a, b),
        bytes_le(b, c),
    ensures
        bytes_le(a, c),
    decreases a.len(),
{
    if a.len() > 0 && b.len() > 0 && c.len() > 0 && a[0] == b[0] && b[0] == c[0] {
        lemma_bytes_le_transitive(a.drop_first(), b.drop_first(), c.drop_first());
    }
}

/// Compares two byte strings in byte-wise lexicographic order.
fn bytes_le_exec(a: &[u8], b: &[u8]) -> (r: bool)
    ensures
        r == bytes_le(a@, b@),
{
    let mut i: usize = 0;
    proof {
        assert(a@.skip(0) =~= a@);
        assert(b@.skip(0) =~= b@);
    }
    while i < a.len() && i < b.len()
        invariant
            i <= a@.len(),
            i <= b@.len(),
            bytes_le(a@, b@) == bytes_le(a@.skip(i as int), b@.skip(i as int)),
        decreases a.len() - i,
    {
        if a[i] != b[i] {
            return a[i] < b[i];
        }
        proof {
            assert(a@.skip(i as int).drop_first() =~= a@.skip(i + 1));
            assert(b@.skip(i as int).drop_first() =~= b@.skip(i + 1));
        }
        i += 1;
    }
    a.len() <= b.len()
}

/// Compares two interface names in string order.
fn name_le_exec(a: &String, b: &String) -> (r: bool)
    ensures
        r == name_le(a@, b@),
{
    bytes_le_exec(a.as_str().as_bytes(), b.as_str().as_bytes())
}

/// Tests whether a name is the loopback interface `lo`.
fn is_loopback(name: &String) -> (b: bool)
    ensures
        b == (name@ == "lo"@),
{
    let lo = String::from_str("lo");
    name.eq(&lo)
}

/// The interfaces offered to the user: every name found except the loopback
/// interface `lo`, in ascending string order.
pub fn network_interface_list(names: Vec<String>) -> (r: Vec<String>)
    ensures
        string_views(r@).to_multiset() == string_views(names@).filter(
            not_loopback(),
        ).to_multiset(),
        sorted_by(string_views(r@), name_order()),
        string_views(r@) == string_views(names@).filter(not_loopback()).sort_by(name_order()),
{
    broadcast use vstd::seq_lib::group_to_multiset_ensures;

    let mut out: Vec<String> = Vec::new();
    let mut i: usize = 0;
    proof {
        reveal_with_fuel(Seq::filter, 1);
        assert(string_views(names@).take(0) =~= Seq::<Seq<char>>::empty());
        assert(string_views(out@) =~= Seq::<Seq<char>>::empty());
    }
    while i < names.len()
        invariant
            i <= names.len(),
            string_views(out@).to_multiset() == string_views(names@).take(i as int).filter(
                not_loopback(),
            ).to_multiset(),
            sorted_by(string_views(out@), name_order()),
        decreases names.len() - i,
    {
        let ghost nv = string_views(names@);
        proof {
            assert(nv.take(i + 1) =~= nv.take(i as int).push(nv[i as int]));
            nv.take(i as int).lemma_filter_push(nv[i as int], not_loopback());
        }
        if !is_loopback(&names[i]) {
            let x = names[i].clone();
            let ghost ov = string_views(out@);
            let mut pos: usize = 0;
            while pos < out.len() && name_le_exec(&out[pos], &x)
                invariant
                    pos <= out.len(),
                    ov == string_views(out@),
                    forall|j: int| 0 <= j < pos ==> name_le(#[trigger] ov[j], x@),
                decreases out.len() - pos,
            {
                pos += 1;
            }
            out.insert(pos, x);
            proof {
                let nvw = string_views(out@);
                assert(nvw =~= ov.insert(pos as int, x@));
                assert(x@ == nv[i as int]);
                assert(not_loopback()(nv[i as int]));
                vstd::seq_lib::to_multiset_insert(ov, pos as int, x@);
                vstd::seq_lib::to_multiset_build(nv.take(i as int).filter(not_loopback()), x@);
                assert(nvw.to_multiset() == nv.take(i + 1).filter(not_loopback()).to_multiset());
                assert forall|a: int, b: int| 0 <= a < b < nvw.len() implies #[trigger] name_order()(
                    nvw[a],
                    nvw[b],
                ) by {
                    if b < pos {
                        assert(name_order()(ov[a], ov[b]));
                    } else if b == pos {
                        assert(name_le(ov[a], x@));
                    } else if a < pos {
                        assert(name_order()(ov[a], ov[b - 1]));
                    } else if a == pos {
                        lemma_bytes_le_total(
                            vstd::utf8::encode_utf8(ov[pos as int]),
                            vstd::utf8::encode_utf8(x@),
                        );
                        if b - 1 > pos {
                            assert(name_order()(ov[pos as int], ov[b - 1]));
                            lemma_bytes_le_transitive(
                                vstd::utf8::encode_utf8(x@),
                                vstd::utf8::encode_utf8(ov[pos as int]),
                                vstd::utf8::encode_utf8(ov[b - 1]),
                            );
                        }
                    } else {
                        assert(name_order()(ov[a - 1], ov[b - 1]));
                    }
                }
            }
        } else {
            proof {
                assert(!not_loopback()(nv[i as int]));
            }
        }
        i += 1;
    }
    proof {
        assert(string_views(names@).take(i as int) =~= string_views(names@));
        lemma_interface_list_is_sorted_names(string_views(names@), string_views(out@));
    }
    out
}

/// Selects the names that begin with `prefix`.
pub open spec fn starts_with(prefix: Seq<char>) -> spec_fn(Seq<char>) -> bool {
    |n: Seq<char>| prefix.is_prefix_of(n)
}

/// The virtual access-point interfaces left over from earlier runs: the
/// names that begin with `ap`, in their order.
pub fn virtual_ap_interfaces(ifaces: &Vec<String>) -> (r: Vec<String>)
    ensures
        string_views(r@) == string_views(ifaces@).filter(starts_with("ap"@)),
{
    let ghost v = string_views(ifaces@);
    let mut r: Vec<String> = Vec::new();
    let mut i: usize = 0;
    proof {
        reveal_with_fuel(Seq::filter, 1);
        assert(v.take(0) =~= Seq::<Seq<char>>::empty());
    }
    while i < ifaces.len()
        invariant
            v == string_views(ifaces@),
            i <= ifaces.len(),
            string_views(r@) == v.take(i as int).filter(starts_with("ap"@)),
        decreases ifaces.len() - i,
    {
        proof {
            assert(v.take(i + 1) =~= v.take(i as int).push(v[i as int]));
            v.take(i as int).lemma_filter_push(v[i as int], starts_with("ap"@));
        }
        if has_prefix(ifaces[i].as_str(), "ap") {
            let ghost old_r = r@;
            r.push(ifaces[i].clone());
            proof {
                assert(string_views(r@) =~= string_views(old_r).push(v[i as int]));
            }
        }
        i += 1;
    }
    proof {
        assert(v.take(i as int) =~= v);
    }
    r
}

/// The index of the first name with the given property, if any.
pub open spec fn first_index(names: Seq<Seq<char>>, p: spec_fn(Seq<char>) -> bool, i: int) -> bool {
    0 <= i < names.len() && p(names[i]) && forall|j: int| 0 <= j < i ==> !p(#[trigger] names[j])
}

/// The Wi-Fi adapter suggested for the hotspot: the first interface whose
/// name begins with `wlan`, or `wlan0` when there is none.
pub fn suggested_wifi_interface(ifaces: &Vec<String>) -> (r: String)
    ensures
        (exists|i: int| #[trigger] first_index(string_views(ifaces@), starts_with("wlan"@), i) && r@
            == ifaces@[i]@) || ((forall|i: int|
            0 <= i < ifaces@.len() ==> !starts_with("wlan"@)(#[trigger] ifaces@[i]@)) && r@
            == "wlan0"@),
{
    let ghost v = string_views(ifaces@);
    let mut i: usize = 0;
    while i < ifaces.len()
        invariant
            v == string_views(ifaces@),
            i <= ifaces.len(),
            forall|j: int| 0 <= j < i ==> !starts_with("wlan"@)(#[trigger] v[j]),
        decreases ifaces.len() - i,
    {
        if has_prefix(ifaces[i].as_str(), "wlan") {
            proof {
                assert(first_index(v, starts_with("wlan"@), i as int));
            }
            return ifaces[i].clone();
        }
        i += 1;
    }
    proof {
        assert forall|k: int| 0 <= k < ifaces@.len() implies !starts_with("wlan"@)(
            #[trigger] ifaces@[k]@,
        ) by {
            assert(v[k] == ifaces@[k]@);
        }
    }
    String::from_str("wlan0")
}

/// The internet source suggested: the interface of the default route when
/// one was found, else `wlan0`.
pub fn suggested_internet_interface(detected: Option<String>) -> (r: String)
    ensures
        r@ == match detected {
            Some(name) => name@,
            None => "wlan0"@,
        },
{
    match detected {
        Some(name) => name,
        None => String::from_str("wlan0"),
    }
}

/// Selects the names equal to `name`.
pub open spec fn named(name: Seq<char>) -> spec_fn(Seq<char>) -> bool {
    |n: Seq<char>| n == name
}

/// The entry that a selection list starts on: the first interface named
/// `preferred`, or the first entry when none is.
pub fn default_choice_index(ifaces: &Vec<String>, preferred: &String) -> (r: usize)
    ensures
        (exists|i: int| #[trigger] first_index(string_views(ifaces@), named(preferred@), i) && r
            == i) || ((forall|i: int| 0 <= i < ifaces@.len() ==> #[trigger] ifaces@[i]@ != preferred@)
            && r == 0),
{
    let ghost v = string_views(ifaces@);
    let mut i: usize = 0;
    while i < ifaces.len()
        invariant
            v == string_views(ifaces@),
            i <= ifaces.len(),
            forall|j: int| 0 <= j < i ==> #[trigger] v[j] != preferred@,
        decreases ifaces.len() - i,
    {
        if ifaces[i].eq(preferred) {
            proof {
                assert(first_index(v, named(preferred@), i as int));
            }
            return i;
        }
        i += 1;
    }
    proof {
        assert forall|k: int| 0 <= k < ifaces@.len() implies #[trigger] ifaces@[k]@ != preferred@ by {
            assert(v[k] == ifaces@[k]@);
        }
    }
    0
}

/// The items whose flag equals `keep`, in their order.
pub open spec fn flagged(items: Seq<Seq<char>>, flags: Seq<bool>, keep: bool) -> Seq<Seq<char>>
    decreases items.len(),
{
    if items.len() == 0 || flags.len() != items.len() {
        seq![]
    } else if flags.last() == keep {
        flagged(items.drop_last(), flags.drop_last(), keep).push(items.last())
    } else {
        flagged(items.drop_last(), flags.drop_last(), keep)
    }
}

/// Keeps the items whose flag equals `keep`, in their order.
pub fn keep_flagged(items: &Vec<String>, flags: &Vec<bool>, keep: bool) -> (r: Vec<String>)
    requires
        items.len() == flags.len(),
    ensures
        string_views(r@) == flagged(string_views(items@), flags@, keep),
{
    let ghost v = string_views(items@);
    let mut r: Vec<String> = Vec::new();
    let mut i: usize = 0;
    while i < items.len()
        invariant
            items.len() == flags.len(),
            v == string_views(items@),
            i <= items.len(),
            string_views(r@) == flagged(v.take(i as int), flags@.take(i as int), keep),
        decreases items.len() - i,
    {
        proof {
            assert(v.take(i + 1).drop_last() =~= v.take(i as int));
            assert(flags@.take(i + 1).drop_last() =~= flags@.take(i as int));
            assert(v.take(i + 1).last() == v[i as int]);
        }
        if flags[i] == keep {
            let ghost old_r = r@;
            r.push(items[i].clone());
            proof {
                assert(string_views(r@) =~= string_views(old_r).push(v[i as int]));
            }
        }
        i += 1;
    }
    proof {
        assert(v.take(i as int) =~= v);
        assert(flags@.take(i as int) =~= flags@);
    }
    r
}

/// The interfaces that can host the hotspot: those detected as wireless
/// (`wireless[i]`), in their order.
pub fn wireless_interfaces(ifaces: &Vec<String>, wireless: &Vec<bool>) -> (r: Vec<String>)
    requires
        ifaces.len() == wireless.len(),
    ensures
        string_views(r@) == flagged(string_views(ifaces@), wireless@, true),
{
    keep_flagged(ifaces, wireless, true)
}

/// Eight zero digits, the destination of a default route.
pub open spec fn eight_zeros() -> Seq<char> {
    seq!['0', '0', '0', '0', '0', '0', '0', '0']
}

/// A routing-table line is a default route exactly when it has at least two
/// fields and its destination (second) field is eight zero digits; the
/// gateway and the other columns play no part.
pub proof fn lemma_default_route_is_zero_destination(f: Seq<Seq<char>>)
    ensures
        is_default_route(f) == (f.len() >= 2 && f[1] == eight_zeros()),
        forall|g: Seq<Seq<char>>|
            g.len() >= 2 && f.len() >= 2 && #[trigger] g[1] == f[1] ==> is_default_route(g)
                == is_default_route(f),
{
    reveal_strlit("00000000");
    assert("00000000"@ =~= eight_zeros());
}

/// The first line after the header whose destination is `00000000` gives
/// the interface, whatever its other columns hold (a point-to-point link
/// with gateway `00000000` included).
pub proof fn lemma_first_zero_destination_is_gateway(table: Seq<char>, i: int)
    requires
        1 <= i < text_lines(table).len(),
        fields(text_lines(table)[i]).len() >= 2,
        fields(text_lines(table)[i])[1] == eight_zeros(),
        forall|j: int|
            1 <= j < i ==> !(fields(text_lines(table)[j]).len() >= 2 && #[trigger] fields(
                text_lines(table)[j],
            )[1] == eight_zeros()),
    ensures
        is_default_route(fields(text_lines(table)[i])),
        forall|j: int| 1 <= j < i ==> !is_default_route(#[trigger] fields(text_lines(table)[j])),
{
    lemma_default_route_is_zero_destination(fields(text_lines(table)[i]));
    assert forall|j: int| 1 <= j < i implies !is_default_route(
        #[trigger] fields(text_lines(table)[j]),
    ) by {
        lemma_default_route_is_zero_destination(fields(text_lines(table)[j]));
    }
}

/// Byte strings are compared as `str`'s `Ord` compares them: `a` comes
/// first (or ties) exactly when it is a prefix of `b`, or when at the first
/// position where they differ `a` has the smaller byte.
pub proof fn lemma_bytes_le_is_lexicographic(a: Seq<u8>, b: Seq<u8>)
    ensures
        bytes_le(a, b) <==> (a.is_prefix_of(b) || exists|k: int|
            0 <= k < a.len() && k < b.len() && a.take(k) == b.take(k) && #[trigger] a[k] < b[k]),
    decreases a.len(),
{
    if a.len() == 0 {
        assert(a.is_prefix_of(b)) by {
            assert(b.subrange(0, 0) =~= a);
        }
    } else if b.len() == 0 {
    } else if a[0] != b[0] {
        if a[0] < b[0] {
            assert(a.take(0) =~= b.take(0));
            assert(0 < a.len() && 0 < b.len() && a.take(0) == b.take(0) && a[0] < b[0]);
        } else {
            assert(!a.is_prefix_of(b)) by {
                if a.len() <= b.len() {
                    assert(b.subrange(0, a.len() as int)[0] == b[0]);
                }
            }
            assert forall|k: int|
                0 <= k < a.len() && k < b.len() && a.take(k) == b.take(k) implies !(#[trigger] a[k]
                < b[k]) by {
                if k > 0 {
                    assert(a.take(k)[0] == b.take(k)[0]);
                }
            }
        }
    } else {
        let a1 = a.drop_first();
        let b1 = b.drop_first();
        lemma_bytes_le_is_lexicographic(a1, b1);
        if a.is_prefix_of(b) {
            assert(a1.is_prefix_of(b1)) by {
                assert(b1.subrange(0, a1.len() as int) =~= b.subrange(0, a.len() as int).drop_first());
            }
        }
        if a1.is_prefix_of(b1) {
            assert(a.is_prefix_of(b)) by {
                assert(b.subrange(0, a.len() as int) =~= seq![b[0]] + b1.subrange(0, a1.len() as int));
                assert(a =~= seq![a[0]] + a1);
            }
        }
        if exists|k: int|
            0 <= k < a.len() && k < b.len() && a.take(k) == b.take(k) && #[trigger] a[k] < b[k] {
            let k = choose|k: int|
                0 <= k < a.len() && k < b.len() && a.take(k) == b.take(k) && #[trigger] a[k] < b[k];
            assert(k > 0);
            assert(a1.take(k - 1) =~= a.take(k).drop_first());
            assert(b1.take(k - 1) =~= b.take(k).drop_first());
            assert(a1[k - 1] == a[k] && b1[k - 1] == b[k]);
        }
        if exists|k: int|
            0 <= k < a1.len() && k < b1.len() && a1.take(k) == b1.take(k) && #[trigger] a1[k]
                < b1[k] {
            let k = choose|k: int|
                0 <= k < a1.len() && k < b1.len() && a1.take(k) == b1.take(k) && #[trigger] a1[k]
                    < b1[k];
            assert(a.take(k + 1) =~= seq![a[0]] + a1.take(k));
            assert(b.take(k + 1) =~= seq![b[0]] + b1.take(k));
            assert(a[k + 1] == a1[k] && b[k + 1] == b1[k]);
        }
    }
}

/// Two byte strings that are each at most the other are equal.
pub proof fn lemma_bytes_le_antisymmetric(a: Seq<u8>, b: Seq<u8>)
    requires
        bytes_le(a, b),
        bytes_le(b, a),
    ensures
        a == b,
    decreases a.len(),
{
    if a.len() == 0 {
        assert(b.len() == 0);
        assert(a =~= b);
    } else {
        lemma_bytes_le_antisymmetric(a.drop_first(), b.drop_first());
        assert(a =~= seq![a[0]] + a.drop_first());
        assert(b =~= seq![b[0]] + b.drop_first());
    }
}

/// Every byte string is at most itself.
pub proof fn lemma_bytes_le_reflexive(a: Seq<u8>)
    ensures
        bytes_le(a, a),
    decreases a.len(),
{
    if a.len() > 0 {
        lemma_bytes_le_reflexive(a.drop_first());
    }
}

/// Interface names that are each at most the other are the same name: a
/// difference in any byte decides the order.
pub proof fn lemma_name_le_antisymmetric(a: Seq<char>, b: Seq<char>)
    requires
        name_le(a, b),
        name_le(b, a),
    ensures
        a == b,
{
    lemma_bytes_le_antisymmetric(vstd::utf8::encode_utf8(a), vstd::utf8::encode_utf8(b));
    vstd::utf8::encode_utf8_decode_utf8(a);
    vstd::utf8::encode_utf8_decode_utf8(b);
}

/// The order of interface names is a total order (reflexive, antisymmetric,
/// transitive and total), so the sorted list of interfaces is unique.
pub proof fn lemma_name_order_is_total()
    ensures
        vstd::relations::total_ordering(name_order()),
{
    assert forall|x: Seq<char>| #[trigger] name_order()(x, x) by {
        lemma_bytes_le_reflexive(vstd::utf8::encode_utf8(x));
    }
    assert forall|x: Seq<char>, y: Seq<char>|
        #[trigger] name_order()(x, y) && #[trigger] name_order()(y, x) implies x == y by {
        lemma_name_le_antisymmetric(x, y);
    }
    assert forall|x: Seq<char>, y: Seq<char>, z: Seq<char>|
        #[trigger] name_order()(x, y) && #[trigger] name_order()(y, z) implies name_order()(
        x,
        z,
    ) by {
        lemma_bytes_le_transitive(
            vstd::utf8::encode_utf8(x),
            vstd::utf8::encode_utf8(y),
            vstd::utf8::encode_utf8(z),
        );
    }
    assert forall|x: Seq<char>, y: Seq<char>|
        #[trigger] name_order()(x, y) || #[trigger] name_order()(y, x) by {
        lemma_bytes_le_total(vstd::utf8::encode_utf8(x), vstd::utf8::encode_utf8(y));
    }
}

/// Only the name `lo` itself is left out of the interface list.
pub proof fn lemma_only_lo_is_loopback(n: Seq<char>)
    ensures
        not_loopback()(n) == (n != seq!['l', 'o']),
{
    reveal_strlit("lo");
    assert("lo"@ =~= seq!['l', 'o']);
}

/// Keeping by flags keeps every item when all flags match, none when no
/// flag matches, and never more items than there are.
pub proof fn lemma_flagged_all_or_none(items: Seq<Seq<char>>, flags: Seq<bool>, keep: bool)
    requires
        items.len() == flags.len(),
    ensures
        (forall|i: int| 0 <= i < flags.len() ==> #[trigger] flags[i] == keep) ==> flagged(
            items,
            flags,
            keep,
        ) == items,
        (forall|i: int| 0 <= i < flags.len() ==> #[trigger] flags[i] != keep) ==> flagged(
            items,
            flags,
            keep,
        ).len() == 0,
        flagged(items, flags, keep).len() <= items.len(),
    decreases items.len(),
{
    if items.len() > 0 {
        lemma_flagged_all_or_none(items.drop_last(), flags.drop_last(), keep);
        if forall|i: int| 0 <= i < flags.len() ==> #[trigger] flags[i] == keep {
            assert forall|i: int| 0 <= i < flags.drop_last().len() implies #[trigger] flags.drop_last()[i]
                == keep by {
                assert(flags.drop_last()[i] == flags[i]);
            }
            assert(flags[flags.len() - 1] == keep);
            assert(items.drop_last().push(items.last()) =~= items);
        }
        if forall|i: int| 0 <= i < flags.len() ==> #[trigger] flags[i] != keep {
            assert forall|i: int| 0 <= i < flags.drop_last().len() implies #[trigger] flags.drop_last()[i]
                != keep by {
                assert(flags.drop_last()[i] == flags[i]);
            }
            assert(flags[flags.len() - 1] != keep);
        }
    }
}

/// Under a total order there is only one sorted arrangement of a multiset
/// of names.
pub proof fn lemma_sorted_arrangement_unique(
    a: Seq<Seq<char>>,
    b: Seq<Seq<char>>,
    le: spec_fn(Seq<char>, Seq<char>) -> bool,
)
    requires
        vstd::relations::total_ordering(le),
        sorted_by(a, le),
        sorted_by(b, le),
        a.to_multiset() == b.to_multiset(),
    ensures
        a == b,
    decreases a.len(),
{
    broadcast use vstd::seq_lib::group_to_multiset_ensures;

    assert(a.len() == b.len()) by {
        assert(a.len() == a.to_multiset().len());
        assert(b.len() == b.to_multiset().len());
    }
    if a.len() == 0 {
        assert(a =~= b);
    } else {
        assert(a.contains(a[0]));
        assert(b.to_multiset().count(a[0]) > 0);
        assert(b.contains(a[0]));
        let j = choose|j: int| 0 <= j < b.len() && b[j] == a[0];
        assert(b.contains(b[0]));
        assert(a.to_multiset().count(b[0]) > 0);
        assert(a.contains(b[0]));
        let i = choose|i: int| 0 <= i < a.len() && a[i] == b[0];
        if i > 0 {
            assert(le(a[0], a[i]));
        }
        assert(le(a[0], b[0]));
        if j > 0 {
            assert(le(b[0], b[j]));
        }
        assert(le(b[0], a[0]));
        assert(a[0] == b[0]);
        let a1 = a.drop_first();
        let b1 = b.drop_first();
        assert(a.remove(0) =~= a1);
        assert(b.remove(0) =~= b1);
        assert(a1.to_multiset() == a.to_multiset().remove(a[0]));
        assert(b1.to_multiset() == b.to_multiset().remove(b[0]));
        assert(sorted_by(a1, le)) by {
            assert forall|x: int, y: int| 0 <= x < y < a1.len() implies #[trigger] le(a1[x], a1[y]) by {
                assert(le(a[x + 1], a[y + 1]));
            }
        }
        assert(sorted_by(b1, le)) by {
            assert forall|x: int, y: int| 0 <= x < y < b1.len() implies #[trigger] le(b1[x], b1[y]) by {
                assert(le(b[x + 1], b[y + 1]));
            }
        }
        lemma_sorted_arrangement_unique(a1, b1, le);
        assert(a =~= seq![a[0]] + a1);
        assert(b =~= seq![b[0]] + b1);
    }
}

/// The interface list is the list of names without `lo`, sorted as `str`
/// sorts: the one sorted arrangement of those names.
pub proof fn lemma_interface_list_is_sorted_names(names: Seq<Seq<char>>, listed: Seq<Seq<char>>)
    requires
        listed.to_multiset() == names.filter(not_loopback()).to_multiset(),
        sorted_by(listed, name_order()),
    ensures
        listed == names.filter(not_loopback()).sort_by(name_order()),
{
    lemma_name_order_is_total();
    names.filter(not_loopback()).lemma_sort_by_ensures(name_order());
    lemma_sorted_arrangement_unique(
        listed,
        names.filter(not_loopback()).sort_by(name_order()),
        name_order(),
    );
}

/// A name begins with a prefix when its first characters are that prefix;
/// a name equal to another is selected by it; the first index of a
/// property is where it first holds.
pub proof fn lemma_selection_predicates(
    p: Seq<char>,
    n: Seq<char>,
    names: Seq<Seq<char>>,
    q: spec_fn(Seq<char>) -> bool,
    i: int,
)
    ensures
        starts_with(p)(n) == (p.len() <= n.len() && n.take(p.len() as int) == p),
        named(p)(n) == (n == p),
        first_index(names, q, i) == (0 <= i < names.len() && q(names[i]) && forall|j: int|
            0 <= j < i ==> !q(#[trigger] names[j])),
        forall|j: int| #[trigger] first_index(names, q, j) && first_index(names, q, i) ==> i == j,
{
    if p.len() <= n.len() {
        assert(n.take(p.len() as int) =~= n.subrange(0, p.len() as int));
    }
}

} // verus!

//! Start-up and run-time decisions: dependency checks, the legacy
//! `create_ap` patch, answers to yes/no prompts, password rules, the
//! `create_ap` command line, and what to do with each line it prints.
use vstd::prelude::*;
use vstd::string::{StrSliceExecFns, StringExecFns};
use crate::netif::{flagged, keep_flagged, string_views};
use crate::text::{
    chars_of, contains_chars, contains_text, is_white_space, lemma_pieces_at_separator,
    lemma_pieces_without_separator, lemma_trimmed_shape, pieces, trim_chars, trimmed,
};

verus! {

/// A `create_ap` script that already has the frequency fix holds this text.
pub open spec fn patch_marker() -> Seq<char> {
    "cut -d. -f1"@
}

/// The legacy `create_ap` script needs the patch when it lacks the marker of
/// the frequency fix.
pub fn needs_create_ap_patch(script: &str) -> (b: bool)
    ensures
        b == !contains_text(script@, patch_marker()),
        b == !contains_text(script@, "cut -d. -f1"@),
{
    let hay = chars_of(script);
    let needle = chars_of("cut -d. -f1");
    !contains_chars(&hay, &needle)
}

/// A reply accepts a `[Y/n]` prompt when, without surrounding white space,
/// it is empty or is `y` in either case.
pub open spec fn accepts(reply: Seq<char>) -> bool {
    let t = trimmed(reply);
    t == Seq::<char>::empty() || t == seq!['y'] || t == seq!['Y']
}

/// Reads the answer to a `[Y/n]` prompt: the reply, trimmed and lowercased,
/// is empty or `y`. (`Y` is the only character other than `y` whose
/// lowercase form is `y`.)
pub fn answer_is_yes(reply: &str) -> (b: bool)
    ensures
        b == accepts(reply@),
{
    let cs = chars_of(reply);
    let t = trim_chars(&cs);
    proof {
        if t@.len() == 1 {
            assert(t@ =~= seq![t@[0]]);
        }
        if t@.len() == 0 {
            assert(t@ =~= Seq::<char>::empty());
        }
        assert(seq!['y'].len() == 1 && seq!['Y'].len() == 1);
        assert(seq!['y'][0] == 'y' && seq!['Y'][0] == 'Y');
    }
    t.len() == 0 || (t.len() == 1 && (t[0] == 'y' || t[0] == 'Y'))
}

/// The message shown when a password is too short.
pub open spec fn short_password_message() -> Seq<char> {
    "Password must be at least 8 characters long"@
}

/// A text takes at least one and at most four bytes per character in UTF-8.
pub proof fn lemma_utf8_len_bounds(s: Seq<char>)
    ensures
        s.len() <= vstd::utf8::encode_utf8(s).len() <= 4 * s.len(),
    decreases s.len(),
{
    if s.len() > 0 {
        lemma_utf8_len_bounds(s.drop_first());
    }
}

/// A hotspot password must be at least 8 bytes long in UTF-8.
pub fn validate_password(input: &str) -> (r: Result<(), &'static str>)
    ensures
        r is Ok <==> vstd::utf8::encode_utf8(input@).len() >= 8,
        r matches Err(m) ==> m@ == short_password_message(),
        r matches Err(m) ==> m@ == "Password must be at least 8 characters long"@,
{
    proof {
        lemma_utf8_len_bounds(input@);
    }
    if input.unicode_len() >= 8 {
        Ok(())
    } else if input.len() >= 8 {
        Ok(())
    } else {
        Err("Password must be at least 8 characters long")
    }
}

/// What to do with one line that `create_ap` prints.
pub struct LineEffect {
    /// Echo the line to the console.
    pub echo: bool,
    /// Show the dashboard now.
    pub show_dashboard: bool,
    /// Whether the access point is up after this line.
    pub ap_enabled: bool,
}

/// The text by which `create_ap` reports that the access point is up.
pub open spec fn ap_enabled_marker() -> Seq<char> {
    "AP-ENABLED"@
}

/// Whether the access point is up after a line, given whether it was before.
pub open spec fn next_ap_enabled(ap_enabled: bool, line: Seq<char>) -> bool {
    ap_enabled || contains_text(line, ap_enabled_marker())
}

/// Handles one output line of `create_ap`: lines are echoed until the access
/// point is up, and each line that reports `AP-ENABLED` brings up the
/// dashboard.
pub fn observe_create_ap_line(ap_enabled: bool, line: &str) -> (e: LineEffect)
    ensures
        e.echo == !ap_enabled,
        e.show_dashboard == contains_text(line@, ap_enabled_marker()),
        e.ap_enabled == next_ap_enabled(ap_enabled, line@),
        e.show_dashboard == contains_text(line@, "AP-ENABLED"@),
        e.ap_enabled == (ap_enabled || contains_text(line@, "AP-ENABLED"@)),
{
    let hay = chars_of(line);
    let needle = chars_of("AP-ENABLED");
    let up = contains_chars(&hay, &needle);
    LineEffect { echo: !ap_enabled, show_dashboard: up, ap_enabled: ap_enabled || up }
}

/// Whether the access point is up after a sequence of lines.
pub open spec fn ap_enabled_after(ap_enabled: bool, lines: Seq<Seq<char>>) -> bool
    decreases lines.len(),
{
    if lines.len() == 0 {
        ap_enabled
    } else {
        next_ap_enabled(ap_enabled_after(ap_enabled, lines.drop_last()), lines.last())
    }
}

/// Once the access point is up it stays up, and it is up after a run of
/// lines exactly when it was up before or one of the lines reports
/// `AP-ENABLED`.
pub proof fn lemma_ap_enabled_after(ap_enabled: bool, lines: Seq<Seq<char>>)
    ensures
        ap_enabled_after(ap_enabled, lines) == (ap_enabled || exists|i: int|
            0 <= i < lines.len() && contains_text(#[trigger] lines[i], ap_enabled_marker())),
    decreases lines.len(),
{
    if lines.len() > 0 {
        lemma_ap_enabled_after(ap_enabled, lines.drop_last());
        let l = lines.drop_last();
        if exists|i: int| 0 <= i < lines.len() && contains_text(#[trigger] lines[i], ap_enabled_marker()) {
            let i = choose|i: int| 0 <= i < lines.len() && contains_text(#[trigger] lines[i], ap_enabled_marker());
            if i < lines.len() - 1 {
                assert(l[i] == lines[i]);
            }
        }
        if exists|i: int| 0 <= i < l.len() && contains_text(#[trigger] l[i], ap_enabled_marker()) {
            let i = choose|i: int| 0 <= i < l.len() && contains_text(#[trigger] l[i], ap_enabled_marker());
            assert(lines[i] == l[i]);
        }
    }
}

/// Makes a `String` from a string literal.
fn owned(s: &str) -> (r: String)
    ensures
        r@ == s@,
{
    String::from_str(s)
}

/// The arguments of `create_ap` (run through `sudo`): the Wi-Fi interface
/// that hosts the access point, the interface that shares its internet
/// connection, the SSID and the password.
pub fn create_ap_args(wifi: &str, internet: &str, ssid: &str, password: &str) -> (r: Vec<String>)
    ensures
        string_views(r@) == seq!["create_ap"@, wifi@, internet@, ssid@, password@],
{
    let mut r: Vec<String> = Vec::new();
    r.push(owned("create_ap"));
    r.push(owned(wifi));
    r.push(owned(internet));
    r.push(owned(ssid));
    r.push(owned(password));
    assert(string_views(r@) =~= seq!["create_ap"@, wifi@, internet@, ssid@, password@]);
    r
}

/// The arguments (run through `sudo`) that delete a virtual interface.
pub fn delete_interface_args(iface: &str) -> (r: Vec<String>)
    ensures
        string_views(r@) == seq!["iw"@, "dev"@, iface@, "del"@],
{
    let mut r: Vec<String> = Vec::new();
    r.push(owned("iw"));
    r.push(owned("dev"));
    r.push(owned(iface));
    r.push(owned("del"));
    assert(string_views(r@) =~= seq!["iw"@, "dev"@, iface@, "del"@]);
    r
}

/// The programs that the hotspot needs, each looked up by its own name.
pub fn required_dependencies() -> (r: Vec<String>)
    ensures
        string_views(r@) == seq!["create_ap"@, "hostapd"@, "dnsmasq"@, "imv"@, "iw"@],
{
    let mut r: Vec<String> = Vec::new();
    r.push(owned("create_ap"));
    r.push(owned("hostapd"));
    r.push(owned("dnsmasq"));
    r.push(owned("imv"));
    r.push(owned("iw"));
    assert(string_views(r@) =~= seq!["create_ap"@, "hostapd"@, "dnsmasq"@, "imv"@, "iw"@]);
    r
}

/// Keeps the dependencies whose lookup failed (`found[i]` is false), in
/// their order.
pub fn missing_dependencies(deps: &Vec<String>, found: &Vec<bool>) -> (r: Vec<String>)
    requires
        deps.len() == found.len(),
    ensures
        string_views(r@) == flagged(string_views(deps@), found@, false),
{
    keep_flagged(deps, found, false)
}

/// Packages that come from the AUR rather than the official repositories.
pub open spec fn is_aur_package(name: Seq<char>) -> bool {
    name == "create_ap"@
}

/// Selects the AUR packages.
pub open spec fn aur() -> spec_fn(Seq<char>) -> bool {
    |n: Seq<char>| is_aur_package(n)
}

/// Selects the packages of the official repositories.
pub open spec fn official() -> spec_fn(Seq<char>) -> bool {
    |n: Seq<char>| !is_aur_package(n)
}

/// The views of a list of command lines.
pub open spec fn command_views(cmds: Seq<Vec<String>>) -> Seq<Seq<Seq<char>>> {
    cmds.map_values(|c: Vec<String>| string_views(c@))
}

/// The commands that install the missing packages with the Omarchy package
/// tool: `omarchy pkg add` for those of the official repositories, then
/// `omarchy pkg aur add` for those of the AUR, each only when it has
/// packages to install.
pub open spec fn install_plan(packages: Seq<Seq<char>>) -> Seq<Seq<Seq<char>>> {
    let off = packages.filter(official());
    let from_aur = packages.filter(aur());
    (if off.len() > 0 {
        seq![seq!["omarchy"@, "pkg"@, "add"@] + off]
    } else {
        seq![]
    }) + (if from_aur.len() > 0 {
        seq![seq!["omarchy"@, "pkg"@, "aur"@, "add"@] + from_aur]
    } else {
        seq![]
    })
}

/// Tests whether a package comes from the AUR.
fn aur_package(name: &String) -> (b: bool)
    ensures
        b == is_aur_package(name@),
{
    name.eq(&owned("create_ap"))
}

/// Appends to `cmd` the packages whose source is the AUR (`from_aur`) or
/// the official repositories (`!from_aur`), in their order.
fn push_packages(cmd: &mut Vec<String>, packages: &Vec<String>, from_aur: bool)
    ensures
        string_views(final(cmd)@) == string_views(old(cmd)@) + string_views(packages@).filter(
            if from_aur {
                aur()
            } else {
                official()
            },
        ),
{
    let ghost sel = if from_aur {
        aur()
    } else {
        official()
    };
    let ghost start = string_views(cmd@);
    let ghost v = string_views(packages@);
    let mut i: usize = 0;
    proof {
        reveal_with_fuel(Seq::filter, 1);
        assert(v.take(0) =~= Seq::<Seq<char>>::empty());
        assert(string_views(cmd@) =~= start + v.take(0).filter(sel));
    }
    while i < packages.len()
        invariant
            v == string_views(packages@),
            sel == (if from_aur {
                aur()
            } else {
                official()
            }),
            i <= packages.len(),
            string_views(cmd@) == start + v.take(i as int).filter(sel),
        decreases packages.len() - i,
    {
        proof {
            assert(v.take(i + 1) =~= v.take(i as int).push(v[i as int]));
            v.take(i as int).lemma_filter_push(v[i as int], sel);
        }
        if aur_package(&packages[i]) == from_aur {
            let ghost old_cmd = cmd@;
            cmd.push(packages[i].clone());
            proof {
                assert(string_views(cmd@) =~= string_views(old_cmd).push(v[i as int]));
            }
        }
        i += 1;
    }
    proof {
        assert(v.take(i as int) =~= v);
    }
}

/// The commands that install the missing packages (see `install_plan`).
pub fn install_commands(packages: &Vec<String>) -> (r: Vec<Vec<String>>)
    ensures
        command_views(r@) == install_plan(string_views(packages@)),
{
    let ghost v = string_views(packages@);
    let mut r: Vec<Vec<String>> = Vec::new();
    let mut add: Vec<String> = Vec::new();
    add.push(owned("omarchy"));
    add.push(owned("pkg"));
    add.push(owned("add"));
    proof {
        assert(string_views(add@) =~= seq!["omarchy"@, "pkg"@, "add"@]);
    }
    push_packages(&mut add, packages, false);
    let ghost off_cmd = string_views(add@);
    proof {
        assert(off_cmd.len() == add@.len());
        assert(off_cmd == seq!["omarchy"@, "pkg"@, "add"@] + v.filter(official()));
    }
    if add.len() > 3 {
        r.push(add);
        proof {
            assert(command_views(r@) =~= seq![off_cmd]);
        }
    } else {
        proof {
            assert(command_views(r@) =~= Seq::<Seq<Seq<char>>>::empty());
        }
    }
    let ghost first = command_views(r@);
    proof {
        assert(first =~= (if v.filter(official()).len() > 0 {
            seq![seq!["omarchy"@, "pkg"@, "add"@] + v.filter(official())]
        } else {
            seq![]
        }));
    }
    let mut aur_add: Vec<String> = Vec::new();
    aur_add.push(owned("omarchy"));
    aur_add.push(owned("pkg"));
    aur_add.push(owned("aur"));
    aur_add.push(owned("add"));
    proof {
        assert(string_views(aur_add@) =~= seq!["omarchy"@, "pkg"@, "aur"@, "add"@]);
    }
    push_packages(&mut aur_add, packages, true);
    proof {
        assert(string_views(aur_add@).len() == aur_add@.len());
    }
    if aur_add.len() > 4 {
        let ghost before = r@;
        r.push(aur_add);
        proof {
            assert(command_views(r@) =~= command_views(before).push(string_views(aur_add@)));
        }
    }
    proof {
        assert(command_views(r@) =~= install_plan(v));
    }
    r
}

/// Items separated by single spaces.
pub open spec fn space_joined(items: Seq<Seq<char>>) -> Seq<char>
    decreases items.len(),
{
    if items.len() == 0 {
        seq![]
    } else if items.len() == 1 {
        items[0]
    } else {
        space_joined(items.drop_last()) + seq![' '] + items.last()
    }
}

/// Joins items with single spaces, as `[String]::join(" ")` does.
pub fn join_with_spaces(items: &Vec<String>) -> (r: String)
    ensures
        r@ == space_joined(string_views(items@)),
{
    let ghost v = string_views(items@);
    let mut r = String::new();
    let mut i: usize = 0;
    while i < items.len()
        invariant
            v == string_views(items@),
            i <= items.len(),
            r@ == space_joined(v.take(i as int)),
        decreases items.len() - i,
    {
        proof {
            assert(v.take(i + 1).drop_last() =~= v.take(i as int));
            assert(v.take(i + 1).last() == items@[i as int]@);
        }
        if i > 0 {
            r.append(" ");
            proof {
                reveal_strlit(" ");
            }
        }
        r.append(items[i].as_str());
        proof {
            if i == 0 {
                assert(v.take(1) =~= seq![items@[0]@]);
                assert(r@ =~= items@[0]@);
            } else {
                assert(r@ =~= space_joined(v.take(i as int)) + seq![' '] + items@[i as int]@);
            }
        }
        i += 1;
    }
    proof {
        assert(v.take(i as int) =~= v);
    }
    r
}

/// The marker of the frequency fix is the text `cut -d. -f1`, so any script
/// that contains it anywhere needs no patch, and any script without it does.
pub proof fn lemma_patch_marker_is_cut_field(script: Seq<char>)
    ensures
        patch_marker() == seq!['c', 'u', 't', ' ', '-', 'd', '.', ' ', '-', 'f', '1'],
        contains_text(script, patch_marker()) <==> exists|i: int|
            0 <= i && i + 11 <= script.len() && #[trigger] script.subrange(i, i + 11) == seq![
                'c',
                'u',
                't',
                ' ',
                '-',
                'd',
                '.',
                ' ',
                '-',
                'f',
                '1',
            ],
{
    reveal_strlit("cut -d. -f1");
    assert(patch_marker() =~= seq!['c', 'u', 't', ' ', '-', 'd', '.', ' ', '-', 'f', '1']);
}

/// The access point counts as up, and the dashboard is shown, exactly when
/// a line holds the text `AP-ENABLED` (no other state report, such as
/// `AP-DISABLED`, does); once up it stays up.
pub proof fn lemma_dashboard_only_on_ap_enabled(ap_enabled: bool, line: Seq<char>)
    ensures
        ap_enabled_marker() == seq!['A', 'P', '-', 'E', 'N', 'A', 'B', 'L', 'E', 'D'],
        next_ap_enabled(ap_enabled, line) == (ap_enabled || exists|i: int|
            0 <= i && i + 10 <= line.len() && #[trigger] line.subrange(i, i + 10) == seq![
                'A',
                'P',
                '-',
                'E',
                'N',
                'A',
                'B',
                'L',
                'E',
                'D',
            ]),
        ap_enabled ==> next_ap_enabled(ap_enabled, line),
{
    reveal_strlit("AP-ENABLED");
    assert(ap_enabled_marker() =~= seq!['A', 'P', '-', 'E', 'N', 'A', 'B', 'L', 'E', 'D']);
}

/// Of the dependencies only `create_ap` comes from the AUR.
pub proof fn lemma_only_create_ap_is_aur(name: Seq<char>)
    ensures
        is_aur_package(name) == (name == seq!['c', 'r', 'e', 'a', 't', 'e', '_', 'a', 'p']),
{
    reveal_strlit("create_ap");
    assert("create_ap"@ =~= seq!['c', 'r', 'e', 'a', 't', 'e', '_', 'a', 'p']);
}

/// Filtering keeps a sequence whole when every element passes, and empties
/// it when none does.
proof fn lemma_filter_all_or_none(s: Seq<Seq<char>>, p: spec_fn(Seq<char>) -> bool)
    ensures
        (forall|i: int| 0 <= i < s.len() ==> p(#[trigger] s[i])) ==> s.filter(p) == s,
        (forall|i: int| 0 <= i < s.len() ==> !p(#[trigger] s[i])) ==> s.filter(p).len() == 0,
    decreases s.len(),
{
    reveal_with_fuel(Seq::filter, 1);
    if s.len() > 0 {
        lemma_filter_all_or_none(s.drop_last(), p);
        if forall|i: int| 0 <= i < s.len() ==> p(#[trigger] s[i]) {
            assert forall|i: int| 0 <= i < s.drop_last().len() implies p(
                #[trigger] s.drop_last()[i],
            ) by {
                assert(s.drop_last()[i] == s[i]);
            }
            assert(p(s[s.len() - 1]));
            assert(s.drop_last().push(s.last()) =~= s);
        }
        if forall|i: int| 0 <= i < s.len() ==> !p(#[trigger] s[i]) {
            assert forall|i: int| 0 <= i < s.drop_last().len() implies !p(
                #[trigger] s.drop_last()[i],
            ) by {
                assert(s.drop_last()[i] == s[i]);
            }
            assert(!p(s[s.len() - 1]));
        }
    }
}

/// Missing packages of the official repositories (`hostapd`, `dnsmasq`,
/// `imv`, `iw`) are installed by the one command `omarchy pkg add` followed
/// by their names in order; a missing `create_ap` alone is installed by
/// `omarchy pkg aur add create_ap`.
pub proof fn lemma_install_plan_by_repository(packages: Seq<Seq<char>>)
    ensures
        packages.len() > 0 && (forall|i: int|
            0 <= i < packages.len() ==> {
                ||| #[trigger] packages[i] == seq!['h', 'o', 's', 't', 'a', 'p', 'd']
                ||| packages[i] == seq!['d', 'n', 's', 'm', 'a', 's', 'q']
                ||| packages[i] == seq!['i', 'm', 'v']
                ||| packages[i] == seq!['i', 'w']
            }) ==> install_plan(packages) == seq![
            seq![
                seq!['o', 'm', 'a', 'r', 'c', 'h', 'y'],
                seq!['p', 'k', 'g'],
                seq!['a', 'd', 'd'],
            ] + packages,
        ],
        packages == seq![seq!['c', 'r', 'e', 'a', 't', 'e', '_', 'a', 'p']] ==> install_plan(
            packages,
        ) == seq![
            seq![
                seq!['o', 'm', 'a', 'r', 'c', 'h', 'y'],
                seq!['p', 'k', 'g'],
                seq!['a', 'u', 'r'],
                seq!['a', 'd', 'd'],
                seq!['c', 'r', 'e', 'a', 't', 'e', '_', 'a', 'p'],
            ],
        ],
{
    reveal_strlit("omarchy");
    reveal_strlit("pkg");
    reveal_strlit("add");
    reveal_strlit("aur");
    assert("omarchy"@ =~= seq!['o', 'm', 'a', 'r', 'c', 'h', 'y']);
    assert("pkg"@ =~= seq!['p', 'k', 'g']);
    assert("add"@ =~= seq!['a', 'd', 'd']);
    assert("aur"@ =~= seq!['a', 'u', 'r']);
    let cap = seq!['c', 'r', 'e', 'a', 't', 'e', '_', 'a', 'p'];
    assert forall|n: Seq<char>| #[trigger] is_aur_package(n) == (n == cap) by {
        lemma_only_create_ap_is_aur(n);
    }
    lemma_filter_all_or_none(packages, official());
    lemma_filter_all_or_none(packages, aur());
    if packages.len() > 0 && (forall|i: int|
        0 <= i < packages.len() ==> {
            ||| #[trigger] packages[i] == seq!['h', 'o', 's', 't', 'a', 'p', 'd']
            ||| packages[i] == seq!['d', 'n', 's', 'm', 'a', 's', 'q']
            ||| packages[i] == seq!['i', 'm', 'v']
            ||| packages[i] == seq!['i', 'w']
        }) {
        assert forall|i: int| 0 <= i < packages.len() implies official()(#[trigger] packages[i]) by {
            assert(packages[i] != cap) by {
                if packages[i] == cap {
                    assert(packages[i].len() == 9);
                }
            }
        }
        assert forall|i: int| 0 <= i < packages.len() implies !aur()(#[trigger] packages[i]) by {
            assert(packages[i] != cap) by {
                if packages[i] == cap {
                    assert(packages[i].len() == 9);
                }
            }
        }
        assert(install_plan(packages) =~= seq![seq!["omarchy"@, "pkg"@, "add"@] + packages]);
    }
    if packages == seq![cap] {
        assert(packages[0] == cap);
        assert(forall|i: int| 0 <= i < packages.len() ==> !official()(#[trigger] packages[i]));
        assert(forall|i: int| 0 <= i < packages.len() ==> aur()(#[trigger] packages[i]));
        assert(install_plan(packages) =~= seq![seq!["omarchy"@, "pkg"@, "aur"@, "add"@] + packages]);
        assert(seq!["omarchy"@, "pkg"@, "aur"@, "add"@] + packages =~= seq![
            seq!['o', 'm', 'a', 'r', 'c', 'h', 'y'],
            seq!['p', 'k', 'g'],
            seq!['a', 'u', 'r'],
            seq!['a', 'd', 'd'],
            cap,
        ]);
    }
}

/// A reply made only of white space accepts the prompt; a reply with one
/// character that is not white space accepts it exactly when that
/// character is `y` or `Y`; a reply with two or more characters that are
/// not white space refuses it.
pub proof fn lemma_accepted_replies(reply: Seq<char>)
    ensures
        (forall|i: int| 0 <= i < reply.len() ==> is_white_space(#[trigger] reply[i])) ==> accepts(
            reply,
        ),
        forall|k: int|
            0 <= k < reply.len() && !is_white_space(#[trigger] reply[k]) && (forall|i: int|
                0 <= i < reply.len() && i != k ==> is_white_space(#[trigger] reply[i]))
                ==> (accepts(reply) <==> (reply[k] == 'y' || reply[k] == 'Y')),
        forall|k: int, l: int|
            0 <= k < l < reply.len() && !is_white_space(#[trigger] reply[k]) && !is_white_space(
                #[trigger] reply[l],
            ) ==> !accepts(reply),
{
    lemma_trimmed_shape(reply);
    let (a, b) = choose|a: int, b: int|
        0 <= a <= b <= reply.len() && #[trigger] reply.subrange(a, b) == trimmed(reply) && (forall|
            i: int,
        | 0 <= i < a ==> is_white_space(#[trigger] reply[i])) && (forall|i: int|
            b <= i < reply.len() ==> is_white_space(#[trigger] reply[i])) && (a < b ==> (
        !is_white_space(reply[a]) && !is_white_space(reply[b - 1])));
    let t = trimmed(reply);
    if forall|i: int| 0 <= i < reply.len() ==> is_white_space(#[trigger] reply[i]) {
        if a < b {
            assert(is_white_space(reply[a]));
        }
        assert(t =~= Seq::<char>::empty());
    }
    assert forall|k: int|
        0 <= k < reply.len() && !is_white_space(#[trigger] reply[k]) && (forall|i: int|
            0 <= i < reply.len() && i != k ==> is_white_space(#[trigger] reply[i])) implies (accepts(
        reply,
    ) <==> (reply[k] == 'y' || reply[k] == 'Y')) by {
        assert(a <= k < b);
        if b - 1 > a {
            assert(!is_white_space(reply[a]) && !is_white_space(reply[b - 1]));
            if a != k {
                assert(is_white_space(reply[a]));
            } else {
                assert(is_white_space(reply[b - 1]));
            }
        }
        assert(a == k && b == k + 1);
        assert(t =~= seq![reply[k]]);
        assert(seq!['y'][0] == 'y' && seq!['Y'][0] == 'Y');
        if t == seq!['y'] {
            assert(t[0] == 'y');
        }
        if t == seq!['Y'] {
            assert(t[0] == 'Y');
        }
    }
    assert forall|k: int, l: int|
        0 <= k < l < reply.len() && !is_white_space(#[trigger] reply[k]) && !is_white_space(
            #[trigger] reply[l],
        ) implies !accepts(reply) by {
        assert(a <= k && l < b);
        assert(t.len() >= 2);
        assert(seq!['y'].len() == 1 && seq!['Y'].len() == 1);
    }
}

/// Joined items separated again at spaces give back the items, when no
/// item holds a space.
pub proof fn lemma_space_joined_splits_back(items: Seq<Seq<char>>)
    requires
        items.len() > 0,
        forall|i: int, j: int|
            0 <= i < items.len() && 0 <= j < items[i].len() ==> #[trigger] items[i][j] != ' ',
    ensures
        pieces(space_joined(items), |c: char| c == ' ') == items,
    decreases items.len(),
{
    let sp = |c: char| c == ' ';
    if items.len() == 1 {
        assert forall|j: int| 0 <= j < items[0].len() implies !sp(#[trigger] items[0][j]) by {
            assert(items[0][j] != ' ');
        }
        lemma_pieces_without_separator(items[0], sp);
        assert(seq![items[0]] =~= items);
    } else {
        let front = items.drop_last();
        assert forall|i: int, j: int|
            0 <= i < front.len() && 0 <= j < front[i].len() implies #[trigger] front[i][j] != ' ' by {
            assert(front[i] == items[i]);
        }
        lemma_space_joined_splits_back(front);
        let last = items.last();
        assert forall|j: int| 0 <= j < last.len() implies !sp(#[trigger] last[j]) by {
            assert(items[items.len() - 1][j] != ' ');
        }
        lemma_pieces_without_separator(last, sp);
        lemma_pieces_at_separator(space_joined(front), ' ', last, sp);
        assert(front + seq![last] =~= items);
    }
}

} // verus!

//! URL normalization, slug derivation and address checks for single-document installs.

use vstd::prelude::*;
use crate::model::{SkillFrontmatter, MAX_NAME_LEN};
use crate::text::{chars_of, string_of, is_ascii_alnum, lower_char, ascii_alnum, ascii_lower};
use crate::document::entry_text;

verus! {

broadcast use vstd::string::group_string_axioms;

/// Maximum accepted raw install URL length, in bytes.
pub const MAX_INSTALL_URL_LEN: usize = 2048;

/// An IP address as its octets or segments.
#[derive(Debug, Clone, Copy, PartialEq, Eq)]
pub enum IpAddress {
    /// An IPv4 address.
    V4([u8; 4]),
    /// An IPv6 address.
    V6([u16; 8]),
}

/// Whether an IPv4 address is loopback, private, link-local, unspecified,
/// broadcast, multicast, shared, reserved, documentation or otherwise not global.
pub open spec fn non_global_v4(o: [u8; 4]) -> bool {
    let a = o[0];
    let b = o[1];
    let c = o[2];
    let d = o[3];
    ||| a == 127
    ||| a == 10
    ||| a == 172 && 16 <= b <= 31
    ||| a == 192 && b == 168
    ||| a == 169 && b == 254
    ||| a == 0 && b == 0 && c == 0 && d == 0
    ||| a == 255 && b == 255 && c == 255 && d == 255
    ||| 224 <= a <= 239
    ||| a == 100 && 64 <= b <= 127
    ||| a >= 240
    ||| a == 192 && b == 0 && c == 0
    ||| a == 192 && b == 88 && c == 99
    ||| a == 198 && b == 51 && c == 100
    ||| a == 203 && b == 0 && c == 113
    ||| a == 198 && 18 <= b <= 19
    ||| a == 0
}

/// Whether an IPv6 address is loopback, unspecified, multicast, unique-local,
/// link-local, documentation, discard, benchmarking, reserved, or an
/// IPv4-mapped address that is not global.
pub open spec fn non_global_v6(s: [u16; 8]) -> bool {
    ||| s[0] == 0 && s[1] == 0 && s[2] == 0 && s[3] == 0 && s[4] == 0 && s[5] == 0 && s[6] == 0 && s[7] == 1
    ||| s[0] == 0 && s[1] == 0 && s[2] == 0 && s[3] == 0 && s[4] == 0 && s[5] == 0 && s[6] == 0 && s[7] == 0
    ||| s[0] & 0xff00 == 0xff00
    ||| s[0] & 0xfe00 == 0xfc00
    ||| s[0] & 0xffc0 == 0xfe80
    ||| s[0] == 0x2001 && s[1] == 0x0db8
    ||| s[0] == 0x0100 && s[1] == 0 && s[2] == 0 && s[3] <= 1
    ||| s[0] == 0x2001 && s[1] == 2 && s[2] == 0
    ||| s[0] & 0xfff0 == 0x3ff0
    ||| s[0] == 0x5f00
    ||| s[0] == 0 && s[1] == 0 && s[2] == 0 && s[3] == 0 && s[4] == 0 && s[5] == 0xffff
        && non_global_v4([(s[6] / 256) as u8, (s[6] % 256) as u8, (s[7] / 256) as u8, (s[7] % 256) as u8])
}

/// Whether an address is not globally routable.
pub open spec fn non_global(ip: IpAddress) -> bool {
    match ip {
        IpAddress::V4(o) => non_global_v4(o),
        IpAddress::V6(s) => non_global_v6(s),
    }
}

/// Whether an IPv4 address is not global (see [`non_global_v4`]).
pub fn is_non_global_v4(o: [u8; 4]) -> (r: bool)
    ensures
        r == non_global_v4(o),
{
    let a = o[0];
    let b = o[1];
    let c = o[2];
    let d = o[3];
    a == 127 || a == 10 || (a == 172 && 16 <= b && b <= 31) || (a == 192 && b == 168) || (a == 169
        && b == 254) || (a == 0 && b == 0 && c == 0 && d == 0) || (a == 255 && b == 255 && c == 255
        && d == 255) || (224 <= a && a <= 239) || (a == 100 && 64 <= b && b <= 127) || a >= 240 || (
    a == 192 && b == 0 && c == 0) || (a == 192 && b == 88 && c == 99) || (a == 198 && b == 51 && c
        == 100) || (a == 203 && b == 0 && c == 113) || (a == 198 && 18 <= b && b <= 19) || a == 0
}

/// Whether an IPv6 address is not global (see [`non_global_v6`]).
pub fn is_non_global_v6(s: [u16; 8]) -> (r: bool)
    ensures
        r == non_global_v6(s),
{
    let zero5 = s[0] == 0 && s[1] == 0 && s[2] == 0 && s[3] == 0 && s[4] == 0;
    if zero5 && s[5] == 0 && s[6] == 0 && (s[7] == 1 || s[7] == 0) {
        return true;
    }
    if s[0] & 0xff00 == 0xff00 || s[0] & 0xfe00 == 0xfc00 || s[0] & 0xffc0 == 0xfe80 || (s[0]
        == 0x2001 && s[1] == 0x0db8) || (s[0] == 0x0100 && s[1] == 0 && s[2] == 0 && s[3] <= 1) || (
    s[0] == 0x2001 && s[1] == 2 && s[2] == 0) || s[0] & 0xfff0 == 0x3ff0 || s[0] == 0x5f00 {
        return true;
    }
    if zero5 && s[5] == 0xffff {
        let v4: [u8; 4] = [(s[6] / 256) as u8, (s[6] % 256) as u8, (s[7] / 256) as u8, (s[7] % 256) as u8];
        return is_non_global_v4(v4);
    }
    false
}

/// Whether an address is not global.
pub fn is_non_global(ip: IpAddress) -> (r: bool)
    ensures
        r == non_global(ip),
{
    match ip {
        IpAddress::V4(o) => is_non_global_v4(o),
        IpAddress::V6(s) => is_non_global_v6(s),
    }
}

/// The slug built so far from `s` and whether it ends in a separator:
/// ASCII letters and digits are kept in lower case, and every run of other
/// characters after the first kept one becomes a single `-`.
pub open spec fn slug_state(s: Seq<char>) -> (Seq<char>, bool)
    decreases s.len(),
{
    if s.len() == 0 {
        (seq![], false)
    } else {
        let p = slug_state(s.drop_last());
        let c = s.last();
        if is_ascii_alnum(c) {
            (p.0.push(lower_char(c)), false)
        } else if !p.1 && p.0.len() > 0 {
            (p.0.push('-'), true)
        } else {
            p
        }
    }
}

/// `s` without trailing `-`.
pub open spec fn strip_dashes(s: Seq<char>) -> Seq<char>
    decreases s.len(),
{
    if s.len() > 0 && s.last() == '-' {
        strip_dashes(s.drop_last())
    } else {
        s
    }
}

/// The directory slug derived from `s`.
pub open spec fn slug_of(s: Seq<char>) -> Seq<char> {
    strip_dashes(slug_state(s).0)
}

/// The text a slug is derived from: `metadata.id` if it is a string, else the name.
pub open spec fn slug_source(f: SkillFrontmatter) -> Seq<char> {
    match entry_text(f.metadata@, "id"@) {
        Some(id) => id,
        None => f.name@,
    }
}

/// Whether `c` may appear in a slug.
pub open spec fn slug_char(c: char) -> bool {
    ('a' <= c <= 'z') || ('0' <= c <= '9') || c == '-'
}

/// Whether `s` is a well-formed slug: lower-case ASCII letters, digits and
/// single dashes, neither starting nor ending with a dash.
pub open spec fn well_formed_slug(s: Seq<char>) -> bool {
    &&& forall|i: int| 0 <= i < s.len() ==> slug_char(#[trigger] s[i])
    &&& s.len() > 0 ==> s[0] != '-' && s.last() != '-'
    &&& forall|i: int| 0 <= i < s.len() - 1 ==> !(#[trigger] s[i] == '-' && s[i + 1] == '-')
}

/// Error for an empty slug.
pub open spec fn msg_empty_slug() -> Seq<char> {
    "invalid SKILL.md: cannot derive slug from empty name/id — set a value in frontmatter"@
}

/// Error for an overlong slug.
pub open spec fn msg_long_slug(slug: Seq<char>) -> Seq<char> {
    "invalid SKILL.md: derived slug \""@ + slug + "\" exceeds 64 chars"@
}

proof fn lemma_slug_state(s: Seq<char>)
    ensures
        forall|i: int| 0 <= i < slug_state(s).0.len() ==> slug_char(#[trigger] slug_state(s).0[i]),
        slug_state(s).0.len() > 0 ==> slug_state(s).0[0] != '-',
        forall|i: int| 0 <= i < slug_state(s).0.len() - 1 ==> !(#[trigger] slug_state(s).0[i] == '-' && slug_state(s).0[i + 1] == '-'),
        slug_state(s).1 <==> (slug_state(s).0.len() > 0 && slug_state(s).0.last() == '-'),
    decreases s.len(),
{
    if s.len() > 0 {
        lemma_slug_state(s.drop_last());
        let p = slug_state(s.drop_last());
        let c = s.last();
        if is_ascii_alnum(c) {
            assert(slug_char(lower_char(c)));
            let q = p.0.push(lower_char(c));
            assert forall|i: int| 0 <= i < q.len() - 1 implies !(#[trigger] q[i] == '-' && q[i + 1] == '-') by {
                if i < q.len() - 2 {
                    assert(q[i] == p.0[i] && q[i + 1] == p.0[i + 1]);
                }
            }
        } else if !p.1 && p.0.len() > 0 {
            let q = p.0.push('-');
            assert forall|i: int| 0 <= i < q.len() - 1 implies !(#[trigger] q[i] == '-' && q[i + 1] == '-') by {
                if i < q.len() - 2 {
                    assert(q[i] == p.0[i] && q[i + 1] == p.0[i + 1]);
                }
            }
        }
    }
}

proof fn lemma_slug_well_formed(s: Seq<char>)
    ensures
        well_formed_slug(slug_of(s)),
{
    lemma_slug_state(s);
    let t = slug_state(s).0;
    let r = slug_of(s);
    if t.len() > 0 && t.last() == '-' {
        assert(strip_dashes(t.drop_last()) == t.drop_last()) by {
            if t.drop_last().len() > 0 {
                assert(t.drop_last().last() == t[t.len() - 2]);
            }
        }
        assert(r == t.drop_last());
        assert forall|i: int| 0 <= i < r.len() implies slug_char(#[trigger] r[i]) by {
            assert(r[i] == t[i]);
        }
        assert forall|i: int| 0 <= i < r.len() - 1 implies !(#[trigger] r[i] == '-' && r[i + 1] == '-') by {
            assert(r[i] == t[i] && r[i + 1] == t[i + 1]);
        }
        if r.len() > 0 {
            assert(r[0] == t[0]);
            assert(r.last() == t[t.len() - 2]);
        }
    } else {
        assert(r == t);
    }
}

proof fn lemma_slug_state_letters(s: Seq<char>)
    ensures
        slug_state(s).0.filter(|c: char| c != '-') == s.filter(|c: char| is_ascii_alnum(c)).map_values(
            |c: char| lower_char(c),
        ),
    decreases s.len(),
{
    reveal(Seq::filter);
    if s.len() == 0 {
        assert(slug_state(s).0.filter(|c: char| c != '-') =~= Seq::<char>::empty());
        assert(s.filter(|c: char| is_ascii_alnum(c)) =~= Seq::<char>::empty());
        assert(s.filter(|c: char| is_ascii_alnum(c)).map_values(|c: char| lower_char(c)) =~= Seq::<char>::empty());
    } else {
        lemma_slug_state_letters(s.drop_last());
        let p = slug_state(s.drop_last());
        let c = s.last();
        let kept_prev = s.drop_last().filter(|c: char| is_ascii_alnum(c));
        if is_ascii_alnum(c) {
            assert(lower_char(c) != '-');
            let q = p.0.push(lower_char(c));
            assert(q.drop_last() =~= p.0);
            assert(q.filter(|c: char| c != '-') == p.0.filter(|c: char| c != '-').push(lower_char(c)));
            assert(s.filter(|c: char| is_ascii_alnum(c)) == kept_prev.push(c));
            assert(kept_prev.push(c).map_values(|c: char| lower_char(c)) =~= kept_prev.map_values(|c: char| lower_char(c)).push(lower_char(c)));
        } else {
            assert(s.filter(|c: char| is_ascii_alnum(c)) == kept_prev);
            if !p.1 && p.0.len() > 0 {
                let q = p.0.push('-');
                assert(q.drop_last() =~= p.0);
                assert(q.filter(|c: char| c != '-') == p.0.filter(|c: char| c != '-'));
            }
        }
    }
}

proof fn lemma_strip_keeps_letters(t: Seq<char>)
    ensures
        strip_dashes(t).filter(|c: char| c != '-') == t.filter(|c: char| c != '-'),
    decreases t.len(),
{
    reveal(Seq::filter);
    if t.len() > 0 && t.last() == '-' {
        lemma_strip_keeps_letters(t.drop_last());
        assert(t.filter(|c: char| c != '-') == t.drop_last().filter(|c: char| c != '-'));
    }
}

/// A slug keeps every ASCII letter and digit of its source (code points
/// `0-9`, `A-Z`, `a-z`), lower-cased and in order, and nothing else but
/// dashes: with its dashes removed it is the lower-cased ASCII letters and
/// digits of the source.
pub proof fn lemma_slug_keeps_every_letter_and_digit(source: Seq<char>)
    ensures
        slug_of(source).filter(|c: char| c != '-') == source.filter(
            |c: char|
                (0x30 <= (c as u32) && (c as u32) <= 0x39) || (0x41 <= (c as u32) && (c as u32) <= 0x5a)
                    || (0x61 <= (c as u32) && (c as u32) <= 0x7a),
        ).map_values(|c: char| if 'A' <= c && c <= 'Z' { ((c as u32) + 32) as char } else { c }),
{
    lemma_slug_state_letters(source);
    lemma_strip_keeps_letters(slug_state(source).0);
    assert((|c: char| (0x30 <= (c as u32) && (c as u32) <= 0x39) || (0x41 <= (c as u32) && (c as u32) <= 0x5a)
        || (0x61 <= (c as u32) && (c as u32) <= 0x7a)) =~= (|c: char| is_ascii_alnum(c)));
    assert((|c: char| if 'A' <= c && c <= 'Z' { ((c as u32) + 32) as char } else { c }) =~= (|c: char| lower_char(c)));
}

/// Derive a safe directory slug from `metadata.id` or the skill name.
///
/// The slug keeps ASCII letters and digits in lower case and turns each run
/// of other characters between them into one `-`; it must be non-empty and
/// at most [`MAX_NAME_LEN`] characters long.
pub fn derive_install_slug(frontmatter: &SkillFrontmatter) -> (r: Result<String, String>)
    ensures
        slug_of(slug_source(*frontmatter)).len() == 0 ==> (r matches Err(e) && e@ == msg_empty_slug()),
        slug_of(slug_source(*frontmatter)).len() > MAX_NAME_LEN ==> (r matches Err(e) && e@ == msg_long_slug(slug_of(slug_source(*frontmatter)))),
        0 < slug_of(slug_source(*frontmatter)).len() <= MAX_NAME_LEN ==> (r matches Ok(s) && s@ == slug_of(slug_source(*frontmatter))),
        r matches Ok(s) ==> well_formed_slug(s@),
{
    let candidate = match crate::document::entry_string(&frontmatter.metadata, "id") {
        Some(id) => id,
        None => crate::text::copy_string(&frontmatter.name),
    };
    let chars = chars_of(candidate.as_str());
    let mut slug: Vec<char> = Vec::new();
    let mut last_dash = false;
    let mut i: usize = 0;
    while i < chars.len()
        invariant
            i <= chars@.len(),
            (slug@, last_dash) == slug_state(chars@.take(i as int)),
        decreases chars@.len() - i,
    {
        let c = chars[i];
        assert(chars@.take(i + 1).drop_last() == chars@.take(i as int));
        if ascii_alnum(c) {
            slug.push(ascii_lower(c));
            last_dash = false;
        } else if !last_dash && slug.len() > 0 {
            slug.push('-');
            last_dash = true;
        }
        i += 1;
    }
    assert(chars@.take(chars@.len() as int) == chars@);
    let ghost full = slug@;
    while slug.len() > 0 && slug[slug.len() - 1] == '-'
        invariant
            strip_dashes(slug@) == strip_dashes(full),
        decreases slug@.len(),
    {
        slug.pop();
    }
    proof {
        lemma_slug_well_formed(chars@);
    }
    if slug.len() == 0 {
        return Err(String::from_str("invalid SKILL.md: cannot derive slug from empty name/id — set a value in frontmatter"));
    }
    let text = string_of(slug.as_slice());
    if slug.len() > MAX_NAME_LEN {
        return Err(crate::text::concat3("invalid SKILL.md: derived slug \"", text.as_str(), "\" exceeds 64 chars"));
    }
    Ok(text)
}


/// What the logic reads of a parsed URL.
pub struct UrlView {
    /// The scheme, in lower case.
    pub scheme: Seq<char>,
    /// The serialized host (IPv6 hosts in brackets), if any.
    pub host: Option<Seq<char>>,
    /// Whether the host is an IPv6 address.
    pub ipv6_host: bool,
    /// The serialized path.
    pub path: Seq<char>,
    /// The explicit port, if any.
    pub port: Option<u16>,
}

/// A parsed URL, as `url::Url` exposes it.
#[derive(Debug)]
pub struct ParsedUrl {
    /// The scheme, in lower case (`Url::scheme`).
    pub scheme: String,
    /// The serialized host (`Url::host_str`).
    pub host: Option<String>,
    /// Whether `Url::host` is an IPv6 address.
    pub ipv6_host: bool,
    /// The serialized path (`Url::path`).
    pub path: String,
    /// The explicit port (`Url::port`).
    pub port: Option<u16>,
}

impl View for ParsedUrl {
    type V = UrlView;

    open spec fn view(&self) -> UrlView {
        UrlView {
            scheme: self.scheme@,
            host: match self.host {
                Some(h) => Some(h@),
                None => None,
            },
            ipv6_host: self.ipv6_host,
            path: self.path@,
            port: self.port,
        }
    }
}

/// What `url::Url::parse` makes of a string: the parts read here, or the
/// `Display` text of the parse error.
pub uninterp spec fn url_parse(raw: Seq<char>) -> Result<UrlView, Seq<char>>;

/// `url::Url::parse`, with the parts that the install checks read.
#[verifier::external_body]
fn parse_url(raw: &str) -> (r: Result<ParsedUrl, String>)
    ensures
        match r {
            Ok(u) => url_parse(raw@) == Ok::<UrlView, Seq<char>>(u@),
            Err(e) => url_parse(raw@) == Err::<UrlView, Seq<char>>(e@),
        },
{
    match url::Url::parse(raw) {
        Ok(u) => Ok(ParsedUrl {
            scheme: u.scheme().to_owned(),
            host: u.host_str().map(str::to_owned),
            ipv6_host: matches!(u.host(), Some(url::Host::Ipv6(_))),
            path: u.path().to_owned(),
            port: u.port(),
        }),
        Err(error) => Err(format!("{error}")),
    }
}

/// `format!("{s:?}")`: a string literal with escapes, as `Debug` prints it.
pub uninterp spec fn debug_str(s: Seq<char>) -> Seq<char>;

/// The `Debug` rendering of a string (`<str as Debug>::fmt`).
#[verifier::external_body]
fn debug_text(s: &str) -> (r: String)
    ensures
        r@ == debug_str(s@),
{
    format!("{s:?}")
}

/// What `core::net::IpAddr::from_str` makes of a string.
pub uninterp spec fn ip_parse(s: Seq<char>) -> Option<IpAddress>;

/// `str::parse::<core::net::IpAddr>`, as octets or segments.
#[verifier::external_body]
fn parse_ip(s: &str) -> (r: Option<IpAddress>)
    ensures
        r == ip_parse(s@),
{
    match s.parse::<core::net::IpAddr>() {
        Ok(core::net::IpAddr::V4(ip)) => Some(IpAddress::V4(ip.octets())),
        Ok(core::net::IpAddr::V6(ip)) => Some(IpAddress::V6(ip.segments())),
        Err(_) => None,
    }
}

/// The `Display` text of an address.
pub uninterp spec fn ip_text(ip: IpAddress) -> Seq<char>;

/// `<core::net::IpAddr as Display>::fmt`.
#[verifier::external_body]
fn display_ip(ip: IpAddress) -> (r: String)
    ensures
        r@ == ip_text(ip),
{
    match ip {
        IpAddress::V4(o) => format!("{}", core::net::Ipv4Addr::from(o)),
        IpAddress::V6(s) => format!("{}", core::net::Ipv6Addr::from(s)),
    }
}


/// Whether `r` holds exactly the strings of `v`.
pub open spec fn result_is(r: Result<String, String>, v: Result<Seq<char>, Seq<char>>) -> bool {
    match v {
        Ok(x) => r matches Ok(s) && s@ == x,
        Err(m) => r matches Err(e) && e@ == m,
    }
}

/// The path segments of a URL path (`Url::path_segments`): the pieces after
/// a leading `/`, or none when the path does not start with one.
pub open spec fn path_segments_of(path: Seq<char>) -> Option<Seq<Seq<char>>> {
    if path.len() > 0 && path[0] == '/' {
        Some(crate::bundle::pieces(path.drop_first()))
    } else {
        None
    }
}

/// Segments joined with `/`.
pub open spec fn join_slash(segs: Seq<Seq<char>>) -> Seq<char>
    decreases segs.len(),
{
    if segs.len() == 0 {
        seq![]
    } else if segs.len() == 1 {
        segs[0]
    } else {
        join_slash(segs.drop_last()) + "/"@ + segs.last()
    }
}

/// Error for a GitHub tree or raw directory link.
pub open spec fn msg_tree_url(raw: Seq<char>) -> Seq<char> {
    "unsupported url form: only direct SKILL.md links are supported, got "@ + debug_str(raw)
        + " (tree/dir URLs are not yet supported)"@
}

/// Error for a GitHub repository link.
pub open spec fn msg_repo_url(raw: Seq<char>) -> Seq<char> {
    "unsupported url form: only direct SKILL.md links are supported, got "@ + debug_str(raw)
        + " (whole-repo URLs are not yet supported)"@
}

/// The direct document URL for a parsed install URL: a GitHub `blob` link
/// becomes its `raw.githubusercontent.com` form, GitHub tree and repository
/// links are refused, and any other URL is kept.
pub open spec fn github_candidate_of(raw: Seq<char>, u: UrlView) -> Result<Seq<char>, Seq<char>> {
    let host = crate::text::lower_seq(
        match u.host {
            Some(h) => h,
            None => seq![],
        },
    );
    if host == "github.com"@ {
        let segs = match path_segments_of(u.path) {
            Some(s) => s,
            None => seq![],
        };
        if segs.len() >= 5 && segs[2] == "blob"@ {
            Ok(
                "https://raw.githubusercontent.com/"@ + segs[0] + "/"@ + segs[1] + "/"@ + segs[3] + "/"@
                    + join_slash(segs.skip(4)),
            )
        } else if segs.len() >= 3 && (segs[2] == "tree"@ || segs[2] == "raw"@) {
            Err(msg_tree_url(raw))
        } else if segs.len() <= 2 {
            Err(msg_repo_url(raw))
        } else {
            Ok(raw)
        }
    } else {
        Ok(raw)
    }
}

/// The result of normalizing a raw install URL.
pub open spec fn install_url_of(raw: Seq<char>) -> Result<Seq<char>, Seq<char>> {
    match url_parse(raw) {
        Err(e) => Err("unsupported url form: parse "@ + debug_str(raw) + ": "@ + e),
        Ok(u) => match github_candidate_of(raw, u) {
            Err(m) => Err(m),
            Ok(n) => match url_parse(n) {
                Err(e) => Err("unsupported url form: parse normalized "@ + debug_str(n) + ": "@ + e),
                Ok(v) => if crate::text::has_suffix(crate::text::lower_seq(v.path), ".md"@) {
                    Ok(n)
                } else {
                    Err("unsupported url form: path must end in .md, got "@ + debug_str(n))
                },
            },
        },
    }
}

fn url_segments(path: &str) -> (r: Option<Vec<Vec<char>>>)
    ensures
        match path_segments_of(path@) {
            None => r is None,
            Some(s) => r matches Some(v) && crate::text::vviews(v@) == s,
        },
{
    let p = chars_of(path);
    if p.len() > 0 && p[0] == '/' {
        let rest = crate::text::sub_chars(p.as_slice(), 1, p.len());
        assert(rest@ == path@.drop_first());
        Some(crate::bundle::pieces_of(rest.as_slice()))
    } else {
        None
    }
}

fn append_chars(s: &mut String, v: &[char])
    ensures
        final(s)@ == old(s)@ + v@,
{
    let t = string_of(v);
    s.append(t.as_str());
}

/// The direct document URL for a parsed install URL (see [`github_candidate_of`]).
pub fn github_candidate(raw: &str, parsed: &ParsedUrl) -> (r: Result<String, String>)
    ensures
        result_is(r, github_candidate_of(raw@, parsed@)),
{
    let host = match &parsed.host {
        Some(h) => chars_of(h.as_str()),
        None => Vec::new(),
    };
    let host = crate::text::lower_chars(host.as_slice());
    let github = chars_of("github.com");
    if !crate::text::chars_equal(host.as_slice(), github.as_slice()) {
        return Ok(String::from_str(raw));
    }
    let segs = match url_segments(parsed.path.as_str()) {
        Some(v) => v,
        None => Vec::new(),
    };
    let ghost sv = crate::text::vviews(segs@);
    assert(sv.len() == segs@.len());
    let n = segs.len();
    if n >= 5 && crate::text::chars_equal(segs[2].as_slice(), chars_of("blob").as_slice()) {
        let mut out = String::from_str("https://raw.githubusercontent.com/");
        append_chars(&mut out, segs[0].as_slice());
        out.append("/");
        append_chars(&mut out, segs[1].as_slice());
        out.append("/");
        append_chars(&mut out, segs[3].as_slice());
        out.append("/");
        let ghost head = out@;
        append_chars(&mut out, segs[4].as_slice());
        let mut k: usize = 5;
        assert(sv.skip(4).take(1) =~= seq![sv[4]]);
        while k < n
            invariant
                5 <= k <= n,
                n == segs@.len(),
                sv == crate::text::vviews(segs@),
                out@ == head + join_slash(sv.skip(4).take(k - 4)),
            decreases n - k,
        {
            out.append("/");
            append_chars(&mut out, segs[k].as_slice());
            assert(sv.skip(4).take(k + 1 - 4).drop_last() =~= sv.skip(4).take(k - 4));
            assert(sv.skip(4).take(k + 1 - 4).last() == sv[k as int]);
            k += 1;
        }
        assert(sv.skip(4).take(n - 4) =~= sv.skip(4));
        return Ok(out);
    }
    if n >= 3 && (crate::text::chars_equal(segs[2].as_slice(), chars_of("tree").as_slice())
        || crate::text::chars_equal(segs[2].as_slice(), chars_of("raw").as_slice())) {
        let d = debug_text(raw);
        return Err(crate::text::concat3(
            "unsupported url form: only direct SKILL.md links are supported, got ",
            d.as_str(),
            " (tree/dir URLs are not yet supported)",
        ));
    }
    if n <= 2 {
        let d = debug_text(raw);
        return Err(crate::text::concat3(
            "unsupported url form: only direct SKILL.md links are supported, got ",
            d.as_str(),
            " (whole-repo URLs are not yet supported)",
        ));
    }
    Ok(String::from_str(raw))
}

/// Whether a parsed URL's path ends in `.md`, ignoring ASCII case.
pub fn has_markdown_path(parsed: &ParsedUrl) -> (r: bool)
    ensures
        r == crate::text::has_suffix(crate::text::lower_seq(parsed@.path), ".md"@),
{
    let p = chars_of(parsed.path.as_str());
    let lower = crate::text::lower_chars(p.as_slice());
    let md = chars_of(".md");
    crate::text::chars_end_with(lower.as_slice(), md.as_slice())
}

/// Normalize a direct Markdown URL, including GitHub blob links.
///
/// Malformed URLs, GitHub repository and tree links, and URLs whose path
/// does not end in `.md` are refused.
pub fn normalize_install_url(raw: &str) -> (r: Result<String, String>)
    ensures
        result_is(r, install_url_of(raw@)),
{
    let parsed = match parse_url(raw) {
        Ok(u) => u,
        Err(error) => {
            let d = debug_text(raw);
            let mut m = crate::text::concat3("unsupported url form: parse ", d.as_str(), ": ");
            m.append(error.as_str());
            return Err(m);
        },
    };
    let normalized = match github_candidate(raw, &parsed) {
        Ok(n) => n,
        Err(m) => return Err(m),
    };
    let again = match parse_url(normalized.as_str()) {
        Ok(u) => u,
        Err(error) => {
            let d = debug_text(normalized.as_str());
            let mut m = crate::text::concat3("unsupported url form: parse normalized ", d.as_str(), ": ");
            m.append(error.as_str());
            return Err(m);
        },
    };
    if !has_markdown_path(&again) {
        let d = debug_text(normalized.as_str());
        let mut m = String::from_str("unsupported url form: path must end in .md, got ");
        m.append(d.as_str());
        return Err(m);
    }
    Ok(normalized)
}


/// Whether a parsed URL is plain HTTP to an exact loopback host.
pub open spec fn loopback_http(u: UrlView) -> bool {
    &&& u.scheme == "http"@
    &&& u.host matches Some(h) && (h == "localhost"@ || h == "127.0.0.1"@ || h == "::1"@ || h == "[::1]"@)
}

fn parsed_loopback_http(u: &ParsedUrl) -> (r: bool)
    ensures
        r == loopback_http(u@),
{
    if !crate::text::str_equal(u.scheme.as_str(), "http") {
        return false;
    }
    match &u.host {
        Some(h) => {
            let h = h.as_str();
            crate::text::str_equal(h, "localhost") || crate::text::str_equal(h, "127.0.0.1")
                || crate::text::str_equal(h, "::1") || crate::text::str_equal(h, "[::1]")
        },
        None => false,
    }
}

/// Whether the URL is plain HTTP to an exact loopback host.
pub fn is_loopback_http_url(raw: &str) -> (r: bool)
    ensures
        r == (url_parse(raw@) matches Ok(u) && loopback_http(u)),
{
    match parse_url(raw) {
        Ok(u) => parsed_loopback_http(&u),
        Err(_) => false,
    }
}

/// A host without surrounding brackets and without one trailing dot.
pub open spec fn bare_host_of(h: Seq<char>) -> Seq<char> {
    let u = if h.len() >= 2 && h[0] == '[' && h.last() == ']' {
        h.subrange(1, h.len() - 1)
    } else {
        h
    };
    if u.len() > 0 && u.last() == '.' {
        u.drop_last()
    } else {
        u
    }
}

/// Whether a bare host names this machine or the local network by name:
/// `localhost`, a `.localhost` subdomain, or a `.local` name.
pub open spec fn local_name(lower: Seq<char>) -> bool {
    ||| lower == "localhost"@
    ||| crate::text::has_suffix(lower, ".localhost"@)
    ||| lower == "local"@
    ||| crate::text::has_suffix(lower, ".local"@)
}

/// Whether a hostname or literal address is local or non-public.
pub open spec fn private_or_local(h: Seq<char>) -> bool {
    ||| local_name(crate::text::lower_seq(bare_host_of(h)))
    ||| (ip_parse(bare_host_of(h)) matches Some(ip) && non_global(ip))
}

/// The host without brackets and without one trailing dot.
pub fn bare_host(host: &str) -> (r: Vec<char>)
    ensures
        r@ == bare_host_of(host@),
{
    let h = chars_of(host);
    let n = h.len();
    let u = if n >= 2 && h[0] == '[' && h[n - 1] == ']' {
        crate::text::sub_chars(h.as_slice(), 1, n - 1)
    } else {
        h
    };
    let m = u.len();
    if m > 0 && u[m - 1] == '.' {
        crate::text::sub_chars(u.as_slice(), 0, m - 1)
    } else {
        u
    }
}

/// Whether a hostname or literal address is local or non-public.
pub fn is_private_or_local_host(host: &str) -> (r: bool)
    ensures
        r == private_or_local(host@),
{
    let bare = bare_host(host);
    let lower = crate::text::lower_chars(bare.as_slice());
    let l = lower.as_slice();
    if crate::text::chars_equal(l, chars_of("localhost").as_slice())
        || crate::text::chars_end_with(l, chars_of(".localhost").as_slice())
        || crate::text::chars_equal(l, chars_of("local").as_slice())
        || crate::text::chars_end_with(l, chars_of(".local").as_slice()) {
        return true;
    }
    let text = string_of(bare.as_slice());
    match parse_ip(text.as_str()) {
        Some(ip) => is_non_global(ip),
        None => false,
    }
}

/// The result of validating a raw install URL under a local-HTTP policy.
pub open spec fn install_url_check(raw: Seq<char>, allow_local_http: bool) -> Result<(), Seq<char>> {
    let t = crate::text::trim(raw);
    if t.len() == 0 {
        Err("url must not be empty"@)
    } else if crate::document::byte_len(t) > MAX_INSTALL_URL_LEN {
        Err("url exceeds max 2048 chars (got "@ + crate::text::decimal(crate::document::byte_len(t)) + ")"@)
    } else {
        match url_parse(t) {
            Err(e) => Err("invalid url "@ + debug_str(t) + ": "@ + e),
            Ok(u) => if u.scheme != "https"@ {
                if allow_local_http && loopback_http(u) {
                    Ok(())
                } else {
                    Err("url scheme "@ + debug_str(u.scheme) + " not allowed; https only"@)
                }
            } else {
                match u.host {
                    None => Err("url "@ + debug_str(t) + " has no host"@),
                    Some(h) => if private_or_local(h) {
                        Err("host "@ + debug_str(h) + " not allowed (loopback/private/link-local/multicast)"@)
                    } else {
                        Ok(())
                    },
                }
            },
        }
    }
}

/// Validate a remote install URL under an explicit local-HTTP policy.
///
/// The trimmed URL must be non-empty, at most [`MAX_INSTALL_URL_LEN`] bytes,
/// parse, and use `https` (or plain HTTP to an exact loopback host when
/// `allow_local_http`), with a host that is not local or private.
pub fn validate_install_url(raw: &str, allow_local_http: bool) -> (r: Result<(), String>)
    ensures
        match install_url_check(raw@, allow_local_http) {
            Ok(()) => r is Ok,
            Err(m) => r matches Err(e) && e@ == m,
        },
{
    let trimmed = crate::text::trim_str(raw);
    let t = trimmed.as_str();
    if t.is_empty() {
        return Err(String::from_str("url must not be empty"));
    }
    let bytes = t.as_bytes();
    let len = bytes.len();
    assert(crate::document::byte_len(trimmed@) == len);
    if len > MAX_INSTALL_URL_LEN {
        let digits = crate::text::decimal_string(len as u64);
        return Err(crate::text::concat3("url exceeds max 2048 chars (got ", digits.as_str(), ")"));
    }
    let parsed = match parse_url(t) {
        Ok(u) => u,
        Err(error) => {
            let d = debug_text(t);
            let mut m = crate::text::concat3("invalid url ", d.as_str(), ": ");
            m.append(error.as_str());
            return Err(m);
        },
    };
    if !crate::text::str_equal(parsed.scheme.as_str(), "https") {
        if allow_local_http && parsed_loopback_http(&parsed) {
            return Ok(());
        }
        let d = debug_text(parsed.scheme.as_str());
        return Err(crate::text::concat3("url scheme ", d.as_str(), " not allowed; https only"));
    }
    match &parsed.host {
        None => {
            let d = debug_text(t);
            Err(crate::text::concat3("url ", d.as_str(), " has no host"))
        },
        Some(host) => {
            if is_private_or_local_host(host.as_str()) {
                let d = debug_text(host.as_str());
                Err(crate::text::concat3("host ", d.as_str(), " not allowed (loopback/private/link-local/multicast)"))
            } else {
                Ok(())
            }
        },
    }
}

/// The default port of a scheme, as `url` knows it.
pub open spec fn default_port(scheme: Seq<char>) -> Option<u16> {
    if scheme == "http"@ || scheme == "ws"@ {
        Some(80)
    } else if scheme == "https"@ || scheme == "wss"@ {
        Some(443)
    } else if scheme == "ftp"@ {
        Some(21)
    } else {
        None
    }
}

/// The port a DNS check connects to: the explicit port, else the scheme's
/// default, else 443.
pub open spec fn target_port(u: UrlView) -> u16 {
    match u.port {
        Some(p) => p,
        None => match default_port(u.scheme) {
            Some(p) => p,
            None => 443,
        },
    }
}

/// The host and the `host:port` lookup target for a URL, or why there is none.
pub open spec fn dns_target_of(raw: Seq<char>) -> Result<(Seq<char>, Seq<char>), Seq<char>> {
    match url_parse(raw) {
        Err(e) => Err("invalid url "@ + debug_str(raw) + " during DNS guard: "@ + e),
        Ok(u) => match u.host {
            None => Err("url "@ + debug_str(raw) + " has no host (DNS guard)"@),
            Some(h) => Ok((
                h,
                if u.ipv6_host {
                    "["@ + h + "]:"@ + crate::text::decimal(target_port(u) as nat)
                } else {
                    h + ":"@ + crate::text::decimal(target_port(u) as nat)
                },
            )),
        },
    }
}

fn port_for(u: &ParsedUrl) -> (r: u16)
    ensures
        r == target_port(u@),
{
    match u.port {
        Some(p) => p,
        None => {
            let s = u.scheme.as_str();
            if crate::text::str_equal(s, "http") || crate::text::str_equal(s, "ws") {
                80
            } else if crate::text::str_equal(s, "https") || crate::text::str_equal(s, "wss") {
                443
            } else if crate::text::str_equal(s, "ftp") {
                21
            } else {
                443
            }
        },
    }
}

/// The host of a URL and the `host:port` target whose addresses a DNS check
/// must inspect.
pub fn dns_target(raw_url: &str) -> (r: Result<(String, String), String>)
    ensures
        match dns_target_of(raw_url@) {
            Ok((h, t)) => r matches Ok((a, b)) && a@ == h && b@ == t,
            Err(m) => r matches Err(e) && e@ == m,
        },
{
    let parsed = match parse_url(raw_url) {
        Ok(u) => u,
        Err(error) => {
            let d = debug_text(raw_url);
            let mut m = crate::text::concat3("invalid url ", d.as_str(), " during DNS guard: ");
            m.append(error.as_str());
            return Err(m);
        },
    };
    let port = port_for(&parsed);
    match &parsed.host {
        None => {
            let d = debug_text(raw_url);
            Err(crate::text::concat3("url ", d.as_str(), " has no host (DNS guard)"))
        },
        Some(host) => {
            let digits = crate::text::decimal_string(port as u64);
            let target = if parsed.ipv6_host {
                let mut t = crate::text::concat3("[", host.as_str(), "]:");
                t.append(digits.as_str());
                t
            } else {
                crate::text::concat3(host.as_str(), ":", digits.as_str())
            };
            Ok((crate::text::copy_string(host), target))
        },
    }
}

/// Check the addresses a host resolved to: there must be some, and none may
/// be non-global; the first non-global one is reported.
pub fn check_resolved(host: &str, addresses: &[IpAddress]) -> (r: Result<(), String>)
    ensures
        addresses@.len() == 0 ==> (r matches Err(e) && e@ == "host "@ + debug_str(host@) + " resolved to no IP addresses"@),
        addresses@.len() > 0 && (forall|i: int| 0 <= i < addresses@.len() ==> !non_global(#[trigger] addresses@[i])) ==> r is Ok,
        forall|i: int|
            0 <= i < addresses@.len() && non_global(#[trigger] addresses@[i]) && (forall|j: int| 0 <= j < i ==> !non_global(#[trigger] addresses@[j])) ==> (r matches Err(e) && e@ == "host "@ + debug_str(host@)
                + " resolved to non-public IP "@ + ip_text(addresses@[i]) + " (loopback/private/link-local)"@),
{
    if addresses.len() == 0 {
        let d = debug_text(host);
        return Err(crate::text::concat3("host ", d.as_str(), " resolved to no IP addresses"));
    }
    let mut i: usize = 0;
    while i < addresses.len()
        invariant
            i <= addresses@.len(),
            forall|j: int| 0 <= j < i ==> !non_global(#[trigger] addresses@[j]),
        decreases addresses@.len() - i,
    {
        if is_non_global(addresses[i]) {
            let d = debug_text(host);
            let t = display_ip(addresses[i]);
            let mut m = crate::text::concat3("host ", d.as_str(), " resolved to non-public IP ");
            m.append(t.as_str());
            m.append(" (loopback/private/link-local)");
            proof {
                assert forall|k: int|
                    0 <= k < addresses@.len() && non_global(#[trigger] addresses@[k]) && (forall|j: int| 0 <= j < k ==> !non_global(#[trigger] addresses@[j])) implies k == i by {
                    if k < i {
                    } else if k > i {
                        assert(!non_global(addresses@[i as int]));
                    }
                }
            }
            return Err(m);
        }
        i += 1;
    }
    Ok(())
}

/// What the DNS check concludes from the lookup of `host`'s target: a failed
/// lookup is reported with its error, and resolved addresses are checked as
/// [`check_resolved`] does.
pub fn check_lookup(host: &str, lookup: Result<Vec<IpAddress>, String>) -> (r: Result<(), String>)
    ensures
        lookup matches Err(x) ==> (r matches Err(e) && e@ == "dns lookup failed for "@ + debug_str(
            host@,
        ) + ": "@ + x@),
        lookup matches Ok(addresses) ==> (addresses@.len() == 0 ==> (r matches Err(e) && e@
            == "host "@ + debug_str(host@) + " resolved to no IP addresses"@)),
        lookup matches Ok(addresses) ==> (addresses@.len() > 0 && (forall|i: int|
            0 <= i < addresses@.len() ==> !non_global(#[trigger] addresses@[i])) ==> r is Ok),
        lookup matches Ok(addresses) ==> (forall|i: int|
            0 <= i < addresses@.len() && non_global(#[trigger] addresses@[i]) && (forall|j: int|
                0 <= j < i ==> !non_global(#[trigger] addresses@[j])) ==> (r matches Err(e) && e@
                == "host "@ + debug_str(host@) + " resolved to non-public IP "@ + ip_text(
                addresses@[i],
            ) + " (loopback/private/link-local)"@)),
{
    match lookup {
        Err(x) => {
            let d = debug_text(host);
            let mut m = crate::text::concat3("dns lookup failed for ", d.as_str(), ": ");
            m.append(x.as_str());
            Err(m)
        },
        Ok(addresses) => check_resolved(host, addresses.as_slice()),
    }
}

} // verus!

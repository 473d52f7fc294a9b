//! Skill lookup by id or name, and the safety rules for reading bundled resources.

use vstd::prelude::*;
use crate::model::{Skill, MAX_RESOURCE_BYTES};
use crate::text::{chars_of, str_equal, concat3, has_prefix};

verus! {

broadcast use vstd::string::group_string_axioms;

/// Indices of the directory-id match and the name match after reading
/// `skills`; `Err(true)` once a second directory-id match is seen, and
/// `Err(false)` once a second name match is seen.
pub open spec fn scan_ids(skills: Seq<Skill>, id: Seq<char>) -> Result<(Option<int>, Option<int>), bool>
    decreases skills.len(),
{
    if skills.len() == 0 {
        Ok((None, None))
    } else {
        match scan_ids(skills.drop_last(), id) {
            Err(e) => Err(e),
            Ok(found) => {
                let i = skills.len() - 1;
                if skills.last().dir_name@ == id {
                    if found.0 is Some {
                        Err(true)
                    } else {
                        Ok((Some(i), found.1))
                    }
                } else if skills.last().name@ == id {
                    if found.1 is Some {
                        Err(false)
                    } else {
                        Ok((found.0, Some(i)))
                    }
                } else {
                    Ok(found)
                }
            },
        }
    }
}

/// The pieces of `segs` other than `.`.
pub open spec fn normal_pieces(segs: Seq<Seq<char>>) -> Seq<Seq<char>>
    decreases segs.len(),
{
    if segs.len() == 0 {
        seq![]
    } else if segs.last() == seq!['.'] {
        normal_pieces(segs.drop_last())
    } else {
        normal_pieces(segs.drop_last()).push(segs.last())
    }
}

/// A path's components, as `Path::components` yields them on Unix: whether
/// it has a root, whether it begins with a `.` component, and its other
/// components. Repeated separators, a trailing separator and `.` pieces
/// after the first make no component.
pub open spec fn path_components(p: Seq<char>) -> (bool, bool, Seq<Seq<char>>) {
    let rooted = p.len() > 0 && p[0] == '/';
    let current = !rooted && p.len() > 0 && p[0] == '.' && (p.len() == 1 || p[1] == '/');
    (rooted, current, normal_pieces(segments(p)))
}

/// Whether two optional locations are the same path, compared component by
/// component as `Path` equality does.
pub open spec fn same_location(a: Option<String>, b: Option<String>) -> bool {
    match (a, b) {
        (None, None) => true,
        (Some(x), Some(y)) => path_components(x@) == path_components(y@),
        _ => false,
    }
}

/// Error for an id shared by several directories.
pub open spec fn msg_ambiguous_id(id: Seq<char>) -> Seq<char> {
    "skill id '"@ + id + "' is ambiguous across multiple directories"@
}

/// Error for a name shared by several skills.
pub open spec fn msg_ambiguous_name(id: Seq<char>) -> Seq<char> {
    "skill name '"@ + id + "' is ambiguous; use the directory id"@
}

/// Error for an id naming one skill's directory and another skill.
pub open spec fn msg_split_match(id: Seq<char>) -> Seq<char> {
    "skill id '"@ + id + "' matches both a directory id and a different skill name"@
}

/// Error for an unknown id.
pub open spec fn msg_not_found(id: Seq<char>) -> Seq<char> {
    "skill '"@ + id + "' not found"@
}

/// What resolving `id` among `skills` gives: the index of the skill found, or the error text.
pub open spec fn resolution(skills: Seq<Skill>, id: Seq<char>) -> Result<int, Seq<char>> {
    match scan_ids(skills, id) {
        Err(true) => Err(msg_ambiguous_id(id)),
        Err(false) => Err(msg_ambiguous_name(id)),
        Ok((Some(d), Some(n))) => if same_location(skills[d].location, skills[n].location) {
            Ok(d)
        } else {
            Err(msg_split_match(id))
        },
        Ok((Some(d), None)) => Ok(d),
        Ok((None, Some(n))) => Ok(n),
        Ok((None, None)) => Err(msg_not_found(id)),
    }
}

fn normal_pieces_of(segs: Vec<Vec<char>>) -> (r: Vec<Vec<char>>)
    ensures
        crate::text::vviews(r@) == normal_pieces(crate::text::vviews(segs@)),
{
    let ghost sv = crate::text::vviews(segs@);
    let mut rest = segs;
    let mut done: Vec<Vec<char>> = Vec::new();
    let ghost mut i: int = 0;
    let dot: Vec<char> = vec!['.'];
    while rest.len() > 0
        invariant
            0 <= i <= sv.len(),
            rest@.len() == sv.len() - i,
            crate::text::vviews(rest@) == sv.skip(i),
            crate::text::vviews(done@) == normal_pieces(sv.take(i)),
            dot@ == seq!['.'],
        decreases rest@.len(),
    {
        let ghost rest0 = rest@;
        proof {
            assert(crate::text::vviews(rest0)[0] == rest0[0]@);
            assert(sv.skip(i)[0] == sv[i]);
        }
        let piece = rest.remove(0);
        proof {
            assert(piece@ == sv[i]);
            assert(sv.take(i + 1).drop_last() =~= sv.take(i));
            assert(sv.take(i + 1).last() == sv[i]);
        }
        if !crate::text::chars_equal(piece.as_slice(), dot.as_slice()) {
            let ghost before = done@;
            done.push(piece);
            assert(crate::text::vviews(done@) =~= crate::text::vviews(before).push(sv[i]));
        }
        proof {
            assert(rest@ == rest0.remove(0));
            assert forall|k: int| 0 <= k < rest@.len() implies #[trigger] crate::text::vviews(rest@)[k] == sv.skip(i + 1)[k] by {
                assert(rest@[k] == rest0[k + 1]);
                assert(crate::text::vviews(rest0)[k + 1] == rest0[k + 1]@);
            }
            assert(crate::text::vviews(rest@) =~= sv.skip(i + 1));
            i = i + 1;
        }
    }
    assert(sv.take(i) =~= sv);
    done
}

/// Whether two paths have the same components (see [`path_components`]).
fn same_path(a: &str, b: &str) -> (r: bool)
    ensures
        r == (path_components(a@) == path_components(b@)),
{
    let ac = chars_of(a);
    let bc = chars_of(b);
    let a_rooted = ac.len() > 0 && ac[0] == '/';
    let b_rooted = bc.len() > 0 && bc[0] == '/';
    let a_current = !a_rooted && ac.len() > 0 && ac[0] == '.' && (ac.len() == 1 || ac[1] == '/');
    let b_current = !b_rooted && bc.len() > 0 && bc[0] == '.' && (bc.len() == 1 || bc[1] == '/');
    let ap = normal_pieces_of(segments_of(ac.as_slice()));
    let bp = normal_pieces_of(segments_of(bc.as_slice()));
    let ghost av = normal_pieces(segments(a@));
    let ghost bv = normal_pieces(segments(b@));
    assert(ac@ == a@ && bc@ == b@);
    assert(crate::text::vviews(ap@).len() == ap@.len());
    assert(crate::text::vviews(bp@).len() == bp@.len());
    assert(path_components(a@).0 == a_rooted && path_components(b@).0 == b_rooted);
    assert(path_components(a@).1 == a_current && path_components(b@).1 == b_current);
    assert(path_components(a@).2 == av && path_components(b@).2 == bv);
    if a_rooted != b_rooted || a_current != b_current || ap.len() != bp.len() {
        proof {
            if ap.len() != bp.len() {
                assert(crate::text::vviews(ap@).len() == ap@.len());
                assert(crate::text::vviews(bp@).len() == bp@.len());
                assert(av.len() != bv.len());
            }
        }
        return false;
    }
    let mut i: usize = 0;
    while i < ap.len()
        invariant
            ap@.len() == bp@.len(),
            crate::text::vviews(ap@) == av,
            crate::text::vviews(bp@) == bv,
            path_components(a@).2 == av,
            path_components(b@).2 == bv,
            path_components(a@).0 == path_components(b@).0,
            path_components(a@).1 == path_components(b@).1,
            i <= ap@.len(),
            forall|k: int| 0 <= k < i ==> av[k] == bv[k],
        decreases ap@.len() - i,
    {
        assert(av[i as int] == ap@[i as int]@ && bv[i as int] == bp@[i as int]@);
        if !crate::text::chars_equal(ap[i].as_slice(), bp[i].as_slice()) {
            assert(av[i as int] != bv[i as int]);
            return false;
        }
        i += 1;
    }
    assert(av =~= bv);
    assert(path_components(a@) == path_components(b@));
    true
}

fn same_location_exec(a: &Option<String>, b: &Option<String>) -> (r: bool)
    ensures
        r == same_location(*a, *b),
{
    match (a, b) {
        (None, None) => true,
        (Some(x), Some(y)) => same_path(x.as_str(), y.as_str()),
        _ => false,
    }
}

proof fn lemma_scan_bounds(skills: Seq<Skill>, id: Seq<char>)
    ensures
        scan_ids(skills, id) matches Ok(found) ==> (found.0 matches Some(d) ==> 0 <= d < skills.len()
            && skills[d].dir_name@ == id) && (found.1 matches Some(n) ==> 0 <= n < skills.len()
            && skills[n].name@ == id),
    decreases skills.len(),
{
    if skills.len() > 0 {
        lemma_scan_bounds(skills.drop_last(), id);
    }
}

/// Resolve a skill by directory id or display name.
///
/// A directory-id match is preferred; an id naming two directories, a name
/// shared by two skills, or an id that is one skill's directory and another
/// skill's name is rejected, as is an unknown id.
pub fn resolve_skill(skills: Vec<Skill>, skill_id: &str) -> (r: Result<Skill, String>)
    ensures
        match resolution(skills@, skill_id@) {
            Ok(i) => r == Ok::<Skill, String>(skills@[i]),
            Err(m) => r matches Err(e) && e@ == m,
        },
{
    let ghost input = skills@;
    let n = skills.len();
    let mut rest = skills;
    let mut dir_match: Option<Skill> = None;
    let mut name_match: Option<Skill> = None;
    let ghost mut di: Option<int> = None;
    let ghost mut ni: Option<int> = None;
    let mut i: usize = 0;
    while i < n
        invariant
            n == input.len(),
            input == skills@,
            i <= n,
            rest@ == input.skip(i as int),
            scan_ids(input.take(i as int), skill_id@) == Ok::<(Option<int>, Option<int>), bool>((di, ni)),
            dir_match is Some <==> di is Some,
            name_match is Some <==> ni is Some,
            di matches Some(d) ==> 0 <= d < i && dir_match == Some(input[d]),
            ni matches Some(k) ==> 0 <= k < i && name_match == Some(input[k]),
        decreases n - i,
    {
        let skill = rest.remove(0);
        assert(skill == input[i as int]);
        assert(rest@ =~= input.skip(i + 1));
        assert(input.take(i + 1).drop_last() == input.take(i as int));
        assert(input.take(i + 1).last() == skill);
        if str_equal(skill.dir_name.as_str(), skill_id) {
            if dir_match.is_some() {
                proof {
                    lemma_scan_prefix_err(input, skill_id@, i as int + 1, true);
                    assert(resolution(input, skill_id@) == Err::<int, Seq<char>>(msg_ambiguous_id(skill_id@)));
                }
                let e = concat3("skill id '", skill_id, "' is ambiguous across multiple directories");
                assert(e@ == msg_ambiguous_id(skill_id@));
                return Err(e);
            }
            dir_match = Some(skill);
            proof {
                di = Some(i as int);
            }
        } else if str_equal(skill.name.as_str(), skill_id) {
            if name_match.is_some() {
                proof {
                    lemma_scan_prefix_err(input, skill_id@, i as int + 1, false);
                    assert(resolution(input, skill_id@) == Err::<int, Seq<char>>(msg_ambiguous_name(skill_id@)));
                }
                let e = concat3("skill name '", skill_id, "' is ambiguous; use the directory id");
                assert(e@ == msg_ambiguous_name(skill_id@));
                return Err(e);
            }
            name_match = Some(skill);
            proof {
                ni = Some(i as int);
            }
        }
        i += 1;
    }
    assert(input.take(n as int) == input);
    match (dir_match, name_match) {
        (Some(by_dir), Some(by_name)) => {
            if same_location_exec(&by_dir.location, &by_name.location) {
                Ok(by_dir)
            } else {
                Err(concat3("skill id '", skill_id, "' matches both a directory id and a different skill name"))
            }
        },
        (Some(skill), None) => Ok(skill),
        (None, Some(skill)) => Ok(skill),
        (None, None) => Err(concat3("skill '", skill_id, "' not found")),
    }
}

proof fn lemma_scan_prefix_err(s: Seq<Skill>, id: Seq<char>, k: int, e: bool)
    requires
        0 <= k <= s.len(),
        scan_ids(s.take(k), id) == Err::<(Option<int>, Option<int>), bool>(e),
    ensures
        scan_ids(s, id) == Err::<(Option<int>, Option<int>), bool>(e),
    decreases s.len() - k,
{
    if k < s.len() {
        assert(s.take(k + 1).drop_last() == s.take(k));
        lemma_scan_prefix_err(s, id, k + 1, e);
    } else {
        assert(s.take(k) == s);
    }
}


/// Error for an empty or absolute resource path.
pub open spec fn msg_not_relative() -> Seq<char> {
    "resource path must be a non-empty relative path"@
}

/// Error for a resource path with a `.` prefix or a `..` component.
pub open spec fn msg_abnormal() -> Seq<char> {
    "resource path must contain only normal relative components"@
}

/// Whether `p` has a `..` component.
pub open spec fn has_parent_component(p: Seq<char>) -> bool {
    exists|i: int|
        0 <= i && i + 2 <= p.len() && #[trigger] p[i] == '.' && p[i + 1] == '.' && (i == 0 || p[i - 1]
            == '/') && (i + 2 == p.len() || p[i + 2] == '/')
}

/// Whether `p` begins with a `.` component (`.` itself or `./...`).
pub open spec fn starts_with_current(p: Seq<char>) -> bool {
    p.len() >= 1 && p[0] == '.' && (p.len() == 1 || p[1] == '/')
}

/// Why a resource path is refused, if it is. Paths are read with Unix
/// component rules: repeated separators and inner `.` components are
/// harmless, a leading `.` component and any `..` component are not.
pub open spec fn resource_path_error(p: Seq<char>) -> Option<Seq<char>> {
    if p.len() == 0 || p[0] == '/' {
        Some(msg_not_relative())
    } else if starts_with_current(p) || has_parent_component(p) {
        Some(msg_abnormal())
    } else {
        None
    }
}

/// Check that a resource path is a non-empty relative path of normal components.
pub fn check_resource_path(relative: &str) -> (r: Result<(), String>)
    ensures
        match resource_path_error(relative@) {
            None => r is Ok,
            Some(m) => r matches Err(e) && e@ == m,
        },
{
    let p = chars_of(relative);
    let n = p.len();
    if n == 0 || p[0] == '/' {
        return Err(String::from_str("resource path must be a non-empty relative path"));
    }
    if p[0] == '.' && (n == 1 || p[1] == '/') {
        return Err(String::from_str("resource path must contain only normal relative components"));
    }
    let mut i: usize = 0;
    while i < n && n - i >= 2
        invariant
            n == p@.len(),
            p@ == relative@,
            n > 0,
            p@[0] != '/',
            !starts_with_current(relative@),
            forall|k: int|
                0 <= k < i && k + 2 <= n ==> !(#[trigger] p@[k] == '.' && p@[k + 1] == '.' && (k == 0
                    || p@[k - 1] == '/') && (k + 2 == n || p@[k + 2] == '/')),
        decreases n - i,
    {
        if p[i] == '.' && p[i + 1] == '.' && (i == 0 || p[i - 1] == '/') && (i + 2 == n || p[i + 2] == '/') {
            assert(has_parent_component(relative@));
            return Err(String::from_str("resource path must contain only normal relative components"));
        }
        i += 1;
    }
    Ok(())
}

/// Error for a resource that is a symlink.
pub open spec fn msg_symlink() -> Seq<char> {
    "resource path is a symlink"@
}

/// Error for a resource that is not a regular file.
pub open spec fn msg_not_file() -> Seq<char> {
    "resource path is not a regular file"@
}

/// Error for an oversized resource.
pub open spec fn msg_too_large(len: nat) -> Seq<char> {
    "resource file is "@ + crate::text::decimal(len) + " bytes, exceeds limit of 131072"@
}

/// Check what the filesystem reports of a resource: a symlink, a
/// non-regular file or a file over the resource size limit is refused.
pub fn check_resource_metadata(is_symlink: bool, is_file: bool, len: u64) -> (r: Result<(), String>)
    ensures
        is_symlink ==> (r matches Err(e) && e@ == msg_symlink()),
        !is_symlink && !is_file ==> (r matches Err(e) && e@ == msg_not_file()),
        !is_symlink && is_file && len > MAX_RESOURCE_BYTES ==> (r matches Err(e) && e@ == msg_too_large(len as nat)),
        !is_symlink && is_file && len <= MAX_RESOURCE_BYTES ==> r is Ok,
{
    if is_symlink {
        return Err(String::from_str("resource path is a symlink"));
    }
    if !is_file {
        return Err(String::from_str("resource path is not a regular file"));
    }
    if len > MAX_RESOURCE_BYTES {
        let digits = crate::text::decimal_string(len);
        return Err(concat3("resource file is ", digits.as_str(), " bytes, exceeds limit of 131072"));
    }
    Ok(())
}

/// Non-empty `/`-separated segments of `p`, and the pending segment, after reading `p`.
pub open spec fn segments_state(p: Seq<char>) -> (Seq<Seq<char>>, Seq<char>)
    decreases p.len(),
{
    if p.len() == 0 {
        (seq![], seq![])
    } else {
        let st = segments_state(p.drop_last());
        if p.last() == '/' {
            (if st.1.len() > 0 {
                st.0.push(st.1)
            } else {
                st.0
            }, seq![])
        } else {
            (st.0, st.1.push(p.last()))
        }
    }
}

/// The non-empty `/`-separated segments of `p`.
pub open spec fn segments(p: Seq<char>) -> Seq<Seq<char>> {
    let st = segments_state(p);
    if st.1.len() > 0 {
        st.0.push(st.1)
    } else {
        st.0
    }
}

/// Whether canonical path `path` lies within canonical path `root`
/// (`Path::starts_with`: whole components, both absolute or both relative).
pub open spec fn within(root: Seq<char>, path: Seq<char>) -> bool {
    &&& (root.len() > 0 && root[0] == '/') == (path.len() > 0 && path[0] == '/')
    &&& segments(root).len() <= segments(path).len()
    &&& segments(path).take(segments(root).len() as int) == segments(root)
}

fn segments_of(p: &[char]) -> (r: Vec<Vec<char>>)
    ensures
        crate::text::vviews(r@) == segments(p@),
{
    let mut done: Vec<Vec<char>> = Vec::new();
    let mut cur: Vec<char> = Vec::new();
    let mut i: usize = 0;
    while i < p.len()
        invariant
            i <= p@.len(),
            crate::text::vviews(done@) == segments_state(p@.take(i as int)).0,
            cur@ == segments_state(p@.take(i as int)).1,
        decreases p@.len() - i,
    {
        assert(p@.take(i + 1).drop_last() == p@.take(i as int));
        if p[i] == '/' {
            if cur.len() > 0 {
                let ghost before = done@;
                done.push(cur);
                assert(crate::text::vviews(done@) =~= crate::text::vviews(before).push(segments_state(p@.take(i as int)).1));
            }
            cur = Vec::new();
        } else {
            cur.push(p[i]);
        }
        i += 1;
    }
    assert(p@.take(p@.len() as int) == p@);
    if cur.len() > 0 {
        let ghost before = done@;
        done.push(cur);
        assert(crate::text::vviews(done@) =~= crate::text::vviews(before).push(segments_state(p@).1));
    }
    done
}

/// Whether canonical path `path` lies within canonical path `root`.
pub fn path_within(root: &str, path: &str) -> (r: bool)
    ensures
        r == within(root@, path@),
{
    let rc = chars_of(root);
    let pc = chars_of(path);
    let root_abs = rc.len() > 0 && rc[0] == '/';
    let path_abs = pc.len() > 0 && pc[0] == '/';
    if root_abs != path_abs {
        return false;
    }
    let rs = segments_of(rc.as_slice());
    let ps = segments_of(pc.as_slice());
    let ghost rv = segments(root@);
    let ghost pv = segments(path@);
    assert(crate::text::vviews(rs@).len() == rs@.len());
    assert(crate::text::vviews(ps@).len() == ps@.len());
    if rs.len() > ps.len() {
        return false;
    }
    let mut i: usize = 0;
    while i < rs.len()
        invariant
            rs@.len() <= ps@.len(),
            crate::text::vviews(rs@) == rv,
            crate::text::vviews(ps@) == pv,
            rv == segments(root@),
            pv == segments(path@),
            i <= rs@.len(),
            forall|k: int| 0 <= k < i ==> pv[k] == rv[k],
        decreases rs@.len() - i,
    {
        assert(rv[i as int] == rs@[i as int]@ && pv[i as int] == ps@[i as int]@);
        if !crate::text::chars_equal(rs[i].as_slice(), ps[i].as_slice()) {
            assert(pv.take(rv.len() as int)[i as int] != rv[i as int]);
            return false;
        }
        i += 1;
    }
    assert(pv.take(rv.len() as int) =~= rv);
    true
}

/// The text of the error that `std::str::from_utf8` reports for `bytes`.
pub uninterp spec fn utf8_error_text(bytes: Seq<u8>) -> Seq<char>;

/// `std::str::from_utf8`, copied into a `String`: the bytes decode when they
/// are valid UTF-8, and otherwise the error is rendered with `Display`.
#[verifier::external_body]
fn utf8_text(bytes: &[u8]) -> (r: Result<String, String>)
    ensures
        r is Ok <==> vstd::utf8::valid_utf8(bytes@),
        r matches Ok(s) ==> s@ == vstd::utf8::decode_utf8(bytes@),
        r matches Err(e) ==> e@ == utf8_error_text(bytes@),
{
    match std::str::from_utf8(bytes) {
        Ok(text) => Ok(text.to_owned()),
        Err(error) => Err(format!("{error}")),
    }
}

/// Decode a resource as UTF-8 text.
pub fn decode_resource(bytes: &[u8]) -> (r: Result<String, String>)
    ensures
        vstd::utf8::valid_utf8(bytes@) ==> (r matches Ok(s) && s@ == vstd::utf8::decode_utf8(bytes@)),
        !vstd::utf8::valid_utf8(bytes@) ==> (r matches Err(e) && e@ == "resource is not valid UTF-8 text: "@
            + utf8_error_text(bytes@)),
{
    match utf8_text(bytes) {
        Ok(text) => Ok(text),
        Err(error) => {
            let mut m = String::from_str("resource is not valid UTF-8 text: ");
            m.append(error.as_str());
            Err(m)
        },
    }
}

/// Decode a bounded document as UTF-8 text; `None` when it is not valid UTF-8.
pub fn decode_text(bytes: &[u8]) -> (r: Option<String>)
    ensures
        r is Some <==> vstd::utf8::valid_utf8(bytes@),
        r matches Some(s) ==> s@ == vstd::utf8::decode_utf8(bytes@),
{
    match utf8_text(bytes) {
        Ok(text) => Some(text),
        Err(_) => None,
    }
}

/// Whether a file may be read as a bounded document: a regular file that is
/// not a symlink and is at most `limit` bytes long.
pub fn is_bounded_regular_file(is_file: bool, is_symlink: bool, len: u64, limit: u64) -> (r: bool)
    ensures
        r == (is_file && !is_symlink && len <= limit),
{
    is_file && !is_symlink && len <= limit
}


/// An accepted resource path stays below the skill root: it is non-empty,
/// relative, does not begin with a `.` component and has no `..` component.
pub proof fn lemma_accepted_paths_stay_below(p: Seq<char>)
    requires
        resource_path_error(p) is None,
    ensures
        p.len() > 0,
        p[0] != '/',
        !starts_with_current(p),
        !has_parent_component(p),
{
}

} // verus!

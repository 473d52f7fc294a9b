//! Frontmatter splitting and metadata normalization for skill documents.

use vstd::prelude::*;
use crate::model::{
    LegacyManifest, MetaValue, Skill, SkillFrontmatter, SkillScope, MAX_DESCRIPTION_LEN,
    MAX_NAME_LEN, is_empty_frontmatter,
};
use crate::text::{
    chars_of, string_of, trim, lines, vviews, lines_of, trim_chars, sub_chars, chars_equal,
    views, copy_string, copy_strings, extend_strings, sort_dedup, strictly_sorted,
};

verus! {

broadcast use vstd::string::group_string_axioms;

/// The three characters of a frontmatter fence.
pub open spec fn fence() -> Seq<char> {
    seq!['-', '-', '-']
}

/// Whether a line, once trimmed, is a `---` fence.
pub open spec fn is_fence(line: Seq<char>) -> bool {
    trim(line) == fence()
}

/// Lines joined with a newline after each one.
pub open spec fn join_lines(ls: Seq<Seq<char>>) -> Seq<char>
    decreases ls.len(),
{
    if ls.len() == 0 {
        seq![]
    } else {
        join_lines(ls.drop_last()) + ls.last() + seq!['\n']
    }
}

/// Whether line `k` is the first fence after the opening one.
pub open spec fn closing_fence(ls: Seq<Seq<char>>, k: int) -> bool {
    &&& 1 <= k < ls.len()
    &&& is_fence(ls[k])
    &&& forall|j: int| 1 <= j < k ==> !is_fence(#[trigger] ls[j])
}

/// Whether an opened frontmatter block is closed again.
pub open spec fn has_closing_fence(ls: Seq<Seq<char>>) -> bool {
    exists|k: int| closing_fence(ls, k)
}

fn fence_chars() -> (r: Vec<char>)
    ensures
        r@ == fence(),
{
    let r = chars_of("---");
    proof {
        reveal_strlit("---");
    }
    assert(r@ =~= fence());
    r
}

fn join_range(ls: &Vec<Vec<char>>, lo: usize, hi: usize) -> (r: Vec<char>)
    requires
        lo <= hi <= ls@.len(),
    ensures
        r@ == join_lines(vviews(ls@).subrange(lo as int, hi as int)),
{
    let mut r: Vec<char> = Vec::new();
    let mut i = lo;
    while i < hi
        invariant
            lo <= i <= hi <= ls@.len(),
            r@ == join_lines(vviews(ls@).subrange(lo as int, i as int)),
        decreases hi - i,
    {
        let line = &ls[i];
        let mut j: usize = 0;
        let ghost start = r@;
        while j < line.len()
            invariant
                j <= line@.len(),
                r@ == start + line@.take(j as int),
            decreases line@.len() - j,
        {
            r.push(line[j]);
            j += 1;
            assert(r@ =~= start + line@.take(j as int));
        }
        r.push('\n');
        assert(line@.take(line@.len() as int) == line@);
        let ghost sub = vviews(ls@).subrange(lo as int, i + 1);
        assert(sub.drop_last() =~= vviews(ls@).subrange(lo as int, i as int));
        assert(sub.last() == line@);
        i += 1;
        assert(r@ =~= join_lines(sub));
    }
    r
}

/// Split a skill document into its YAML frontmatter and Markdown body.
///
/// An empty document is rejected (`None`). A document whose first line is
/// not a `---` fence has no frontmatter: the body is the whole document. An
/// opened frontmatter block without a closing fence is rejected. Otherwise
/// the lines between the fences form the YAML text and the lines after the
/// closing fence form the body, each followed by a newline.
pub fn split_frontmatter(content: &str) -> (r: Option<(Option<String>, String)>)
    ensures
        lines(content@).len() == 0 ==> r is None,
        lines(content@).len() > 0 && !is_fence(lines(content@)[0]) ==> (r matches Some(
            (None, b),
        ) && b@ == content@),
        lines(content@).len() > 0 && is_fence(lines(content@)[0]) ==> {
            &&& (r is None <==> !has_closing_fence(lines(content@)))
            &&& forall|k: int|
                closing_fence(lines(content@), k) ==> (r matches Some((Some(y), b)) && y@
                    == join_lines(lines(content@).subrange(1, k)) && b@ == join_lines(
                    lines(content@).subrange(k + 1, lines(content@).len() as int),
                ))
        },
{
    let chars = chars_of(content);
    let ls = lines_of(chars.as_slice());
    let ghost lv = lines(content@);
    assert(vviews(ls@).len() == ls@.len());
    if ls.len() == 0 {
        return None;
    }
    let fence_v = fence_chars();
    let first = trim_chars(ls[0].as_slice());
    assert(vviews(ls@)[0] == ls@[0]@);
    if !chars_equal(first.as_slice(), fence_v.as_slice()) {
        return Some((None, string_of(chars.as_slice())));
    }
    let mut k: usize = 1;
    while k < ls.len()
        invariant
            1 <= k <= ls@.len(),
            vviews(ls@) == lv,
            lv == lines(content@),
            fence_v@ == fence(),
            is_fence(lv[0]),
            forall|j: int| 1 <= j < k ==> !is_fence(#[trigger] lv[j]),
        decreases ls@.len() - k,
    {
        let t = trim_chars(ls[k].as_slice());
        assert(lv[k as int] == ls@[k as int]@);
        if chars_equal(t.as_slice(), fence_v.as_slice()) {
            let yaml = join_range(&ls, 1, k);
            let body = join_range(&ls, k + 1, ls.len());
            assert(closing_fence(lv, k as int));
            assert forall|k2: int| closing_fence(lv, k2) implies k2 == k by {
                if k2 < k {
                } else if k2 > k {
                    assert(!is_fence(lv[k as int]));
                }
            }
            return Some((Some(string_of(yaml.as_slice())), string_of(body.as_slice())));
        }
        k += 1;
    }
    assert(!has_closing_fence(lv));
    None
}

/// Warning for frontmatter whose YAML could not be decoded.
pub open spec fn msg_yaml_error(e: Seq<char>) -> Seq<char> {
    "frontmatter parse error: "@ + e
}

/// Put a split document back together: the frontmatter is the decoded one,
/// or empty when the document has none or its YAML could not be decoded
/// (which is reported as a warning); the body is kept as it is.
pub fn assemble_document(body: String, decoded: Option<Result<SkillFrontmatter, String>>) -> (r: (
    SkillFrontmatter,
    String,
    Vec<String>,
))
    ensures
        r.1 == body,
        match decoded {
            None => is_empty_frontmatter(r.0) && r.2@.len() == 0,
            Some(Ok(f)) => r.0 == f && r.2@.len() == 0,
            Some(Err(e)) => is_empty_frontmatter(r.0) && views(r.2@) == seq![msg_yaml_error(e@)],
        },
{
    match decoded {
        None => (SkillFrontmatter::empty(), body, Vec::new()),
        Some(Ok(f)) => (f, body, Vec::new()),
        Some(Err(e)) => {
            let mut warnings: Vec<String> = Vec::new();
            let mut m = String::from_str("frontmatter parse error: ");
            m.append(e.as_str());
            warnings.push(m);
            assert(views(warnings@) =~= seq![msg_yaml_error(e@)]);
            (SkillFrontmatter::empty(), body, warnings)
        },
    }
}

/// Whether a line, trimmed, is non-empty and not a Markdown heading.
pub open spec fn useful_line(line: Seq<char>) -> bool {
    trim(line).len() > 0 && trim(line)[0] != '#'
}

/// The first useful line of `ls`, trimmed.
pub open spec fn first_useful(ls: Seq<Seq<char>>) -> Option<Seq<char>>
    decreases ls.len(),
{
    if ls.len() == 0 {
        None
    } else if useful_line(ls[0]) {
        Some(trim(ls[0]))
    } else {
        first_useful(ls.drop_first())
    }
}

/// The first non-empty body line that is not a Markdown heading, trimmed.
pub fn first_body_line(body: &str) -> (r: Option<String>)
    ensures
        r is None <==> first_useful(lines(body@)) is None,
        r is Some ==> r->0@ == first_useful(lines(body@))->0,
{
    let chars = chars_of(body);
    let ls = lines_of(chars.as_slice());
    let ghost lv = lines(body@);
    assert(vviews(ls@).len() == ls@.len());
    let mut i: usize = 0;
    assert(lv.skip(0) == lv);
    while i < ls.len()
        invariant
            i <= ls@.len(),
            vviews(ls@) == lv,
            lv == lines(body@),
            first_useful(lv.skip(i as int)) == first_useful(lv),
        decreases ls@.len() - i,
    {
        let t = trim_chars(ls[i].as_slice());
        assert(lv[i as int] == ls@[i as int]@);
        assert(lv.skip(i as int)[0] == lv[i as int]);
        if t.len() > 0 && t[0] != '#' {
            return Some(string_of(t.as_slice()));
        }
        assert(lv.skip(i as int).drop_first() == lv.skip(i + 1));
        i += 1;
    }
    None
}

/// Keep `piece`, trimmed, unless it is blank.
pub open spec fn keep_piece(items: Seq<Seq<char>>, piece: Seq<char>) -> Seq<Seq<char>> {
    if trim(piece).len() > 0 {
        items.push(trim(piece))
    } else {
        items
    }
}

/// Kept items and the pending piece after reading `s` from left to right.
pub open spec fn tool_list_state(s: Seq<char>) -> (Seq<Seq<char>>, Seq<char>)
    decreases s.len(),
{
    if s.len() == 0 {
        (seq![], seq![])
    } else {
        let p = tool_list_state(s.drop_last());
        if s.last() == ',' {
            (keep_piece(p.0, p.1), seq![])
        } else {
            (p.0, p.1.push(s.last()))
        }
    }
}

/// The comma-separated items of `s`, trimmed, blank ones dropped.
pub open spec fn tool_list(s: Seq<char>) -> Seq<Seq<char>> {
    let p = tool_list_state(s);
    keep_piece(p.0, p.1)
}

/// Split a scalar tool list such as `Bash, Read` into its items.
pub fn split_tool_list(value: &str) -> (r: Vec<String>)
    ensures
        views(r@) == tool_list(value@),
{
    let chars = chars_of(value);
    let mut items: Vec<String> = Vec::new();
    let mut cur: Vec<char> = Vec::new();
    let mut i: usize = 0;
    while i < chars.len()
        invariant
            i <= chars@.len(),
            chars@ == value@,
            views(items@) == tool_list_state(chars@.take(i as int)).0,
            cur@ == tool_list_state(chars@.take(i as int)).1,
        decreases chars@.len() - i,
    {
        let c = chars[i];
        assert(chars@.take(i + 1).drop_last() == chars@.take(i as int));
        if c == ',' {
            let t = trim_chars(cur.as_slice());
            if t.len() > 0 {
                let ghost before = items@;
                items.push(string_of(t.as_slice()));
                assert(views(items@) =~= views(before).push(t@));
            }
            cur = Vec::new();
        } else {
            cur.push(c);
        }
        i += 1;
    }
    assert(chars@.take(chars@.len() as int) == chars@);
    let t = trim_chars(cur.as_slice());
    if t.len() > 0 {
        let ghost before = items@;
        items.push(string_of(t.as_slice()));
        assert(views(items@) =~= views(before).push(t@));
    }
    items
}

/// The value of the first entry with the given key.
pub open spec fn meta_lookup(entries: Seq<(String, MetaValue)>, key: Seq<char>) -> Option<MetaValue>
    decreases entries.len(),
{
    if entries.len() == 0 {
        None
    } else if entries[0].0@ == key {
        Some(entries[0].1)
    } else {
        meta_lookup(entries.drop_first(), key)
    }
}

/// The text of a string scalar.
pub open spec fn text_of(v: MetaValue) -> Option<Seq<char>> {
    match v {
        MetaValue::Text(s) => Some(s@),
        _ => None,
    }
}

/// The string scalars among `items`, in order.
pub open spec fn texts_in(items: Seq<MetaValue>) -> Seq<Seq<char>>
    decreases items.len(),
{
    if items.len() == 0 {
        seq![]
    } else {
        let rest = texts_in(items.drop_last());
        match items.last() {
            MetaValue::Text(s) => rest.push(s@),
            _ => rest,
        }
    }
}

/// The string items of a sequence value; nothing for any other value.
pub open spec fn string_items(v: MetaValue) -> Seq<Seq<char>> {
    match v {
        MetaValue::Sequence(items) => texts_in(items@),
        _ => seq![],
    }
}

/// The text stored under `key`, if it is a string.
pub open spec fn entry_text(entries: Seq<(String, MetaValue)>, key: Seq<char>) -> Option<Seq<char>> {
    match meta_lookup(entries, key) {
        Some(v) => text_of(v),
        None => None,
    }
}

/// The string items stored under `key`.
pub open spec fn entry_items(entries: Seq<(String, MetaValue)>, key: Seq<char>) -> Seq<Seq<char>> {
    match meta_lookup(entries, key) {
        Some(v) => string_items(v),
        None => seq![],
    }
}

/// The value under `key`, by reference.
pub fn lookup<'a>(entries: &'a Vec<(String, MetaValue)>, key: &str) -> (r: Option<&'a MetaValue>)
    ensures
        r is None <==> meta_lookup(entries@, key@) is None,
        r is Some ==> *r->0 == meta_lookup(entries@, key@)->0,
{
    let mut i: usize = 0;
    assert(entries@.skip(0) == entries@);
    while i < entries.len()
        invariant
            i <= entries@.len(),
            meta_lookup(entries@.skip(i as int), key@) == meta_lookup(entries@, key@),
        decreases entries@.len() - i,
    {
        assert(entries@.skip(i as int)[0] == entries@[i as int]);
        if crate::text::str_equal(entries[i].0.as_str(), key) {
            return Some(&entries[i].1);
        }
        assert(entries@.skip(i as int).drop_first() == entries@.skip(i + 1));
        i += 1;
    }
    None
}

/// The string under `key`, copied.
pub fn entry_string(entries: &Vec<(String, MetaValue)>, key: &str) -> (r: Option<String>)
    ensures
        r is None <==> entry_text(entries@, key@) is None,
        r is Some ==> r->0@ == entry_text(entries@, key@)->0,
{
    match lookup(entries, key) {
        Some(MetaValue::Text(s)) => Some(copy_string(s)),
        _ => None,
    }
}

/// The string items of a value (`as_sequence` then `as_str` on each item).
pub fn string_sequence(value: &MetaValue) -> (r: Vec<String>)
    ensures
        views(r@) == string_items(*value),
{
    let mut r: Vec<String> = Vec::new();
    match value {
        MetaValue::Sequence(items) => {
            let mut i: usize = 0;
            while i < items.len()
                invariant
                    i <= items@.len(),
                    views(r@) == texts_in(items@.take(i as int)),
                decreases items@.len() - i,
            {
                assert(items@.take(i + 1).drop_last() == items@.take(i as int));
                assert(items@.take(i + 1).last() == items@[i as int]);
                match &items[i] {
                    MetaValue::Text(s) => {
                        let ghost before = r@;
                        r.push(copy_string(s));
                        assert(views(r@) =~= views(before).push(s@));
                    },
                    _ => {},
                }
                i += 1;
            }
            assert(items@.take(items@.len() as int) == items@);
        },
        _ => {},
    }
    r
}

/// The string items under `key`.
pub fn entry_sequence(entries: &Vec<(String, MetaValue)>, key: &str) -> (r: Vec<String>)
    ensures
        views(r@) == entry_items(entries@, key@),
{
    match lookup(entries, key) {
        Some(v) => string_sequence(v),
        None => Vec::new(),
    }
}


/// Byte length of the UTF-8 encoding of `s` (`str::len`).
pub open spec fn byte_len(s: Seq<char>) -> nat {
    vstd::utf8::encode_utf8(s).len()
}

/// Warning for a document that could not be read or split.
pub open spec fn msg_unparsed(document: Seq<char>) -> Seq<char> {
    "could not parse "@ + document + " — exposing directory as placeholder"@
}

/// Warning for a missing name.
pub open spec fn msg_missing_name() -> Seq<char> {
    "frontmatter missing 'name'; using directory name"@
}

/// Warning for a name that differs from its directory.
pub open spec fn msg_name_mismatch(name: Seq<char>, dir: Seq<char>) -> Seq<char> {
    "frontmatter name '"@ + name + "' does not match directory '"@ + dir + "'"@
}

/// Warning for an overlong name.
pub open spec fn msg_name_long(len: nat) -> Seq<char> {
    "frontmatter name is "@ + crate::text::decimal(len) + " chars (max recommended: 64)"@
}

/// Warning for a missing description.
pub open spec fn msg_missing_description() -> Seq<char> {
    "frontmatter missing 'description'; falling back to first body line"@
}

/// Warning for an overlong description.
pub open spec fn msg_description_long(len: nat) -> Seq<char> {
    "description is "@ + crate::text::decimal(len) + " chars (max recommended: 1024)"@
}

/// Warning for a top-level key that belongs under `metadata`.
pub open spec fn msg_deprecated(key: Seq<char>) -> Seq<char> {
    "top-level '"@ + key + "' is deprecated; move under 'metadata."@ + key + "'"@
}

/// Description used when none is declared or found.
pub open spec fn no_description() -> Seq<char> {
    "No description provided"@
}

/// Warnings about the declared name.
pub open spec fn name_warnings(name: Seq<char>, dir: Seq<char>) -> Seq<Seq<char>> {
    if trim(name).len() == 0 {
        seq![msg_missing_name()]
    } else {
        (if name != dir {
            seq![msg_name_mismatch(name, dir)]
        } else {
            seq![]
        }) + (if byte_len(name) > MAX_NAME_LEN {
            seq![msg_name_long(byte_len(name))]
        } else {
            seq![]
        })
    }
}

/// Warnings about the declared description.
pub open spec fn description_warnings(description: Seq<char>) -> Seq<Seq<char>> {
    if trim(description).len() == 0 {
        seq![msg_missing_description()]
    } else if byte_len(description) > MAX_DESCRIPTION_LEN {
        seq![msg_description_long(byte_len(description))]
    } else {
        seq![]
    }
}

/// A text declared under `metadata`, else at top level (deprecated).
pub open spec fn declared_text(f: SkillFrontmatter, key: Seq<char>) -> Option<Seq<char>> {
    match entry_text(f.metadata@, key) {
        Some(v) => Some(v),
        None => entry_text(f.extra@, key),
    }
}

/// The deprecation warning for `key`, when only the top-level text is used.
pub open spec fn deprecated_warnings(f: SkillFrontmatter, key: Seq<char>) -> Seq<Seq<char>> {
    if entry_text(f.metadata@, key) is None && entry_text(f.extra@, key) is Some {
        seq![msg_deprecated(key)]
    } else {
        seq![]
    }
}

/// The deprecation warning for top-level tags.
pub open spec fn tag_warnings(f: SkillFrontmatter) -> Seq<Seq<char>> {
    if meta_lookup(f.extra@, "tags"@) is Some {
        seq![msg_deprecated("tags"@)]
    } else {
        seq![]
    }
}

/// The `metadata.hermes` mapping, when present.
pub open spec fn hermes_entries(f: SkillFrontmatter) -> Option<Seq<(String, MetaValue)>> {
    match meta_lookup(f.metadata@, "hermes"@) {
        Some(MetaValue::Mapping(m)) => Some(m@),
        _ => None,
    }
}

/// The string items under `key` of the hermes mapping.
pub open spec fn hermes_items(f: SkillFrontmatter, key: Seq<char>) -> Seq<Seq<char>> {
    match hermes_entries(f) {
        Some(m) => entry_items(m, key),
        None => seq![],
    }
}

/// Every tag a document declares: `metadata.tags`, top-level `tags`, `metadata.hermes.tags`.
pub open spec fn declared_tags(f: SkillFrontmatter) -> Seq<Seq<char>> {
    entry_items(f.metadata@, "tags"@) + entry_items(f.extra@, "tags"@) + hermes_items(f, "tags"@)
}

/// Every related skill a document declares.
pub open spec fn declared_related(f: SkillFrontmatter) -> Seq<Seq<char>> {
    entry_items(f.metadata@, "related_skills"@) + hermes_items(f, "related_skills"@)
}

/// The source ecosystem a document's metadata points to.
pub open spec fn source_format_of(f: SkillFrontmatter) -> Seq<char> {
    if hermes_entries(f) is Some || f.platforms@.len() > 0 {
        "hermes"@
    } else {
        "agentskills"@
    }
}

/// All warnings for a document, after those of parsing.
pub open spec fn document_warnings(f: SkillFrontmatter, dir: Seq<char>) -> Seq<Seq<char>> {
    name_warnings(f.name@, dir) + description_warnings(f.description@) + deprecated_warnings(
        f,
        "version"@,
    ) + deprecated_warnings(f, "author"@) + tag_warnings(f)
}

/// Whether `r` holds exactly the strings of `items`, sorted and without repetitions.
pub open spec fn sorted_set_of(r: Seq<String>, items: Seq<Seq<char>>) -> bool {
    &&& strictly_sorted(r)
    &&& forall|s: Seq<char>| views(r).contains(s) <==> items.contains(s)
}

/// The skill a parsed document describes.
pub open spec fn is_document_skill(
    r: Skill,
    f: SkillFrontmatter,
    body: Seq<char>,
    parse_warnings: Seq<Seq<char>>,
    document: Seq<char>,
    dir: Seq<char>,
    resources: Seq<String>,
    scope: SkillScope,
) -> bool {
    &&& r.name@ == (if trim(f.name@).len() == 0 {
        dir
    } else {
        f.name@
    })
    &&& r.dir_name@ == dir
    &&& r.description@ == (if trim(f.description@).len() == 0 {
        match first_useful(lines(body)) {
            Some(l) => l,
            None => no_description(),
        }
    } else {
        f.description@
    })
    &&& r.version@ == (match declared_text(f, "version"@) {
        Some(v) => v,
        None => seq![],
    })
    &&& (r.author is None <==> declared_text(f, "author"@) is None)
    &&& (r.author is Some ==> r.author->0@ == declared_text(f, "author"@)->0)
    &&& sorted_set_of(r.tags@, declared_tags(f))
    &&& views(r.platforms@) == views(f.platforms@)
    &&& sorted_set_of(r.related_skills@, declared_related(f))
    &&& r.source_format@ == source_format_of(f)
    &&& views(r.tools@) == views(f.allowed_tools@)
    &&& r.prompts@.len() == 0
    &&& r.location matches Some(l) && l@ == document
    &&& r.frontmatter == f
    &&& r.resources@ == resources
    &&& r.scope == scope
    &&& !r.legacy
    &&& views(r.warnings@) == parse_warnings + document_warnings(f, dir)
    &&& r.body matches Some(b) && b@ == body
}

fn deprecated_string(
    frontmatter: &SkillFrontmatter,
    key: &str,
    warnings: &mut Vec<String>,
) -> (r: Option<String>)
    ensures
        r is None <==> entry_text(frontmatter.extra@, key@) is None,
        r is Some ==> r->0@ == entry_text(frontmatter.extra@, key@)->0,
        views(final(warnings)@) == views(old(warnings)@) + (if entry_text(
            frontmatter.extra@,
            key@,
        ) is Some {
            seq![msg_deprecated(key@)]
        } else {
            seq![]
        }),
{
    let value = entry_string(&frontmatter.extra, key);
    if value.is_some() {
        let ghost before = warnings@;
        warnings.push(crate::text::concat5("top-level '", key, "' is deprecated; move under 'metadata.", key, "'"));
        assert(views(warnings@) =~= views(before).push(msg_deprecated(key@)));
    } else {
        assert(views(warnings@) =~= views(warnings@) + seq![]);
    }
    value
}

fn push_warning(warnings: &mut Vec<String>, w: String)
    ensures
        views(final(warnings)@) == views(old(warnings)@).push(w@),
{
    let ghost before = warnings@;
    warnings.push(w);
    assert(views(warnings@) =~= views(before).push(w@));
}

fn normalized_name(f: &SkillFrontmatter, dir_name: &str, warnings: &mut Vec<String>) -> (r: String)
    requires
        byte_len(f.name@) <= usize::MAX,
    ensures
        r@ == (if trim(f.name@).len() == 0 {
            dir_name@
        } else {
            f.name@
        }),
        views(final(warnings)@) == views(old(warnings)@) + name_warnings(f.name@, dir_name@),
{
    let ghost w0 = views(warnings@);
    let name_t = crate::text::trim_str(f.name.as_str());
    if name_t.as_str().is_empty() {
        push_warning(warnings, String::from_str("frontmatter missing 'name'; using directory name"));
        return String::from_str(dir_name);
    }
    let ghost wa = views(warnings@);
    if !crate::text::str_equal(f.name.as_str(), dir_name) {
        push_warning(
            warnings,
            crate::text::concat5(
                "frontmatter name '",
                f.name.as_str(),
                "' does not match directory '",
                dir_name,
                "'",
            ),
        );
        assert(views(warnings@) =~= wa + seq![msg_name_mismatch(f.name@, dir_name@)]);
    } else {
        assert(views(warnings@) =~= wa + seq![]);
    }
    let ghost wb = views(warnings@);
    let len = f.name.as_str().len();
    if len > MAX_NAME_LEN {
        let digits = crate::text::decimal_string(len as u64);
        push_warning(
            warnings,
            crate::text::concat3("frontmatter name is ", digits.as_str(), " chars (max recommended: 64)"),
        );
        assert(views(warnings@) =~= wb + seq![msg_name_long(byte_len(f.name@))]);
    } else {
        assert(views(warnings@) =~= wb + seq![]);
    }
    assert(views(warnings@) =~= w0 + name_warnings(f.name@, dir_name@));
    copy_string(&f.name)
}

fn normalized_description(f: &SkillFrontmatter, body: &str, warnings: &mut Vec<String>) -> (r: String)
    requires
        byte_len(f.description@) <= usize::MAX,
    ensures
        r@ == (if trim(f.description@).len() == 0 {
            match first_useful(lines(body@)) {
                Some(l) => l,
                None => no_description(),
            }
        } else {
            f.description@
        }),
        views(final(warnings)@) == views(old(warnings)@) + description_warnings(f.description@),
{
    let ghost w1 = views(warnings@);
    let desc_t = crate::text::trim_str(f.description.as_str());
    if desc_t.as_str().is_empty() {
        push_warning(
            warnings,
            String::from_str("frontmatter missing 'description'; falling back to first body line"),
        );
        return match first_body_line(body) {
            Some(line) => line,
            None => String::from_str("No description provided"),
        };
    }
    let len = f.description.as_str().len();
    if len > MAX_DESCRIPTION_LEN {
        let digits = crate::text::decimal_string(len as u64);
        push_warning(
            warnings,
            crate::text::concat3("description is ", digits.as_str(), " chars (max recommended: 1024)"),
        );
        assert(views(warnings@) =~= w1 + seq![msg_description_long(byte_len(f.description@))]);
    } else {
        assert(views(warnings@) =~= w1 + seq![]);
    }
    copy_string(&f.description)
}

fn declared_string(f: &SkillFrontmatter, key: &str, warnings: &mut Vec<String>) -> (r: Option<String>)
    ensures
        r is None <==> declared_text(*f, key@) is None,
        r is Some ==> r->0@ == declared_text(*f, key@)->0,
        views(final(warnings)@) == views(old(warnings)@) + deprecated_warnings(*f, key@),
{
    match entry_string(&f.metadata, key) {
        Some(v) => {
            assert(views(warnings@) =~= views(warnings@) + deprecated_warnings(*f, key@));
            Some(v)
        },
        None => deprecated_string(f, key, warnings),
    }
}

fn hermes_map(f: &SkillFrontmatter) -> (r: Option<&Vec<(String, MetaValue)>>)
    ensures
        r is None <==> hermes_entries(*f) is None,
        r is Some ==> r->0@ == hermes_entries(*f)->0,
{
    match lookup(&f.metadata, "hermes") {
        Some(MetaValue::Mapping(map)) => Some(map),
        _ => None,
    }
}

fn collect_tags(f: &SkillFrontmatter, warnings: &mut Vec<String>) -> (r: Vec<String>)
    ensures
        views(r@) == declared_tags(*f),
        views(final(warnings)@) == views(old(warnings)@) + tag_warnings(*f),
{
    let mut tags = entry_sequence(&f.metadata, "tags");
    match lookup(&f.extra, "tags") {
        Some(value) => {
            push_warning(
                warnings,
                crate::text::concat5("top-level '", "tags", "' is deprecated; move under 'metadata.", "tags", "'"),
            );
            let more = string_sequence(value);
            extend_strings(&mut tags, &more);
        },
        None => {
            assert(views(warnings@) =~= views(warnings@) + seq![]);
            assert(views(tags@) =~= views(tags@) + seq![]);
        },
    }
    match hermes_map(f) {
        Some(map) => {
            let more = entry_sequence(map, "tags");
            extend_strings(&mut tags, &more);
        },
        None => {
            assert(views(tags@) =~= views(tags@) + seq![]);
        },
    }
    tags
}

fn collect_related(f: &SkillFrontmatter) -> (r: Vec<String>)
    ensures
        views(r@) == declared_related(*f),
{
    let mut related = entry_sequence(&f.metadata, "related_skills");
    match hermes_map(f) {
        Some(map) => {
            let more = entry_sequence(map, "related_skills");
            extend_strings(&mut related, &more);
        },
        None => {
            assert(views(related@) =~= views(related@) + seq![]);
        },
    }
    related
}

/// Normalize one parsed document into skill metadata.
///
/// The name falls back to the directory name and the description to the
/// first useful body line; version and author come from `metadata`, else
/// from deprecated top-level keys; tags and related skills are merged from
/// every place they may be declared, sorted and deduplicated.
pub fn document_skill(
    frontmatter: SkillFrontmatter,
    body: String,
    parse_warnings: Vec<String>,
    document: &str,
    dir_name: &str,
    resources: Vec<String>,
    scope: SkillScope,
) -> (r: Skill)
    requires
        byte_len(frontmatter.name@) <= usize::MAX,
        byte_len(frontmatter.description@) <= usize::MAX,
    ensures
        is_document_skill(
            r,
            frontmatter,
            body@,
            views(parse_warnings@),
            document@,
            dir_name@,
            resources@,
            scope,
        ),
{
    let ghost f = frontmatter;
    let mut warnings = parse_warnings;
    let ghost w0 = views(warnings@);
    let name = normalized_name(&frontmatter, dir_name, &mut warnings);
    let description = normalized_description(&frontmatter, body.as_str(), &mut warnings);
    let version = match declared_string(&frontmatter, "version", &mut warnings) {
        Some(v) => v,
        None => String::new(),
    };
    let author = declared_string(&frontmatter, "author", &mut warnings);
    let tags = collect_tags(&frontmatter, &mut warnings);
    assert(views(warnings@) =~= w0 + document_warnings(f, dir_name@));
    let related = collect_related(&frontmatter);
    let tags = sort_dedup(tags);
    let related_skills = sort_dedup(related);
    let is_hermes = hermes_map(&frontmatter).is_some();
    let source_format = if is_hermes || frontmatter.platforms.len() > 0 {
        String::from_str("hermes")
    } else {
        String::from_str("agentskills")
    };
    let platforms = copy_strings(&frontmatter.platforms);
    let tools = copy_strings(&frontmatter.allowed_tools);
    Skill {
        name,
        dir_name: String::from_str(dir_name),
        description,
        version,
        author,
        tags,
        platforms,
        related_skills,
        source_format,
        tools,
        prompts: Vec::new(),
        location: Some(String::from_str(document)),
        frontmatter,
        resources,
        scope,
        legacy: false,
        warnings,
        body: Some(body),
    }
}

/// Load one document into skill metadata, given the outcome of reading and
/// splitting it: `None` when the document could not be read or split, in
/// which case the directory is exposed as a placeholder with empty metadata.
pub fn load_document(
    parsed: Option<(SkillFrontmatter, String, Vec<String>)>,
    document: &str,
    dir_name: &str,
    resources: Vec<String>,
    scope: SkillScope,
) -> (r: Skill)
    requires
        parsed matches Some(p) ==> byte_len(p.0.name@) <= usize::MAX && byte_len(
            p.0.description@,
        ) <= usize::MAX,
    ensures
        parsed matches Some(p) ==> is_document_skill(
            r,
            p.0,
            p.1@,
            views(p.2@),
            document@,
            dir_name@,
            resources@,
            scope,
        ),
        parsed is None ==> is_empty_frontmatter(r.frontmatter) && is_document_skill(
            r,
            r.frontmatter,
            seq![],
            seq![msg_unparsed(document@)],
            document@,
            dir_name@,
            resources@,
            scope,
        ),
{
    match parsed {
        Some((frontmatter, body, warnings)) => document_skill(
            frontmatter,
            body,
            warnings,
            document,
            dir_name,
            resources,
            scope,
        ),
        None => {
            let mut warnings: Vec<String> = Vec::new();
            warnings.push(
                crate::text::concat3(
                    "could not parse ",
                    document,
                    " — exposing directory as placeholder",
                ),
            );
            assert(views(warnings@) =~= seq![msg_unparsed(document@)]);
            let f = SkillFrontmatter::empty();
            proof {
                assert(f.name@ =~= seq![]);
                assert(f.description@ =~= seq![]);
                assert(vstd::utf8::encode_utf8(f.name@) =~= seq![]);
                assert(vstd::utf8::encode_utf8(f.description@) =~= seq![]);
            }
            document_skill(f, String::new(), warnings, document, dir_name, resources, scope)
        },
    }
}

/// Warning attached to every legacy manifest.
pub open spec fn msg_legacy() -> Seq<char> {
    "skill uses legacy skill.json; migrate to SKILL.md frontmatter"@
}

/// Warning for a legacy manifest that could not be read or decoded.
pub open spec fn msg_bad_manifest(path: Seq<char>) -> Seq<char> {
    "could not parse "@ + path + " as JSON; using directory name"@
}

/// The skill a legacy manifest describes; `None` stands for a manifest that
/// could not be read or decoded.
pub open spec fn is_legacy_skill(
    r: Skill,
    manifest: Option<LegacyManifest>,
    path: Seq<char>,
    dir: Seq<char>,
    resources: Seq<String>,
    scope: SkillScope,
) -> bool {
    &&& r.dir_name@ == dir
    &&& r.location matches Some(l) && l@ == path
    &&& r.resources@ == resources
    &&& r.scope == scope
    &&& r.legacy
    &&& r.source_format@ == "legacy"@
    &&& r.platforms@.len() == 0
    &&& r.related_skills@.len() == 0
    &&& is_empty_frontmatter(r.frontmatter)
    &&& r.body is None
    &&& match manifest {
        Some(m) => {
            &&& r.name@ == (if trim(m.name@).len() == 0 {
                dir
            } else {
                m.name@
            })
            &&& r.description@ == (if m.description@.len() == 0 {
                no_description()
            } else {
                m.description@
            })
            &&& r.version@ == m.version@
            &&& (r.author is None <==> m.author is None)
            &&& (r.author is Some ==> r.author->0@ == m.author->0@)
            &&& views(r.tags@) == views(m.tags@)
            &&& views(r.tools@) == views(m.tools@)
            &&& views(r.prompts@) == views(m.prompts@)
            &&& views(r.warnings@) == seq![msg_legacy()]
        },
        None => {
            &&& r.name@ == dir
            &&& r.description@ == no_description()
            &&& r.version@.len() == 0
            &&& r.author is None
            &&& r.tags@.len() == 0
            &&& r.tools@.len() == 0
            &&& r.prompts@.len() == 0
            &&& views(r.warnings@) == seq![msg_legacy(), msg_bad_manifest(path)]
        },
    }
}

/// Load one legacy JSON manifest into skill metadata, given the outcome of
/// reading and decoding it.
pub fn load_legacy(
    manifest: Option<LegacyManifest>,
    manifest_path: &str,
    dir_name: &str,
    resources: Vec<String>,
    scope: SkillScope,
) -> (r: Skill)
    ensures
        is_legacy_skill(r, manifest, manifest_path@, dir_name@, resources@, scope),
{
    let mut warnings: Vec<String> = Vec::new();
    warnings.push(String::from_str("skill uses legacy skill.json; migrate to SKILL.md frontmatter"));
    let m = match manifest {
        Some(m) => {
            assert(views(warnings@) =~= seq![msg_legacy()]);
            m
        },
        None => {
            warnings.push(
                crate::text::concat3("could not parse ", manifest_path, " as JSON; using directory name"),
            );
            assert(views(warnings@) =~= seq![msg_legacy(), msg_bad_manifest(manifest_path@)]);
            LegacyManifest {
                name: String::from_str(dir_name),
                description: String::new(),
                version: String::new(),
                author: None,
                tags: Vec::new(),
                tools: Vec::new(),
                prompts: Vec::new(),
            }
        },
    };
    let name_t = crate::text::trim_str(m.name.as_str());
    let name = if name_t.as_str().is_empty() {
        String::from_str(dir_name)
    } else {
        m.name
    };
    let description = if m.description.as_str().is_empty() {
        String::from_str("No description provided")
    } else {
        m.description
    };
    proof {
        if manifest is None {
            assert(trim(dir_name@).len() == 0 ==> name@ == dir_name@);
        }
    }
    Skill {
        name,
        dir_name: String::from_str(dir_name),
        description,
        version: m.version,
        author: m.author,
        tags: m.tags,
        platforms: Vec::new(),
        related_skills: Vec::new(),
        source_format: String::from_str("legacy"),
        tools: m.tools,
        prompts: m.prompts,
        location: Some(String::from_str(manifest_path)),
        frontmatter: SkillFrontmatter::empty(),
        resources,
        scope,
        legacy: true,
        warnings,
        body: None,
    }
}

/// The frontmatter ends at the first `---` line after the opening one: the
/// closing line trims to `---`, no line between the two fences does (so the
/// YAML text never holds a fence line), and later `---` lines, such as a
/// Markdown horizontal rule, stay in the body. Only one line closes it.
pub proof fn lemma_frontmatter_closes_at_first_fence(ls: Seq<Seq<char>>, k: int)
    requires
        closing_fence(ls, k),
    ensures
        1 <= k < ls.len(),
        trim(ls[k]) == seq!['-', '-', '-'],
        forall|j: int| 1 <= j < k ==> trim(#[trigger] ls[j]) != seq!['-', '-', '-'],
        forall|j: int| k < j < ls.len() ==> !closing_fence(ls, j),
{
    assert forall|j: int| k < j < ls.len() implies !closing_fence(ls, j) by {
        assert(is_fence(ls[k]));
    }
}

/// A frontmatter block is closed exactly when some line after the opening
/// one trims to `---`.
pub proof fn lemma_frontmatter_closed_iff_fence(ls: Seq<Seq<char>>)
    ensures
        has_closing_fence(ls) <==> exists|j: int| 1 <= j < ls.len() && trim(#[trigger] ls[j]) == seq!['-', '-', '-'],
{
    if exists|j: int| 1 <= j < ls.len() && trim(#[trigger] ls[j]) == seq!['-', '-', '-'] {
        let j = choose|j: int| 1 <= j < ls.len() && trim(#[trigger] ls[j]) == seq!['-', '-', '-'];
        lemma_first_fence(ls, j);
    }
}

proof fn lemma_first_fence(ls: Seq<Seq<char>>, j: int)
    requires
        1 <= j < ls.len(),
        is_fence(ls[j]),
    ensures
        has_closing_fence(ls),
    decreases j,
{
    if exists|i: int| 1 <= i < j && is_fence(#[trigger] ls[i]) {
        let i = choose|i: int| 1 <= i < j && is_fence(#[trigger] ls[i]);
        lemma_first_fence(ls, i);
    } else {
        assert(closing_fence(ls, j));
    }
}

/// The strings collected from a sequence value are exactly its string items,
/// in order: as many as it has string items, each of them among them, and
/// nothing else.
pub proof fn lemma_texts_are_the_string_items(items: Seq<MetaValue>)
    ensures
        texts_in(items).len() == items.filter(|m: MetaValue| m is Text).len(),
        forall|i: int| 0 <= i < items.len() && (#[trigger] items[i] matches MetaValue::Text(s)) ==> texts_in(items).contains(
            items[i]->Text_0@,
        ),
        forall|t: Seq<char>| texts_in(items).contains(t) ==> exists|i: int|
            0 <= i < items.len() && (#[trigger] items[i] matches MetaValue::Text(s) && s@ == t),
    decreases items.len(),
{
    reveal(Seq::filter);
    if items.len() > 0 {
        let init = items.drop_last();
        lemma_texts_are_the_string_items(init);
        let rest = texts_in(init);
        assert forall|i: int| 0 <= i < items.len() && (#[trigger] items[i] matches MetaValue::Text(s)) implies texts_in(items).contains(
            items[i]->Text_0@,
        ) by {
            if i < items.len() - 1 {
                assert(init[i] == items[i]);
                let k = choose|k: int| 0 <= k < rest.len() && rest[k] == init[i]->Text_0@;
                assert(texts_in(items)[k] == rest[k]);
            } else {
                assert(texts_in(items)[texts_in(items).len() - 1] == items[i]->Text_0@);
            }
        }
        assert forall|t: Seq<char>| texts_in(items).contains(t) implies exists|i: int|
            0 <= i < items.len() && (#[trigger] items[i] matches MetaValue::Text(s) && s@ == t) by {
            let k = choose|k: int| 0 <= k < texts_in(items).len() && texts_in(items)[k] == t;
            if k < rest.len() {
                assert(rest[k] == t);
                assert(rest.contains(t));
                let i = choose|i: int| 0 <= i < init.len() && (#[trigger] init[i] matches MetaValue::Text(s) && s@ == t);
                assert(items[i] == init[i]);
            } else {
                assert(items[items.len() - 1] matches MetaValue::Text(s) && s@ == t);
            }
        }
    }
}

/// Every string item of a document's `metadata.tags` sequence is among the
/// skill's tags.
pub proof fn lemma_declared_tags_are_kept(
    r: Skill,
    f: SkillFrontmatter,
    body: Seq<char>,
    parse_warnings: Seq<Seq<char>>,
    document: Seq<char>,
    dir: Seq<char>,
    resources: Seq<String>,
    scope: SkillScope,
    items: Vec<MetaValue>,
    i: int,
)
    requires
        is_document_skill(r, f, body, parse_warnings, document, dir, resources, scope),
        meta_lookup(f.metadata@, "tags"@) == Some(MetaValue::Sequence(items)),
        0 <= i < items@.len(),
        items@[i] is Text,
    ensures
        views(r.tags@).contains(items@[i]->Text_0@),
{
    lemma_texts_are_the_string_items(items@);
    let t = items@[i]->Text_0@;
    assert(texts_in(items@).contains(t));
    assert(entry_items(f.metadata@, "tags"@) == texts_in(items@));
    let d = declared_tags(f);
    let k = choose|k: int| 0 <= k < texts_in(items@).len() && texts_in(items@)[k] == t;
    assert(d[k] == t);
    assert(d.contains(t));
}

/// A legacy skill keeps the manifest's lists as they are: its tags are the
/// manifest's tags, its tools the manifest's tools and its prompts the
/// manifest's prompts.
pub proof fn lemma_legacy_keeps_lists(
    r: Skill,
    m: LegacyManifest,
    path: Seq<char>,
    dir: Seq<char>,
    resources: Seq<String>,
    scope: SkillScope,
)
    requires
        is_legacy_skill(r, Some(m), path, dir, resources, scope),
    ensures
        views(r.tags@) == views(m.tags@),
        views(r.tools@) == views(m.tools@),
        views(r.prompts@) == views(m.prompts@),
        r.version@ == m.version@,
{
}

} // verus!

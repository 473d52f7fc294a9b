//! Validation, digests and install bookkeeping for skills compiled into a host binary.

use vstd::prelude::*;
use sha2::Digest;
use crate::text::{chars_of, str_equal, views, concat3, concat5, trim};

verus! {

broadcast use vstd::string::group_string_axioms;

/// One UTF-8 file in a compile-time skill bundle.
#[derive(Debug, Clone, Copy)]
pub struct BundledFile {
    /// Slash-separated path relative to the bundle directory.
    pub path: &'static str,
    /// File contents.
    pub contents: &'static str,
}

/// One skill compiled into an embedding host.
#[derive(Debug, Clone, Copy)]
pub struct BundledSkill {
    /// Safe on-disk directory identifier.
    pub dir_name: &'static str,
    /// Files to materialize.
    pub files: &'static [BundledFile],
}

/// Error for an unsafe bundle directory name.
pub open spec fn msg_bad_dir(dir: Seq<char>) -> Seq<char> {
    "invalid bundled skill dir_name `"@ + dir + "`"@
}

/// Error for a bundle without files.
pub open spec fn msg_no_files(dir: Seq<char>) -> Seq<char> {
    "bundled skill `"@ + dir + "` has no files"@
}

/// Error for a bundle without a skill document.
pub open spec fn msg_no_document(dir: Seq<char>) -> Seq<char> {
    "bundled skill `"@ + dir + "` has no SKILL.md or WORKFLOW.md"@
}

/// Error for a file path that is not relative.
pub open spec fn msg_not_relative(dir: Seq<char>, path: Seq<char>) -> Seq<char> {
    "bundled skill `"@ + dir + "` file `"@ + path + "` is not relative"@
}

/// Error for a file path with an empty or hidden component.
pub open spec fn msg_unsafe_component(dir: Seq<char>, path: Seq<char>) -> Seq<char> {
    "bundled skill `"@ + dir + "` file `"@ + path + "` has an unsafe component"@
}

/// Error for a path listed twice.
pub open spec fn msg_duplicate(dir: Seq<char>, path: Seq<char>) -> Seq<char> {
    "bundled skill `"@ + dir + "` contains duplicate file `"@ + path + "`"@
}

/// Whether a bundle directory name could escape or hide its destination:
/// empty, hidden, or holding `/`, `\` or `:`.
pub open spec fn bad_dir_name(d: Seq<char>) -> bool {
    d.len() == 0 || d[0] == '.' || d.contains('/') || d.contains('\\') || d.contains(':')
}

/// Completed `/`-separated pieces and the pending piece after reading `p`;
/// empty pieces are kept.
pub open spec fn pieces_state(p: Seq<char>) -> (Seq<Seq<char>>, Seq<char>)
    decreases p.len(),
{
    if p.len() == 0 {
        (seq![], seq![])
    } else {
        let st = pieces_state(p.drop_last());
        if p.last() == '/' {
            (st.0.push(st.1), seq![])
        } else {
            (st.0, st.1.push(p.last()))
        }
    }
}

/// The `/`-separated pieces of `p` (`str::split('/')`), empty ones included.
pub open spec fn pieces(p: Seq<char>) -> Seq<Seq<char>> {
    pieces_state(p).0.push(pieces_state(p).1)
}

/// Whether a path component is empty or hidden.
pub open spec fn bad_piece(c: Seq<char>) -> bool {
    c.len() == 0 || c[0] == '.'
}

/// Why a bundled file path is refused, if it is.
pub open spec fn relative_path_error(dir: Seq<char>, path: Seq<char>) -> Option<Seq<char>> {
    if path.len() == 0 || path[0] == '/' || path[0] == '\\' || path.contains(':') || path.contains('\\') {
        Some(msg_not_relative(dir, path))
    } else if exists|k: int| 0 <= k < pieces(path).len() && bad_piece(#[trigger] pieces(path)[k]) {
        Some(msg_unsafe_component(dir, path))
    } else {
        None
    }
}

/// Why file `i` of a bundle is refused, if it is: an unsafe path, or a path
/// listed before.
pub open spec fn file_error(dir: Seq<char>, files: Seq<BundledFile>, i: int) -> Option<Seq<char>> {
    match relative_path_error(dir, files[i].path@) {
        Some(e) => Some(e),
        None => if exists|j: int| 0 <= j < i && (#[trigger] files[j]).path@ == files[i].path@ {
            Some(msg_duplicate(dir, files[i].path@))
        } else {
            None
        },
    }
}

/// The error of the first refused file, if any.
pub open spec fn files_error(dir: Seq<char>, files: Seq<BundledFile>) -> Option<Seq<char>>
    decreases files.len(),
{
    if files.len() == 0 {
        None
    } else {
        match files_error(dir, files.drop_last()) {
            Some(e) => Some(e),
            None => file_error(dir, files, files.len() - 1),
        }
    }
}

/// Whether the bundle holds a `SKILL.md` or `WORKFLOW.md` document.
pub open spec fn has_document(files: Seq<BundledFile>) -> bool {
    exists|i: int| 0 <= i < files.len() && (#[trigger] files[i].path@ == "SKILL.md"@ || files[i].path@ == "WORKFLOW.md"@)
}

/// Why a bundle is refused, if it is.
pub open spec fn bundle_error(b: BundledSkill) -> Option<Seq<char>> {
    if bad_dir_name(b.dir_name@) {
        Some(msg_bad_dir(b.dir_name@))
    } else if b.files@.len() == 0 {
        Some(msg_no_files(b.dir_name@))
    } else if !has_document(b.files@) {
        Some(msg_no_document(b.dir_name@))
    } else {
        files_error(b.dir_name@, b.files@)
    }
}

/// A bundle with a safe directory name and safe, distinct file paths is
/// valid exactly when it lists a `SKILL.md` or a `WORKFLOW.md`: either
/// document alone suffices.
pub proof fn lemma_either_document_validates(b: BundledSkill)
    requires
        !bad_dir_name(b.dir_name@),
        files_error(b.dir_name@, b.files@) is None,
    ensures
        (bundle_error(b) is None) <==> exists|i: int|
            0 <= i < b.files@.len() && ((#[trigger] b.files@[i]).path@ == "WORKFLOW.md"@
                || b.files@[i].path@ == "SKILL.md"@),
{
}

proof fn lemma_pieces_without_slash(p: Seq<char>)
    requires
        !p.contains('/'),
    ensures
        pieces_state(p) == (Seq::<Seq<char>>::empty(), p),
        pieces(p) == seq![p],
    decreases p.len(),
{
    if p.len() > 0 {
        assert(!p.drop_last().contains('/')) by {
            if p.drop_last().contains('/') {
                let k = choose|k: int| 0 <= k < p.drop_last().len() && p.drop_last()[k] == '/';
                assert(p[k] == '/');
            }
        }
        lemma_pieces_without_slash(p.drop_last());
        assert(p.last() != '/') by {
            assert(p[p.len() - 1] == p.last());
        }
        assert(p.drop_last().push(p.last()) =~= p);
    } else {
        assert(p =~= Seq::<char>::empty());
    }
    assert(pieces(p) =~= seq![p]);
}

/// A bundle whose only file is `WORKFLOW.md`, under a safe directory name,
/// is valid.
pub proof fn lemma_workflow_only_bundle_validates(b: BundledSkill)
    requires
        !bad_dir_name(b.dir_name@),
        b.files@.len() == 1,
        b.files@[0].path@ == "WORKFLOW.md"@,
    ensures
        bundle_error(b) is None,
{
    reveal_strlit("WORKFLOW.md");
    let p = b.files@[0].path@;
    assert(relative_path_error(b.dir_name@, p) is None) by {
        assert(!p.contains(':'));
        assert(!p.contains('\\'));
        assert(pieces(p) =~= seq![p]) by {
            lemma_pieces_without_slash(p);
        }
    }
    assert(b.files@.drop_last().len() == 0);
    assert(files_error(b.dir_name@, b.files@.drop_last()) is None);
    assert(file_error(b.dir_name@, b.files@, 0) is None);
    assert(files_error(b.dir_name@, b.files@) is None);
    assert(has_document(b.files@)) by {
        assert(b.files@[0].path@ == "WORKFLOW.md"@);
    }
}


pub(crate) fn pieces_of(p: &[char]) -> (r: Vec<Vec<char>>)
    ensures
        crate::text::vviews(r@) == pieces(p@),
{
    let mut done: Vec<Vec<char>> = Vec::new();
    let mut cur: Vec<char> = Vec::new();
    let mut i: usize = 0;
    while i < p.len()
        invariant
            i <= p@.len(),
            crate::text::vviews(done@) == pieces_state(p@.take(i as int)).0,
            cur@ == pieces_state(p@.take(i as int)).1,
        decreases p@.len() - i,
    {
        assert(p@.take(i + 1).drop_last() == p@.take(i as int));
        if p[i] == '/' {
            let ghost before = done@;
            done.push(cur);
            assert(crate::text::vviews(done@) =~= crate::text::vviews(before).push(pieces_state(p@.take(i as int)).1));
            cur = Vec::new();
        } else {
            cur.push(p[i]);
        }
        i += 1;
    }
    assert(p@.take(p@.len() as int) == p@);
    let ghost before = done@;
    done.push(cur);
    assert(crate::text::vviews(done@) =~= crate::text::vviews(before).push(pieces_state(p@).1));
    done
}

/// Check that a bundled file path is relative and every `/`-separated
/// component is non-empty and not hidden (which also rules out `.` and `..`).
#[verifier::loop_isolation(false)]
pub fn validate_relative_path(dir_name: &str, path: &str) -> (r: Result<(), String>)
    ensures
        match relative_path_error(dir_name@, path@) {
            None => r is Ok,
            Some(m) => r matches Err(e) && e@ == m,
        },
{
    let p = chars_of(path);
    if p.len() == 0 || p[0] == '/' || p[0] == '\\' || crate::text::chars_contain(p.as_slice(), ':')
        || crate::text::chars_contain(p.as_slice(), '\\') {
        return Err(concat5("bundled skill `", dir_name, "` file `", path, "` is not relative"));
    }
    let ps = pieces_of(p.as_slice());
    let ghost pv = pieces(path@);
    assert(crate::text::vviews(ps@).len() == ps@.len());
    let mut k: usize = 0;
    while k < ps.len()
        invariant
            crate::text::vviews(ps@) == pv,
            pv == pieces(path@),
            k <= ps@.len(),
            forall|j: int| 0 <= j < k ==> pv[j].len() > 0 && pv[j][0] != '.',
        decreases ps@.len() - k,
    {
        assert(pv[k as int] == ps@[k as int]@);
        if ps[k].len() == 0 || ps[k][0] == '.' {
            assert(bad_piece(pv[k as int]));
            return Err(concat5("bundled skill `", dir_name, "` file `", path, "` has an unsafe component"));
        }
        k += 1;
    }
    Ok(())
}

fn is_document_path(path: &str) -> (r: bool)
    ensures
        r == (path@ == "SKILL.md"@ || path@ == "WORKFLOW.md"@),
{
    str_equal(path, "SKILL.md") || str_equal(path, "WORKFLOW.md")
}

impl BundledSkill {
    /// Validate that materializing this bundle cannot escape its destination.
    ///
    /// The directory name must be non-empty, not hidden and free of `/`, `\`
    /// and `:`; the bundle must hold files, one of them `SKILL.md` or
    /// `WORKFLOW.md`; every file path must pass [`validate_relative_path`]
    /// and appear once.
    #[verifier::loop_isolation(false)]
    pub fn validate(self) -> (r: Result<(), String>)
        ensures
            match bundle_error(self) {
                None => r is Ok,
                Some(m) => r matches Err(e) && e@ == m,
            },
    {
        let d = chars_of(self.dir_name);
        if d.len() == 0 || d[0] == '.' || crate::text::chars_contain(d.as_slice(), '/')
            || crate::text::chars_contain(d.as_slice(), '\\') || crate::text::chars_contain(d.as_slice(), ':') {
            return Err(concat3("invalid bundled skill dir_name `", self.dir_name, "`"));
        }
        let files = self.files;
        if files.len() == 0 {
            return Err(concat3("bundled skill `", self.dir_name, "` has no files"));
        }
        let mut found = false;
        let mut i: usize = 0;
        while i < files.len()
            invariant
                i <= files@.len(),
                found ==> has_document(files@),
                !found ==> forall|j: int| 0 <= j < i ==> !(#[trigger] files@[j].path@ == "SKILL.md"@ || files@[j].path@ == "WORKFLOW.md"@),
            decreases files@.len() - i,
        {
            if is_document_path(files[i].path) {
                found = true;
            }
            i += 1;
        }
        if !found {
            return Err(concat3("bundled skill `", self.dir_name, "` has no SKILL.md or WORKFLOW.md"));
        }
        let ghost dir = self.dir_name@;
        let mut i: usize = 0;
        while i < files.len()
            invariant
                i <= files@.len(),
                dir == self.dir_name@,
                files@ == self.files@,
                files_error(dir, files@.take(i as int)) is None,
            decreases files@.len() - i,
        {
            let path = files[i].path;
            assert(files@.take(i + 1).drop_last() == files@.take(i as int));
            match validate_relative_path(self.dir_name, path) {
                Ok(()) => {},
                Err(e) => {
                    assert(file_error(dir, files@.take(i + 1), i as int) == relative_path_error(dir, path@));
                    proof {
                        lemma_files_error_prefix(dir, files@, i as int + 1);
                    }
                    return Err(e);
                },
            }
            let mut j: usize = 0;
            while j < i
                invariant
                    j <= i < files@.len(),
                    path == files@[i as int].path,
                    forall|k: int| 0 <= k < j ==> files@[k].path@ != path@,
                decreases i - j,
            {
                if str_equal(files[j].path, path) {
                    proof {
                        assert(files@.take(i + 1)[j as int] == files@[j as int]);
                        assert(file_error(dir, files@.take(i + 1), i as int) == Some(msg_duplicate(dir, path@)));
                        lemma_files_error_prefix(dir, files@, i as int + 1);
                    }
                    return Err(concat5("bundled skill `", self.dir_name, "` contains duplicate file `", path, "`"));
                }
                j += 1;
            }
            proof {
                assert forall|k: int| 0 <= k < i implies (#[trigger] files@.take(i + 1)[k]).path@ != path@ by {
                    assert(files@.take(i + 1)[k] == files@[k]);
                }
                assert(file_error(dir, files@.take(i + 1), i as int) is None);
            }
            i += 1;
        }
        assert(files@.take(files@.len() as int) == files@);
        Ok(())
    }
}

proof fn lemma_files_error_prefix(dir: Seq<char>, files: Seq<BundledFile>, k: int)
    requires
        0 <= k <= files.len(),
        files_error(dir, files.take(k)) is Some,
    ensures
        files_error(dir, files) == files_error(dir, files.take(k)),
    decreases files.len() - k,
{
    if k < files.len() {
        assert(files.take(k + 1).drop_last() == files.take(k));
        lemma_files_error_prefix(dir, files, k + 1);
    } else {
        assert(files.take(k) == files);
    }
}


/// SHA-256 of a byte sequence, as `sha2::Sha256` computes it.
pub uninterp spec fn sha256_of(data: Seq<u8>) -> Seq<u8>;

/// `sha2::Sha256::digest`: the 32-byte SHA-256 digest of `data`. Feeding
/// the same bytes through several `update` calls gives the same digest.
#[verifier::external_body]
fn sha256(data: &[u8]) -> (r: Vec<u8>)
    ensures
        r@ == sha256_of(data@),
        r@.len() == 32,
{
    sha2::Sha256::digest(data).to_vec()
}

/// The 8 little-endian bytes of `n` below `256^k`.
pub open spec fn le_bytes(n: nat, k: nat) -> Seq<u8>
    decreases k,
{
    if k == 0 {
        seq![]
    } else {
        seq![(n % 256) as u8] + le_bytes(n / 256, (k - 1) as nat)
    }
}

/// The bytes of a UTF-8 string.
pub open spec fn utf8(s: Seq<char>) -> Seq<u8> {
    vstd::utf8::encode_utf8(s)
}

/// The length-delimited encoding of a bundle's files that its digest covers:
/// for each file, the path length as 8 little-endian bytes, the path, the
/// contents length likewise, and the contents.
pub open spec fn digest_input(files: Seq<BundledFile>) -> Seq<u8>
    decreases files.len(),
{
    if files.len() == 0 {
        seq![]
    } else {
        let f = files.last();
        digest_input(files.drop_last()) + le_bytes(utf8(f.path@).len(), 8) + utf8(f.path@) + le_bytes(
            utf8(f.contents@).len(),
            8,
        ) + utf8(f.contents@)
    }
}

/// A hexadecimal digit in lower case.
pub open spec fn hex_digit(d: nat) -> char {
    if d < 10 {
        ((d + 48) as u32) as char
    } else {
        ((d + 87) as u32) as char
    }
}

/// Lower-case hexadecimal notation, two digits per byte.
pub open spec fn hex_lower(bytes: Seq<u8>) -> Seq<char>
    decreases bytes.len(),
{
    if bytes.len() == 0 {
        seq![]
    } else {
        hex_lower(bytes.drop_last()).push(hex_digit(bytes.last() as nat / 16)).push(
            hex_digit(bytes.last() as nat % 16),
        )
    }
}

/// The bytes that one file contributes to [`digest_input`].
pub open spec fn file_record(f: BundledFile) -> Seq<u8> {
    le_bytes(utf8(f.path@).len(), 8) + utf8(f.path@) + le_bytes(utf8(f.contents@).len(), 8) + utf8(
        f.contents@,
    )
}

/// `256^k`.
pub open spec fn pow256(k: nat) -> nat
    decreases k,
{
    if k == 0 {
        1
    } else {
        256 * pow256((k - 1) as nat)
    }
}

/// Whether every path and body of `files` is shorter than `2^64` bytes, so
/// that its length fits the 8-byte length prefix.
pub open spec fn lengths_fit(files: Seq<BundledFile>) -> bool {
    forall|i: int|
        0 <= i < files.len() ==> utf8((#[trigger] files[i]).path@).len() < pow256(8) && utf8(
            files[i].contents@,
        ).len() < pow256(8)
}

proof fn lemma_le_bytes_len(n: nat, k: nat)
    ensures
        le_bytes(n, k).len() == k,
    decreases k,
{
    if k > 0 {
        lemma_le_bytes_len(n / 256, (k - 1) as nat);
    }
}

proof fn lemma_le_bytes_injective(n: nat, m: nat, k: nat)
    requires
        n < pow256(k),
        m < pow256(k),
        le_bytes(n, k) == le_bytes(m, k),
    ensures
        n == m,
    decreases k,
{
    if k > 0 {
        let a = le_bytes(n, k);
        let b = le_bytes(m, k);
        assert(a[0] == b[0]);
        assert(a.drop_first() =~= le_bytes(n / 256, (k - 1) as nat));
        assert(b.drop_first() =~= le_bytes(m / 256, (k - 1) as nat));
        lemma_le_bytes_injective(n / 256, m / 256, (k - 1) as nat);
    }
}

proof fn lemma_record_len(f: BundledFile)
    ensures
        file_record(f).len() == 16 + utf8(f.path@).len() + utf8(f.contents@).len(),
{
    lemma_le_bytes_len(utf8(f.path@).len(), 8);
    lemma_le_bytes_len(utf8(f.contents@).len(), 8);
}

proof fn lemma_digest_input_len(files: Seq<BundledFile>)
    ensures
        digest_input(files).len() >= 16 * files.len(),
    decreases files.len(),
{
    if files.len() > 0 {
        lemma_digest_input_len(files.drop_last());
        lemma_record_len(files.last());
        assert(digest_input(files) == digest_input(files.drop_last()) + file_record(files.last()));
    }
}

proof fn lemma_digest_input_front(files: Seq<BundledFile>)
    requires
        files.len() > 0,
    ensures
        digest_input(files) == file_record(files[0]) + digest_input(files.drop_first()),
    decreases files.len(),
{
    assert(digest_input(files) == digest_input(files.drop_last()) + file_record(files.last()));
    if files.len() == 1 {
        assert(files.drop_last().len() == 0);
        assert(files.drop_first().len() == 0);
        assert(digest_input(files) =~= file_record(files[0]) + digest_input(files.drop_first()));
    } else {
        let init = files.drop_last();
        lemma_digest_input_front(init);
        assert(init.drop_first() =~= files.drop_first().drop_last());
        assert(files.drop_first().last() == files.last());
        assert(digest_input(files.drop_first()) == digest_input(files.drop_first().drop_last())
            + file_record(files.drop_first().last()));
        assert(digest_input(files) =~= file_record(files[0]) + digest_input(files.drop_first()));
    }
}

/// The digest input frames every file unambiguously: two file lists whose
/// digest inputs are equal have the same paths and contents, in the same
/// order. So a digest over it changes whenever a path or a body changes,
/// unless SHA-256 itself collides.
pub proof fn lemma_digest_input_determines_files(a: Seq<BundledFile>, b: Seq<BundledFile>)
    requires
        lengths_fit(a),
        lengths_fit(b),
        digest_input(a) == digest_input(b),
    ensures
        a.len() == b.len(),
        forall|i: int|
            0 <= i < a.len() ==> (#[trigger] a[i]).path@ == b[i].path@ && a[i].contents@
                == b[i].contents@,
    decreases a.len(),
{
    lemma_digest_input_len(a);
    lemma_digest_input_len(b);
    if a.len() == 0 || b.len() == 0 {
        return;
    }
    let fa = a[0];
    let fb = b[0];
    lemma_digest_input_front(a);
    lemma_digest_input_front(b);
    lemma_record_len(fa);
    lemma_record_len(fb);
    let d = digest_input(a);
    let pa = utf8(fa.path@);
    let pb = utf8(fb.path@);
    let ca = utf8(fa.contents@);
    let cb = utf8(fb.contents@);
    lemma_le_bytes_len(pa.len(), 8);
    lemma_le_bytes_len(pb.len(), 8);
    lemma_le_bytes_len(ca.len(), 8);
    lemma_le_bytes_len(cb.len(), 8);
    let ra = file_record(fa);
    let rb = file_record(fb);
    assert(d == ra + digest_input(a.drop_first()));
    assert(d == rb + digest_input(b.drop_first()));
    assert(d.subrange(0, 8) =~= le_bytes(pa.len(), 8));
    assert(d.subrange(0, 8) =~= le_bytes(pb.len(), 8));
    lemma_le_bytes_injective(pa.len(), pb.len(), 8);
    let n = pa.len() as int;
    assert(d.subrange(8, 8 + n) =~= pa);
    assert(d.subrange(8, 8 + n) =~= pb);
    assert(d.subrange(8 + n, 16 + n) =~= le_bytes(ca.len(), 8));
    assert(d.subrange(8 + n, 16 + n) =~= le_bytes(cb.len(), 8));
    lemma_le_bytes_injective(ca.len(), cb.len(), 8);
    let m = ca.len() as int;
    assert(d.subrange(16 + n, 16 + n + m) =~= ca);
    assert(d.subrange(16 + n, 16 + n + m) =~= cb);
    vstd::utf8::encode_utf8_decode_utf8(fa.path@);
    vstd::utf8::encode_utf8_decode_utf8(fb.path@);
    vstd::utf8::encode_utf8_decode_utf8(fa.contents@);
    vstd::utf8::encode_utf8_decode_utf8(fb.contents@);
    assert(d.subrange(16 + n + m, d.len() as int) =~= digest_input(a.drop_first()));
    assert(d.subrange(16 + n + m, d.len() as int) =~= digest_input(b.drop_first()));
    assert forall|i: int| 0 <= i < a.drop_first().len() implies utf8((#[trigger] a.drop_first()[i]).path@).len() < pow256(8) && utf8(a.drop_first()[i].contents@).len() < pow256(8) by {
        assert(a.drop_first()[i] == a[i + 1]);
    }
    assert forall|i: int| 0 <= i < b.drop_first().len() implies utf8((#[trigger] b.drop_first()[i]).path@).len() < pow256(8) && utf8(b.drop_first()[i].contents@).len() < pow256(8) by {
        assert(b.drop_first()[i] == b[i + 1]);
    }
    lemma_digest_input_determines_files(a.drop_first(), b.drop_first());
    assert forall|i: int| 0 <= i < a.len() implies (#[trigger] a[i]).path@ == b[i].path@ && a[i].contents@ == b[i].contents@ by {
        if i > 0 {
            assert(a[i] == a.drop_first()[i - 1]);
            assert(b[i] == b.drop_first()[i - 1]);
        }
    }
}

fn push_le64(out: &mut Vec<u8>, n: u64)
    ensures
        final(out)@ == old(out)@ + le_bytes(n as nat, 8),
{
    let ghost start = out@;
    let mut x = n;
    let mut i: u64 = 0;
    while i < 8
        invariant
            i <= 8,
            out@ + le_bytes(x as nat, (8 - i) as nat) == start + le_bytes(n as nat, 8),
        decreases 8 - i,
    {
        let ghost before = out@;
        assert(le_bytes(x as nat, (8 - i) as nat) == seq![(x % 256) as u8] + le_bytes(
            (x / 256) as nat,
            (8 - i - 1) as nat,
        ));
        out.push((x % 256) as u8);
        assert(out@ + le_bytes((x / 256) as nat, (8 - i - 1) as nat) =~= before + le_bytes(
            x as nat,
            (8 - i) as nat,
        ));
        x = x / 256;
        i += 1;
    }
    assert(out@ + le_bytes(x as nat, 0) =~= out@);
}

fn push_bytes(out: &mut Vec<u8>, bytes: &[u8])
    ensures
        final(out)@ == old(out)@ + bytes@,
{
    let ghost start = out@;
    let mut i: usize = 0;
    while i < bytes.len()
        invariant
            i <= bytes@.len(),
            out@ == start + bytes@.take(i as int),
        decreases bytes@.len() - i,
    {
        out.push(bytes[i]);
        i += 1;
        assert(out@ =~= start + bytes@.take(i as int));
    }
    assert(bytes@.take(bytes@.len() as int) == bytes@);
}

/// The bytes a bundle's digest covers (see [`digest_input`]).
pub fn digest_bytes(files: &[BundledFile]) -> (r: Vec<u8>)
    ensures
        r@ == digest_input(files@),
{
    let mut out: Vec<u8> = Vec::new();
    let mut i: usize = 0;
    while i < files.len()
        invariant
            i <= files@.len(),
            out@ == digest_input(files@.take(i as int)),
        decreases files@.len() - i,
    {
        let f = files[i];
        let path = f.path.as_bytes();
        let contents = f.contents.as_bytes();
        push_le64(&mut out, path.len() as u64);
        push_bytes(&mut out, path);
        push_le64(&mut out, contents.len() as u64);
        push_bytes(&mut out, contents);
        assert(files@.take(i + 1).drop_last() == files@.take(i as int));
        assert(files@.take(i + 1).last() == f);
        i += 1;
    }
    assert(files@.take(files@.len() as int) == files@);
    out
}

fn hex_char(d: u8) -> (c: char)
    requires
        d < 16,
    ensures
        c == hex_digit(d as nat),
{
    if d < 10 {
        (d + 48) as char
    } else {
        (d + 87) as char
    }
}

/// Lower-case hexadecimal notation of `bytes`, two digits per byte.
pub fn to_hex(bytes: &[u8]) -> (r: String)
    ensures
        r@ == hex_lower(bytes@),
{
    let mut out: Vec<char> = Vec::new();
    let mut i: usize = 0;
    while i < bytes.len()
        invariant
            i <= bytes@.len(),
            out@ == hex_lower(bytes@.take(i as int)),
        decreases bytes@.len() - i,
    {
        let b = bytes[i];
        out.push(hex_char(b / 16));
        out.push(hex_char(b % 16));
        assert(bytes@.take(i + 1).drop_last() == bytes@.take(i as int));
        assert(bytes@.take(i + 1).last() == b);
        i += 1;
    }
    assert(bytes@.take(bytes@.len() as int) == bytes@);
    crate::text::string_of(out.as_slice())
}

impl BundledSkill {
    /// A length-delimited SHA-256 digest over every file path and body, in
    /// lower-case hexadecimal.
    pub fn digest(self) -> (r: String)
        ensures
            r@ == hex_lower(sha256_of(digest_input(self.files@))),
            r@.len() == 64,
    {
        let data = digest_bytes(self.files);
        let hash = sha256(data.as_slice());
        let r = to_hex(hash.as_slice());
        proof {
            lemma_hex_len(hash@);
        }
        r
    }
}

proof fn lemma_hex_len(bytes: Seq<u8>)
    ensures
        hex_lower(bytes).len() == 2 * bytes.len(),
    decreases bytes.len(),
{
    if bytes.len() > 0 {
        lemma_hex_len(bytes.drop_last());
    }
}

/// Whether the digest recorded in a materialized bundle matches the expected
/// one, ignoring surrounding white space.
pub fn digest_matches(recorded: &str, digest: &str) -> (r: bool)
    ensures
        r == (trim(recorded@) == digest@),
{
    let t = crate::text::trim_str(recorded);
    str_equal(t.as_str(), digest)
}


/// Summary of a materialization pass.
#[derive(Debug)]
pub struct InstallReport {
    /// Bundle ids written or replaced.
    pub written: Vec<String>,
    /// Bundle ids already matching their compiled contents.
    pub unchanged: Vec<String>,
    /// Bundle ids that could not be materialized and their errors.
    pub failed: Vec<(String, String)>,
}

impl Default for InstallReport {
    fn default() -> (r: InstallReport)
        ensures
            r.written@.len() == 0,
            r.unchanged@.len() == 0,
            r.failed@.len() == 0,
    {
        InstallReport { written: Vec::new(), unchanged: Vec::new(), failed: Vec::new() }
    }
}

/// The pairs of a failure list, by view.
pub open spec fn pair_views(v: Seq<(String, String)>) -> Seq<(Seq<char>, Seq<char>)> {
    v.map_values(|p: (String, String)| (p.0@, p.1@))
}

/// The report that the outcomes of materializing `bundles`, in order, make:
/// ids written, ids unchanged, and ids with their errors.
pub open spec fn report_of(bundles: Seq<BundledSkill>, outcomes: Seq<Result<bool, String>>) -> (
    Seq<Seq<char>>,
    Seq<Seq<char>>,
    Seq<(Seq<char>, Seq<char>)>,
)
    decreases bundles.len(),
{
    if bundles.len() == 0 || outcomes.len() == 0 {
        (seq![], seq![], seq![])
    } else {
        let prev = report_of(bundles.drop_last(), outcomes.drop_last());
        let id = bundles.last().dir_name@;
        match outcomes.last() {
            Ok(true) => (prev.0.push(id), prev.1, prev.2),
            Ok(false) => (prev.0, prev.1.push(id), prev.2),
            Err(e) => (prev.0, prev.1, prev.2.push((id, e@))),
        }
    }
}

/// Materialize bundles one by one with `materialize`, which reports
/// `Ok(true)` for a bundle written or replaced, `Ok(false)` for one already
/// current, and an error otherwise; the report sorts the bundle ids by outcome.
pub fn install<F: Fn(BundledSkill) -> Result<bool, String>>(bundles: &[BundledSkill], materialize: F) -> (r: InstallReport)
    requires
        forall|i: int| 0 <= i < bundles@.len() ==> call_requires(materialize, (#[trigger] bundles@[i],)),
    ensures
        exists|outcomes: Seq<Result<bool, String>>|
            {
                &&& outcomes.len() == bundles@.len()
                &&& forall|i: int| 0 <= i < bundles@.len() ==> call_ensures(materialize, (#[trigger] bundles@[i],), outcomes[i])
                &&& report_of(bundles@, outcomes) == (views(r.written@), views(r.unchanged@), pair_views(r.failed@))
            },
{
    let mut report = InstallReport::default();
    let ghost mut outcomes: Seq<Result<bool, String>> = seq![];
    let mut i: usize = 0;
    assert(views(report.written@) =~= seq![]);
    assert(views(report.unchanged@) =~= seq![]);
    assert(pair_views(report.failed@) =~= seq![]);
    while i < bundles.len()
        invariant
            i <= bundles@.len(),
            forall|k: int| 0 <= k < bundles@.len() ==> call_requires(materialize, (#[trigger] bundles@[k],)),
            outcomes.len() == i,
            forall|k: int| 0 <= k < i ==> call_ensures(materialize, (#[trigger] bundles@[k],), outcomes[k]),
            report_of(bundles@.take(i as int), outcomes) == (views(report.written@), views(report.unchanged@), pair_views(report.failed@)),
        decreases bundles@.len() - i,
    {
        let bundle = bundles[i];
        let outcome = materialize(bundle);
        let ghost prev_outcomes = outcomes;
        proof {
            outcomes = outcomes.push(outcome);
            assert(bundles@.take(i + 1).drop_last() == bundles@.take(i as int));
            assert(outcomes.drop_last() == prev_outcomes);
        }
        let id = String::from_str(bundle.dir_name);
        match outcome {
            Ok(true) => {
                let ghost before = report.written@;
                report.written.push(id);
                assert(views(report.written@) =~= views(before).push(bundle.dir_name@));
            },
            Ok(false) => {
                let ghost before = report.unchanged@;
                report.unchanged.push(id);
                assert(views(report.unchanged@) =~= views(before).push(bundle.dir_name@));
            },
            Err(error) => {
                let ghost before = report.failed@;
                let ghost ev = error@;
                report.failed.push((id, error));
                assert(pair_views(report.failed@) =~= pair_views(before).push((bundle.dir_name@, ev)));
            },
        }
        i += 1;
    }
    assert(bundles@.take(bundles@.len() as int) == bundles@);
    report
}

/// Name of the staging directory for a bundle: `.{dir}.tmp-{pid}-{nonce}`.
pub open spec fn staging_name_of(dir: Seq<char>, pid: nat, nonce: nat) -> Seq<char> {
    "."@ + dir + ".tmp-"@ + crate::text::decimal(pid) + "-"@ + crate::text::decimal(nonce)
}

/// Name of the backup directory for a bundle: `.{dir}.backup-{pid}-{nonce}`.
pub open spec fn backup_name_of(dir: Seq<char>, pid: nat, nonce: nat) -> Seq<char> {
    "."@ + dir + ".backup-"@ + crate::text::decimal(pid) + "-"@ + crate::text::decimal(nonce)
}

/// The staging directory name for process `pid` and counter value `nonce`.
pub fn staging_name(dir_name: &str, pid: u32, nonce: u64) -> (r: String)
    ensures
        r@ == staging_name_of(dir_name@, pid as nat, nonce as nat),
{
    let p = crate::text::decimal_string(pid as u64);
    let n = crate::text::decimal_string(nonce);
    concat5(".", dir_name, ".tmp-", p.as_str(), "-").concat(n.as_str())
}

/// The backup directory name for process `pid` and counter value `nonce`.
pub fn backup_name(dir_name: &str, pid: u32, nonce: u64) -> (r: String)
    ensures
        r@ == backup_name_of(dir_name@, pid as nat, nonce as nat),
{
    let p = crate::text::decimal_string(pid as u64);
    let n = crate::text::decimal_string(nonce);
    concat5(".", dir_name, ".backup-", p.as_str(), "-").concat(n.as_str())
}

/// What a directory walk found at one path.
#[derive(Debug, Clone, Copy, PartialEq, Eq, Structural)]
pub enum EntryKind {
    /// A real directory.
    Dir,
    /// A regular file.
    File,
    /// A symlink or any other kind of entry.
    Other,
}

/// One entry of a materialized bundle tree, relative to the bundle directory.
#[derive(Debug)]
pub struct TreeEntry {
    /// Path relative to the bundle directory, with the platform's separators.
    pub relative: String,
    /// Kind of the entry.
    pub kind: EntryKind,
}

/// `p` with every `\` turned into `/`.
pub open spec fn forward_slashes(p: Seq<char>) -> Seq<char> {
    p.map_values(|c: char| if c == '\\' { '/' } else { c })
}

/// Name of the digest file kept beside a materialized bundle.
pub open spec fn digest_file_name() -> Seq<char> {
    ".digest"@
}

/// File, inside a materialized bundle, that records the bundle's digest.
pub const DIGEST_FILE: &'static str = ".digest";

/// Whether a tree entry may exist in a materialized bundle: a real
/// directory that holds a file the bundle lists, the digest file, or a file
/// the bundle lists.
pub open spec fn expected_entry(e: TreeEntry, files: Seq<BundledFile>) -> bool {
    ||| e.kind == EntryKind::Dir && exists|i: int|
        0 <= i < files.len() && crate::text::has_prefix(
            (#[trigger] files[i]).path@,
            forward_slashes(e.relative@).push('/'),
        )
    ||| e.kind == EntryKind::File && (forward_slashes(e.relative@) == digest_file_name() || exists|i: int|
        0 <= i < files.len() && (#[trigger] files[i]).path@ == forward_slashes(e.relative@))
}

/// Whether a materialized directory exactly matches a compiled bundle, given
/// what the filesystem shows: whether the directory is a real directory, the
/// bytes of each bundle file (`None` when it is missing, not a regular file,
/// a symlink, unreadable or longer than expected), and every entry of the
/// tree (`None` when the walk failed).
pub open spec fn materialization_ok(
    b: BundledSkill,
    dir_is_real: bool,
    contents: Seq<Option<Vec<u8>>>,
    tree: Option<Vec<TreeEntry>>,
) -> bool {
    &&& dir_is_real
    &&& bundle_error(b) is None
    &&& contents.len() == b.files@.len()
    &&& forall|i: int| 0 <= i < contents.len() ==> (#[trigger] contents[i] matches Some(bytes) && bytes@ == utf8(b.files@[i].contents@))
    &&& tree matches Some(entries) && forall|j: int| 0 <= j < entries@.len() ==> expected_entry(#[trigger] entries@[j], b.files@)
}

/// A materialization is stale as soon as its tree holds anything the bundle
/// does not account for: a file it does not list (other than the digest
/// file), a directory that holds none of its files, or a symlink or special
/// file; and as soon as a listed file is missing or differs.
pub proof fn lemma_extra_or_changed_is_stale(
    b: BundledSkill,
    dir_is_real: bool,
    contents: Seq<Option<Vec<u8>>>,
    entries: Vec<TreeEntry>,
)
    requires
        (exists|j: int| 0 <= j < entries@.len() && !expected_entry(#[trigger] entries@[j], b.files@))
            || (contents.len() == b.files@.len() && exists|i: int|
            0 <= i < contents.len() && !(#[trigger] contents[i] matches Some(bytes) && bytes@ == utf8(
                b.files@[i].contents@,
            ))),
    ensures
        !materialization_ok(b, dir_is_real, contents, Some(entries)),
{
    if exists|j: int| 0 <= j < entries@.len() && !expected_entry(#[trigger] entries@[j], b.files@) {
        let j = choose|j: int| 0 <= j < entries@.len() && !expected_entry(#[trigger] entries@[j], b.files@);
        let tree = Some(entries);
        if materialization_ok(b, dir_is_real, contents, tree) {
            assert(tree->0 == entries);
            assert(expected_entry(entries@[j], b.files@));
        }
    } else {
        let i = choose|i: int|
            0 <= i < contents.len() && !(#[trigger] contents[i] matches Some(bytes) && bytes@ == utf8(
                b.files@[i].contents@,
            ));
        assert(!(contents[i] matches Some(bytes) && bytes@ == utf8(b.files@[i].contents@)));
        assert(!materialization_ok(b, dir_is_real, contents, Some(entries)));
    }
}

fn slashed(p: &str) -> (r: Vec<char>)
    ensures
        r@ == forward_slashes(p@),
{
    let v = chars_of(p);
    let mut r: Vec<char> = Vec::new();
    let mut i: usize = 0;
    while i < v.len()
        invariant
            i <= v@.len(),
            v@ == p@,
            r@ == forward_slashes(v@.take(i as int)),
        decreases v@.len() - i,
    {
        r.push(if v[i] == '\\' { '/' } else { v[i] });
        i += 1;
        assert(r@ =~= forward_slashes(v@.take(i as int)));
    }
    assert(v@.take(v@.len() as int) == v@);
    r
}

fn bytes_equal(a: &[u8], b: &[u8]) -> (r: bool)
    ensures
        r == (a@ == b@),
{
    if a.len() != b.len() {
        return false;
    }
    let mut i: usize = 0;
    while i < a.len()
        invariant
            a@.len() == b@.len(),
            i <= a@.len(),
            forall|k: int| 0 <= k < i ==> a@[k] == b@[k],
        decreases a@.len() - i,
    {
        if a[i] != b[i] {
            return false;
        }
        i += 1;
    }
    assert(a@ =~= b@);
    true
}

fn entry_expected(e: &TreeEntry, files: &[BundledFile]) -> (r: bool)
    ensures
        r == expected_entry(*e, files@),
{
    if e.kind == EntryKind::Other {
        return false;
    }
    let rel = slashed(e.relative.as_str());
    if e.kind == EntryKind::Dir {
        let mut dir = rel;
        dir.push('/');
        let mut i: usize = 0;
        while i < files.len()
            invariant
                i <= files@.len(),
                dir@ == forward_slashes(e.relative@).push('/'),
                e.kind == EntryKind::Dir,
                forall|k: int| 0 <= k < i ==> !crate::text::has_prefix((#[trigger] files@[k]).path@, dir@),
            decreases files@.len() - i,
        {
            let pc = chars_of(files[i].path);
            if crate::text::chars_start_with(pc.as_slice(), dir.as_slice()) {
                return true;
            }
            i += 1;
        }
        return false;
    }
    let digest_name = chars_of(".digest");
    if crate::text::chars_equal(rel.as_slice(), digest_name.as_slice()) {
        return true;
    }
    let mut i: usize = 0;
    while i < files.len()
        invariant
            i <= files@.len(),
            rel@ == forward_slashes(e.relative@),
            e.kind == EntryKind::File,
            forall|k: int| 0 <= k < i ==> (#[trigger] files@[k]).path@ != rel@,
        decreases files@.len() - i,
    {
        let pc = chars_of(files[i].path);
        if crate::text::chars_equal(pc.as_slice(), rel.as_slice()) {
            return true;
        }
        i += 1;
    }
    false
}

/// Decide whether a materialized directory exactly matches a compiled bundle
/// (see [`materialization_ok`]).
#[verifier::loop_isolation(false)]
pub fn materialization_matches(
    bundle: BundledSkill,
    dir_is_real: bool,
    contents: &Vec<Option<Vec<u8>>>,
    tree: &Option<Vec<TreeEntry>>,
) -> (r: bool)
    ensures
        r == materialization_ok(bundle, dir_is_real, contents@, *tree),
{
    if !dir_is_real || bundle.validate().is_err() {
        return false;
    }
    let files = bundle.files;
    if contents.len() != files.len() {
        return false;
    }
    let mut i: usize = 0;
    while i < files.len()
        invariant
            i <= files@.len(),
            files@ == bundle.files@,
            contents@.len() == files@.len(),
            forall|k: int| 0 <= k < i ==> (#[trigger] contents@[k] matches Some(bytes) && bytes@ == utf8(files@[k].contents@)),
        decreases files@.len() - i,
    {
        match &contents[i] {
            Some(bytes) => {
                if !bytes_equal(bytes.as_slice(), files[i].contents.as_bytes()) {
                    return false;
                }
            },
            None => {
                return false;
            },
        }
        i += 1;
    }
    match tree {
        None => false,
        Some(entries) => {
            let mut j: usize = 0;
            while j < entries.len()
                invariant
                    j <= entries@.len(),
                    files@ == bundle.files@,
                    forall|k: int| 0 <= k < j ==> expected_entry(#[trigger] entries@[k], files@),
                decreases entries@.len() - j,
            {
                if !entry_expected(&entries[j], files) {
                    return false;
                }
                j += 1;
            }
            true
        },
    }
}


/// A valid bundle cannot escape its destination: its directory name is
/// non-empty, not hidden and free of `/`, `\` and `:`, and every file path is
/// non-empty, relative, free of `\` and `:`, and made of non-empty,
/// non-hidden components (so no `.` or `..`).
pub proof fn lemma_valid_bundle_stays_inside(b: BundledSkill)
    requires
        bundle_error(b) is None,
    ensures
        !bad_dir_name(b.dir_name@),
        forall|i: int| 0 <= i < b.files@.len() ==> {
            let p = (#[trigger] b.files@[i]).path@;
            &&& p.len() > 0
            &&& p[0] != '/'
            &&& !p.contains('\\')
            &&& !p.contains(':')
            &&& forall|k: int| 0 <= k < pieces(p).len() ==> !bad_piece(#[trigger] pieces(p)[k])
        },
        forall|i: int, j: int| 0 <= i < j < b.files@.len() ==> (#[trigger] b.files@[i]).path@ != (#[trigger] b.files@[j]).path@,
{
    assert forall|i: int| 0 <= i < b.files@.len() implies {
        let p = (#[trigger] b.files@[i]).path@;
        &&& p.len() > 0
        &&& p[0] != '/'
        &&& !p.contains('\\')
        &&& !p.contains(':')
        &&& forall|k: int| 0 <= k < pieces(p).len() ==> !bad_piece(#[trigger] pieces(p)[k])
    } by {
        lemma_files_error_none(b.dir_name@, b.files@, i);
        assert(relative_path_error(b.dir_name@, b.files@[i].path@) is None);
    }
    assert forall|i: int, j: int| 0 <= i < j < b.files@.len() implies (#[trigger] b.files@[i]).path@ != (#[trigger] b.files@[j]).path@ by {
        assert(file_error(b.dir_name@, b.files@, j) is None) by {
            lemma_files_error_none(b.dir_name@, b.files@, j);
        }
    }
}

proof fn lemma_files_error_none(dir: Seq<char>, files: Seq<BundledFile>, i: int)
    requires
        files_error(dir, files) is None,
        0 <= i < files.len(),
    ensures
        file_error(dir, files, i) is None,
    decreases files.len(),
{
    let prev = files.drop_last();
    assert(files_error(dir, prev) is None);
    if i < files.len() - 1 {
        lemma_files_error_none(dir, prev, i);
        assert(prev[i] == files[i]);
        assert forall|j: int| 0 <= j < i implies (#[trigger] prev[j]) == files[j] by {}
        if exists|j: int| 0 <= j < i && (#[trigger] files[j]).path@ == files[i].path@ {
            let j = choose|j: int| 0 <= j < i && (#[trigger] files[j]).path@ == files[i].path@;
            assert(prev[j].path@ == prev[i].path@);
        }
    }
}

/// Staging and backup directories never take the name of a valid bundle:
/// they are hidden, and valid bundle names are not.
pub proof fn lemma_staging_names_are_apart(b: BundledSkill, other: Seq<char>, pid: nat, nonce: nat)
    requires
        bundle_error(b) is None,
    ensures
        staging_name_of(other, pid, nonce) != b.dir_name@,
        backup_name_of(other, pid, nonce) != b.dir_name@,
{
    reveal_strlit(".");
    assert(staging_name_of(other, pid, nonce)[0] == '.');
    assert(backup_name_of(other, pid, nonce)[0] == '.');
}

/// Every bundle of an install pass is reported exactly once: the written,
/// unchanged and failed lists together are as long as the bundle list.
pub proof fn lemma_report_counts_every_bundle(bundles: Seq<BundledSkill>, outcomes: Seq<Result<bool, String>>)
    requires
        outcomes.len() == bundles.len(),
    ensures
        report_of(bundles, outcomes).0.len() + report_of(bundles, outcomes).1.len() + report_of(
            bundles,
            outcomes,
        ).2.len() == bundles.len(),
    decreases bundles.len(),
{
    if bundles.len() > 0 {
        lemma_report_counts_every_bundle(bundles.drop_last(), outcomes.drop_last());
    }
}

} // verus!

//! Patch files: a header that records the commit a patch was made from,
//! followed by the diff. The header is five lines and the message:
//!
//! ```text
//! commit <object id>
//! parent <object id>
//! author <signature>
//! committer <signature>
//! message <number of characters of the message>
//! <the message>
//! ```
//!
//! with a newline after the message, then the diff.

use vstd::prelude::*;

use crate::git::{
    canonical_object_id, diff_from_patch, is_printed_object_id, lemma_printed_object_id,
    object_id_text, parses_as_diff, PatchDiff,
};
use crate::signature::{
    all_ascii_digits, digits_value, lacks_open_bracket, lemma_decimal_digits,
    lemma_digits_value_grows, lemma_digits_value_step, lemma_signature_roundtrip,
    lemma_signature_text_one_line, no_newline, signature_outcome, signature_text, SignatureData,
    SignatureError,
};
use crate::text::{
    chars_of, decimal, push_char, push_decimal, push_range, push_str, string_of_range,
    text_of_bytes,
};

verus! {

/// `s[b]` is the first newline at or after position `a`.
pub open spec fn is_line_end(s: Seq<char>, a: int, b: int) -> bool {
    &&& 0 <= a <= b < s.len()
    &&& s[b] == '\n'
    &&& forall|k: int| a <= k < b ==> s[k] != '\n'
}

/// The position of the first newline at or after `a`, if any.
#[verifier::opaque]
pub open spec fn line_end(s: Seq<char>, a: int) -> Option<int> {
    if exists|b: int| is_line_end(s, a, b) {
        Some(choose|b: int| is_line_end(s, a, b))
    } else {
        None
    }
}

/// The line that starts at `pos` with the word `kw`: the bounds of the rest
/// of the line, up to (not including) its newline.
pub open spec fn keyword_line(s: Seq<char>, pos: int, kw: Seq<char>) -> Option<(int, int)> {
    let a = pos + kw.len();
    if 0 <= pos && a <= s.len() && s.subrange(pos, a) == kw {
        match line_end(s, a) {
            Some(b) => Some((a, b)),
            None => None,
        }
    } else {
        None
    }
}

/// The bounds of the fields of a patch header: commit id, parent id,
/// author, committer and message, each as a start and an end position.
pub open spec fn header_bounds(s: Seq<char>) -> Option<(int, int, int, int, int, int, int, int, int, int)> {
    match keyword_line(s, 0, "commit "@) {
        None => None,
        Some((a1, b1)) => match keyword_line(s, b1 + 1, "parent "@) {
            None => None,
            Some((a2, b2)) => match keyword_line(s, b2 + 1, "author "@) {
                None => None,
                Some((a3, b3)) => match keyword_line(s, b3 + 1, "committer "@) {
                    None => None,
                    Some((a4, b4)) => match keyword_line(s, b4 + 1, "message "@) {
                        None => None,
                        Some((a5, b5)) => {
                            let count = s.subrange(a5, b5);
                            let n = digits_value(count);
                            if count.len() > 0 && all_ascii_digits(count) && b5 + 1 + n < s.len()
                                && s[b5 + 1 + n] == '\n' {
                                Some((a1, b1, a2, b2, a3, b3, a4, b4, b5 + 1, b5 + 1 + n))
                            } else {
                                None
                            }
                        },
                    },
                },
            },
        },
    }
}

/// The fields of a patch header: commit id, parent id, author, committer
/// (as written) and the message.
pub open spec fn patch_header(s: Seq<char>) -> Option<
    (Seq<char>, Seq<char>, Seq<char>, Seq<char>, Seq<char>),
> {
    match header_bounds(s) {
        None => None,
        Some((a1, b1, a2, b2, a3, b3, a4, b4, a5, b5)) => Some(
            (
                s.subrange(a1, b1),
                s.subrange(a2, b2),
                s.subrange(a3, b3),
                s.subrange(a4, b4),
                s.subrange(a5, b5),
            ),
        ),
    }
}

proof fn lemma_line_end_unique(s: Seq<char>, a: int, b1: int, b2: int)
    requires
        is_line_end(s, a, b1),
        is_line_end(s, a, b2),
    ensures
        b1 == b2,
{
    if b1 < b2 {
        assert(s[b1] != '\n');
    } else if b2 < b1 {
        assert(s[b2] != '\n');
    }
}

/// Reads the line that starts at `pos` with the word `kw`.
fn read_keyword_line(v: &Vec<char>, pos: usize, kw: &str) -> (res: Option<(usize, usize)>)
    requires
        pos <= v@.len(),
    ensures
        match keyword_line(v@, pos as int, kw@) {
            Some((a, b)) => res == Some((a as usize, b as usize)),
            None => res is None,
        },
        res matches Some((a, b)) ==> pos + kw@.len() == a <= b < v@.len() && v@[b as int] == '\n'
            && keyword_line(v@, pos as int, kw@) == Some((a as int, b as int)),
{
    let k = chars_of(kw);
    let n = v.len();
    if k.len() > n - pos {
        return None;
    }
    let a = pos + k.len();
    let mut i: usize = 0;
    while i < k.len()
        invariant
            k@ == kw@,
            n == v@.len(),
            a == pos + k@.len(),
            a <= n,
            0 <= i <= k@.len(),
            forall|j: int| 0 <= j < i ==> v@[pos + j] == k@[j],
        decreases k@.len() - i,
    {
        if v[pos + i] != k[i] {
            assert(v@.subrange(pos as int, a as int)[i as int] == v@[pos + i]);
            return None;
        }
        i = i + 1;
    }
    assert(v@.subrange(pos as int, a as int) =~= kw@);
    let mut b = a;
    while b < n && v[b] != '\n'
        invariant
            a <= b <= n,
            n == v@.len(),
            forall|j: int| a <= j < b ==> v@[j] != '\n',
        decreases n - b,
    {
        b = b + 1;
    }
    if b == n {
        proof {
            reveal(line_end);
            assert forall|c: int| !is_line_end(v@, a as int, c) by {
                if is_line_end(v@, a as int, c) {
                    assert(v@[c] != '\n');
                }
            }
        }
        return None;
    }
    proof {
        reveal(line_end);
        assert(is_line_end(v@, a as int, b as int));
        let c = choose|c: int| is_line_end(v@, a as int, c);
        lemma_line_end_unique(v@, a as int, b as int, c);
    }
    Some((a, b))
}

/// Reads the digits `v[a..b]` as a count; `None` when they are not one or
/// more ASCII digits, or when the count exceeds the length of `v`.
fn read_count(v: &Vec<char>, a: usize, b: usize) -> (res: Option<usize>)
    requires
        a <= b <= v@.len(),
    ensures
        ({
            let count = v@.subrange(a as int, b as int);
            if count.len() > 0 && all_ascii_digits(count) && digits_value(count) <= v@.len() {
                res == Some(digits_value(count) as usize)
            } else {
                res is None
            }
        }),
        res matches Some(m) ==> m == digits_value(v@.subrange(a as int, b as int)),
{
    let n = v.len();
    let ghost count = v@.subrange(a as int, b as int);
    if a == b {
        return None;
    }
    let mut m: usize = 0;
    let mut i = a;
    assert(count.take(0) =~= Seq::<char>::empty());
    while i < b
        invariant
            a <= i <= b <= n,
            n == v@.len(),
            count == v@.subrange(a as int, b as int),
            m as int == digits_value(count.take(i - a)),
            m <= n,
            forall|x: int| 0 <= x < i - a ==> crate::text::is_ascii_digit(#[trigger] count[x]),
        decreases b - i,
    {
        let c = v[i];
        assert(count[i - a] == c);
        if !('0' <= c && c <= '9') {
            assert(!all_ascii_digits(count));
            return None;
        }
        proof {
            lemma_digits_value_step(count, i - a);
        }
        let d = (c as u32 - '0' as u32) as usize;
        if m > n / 10 || d > n - m * 10 {
            proof {
                if all_ascii_digits(count) {
                    lemma_digits_value_grows(count, i - a + 1);
                }
            }
            return None;
        }
        m = m * 10 + d;
        i = i + 1;
    }
    assert(count.take(b - a) =~= count);
    Some(m)
}

/// Reads the patch header at the start of `v`: the bounds of the commit
/// id, the parent id, the author, the committer and the message.
fn read_patch_header(v: &Vec<char>) -> (res: Option<((usize, usize), (usize, usize), (usize, usize), (usize, usize), (usize, usize))>)
    ensures
        match header_bounds(v@) {
            Some((a1, b1, a2, b2, a3, b3, a4, b4, a5, b5)) => res matches Some(r) && {
                &&& r.0.0 == a1 && r.0.1 == b1
                &&& r.1.0 == a2 && r.1.1 == b2
                &&& r.2.0 == a3 && r.2.1 == b3
                &&& r.3.0 == a4 && r.3.1 == b4
                &&& r.4.0 == a5 && r.4.1 == b5
                &&& a1 <= b1 <= a2 <= b2 <= a3 <= b3 <= a4 <= b4 <= a5 <= b5 <= v@.len()
            },
            None => res is None,
        },
{
    let n = v.len();
    let (a1, b1) = match read_keyword_line(v, 0, "commit ") {
        Some(x) => x,
        None => return None,
    };
    let (a2, b2) = match read_keyword_line(v, b1 + 1, "parent ") {
        Some(x) => x,
        None => return None,
    };
    let (a3, b3) = match read_keyword_line(v, b2 + 1, "author ") {
        Some(x) => x,
        None => return None,
    };
    let (a4, b4) = match read_keyword_line(v, b3 + 1, "committer ") {
        Some(x) => x,
        None => return None,
    };
    let (a5, b5) = match read_keyword_line(v, b4 + 1, "message ") {
        Some(x) => x,
        None => return None,
    };
    let m = match read_count(v, a5, b5) {
        Some(m) => m,
        None => return None,
    };
    proof {
        let s = v@;
        assert(keyword_line(s, 0, "commit "@) == Some((a1 as int, b1 as int)));
        assert(keyword_line(s, b1 + 1, "parent "@) == Some((a2 as int, b2 as int)));
        assert(keyword_line(s, b2 + 1, "author "@) == Some((a3 as int, b3 as int)));
        assert(keyword_line(s, b3 + 1, "committer "@) == Some((a4 as int, b4 as int)));
        assert(keyword_line(s, b4 + 1, "message "@) == Some((a5 as int, b5 as int)));
        let count = s.subrange(a5 as int, b5 as int);
        assert(count.len() > 0 && all_ascii_digits(count) && digits_value(count) == m);
    }
    if m >= n - b5 - 1 || v[b5 + 1 + m] != '\n' {
        return None;
    }
    Some(((a1, b1), (a2, b2), (a3, b3), (a4, b4), (b5 + 1, b5 + 1 + m)))
}

/// What a patch file records of the commit it was made from.
pub struct PatchMetadata {
    pub author: SignatureData,
    pub committer: SignatureData,
    pub commit_message: String,
    /// The parent's object id, forty lower-case hexadecimal digits.
    pub parent_hash: String,
    /// The commit's object id, forty lower-case hexadecimal digits.
    pub commit_hash: String,
}

/// Why a patch file could not be read.
#[derive(Debug)]
pub enum PatchError {
    /// The bytes do not read as a diff.
    Diff(git2::Error),
    /// The bytes are not UTF-8 text.
    NotText,
    /// The file does not start with a patch header.
    NoMetadata,
    /// The commit id of the header is not an object id.
    CommitId(git2::Error),
    /// The parent id of the header is not an object id.
    ParentId(git2::Error),
    /// The author of the header is not a signature.
    Author(SignatureError),
    /// The committer of the header is not a signature.
    Committer(SignatureError),
}

/// Which part of the metadata of a patch file fails to read.
pub enum MetadataFailure {
    NotText,
    NoMetadata,
    CommitId,
    ParentId,
    Author(SignatureError),
    Committer(SignatureError),
}

/// A signature as `signature_outcome` reads it: name, email, seconds, offset.
pub type SignatureFields = (Seq<char>, Seq<char>, i64, i32);

/// What the metadata of a patch file reads as: the author, the committer,
/// the message, the parent id and the commit id (both canonical), or the
/// first part that fails, in the order text, header, commit id, parent id,
/// author, committer.
pub open spec fn metadata_outcome(bytes: Seq<u8>) -> Result<
    (SignatureFields, SignatureFields, Seq<char>, Seq<char>, Seq<char>),
    MetadataFailure,
> {
    if !vstd::utf8::valid_utf8(bytes) {
        Err(MetadataFailure::NotText)
    } else {
        match patch_header(vstd::utf8::decode_utf8(bytes)) {
            None => Err(MetadataFailure::NoMetadata),
            Some((c, p, au, co, m)) => match object_id_text(c) {
                None => Err(MetadataFailure::CommitId),
                Some(commit) => match object_id_text(p) {
                    None => Err(MetadataFailure::ParentId),
                    Some(parent) => match signature_outcome(au) {
                        Err(e) => Err(MetadataFailure::Author(e)),
                        Ok(author) => match signature_outcome(co) {
                            Err(e) => Err(MetadataFailure::Committer(e)),
                            Ok(committer) => Ok((author, committer, m, parent, commit)),
                        },
                    },
                },
            },
        }
    }
}

/// `sig` holds the fields `f`.
pub open spec fn holds_fields(sig: SignatureData, f: SignatureFields) -> bool {
    &&& sig.name@ == f.0
    &&& sig.email@ == f.1
    &&& sig.seconds == f.2
    &&& sig.offset_minutes == f.3
}

/// What the metadata of a patch file reads as, in terms of the result of
/// `read_patch_metadata`.
pub open spec fn metadata_matches(bytes: Seq<u8>, res: Result<PatchMetadata, PatchError>) -> bool {
    match metadata_outcome(bytes) {
        Ok((au, co, m, parent, commit)) => res matches Ok(meta) && holds_fields(meta.author, au)
            && holds_fields(meta.committer, co) && meta.commit_message@ == m && meta.parent_hash@
            == parent && meta.commit_hash@ == commit,
        Err(MetadataFailure::NotText) => res matches Err(PatchError::NotText),
        Err(MetadataFailure::NoMetadata) => res matches Err(PatchError::NoMetadata),
        Err(MetadataFailure::CommitId) => res matches Err(PatchError::CommitId(_)),
        Err(MetadataFailure::ParentId) => res matches Err(PatchError::ParentId(_)),
        Err(MetadataFailure::Author(e)) => res matches Err(PatchError::Author(r)) && r == e,
        Err(MetadataFailure::Committer(e)) => res matches Err(PatchError::Committer(r)) && r == e,
    }
}

/// Reads the diff that a patch file carries; bytes that git2 does not read
/// as a diff give `Diff`.
pub fn read_patch_diff(bytes: &[u8]) -> (res: Result<PatchDiff, PatchError>)
    ensures
        (res is Ok) == parses_as_diff(bytes@),
        res matches Ok(d) ==> d.source() == bytes@,
        res is Err ==> res matches Err(PatchError::Diff(_)),
{
    match diff_from_patch(bytes) {
        Ok(d) => Ok(d),
        Err(e) => Err(PatchError::Diff(e)),
    }
}

/// Reads the metadata of the header of a patch file, as `metadata_outcome`
/// says.
pub fn read_patch_metadata(bytes: &[u8]) -> (res: Result<PatchMetadata, PatchError>)
    ensures
        metadata_matches(bytes@, res),
{
    let text = match text_of_bytes(bytes) {
        Some(t) => t,
        None => return Err(PatchError::NotText),
    };
    let v = chars_of(text);
    let ((a1, b1), (a2, b2), (a3, b3), (a4, b4), (a5, b5)) = match read_patch_header(&v) {
        Some(r) => r,
        None => return Err(PatchError::NoMetadata),
    };
    let commit_hash = match canonical_object_id(string_of_range(&v, a1, b1).as_str()) {
        Ok(h) => h,
        Err(e) => return Err(PatchError::CommitId(e)),
    };
    let parent_hash = match canonical_object_id(string_of_range(&v, a2, b2).as_str()) {
        Ok(h) => h,
        Err(e) => return Err(PatchError::ParentId(e)),
    };
    let author = match SignatureData::parse(string_of_range(&v, a3, b3).as_str()) {
        Ok(sig) => sig,
        Err(e) => return Err(PatchError::Author(e)),
    };
    let committer = match SignatureData::parse(string_of_range(&v, a4, b4).as_str()) {
        Ok(sig) => sig,
        Err(e) => return Err(PatchError::Committer(e)),
    };
    let commit_message = string_of_range(&v, a5, b5);
    Ok(PatchMetadata { author, committer, commit_message, parent_hash, commit_hash })
}

/// Reads a patch file: the diff it carries, and the metadata of its header.
/// Bytes that git2 does not read as a diff give `Diff`; otherwise the
/// metadata is read as `metadata_outcome` says.
pub fn read_patch(bytes: &[u8]) -> (res: Result<(PatchDiff, PatchMetadata), PatchError>)
    ensures
        !parses_as_diff(bytes@) ==> res matches Err(PatchError::Diff(_)),
        res matches Ok((d, _)) ==> d.source() == bytes@,
        parses_as_diff(bytes@) ==> match metadata_outcome(bytes@) {
            Ok((au, co, m, parent, commit)) => res matches Ok((_, meta)) && holds_fields(
                meta.author,
                au,
            ) && holds_fields(meta.committer, co) && meta.commit_message@ == m
                && meta.parent_hash@ == parent && meta.commit_hash@ == commit,
            Err(MetadataFailure::NotText) => res matches Err(PatchError::NotText),
            Err(MetadataFailure::NoMetadata) => res matches Err(PatchError::NoMetadata),
            Err(MetadataFailure::CommitId) => res matches Err(PatchError::CommitId(_)),
            Err(MetadataFailure::ParentId) => res matches Err(PatchError::ParentId(_)),
            Err(MetadataFailure::Author(e)) => res matches Err(PatchError::Author(r)) && r == e,
            Err(MetadataFailure::Committer(e)) => res matches Err(PatchError::Committer(r)) && r
                == e,
        },
{
    let diff = read_patch_diff(bytes)?;
    let meta = read_patch_metadata(bytes)?;
    Ok((diff, meta))
}

/// The header of the patch of a commit: its id, its parent's id, the texts
/// of author and committer, and the message, with the message's length in
/// characters.
pub open spec fn header_text(
    commit: Seq<char>,
    parent: Seq<char>,
    author: Seq<char>,
    committer: Seq<char>,
    message: Seq<char>,
) -> Seq<char> {
    field_line("commit "@, commit) + (field_line("parent "@, parent) + (field_line(
        "author "@,
        author,
    ) + (field_line("committer "@, committer) + (field_line("message "@, decimal(message.len()))
        + (message + seq!['\n'])))))
}

/// A header line: the word, the field, a newline.
pub open spec fn field_line(kw: Seq<char>, field: Seq<char>) -> Seq<char> {
    kw + field + seq!['\n']
}

/// Six pieces joined from the left are the same pieces joined from the
/// right.
proof fn lemma_join_six(
    l1: Seq<char>,
    l2: Seq<char>,
    l3: Seq<char>,
    l4: Seq<char>,
    l5: Seq<char>,
    l6: Seq<char>,
)
    ensures
        l1 + l2 + l3 + l4 + l5 + l6 == l1 + (l2 + (l3 + (l4 + (l5 + l6)))),
{
    lemma_add_assoc(l4, l5, l6);
    lemma_add_assoc(l3, l4, l5 + l6);
    lemma_add_assoc(l2, l3, l4 + (l5 + l6));
    lemma_add_assoc(l1, l2, l3 + (l4 + (l5 + l6)));
    lemma_add_assoc(l1 + l2, l3, l4 + (l5 + l6));
    lemma_add_assoc(l1 + l2 + l3, l4, l5 + l6);
    lemma_add_assoc(l1 + l2 + l3 + l4, l5, l6);
}

/// Writes the header line `kw field` and its newline.
fn push_field_line(out: &mut String, kw: &str, field: &str)
    ensures
        final(out)@ == old(out)@ + field_line(kw@, field@),
{
    push_str(out, kw);
    push_str(out, field);
    push_char(out, '\n');
    assert(final(out)@ =~= old(out)@ + field_line(kw@, field@));
}

/// Writes the header of the patch of a commit.
pub fn format_patch_header(
    commit_id: &str,
    parent_id: &str,
    author: &SignatureData,
    committer: &SignatureData,
    message: &str,
) -> (res: String)
    requires
        author.offset_minutes != i32::MIN,
        committer.offset_minutes != i32::MIN,
    ensures
        res@ == header_text(
            commit_id@,
            parent_id@,
            signature_text(author.name@, author.email@, author.seconds, author.offset_minutes),
            signature_text(
                committer.name@,
                committer.email@,
                committer.seconds,
                committer.offset_minutes,
            ),
            message@,
        ),
{
    let mut out = String::new();
    push_field_line(&mut out, "commit ", commit_id);
    push_field_line(&mut out, "parent ", parent_id);
    let a = author.to_text();
    push_field_line(&mut out, "author ", a.as_str());
    let c = committer.to_text();
    push_field_line(&mut out, "committer ", c.as_str());
    let m = chars_of(message);
    let mut count = String::new();
    push_decimal(&mut count, m.len() as u64);
    assert(count@ =~= decimal(message@.len()));
    push_field_line(&mut out, "message ", count.as_str());
    let ghost before = out@;
    push_str(&mut out, message);
    push_char(&mut out, '\n');
    proof {
        assert(out@ =~= before + (message@ + seq!['\n']));
        lemma_join_six(
            field_line("commit "@, commit_id@),
            field_line("parent "@, parent_id@),
            field_line("author "@, a@),
            field_line("committer "@, c@),
            field_line("message "@, count@),
            message@ + seq!['\n'],
        );
    }
    out
}

/// `d` with zeros in front, up to `width` characters.
pub open spec fn zero_padded(d: Seq<char>, width: nat) -> Seq<char> {
    if d.len() < width {
        Seq::new((width - d.len()) as nat, |i: int| '0') + d
    } else {
        d
    }
}

/// The file name of the patch at position `index` (from 0) of a series of
/// `count` patches, made from the commit `commit_id`: the position from 1,
/// with zeros in front to four digits or to the width of `count`, a dash,
/// the first twelve characters of the commit id, and `.patch`.
pub open spec fn patch_name(commit_id: Seq<char>, index: nat, count: nat) -> Seq<char> {
    let width = if decimal(count).len() > 4 {
        decimal(count).len()
    } else {
        4
    };
    let id = if commit_id.len() > 12 {
        commit_id.take(12)
    } else {
        commit_id
    };
    zero_padded(decimal(index + 1), width) + seq!['-'] + id + ".patch"@
}

/// The file name of the patch at position `index` of a series of `count`
/// patches, made from the commit `commit_id`.
pub fn patch_file_name(commit_id: &str, index: usize, count: usize) -> (res: String)
    requires
        index < usize::MAX,
    ensures
        res@ == patch_name(commit_id@, index as nat, count as nat),
{
    let mut num = String::new();
    push_decimal(&mut num, (index + 1) as u64);
    let numv = chars_of(num.as_str());
    let mut cnt = String::new();
    push_decimal(&mut cnt, count as u64);
    let cntv = chars_of(cnt.as_str());
    let width = if cntv.len() > 4 { cntv.len() } else { 4 };
    let mut out = String::new();
    let mut k: usize = 0;
    if numv.len() < width {
        let pad = width - numv.len();
        while k < pad
            invariant
                k <= pad,
                out@ == Seq::new(k as nat, |i: int| '0'),
            decreases pad - k,
        {
            push_char(&mut out, '0');
            k = k + 1;
            assert(out@ =~= Seq::new(k as nat, |i: int| '0'));
        }
    }
    push_range(&mut out, &numv, 0, numv.len());
    assert(numv@.subrange(0, numv@.len() as int) =~= numv@);
    assert(out@ =~= zero_padded(decimal((index + 1) as nat), width as nat));
    push_char(&mut out, '-');
    let idv = chars_of(commit_id);
    let end = if idv.len() > 12 { 12 } else { idv.len() };
    push_range(&mut out, &idv, 0, end);
    assert(idv@.subrange(0, end as int) =~= (if commit_id@.len() > 12 {
        commit_id@.take(12)
    } else {
        commit_id@
    }));
    push_str(&mut out, ".patch");
    out
}

/// `s` holds no newline.
pub open spec fn one_line(s: Seq<char>) -> bool {
    forall|k: int| 0 <= k < s.len() ==> s[k] != '\n'
}

proof fn lemma_keyword_line_at(s: Seq<char>, pos: int, kw: Seq<char>, f: Seq<char>)
    requires
        0 <= pos,
        pos + kw.len() + f.len() < s.len(),
        s.subrange(pos, pos + kw.len()) == kw,
        s.subrange(pos + kw.len(), pos + kw.len() + f.len()) == f,
        one_line(f),
        s[pos + kw.len() + f.len()] == '\n',
    ensures
        keyword_line(s, pos, kw) == Some((pos + kw.len(), pos + kw.len() + f.len())),
{
    let a = pos + kw.len();
    let b = a + f.len();
    assert forall|k: int| a <= k < b implies s[k] != '\n' by {
        assert(s.subrange(a, b)[k - a] == s[k]);
    }
    reveal(line_end);
    assert(is_line_end(s, a, b));
    let c = choose|c: int| is_line_end(s, a, c);
    lemma_line_end_unique(s, a, b, c);
}

proof fn lemma_add_assoc(a: Seq<char>, b: Seq<char>, c: Seq<char>)
    ensures
        (a + b) + c == a + (b + c),
{
    assert((a + b) + c =~= a + (b + c));
}

proof fn lemma_line_in(s: Seq<char>, pos: int, kw: Seq<char>, f: Seq<char>, tail: Seq<char>)
    requires
        0 <= pos <= s.len(),
        s.skip(pos) == field_line(kw, f) + tail,
        one_line(f),
    ensures
        keyword_line(s, pos, kw) == Some((pos + kw.len(), pos + kw.len() + f.len())),
        s.subrange(pos + kw.len(), pos + kw.len() + f.len()) == f,
        s.skip(pos + kw.len() + f.len() + 1) == tail,
{
    let u = s.skip(pos);
    let w = field_line(kw, f);
    let a = pos + kw.len();
    let b = a + f.len();
    assert(u.len() == s.len() - pos);
    assert(w.len() == kw.len() + f.len() + 1);
    assert(u.len() == w.len() + tail.len());
    assert forall|i: int| 0 <= i < kw.len() implies s.subrange(pos, a)[i] == kw[i] by {
        assert(w[i] == kw[i]);
        assert(u[i] == w[i]);
        assert(u[i] == s[pos + i]);
    }
    assert(s.subrange(pos, a) =~= kw);
    assert forall|i: int| 0 <= i < f.len() implies s.subrange(a, b)[i] == f[i] by {
        assert(w[kw.len() + i] == f[i]);
        assert(u[kw.len() + i] == w[kw.len() + i]);
        assert(u[kw.len() + i] == s[a + i]);
    }
    assert(s.subrange(a, b) =~= f);
    assert(w[kw.len() + f.len() as int] == '\n');
    assert(u[kw.len() + f.len() as int] == s[b]);
    lemma_keyword_line_at(s, pos, kw, f);
    assert forall|i: int| 0 <= i < tail.len() implies s.skip(b + 1)[i] == tail[i] by {
        assert(u[w.len() + i] == tail[i]);
        assert(u[w.len() + i] == s[b + 1 + i]);
    }
    assert(s.skip(b + 1) =~= tail);
}

proof fn lemma_header_split(
    c: Seq<char>,
    p: Seq<char>,
    au: Seq<char>,
    co: Seq<char>,
    m: Seq<char>,
    rest: Seq<char>,
)
    ensures
        header_text(c, p, au, co, m) + rest == field_line("commit "@, c) + (field_line(
            "parent "@,
            p,
        ) + (field_line("author "@, au) + (field_line("committer "@, co) + (field_line(
            "message "@,
            decimal(m.len()),
        ) + ((m + seq!['\n']) + rest))))),
{
    let l1 = field_line("commit "@, c);
    let l2 = field_line("parent "@, p);
    let l3 = field_line("author "@, au);
    let l4 = field_line("committer "@, co);
    let l5 = field_line("message "@, decimal(m.len()));
    let l6 = m + seq!['\n'];
    lemma_add_assoc(l5, l6, rest);
    lemma_add_assoc(l4, l5 + l6, rest);
    lemma_add_assoc(l3, l4 + (l5 + l6), rest);
    lemma_add_assoc(l2, l3 + (l4 + (l5 + l6)), rest);
    lemma_add_assoc(l1, l2 + (l3 + (l4 + (l5 + l6))), rest);
}

proof fn lemma_header_bounds_at(
    s: Seq<char>,
    a1: int,
    b1: int,
    a2: int,
    b2: int,
    a3: int,
    b3: int,
    a4: int,
    b4: int,
    a5: int,
    b5: int,
    m: Seq<char>,
)
    requires
        keyword_line(s, 0, "commit "@) == Some((a1, b1)),
        keyword_line(s, b1 + 1, "parent "@) == Some((a2, b2)),
        keyword_line(s, b2 + 1, "author "@) == Some((a3, b3)),
        keyword_line(s, b3 + 1, "committer "@) == Some((a4, b4)),
        keyword_line(s, b4 + 1, "message "@) == Some((a5, b5)),
        s.subrange(a5, b5) == decimal(m.len()),
        b5 + 1 + m.len() < s.len(),
        s[b5 + 1 + m.len()] == '\n',
    ensures
        header_bounds(s) == Some((a1, b1, a2, b2, a3, b3, a4, b4, b5 + 1, b5 + 1 + m.len())),
{
    lemma_decimal_digits(m.len());
}

proof fn lemma_message_at(s: Seq<char>, pos: int, m: Seq<char>, rest: Seq<char>)
    requires
        0 <= pos <= s.len(),
        s.skip(pos) == (m + seq!['\n']) + rest,
    ensures
        pos + m.len() < s.len(),
        s[pos + m.len()] == '\n',
        s.subrange(pos, pos + m.len()) == m,
{
    let u = s.skip(pos);
    assert(u.len() == s.len() - pos);
    assert(u.len() == m.len() + 1 + rest.len());
    assert(u[m.len() as int] == '\n');
    assert(u[m.len() as int] == s[pos + m.len()]);
    assert forall|i: int| 0 <= i < m.len() implies s.subrange(pos, pos + m.len())[i] == m[i] by {
        assert(u[i] == s[pos + i]);
        assert(u[i] == m[i]);
    }
    assert(s.subrange(pos, pos + m.len()) =~= m);
}

/// A header that `format_patch_header` writes reads back, whatever follows
/// it, provided the ids and the signature texts are single lines.
pub proof fn lemma_header_roundtrip(
    c: Seq<char>,
    p: Seq<char>,
    au: Seq<char>,
    co: Seq<char>,
    m: Seq<char>,
    rest: Seq<char>,
)
    requires
        one_line(c),
        one_line(p),
        one_line(au),
        one_line(co),
    ensures
        patch_header(header_text(c, p, au, co, m) + rest) == Some((c, p, au, co, m)),
{
    let k1 = "commit "@;
    let k2 = "parent "@;
    let k3 = "author "@;
    let k4 = "committer "@;
    let k5 = "message "@;
    let d = decimal(m.len());
    let t5 = (m + seq!['\n']) + rest;
    let t4 = field_line(k5, d) + t5;
    let t3 = field_line(k4, co) + t4;
    let t2 = field_line(k3, au) + t3;
    let t1 = field_line(k2, p) + t2;
    let s = header_text(c, p, au, co, m) + rest;
    lemma_header_split(c, p, au, co, m, rest);
    assert(s.skip(0) == field_line(k1, c) + t1) by {
        assert(s.skip(0) =~= s);
    }
    lemma_line_in(s, 0, k1, c, t1);
    let b1: int = k1.len() + c.len() as int;
    lemma_line_in(s, b1 + 1, k2, p, t2);
    let b2: int = b1 + 1 + k2.len() + p.len();
    lemma_line_in(s, b2 + 1, k3, au, t3);
    let b3: int = b2 + 1 + k3.len() + au.len();
    lemma_line_in(s, b3 + 1, k4, co, t4);
    let b4: int = b3 + 1 + k4.len() + co.len();
    assert(one_line(d)) by {
        lemma_decimal_digits(m.len());
        assert forall|k: int| 0 <= k < d.len() implies d[k] != '\n' by {
            assert(crate::text::is_ascii_digit(d[k]));
        }
    }
    lemma_line_in(s, b4 + 1, k5, d, t5);
    let b5: int = b4 + 1 + k5.len() + d.len();
    lemma_message_at(s, b5 + 1, m, rest);
    lemma_header_bounds_at(
        s,
        k1.len() as int,
        b1,
        b1 + 1 + k2.len(),
        b2,
        b2 + 1 + k3.len(),
        b3,
        b3 + 1 + k4.len(),
        b4,
        b4 + 1 + k5.len(),
        b5,
        m,
    );
}

/// A signature that a patch header can carry and give back: name and email
/// not empty and without newline, the email without ` <`, and an offset of
/// less than a hundred hours.
pub open spec fn writable_signature(f: SignatureFields) -> bool {
    &&& f.0.len() > 0
    &&& f.1.len() > 0
    &&& no_newline(f.0)
    &&& no_newline(f.1)
    &&& lacks_open_bracket(f.1)
    &&& -5999 <= f.3 <= 5999
}

/// The text of a signature given by its fields.
pub open spec fn fields_text(f: SignatureFields) -> Seq<char> {
    signature_text(f.0, f.1, f.2, f.3)
}

/// The metadata of a written patch file reads back as it was written: the
/// bytes of a header made of two printed object ids, two writable
/// signatures and any message, followed by anything, give back the same
/// signatures, message and ids.
pub proof fn lemma_patch_metadata_roundtrip(
    commit: Seq<char>,
    parent: Seq<char>,
    author: SignatureFields,
    committer: SignatureFields,
    message: Seq<char>,
    rest: Seq<char>,
)
    requires
        is_printed_object_id(commit),
        is_printed_object_id(parent),
        writable_signature(author),
        writable_signature(committer),
    ensures
        metadata_outcome(
            vstd::utf8::encode_utf8(
                header_text(commit, parent, fields_text(author), fields_text(committer), message)
                    + rest,
            ),
        ) == Ok::<_, MetadataFailure>((author, committer, message, parent, commit)),
{
    let au = fields_text(author);
    let co = fields_text(committer);
    let text = header_text(commit, parent, au, co, message) + rest;
    vstd::utf8::encode_utf8_valid_utf8(text);
    vstd::utf8::encode_utf8_decode_utf8(text);
    lemma_signature_text_one_line(author.0, author.1, author.2, author.3);
    lemma_signature_text_one_line(committer.0, committer.1, committer.2, committer.3);
    lemma_signature_roundtrip(author.0, author.1, author.2, author.3);
    lemma_signature_roundtrip(committer.0, committer.1, committer.2, committer.3);
    lemma_printed_object_id(commit);
    lemma_printed_object_id(parent);
    assert(one_line(commit) && one_line(parent)) by {
        assert forall|k: int| 0 <= k < commit.len() implies commit[k] != '\n' by {
            assert(('0' <= commit[k] && commit[k] <= '9') || ('a' <= commit[k] && commit[k] <= 'f'));
        }
        assert forall|k: int| 0 <= k < parent.len() implies parent[k] != '\n' by {
            assert(('0' <= parent[k] && parent[k] <= '9') || ('a' <= parent[k] && parent[k] <= 'f'));
        }
    }
    lemma_header_roundtrip(commit, parent, au, co, message, rest);
}

} // verus!

//! The calls into git2 that the library makes, with what they are trusted
//! to do, and the git2 types that cross them.

use vstd::prelude::*;

verus! {

#[verifier::external_type_specification]
#[verifier::external_body]
pub struct ExGitError(git2::Error);

/// A hexadecimal digit, in either case.
pub open spec fn is_hex_digit(c: char) -> bool {
    ('0' <= c && c <= '9') || ('a' <= c && c <= 'f') || ('A' <= c && c <= 'F')
}

/// A hexadecimal digit in lower case.
pub open spec fn hex_lower(c: char) -> char {
    if 'A' <= c && c <= 'F' {
        ((c as int) + 32) as char
    } else {
        c
    }
}

/// The canonical text of the object id that `s` names: one to forty
/// hexadecimal digits, read as the leading digits of the id (the rest are
/// zero), written as forty lower-case digits; `None` for any other text.
pub open spec fn object_id_text(s: Seq<char>) -> Option<Seq<char>> {
    if 1 <= s.len() <= 40 && forall|k: int| 0 <= k < s.len() ==> is_hex_digit(#[trigger] s[k]) {
        Some(s.map_values(|c: char| hex_lower(c)) + Seq::new((40 - s.len()) as nat, |k: int| '0'))
    } else {
        None
    }
}

/// An object id as git2 prints it: forty lower-case hexadecimal digits.
pub open spec fn is_printed_object_id(s: Seq<char>) -> bool {
    &&& s.len() == 40
    &&& forall|k: int| 0 <= k < s.len() ==> ('0' <= #[trigger] s[k] && s[k] <= '9') || ('a' <= s[k]
        && s[k] <= 'f')
}

/// A printed object id reads back as itself.
pub proof fn lemma_printed_object_id(s: Seq<char>)
    requires
        is_printed_object_id(s),
    ensures
        object_id_text(s) == Some(s),
{
    assert forall|k: int| 0 <= k < s.len() implies is_hex_digit(#[trigger] s[k]) by {}
    assert(s.map_values(|c: char| hex_lower(c)) + Seq::new(0, |k: int| '0') =~= s);
}

/// Reads an object id with git2's `Oid::from_str` and gives it back as
/// git2 prints an `Oid` (`Display`). The text is refused when it is empty,
/// longer than forty characters, or holds a character that is not a
/// hexadecimal digit; otherwise its digits fill the id from the front, the
/// missing ones are zero, and the id prints as forty lower-case hexadecimal
/// digits.
#[verifier::external_body]
pub(crate) fn canonical_object_id(s: &str) -> (res: Result<String, git2::Error>)
    ensures
        match object_id_text(s@) {
            Some(t) => res matches Ok(h) && h@ == t,
            None => res is Err,
        },
{
    match git2::Oid::from_str(s) {
        Ok(oid) => Ok(oid.to_string()),
        Err(e) => Err(e),
    }
}

#[verifier::external_type_specification]
#[verifier::external_body]
pub struct ExGitSignature<'a>(git2::Signature<'a>);

/// A character that git trims from the ends of a signature's name and
/// email: a control character or space, or one of `,:;<>"\'`.
pub open spec fn is_signature_crud(c: char) -> bool {
    (c as u32) <= 32 || c == ',' || c == ':' || c == ';' || c == '<' || c == '>' || c == '"'
        || c == '\\' || c == '\''
}

/// A text that git cannot take as a signature's name or email: it holds an
/// angle bracket or a NUL character, or nothing is left of it once the
/// characters of `is_signature_crud` are trimmed from its ends.
pub open spec fn refused_signature_field(s: Seq<char>) -> bool {
    ||| exists|k: int| 0 <= k < s.len() && (s[k] == '<' || s[k] == '>' || s[k] == '\0')
    ||| forall|k: int| 0 <= k < s.len() ==> is_signature_crud(#[trigger] s[k])
}

/// Number of git filler characters at the start of `s`.
pub open spec fn leading_crud(s: Seq<char>) -> nat
    decreases s.len(),
{
    if s.len() > 0 && is_signature_crud(s[0]) {
        1 + leading_crud(s.drop_first())
    } else {
        0
    }
}

/// Number of git filler characters at the end of `s`.
pub open spec fn trailing_crud(s: Seq<char>) -> nat
    decreases s.len(),
{
    if s.len() > 0 && is_signature_crud(s.last()) {
        1 + trailing_crud(s.drop_last())
    } else {
        0
    }
}

/// `s` without the git filler characters at either end, as git keeps a
/// signature's name and email.
pub open spec fn crud_trim(s: Seq<char>) -> Seq<char> {
    let t = s.skip(leading_crud(s) as int);
    t.take(t.len() - trailing_crud(t))
}

/// A name or email that git takes as it is: not empty, without angle
/// brackets or NUL, and without git's filler characters at either end.
pub open spec fn plain_signature_field(s: Seq<char>) -> bool {
    &&& s.len() > 0
    &&& forall|k: int| 0 <= k < s.len() ==> #[trigger] s[k] != '<' && s[k] != '>' && s[k] != '\0'
    &&& !is_signature_crud(s[0])
    &&& !is_signature_crud(s.last())
}

/// A plain name or email is neither refused nor trimmed by git, so a
/// signature made of plain fields holds exactly those fields.
pub proof fn lemma_plain_field_kept(s: Seq<char>)
    requires
        plain_signature_field(s),
    ensures
        !refused_signature_field(s),
        crud_trim(s) == s,
{
    assert(leading_crud(s) == 0);
    assert(s.skip(0) =~= s);
    assert(trailing_crud(s) == 0);
    assert(s.take(s.len() as int) =~= s);
    assert(!is_signature_crud(s[0]));
}

/// A git2 signature together with what it holds: the name, the email, the
/// seconds since the epoch and the offset in minutes.
pub struct GitSignature {
    sig: git2::Signature<'static>,
    held: Ghost<(Seq<char>, Seq<char>, i64, i32)>,
}

impl GitSignature {
    /// What the signature holds: name, email, seconds, offset.
    pub closed spec fn held(&self) -> (Seq<char>, Seq<char>, i64, i32) {
        self.held@
    }

    /// The git2 signature, to hand to a commit.
    pub fn git(&self) -> (res: &git2::Signature<'static>) {
        &self.sig
    }
}

/// Builds a git signature with git2's `Signature::new`, its time made by
/// `Time::new` from seconds and an offset in minutes. A name or email that
/// holds an angle bracket or a NUL, or that is empty once trimmed, is
/// refused; any other is taken, trimmed of git's filler characters at both
/// ends, with the seconds and offset as given. Running out of memory while
/// the signature is allocated is left out: Rust aborts the process then.
#[verifier::external_body]
pub(crate) fn new_git_signature(name: &str, email: &str, seconds: i64, offset_minutes: i32) -> (res: Result<GitSignature, git2::Error>)
    ensures
        (res is Ok) == (!refused_signature_field(name@) && !refused_signature_field(email@)),
        res matches Ok(g) ==> g.held() == (crud_trim(name@), crud_trim(email@), seconds, offset_minutes),
{
    let time = git2::Time::new(seconds, offset_minutes);
    match git2::Signature::new(name, email, &time) {
        Ok(sig) => Ok(GitSignature { sig, held: Ghost((crud_trim(name@), crud_trim(email@), seconds, offset_minutes)) }),
        Err(e) => Err(e),
    }
}

#[verifier::external_type_specification]
#[verifier::external_body]
pub struct ExGitDiff<'a>(git2::Diff<'a>);

/// Whether git2 reads `patch` as a diff (`Diff::from_buffer`).
pub uninterp spec fn parses_as_diff(patch: Seq<u8>) -> bool;

/// A diff that git2 read from the bytes of a patch, together with those
/// bytes.
pub struct PatchDiff {
    diff: git2::Diff<'static>,
    source: Ghost<Seq<u8>>,
}

impl PatchDiff {
    /// The bytes the diff was read from.
    pub closed spec fn source(&self) -> Seq<u8> {
        self.source@
    }

    /// The git2 diff, to apply to a repository.
    pub fn git(&self) -> (res: &git2::Diff<'static>) {
        &self.diff
    }
}

/// Reads the bytes of a patch as a diff with git2's `Diff::from_buffer`,
/// which only parses the bytes and touches no repository. Whether the bytes
/// parse is named, not stated: it depends on the bytes alone. The diff that
/// comes back is the one read from these bytes.
#[verifier::external_body]
pub(crate) fn diff_from_patch(patch: &[u8]) -> (res: Result<PatchDiff, git2::Error>)
    ensures
        (res is Ok) == parses_as_diff(patch@),
        res matches Ok(d) ==> d.source() == patch@,
{
    match git2::Diff::from_buffer(patch) {
        Ok(diff) => Ok(PatchDiff { diff, source: Ghost(patch@) }),
        Err(e) => Err(e),
    }
}

} // verus!

//! The patch series: the ordered list of patch files that the `series` file
//! names, relative to the patches directory.

use std::collections::VecDeque;
use vstd::prelude::*;

use crate::text::{
    chars_of, lemma_trim_idempotent, push_char, push_range, push_str, string_of_range, trim,
    trim_bounds,
};

verus! {

broadcast use vstd::std_specs::vecdeque::group_vec_dequeue_axioms;

/// The pieces of `s` between newline characters, in order; the piece after
/// the last newline is included (it is empty when `s` ends with a newline).
pub open spec fn newline_pieces(s: Seq<char>) -> Seq<Seq<char>>
    decreases s.len(),
{
    if s.len() == 0 {
        seq![Seq::<char>::empty()]
    } else {
        let p = newline_pieces(s.drop_last());
        if s.last() == '\n' {
            p.push(Seq::<char>::empty())
        } else {
            p.update(p.len() - 1, p.last().push(s.last()))
        }
    }
}

/// The trimmed pieces that are not empty, in order.
pub open spec fn kept_entries(pieces: Seq<Seq<char>>) -> Seq<Seq<char>>
    decreases pieces.len(),
{
    if pieces.len() == 0 {
        seq![]
    } else {
        let rest = kept_entries(pieces.drop_last());
        let t = trim(pieces.last());
        if t.len() > 0 {
            rest.push(t)
        } else {
            rest
        }
    }
}

/// The entries that a series file with content `content` lists: every line,
/// trimmed, with blank lines left out.
pub open spec fn series_entries(content: Seq<char>) -> Seq<Seq<char>> {
    kept_entries(newline_pieces(content))
}

/// The content of a series file listing `names`: each name followed by a
/// newline.
pub open spec fn series_text(names: Seq<Seq<char>>) -> Seq<char>
    decreases names.len(),
{
    if names.len() == 0 {
        seq![]
    } else {
        series_text(names.drop_last()) + names.last() + seq!['\n']
    }
}

/// A name that a series file can list and give back unchanged: not empty,
/// without newline, and without white space at either end.
pub open spec fn is_listable(name: Seq<char>) -> bool {
    &&& name.len() > 0
    &&& trim(name) == name
    &&& forall|k: int| 0 <= k < name.len() ==> name[k] != '\n'
}

proof fn lemma_pieces_nonempty(s: Seq<char>)
    ensures
        newline_pieces(s).len() >= 1,
    decreases s.len(),
{
    if s.len() > 0 {
        lemma_pieces_nonempty(s.drop_last());
    }
}

/// The entries listed by a series file, in order (each line trimmed, blank
/// lines skipped).
pub fn parse_series_entries(content: &str) -> (res: Vec<String>)
    ensures
        res@.len() == series_entries(content@).len(),
        forall|k: int| 0 <= k < res@.len() ==> #[trigger] res@[k]@ == series_entries(content@)[k],
{
    let v = chars_of(content);
    let n = v.len();
    let mut out: Vec<String> = Vec::new();
    let mut start: usize = 0;
    let mut i: usize = 0;
    let ghost mut done: Seq<Seq<char>> = seq![];
    assert(v@.take(0) =~= Seq::<char>::empty());
    assert(v@.subrange(0, 0) =~= Seq::<char>::empty());
    assert(done.push(Seq::<char>::empty()) =~= seq![Seq::<char>::empty()]);
    while i < n
        invariant
            n == v@.len(),
            v@ == content@,
            start <= i <= n,
            newline_pieces(v@.take(i as int)) == done.push(v@.subrange(start as int, i as int)),
            out@.len() == kept_entries(done).len(),
            forall|k: int| 0 <= k < out@.len() ==> #[trigger] out@[k]@ == kept_entries(done)[k],
        decreases n - i,
    {
        let ghost prev = v@.take(i as int);
        assert(v@.take(i + 1).drop_last() =~= prev);
        assert(v@.take(i + 1).last() == v@[i as int]);
        if v[i] == '\n' {
            let (a, b) = trim_bounds(&v, start, i);
            let ghost cur = v@.subrange(start as int, i as int);
            if a < b {
                out.push(string_of_range(&v, a, b));
            }
            proof {
                assert(done.push(cur).drop_last() =~= done);
                done = done.push(cur);
            }
            start = i + 1;
            assert(v@.subrange(start as int, i + 1) =~= Seq::<char>::empty());
        } else {
            proof {
                lemma_pieces_nonempty(prev);
                assert(v@.subrange(start as int, i + 1) =~= v@.subrange(start as int, i as int).push(
                    v@[i as int],
                ));
                assert(done.push(v@.subrange(start as int, i as int)).update(
                    done.len() as int,
                    v@.subrange(start as int, i + 1),
                ) =~= done.push(v@.subrange(start as int, i + 1)));
            }
        }
        i = i + 1;
    }
    let (a, b) = trim_bounds(&v, start, n);
    let ghost cur = v@.subrange(start as int, n as int);
    if a < b {
        out.push(string_of_range(&v, a, b));
    }
    proof {
        assert(v@.take(n as int) =~= v@);
        assert(done.push(cur).drop_last() =~= done);
    }
    out
}

/// What the file system says of one series entry, looked up by the caller:
/// whether the entry, joined to the patches directory, stays inside it;
/// whether that file exists; and the entry's path relative to the patches
/// directory, as the series file will list it again.
pub struct EntryCheck {
    pub inside: bool,
    pub exists: bool,
    pub relative: String,
}

/// Why a series could not be built.
#[derive(Debug, PartialEq, Eq)]
pub enum SeriesError {
    /// The entry at this position leads out of the patches directory.
    OutsideDir(usize),
    /// The patch file of the entry at this position does not exist.
    NotFound(usize),
    /// A patch file that does not exist cannot join the series.
    PushMissing,
}

/// The index of the first entry that fails its check, if any, and how.
pub open spec fn first_failure(checks: Seq<(bool, bool)>) -> Option<SeriesError>
    decreases checks.len(),
{
    if checks.len() == 0 {
        None
    } else {
        match first_failure(checks.drop_last()) {
            Some(e) => Some(e),
            None => {
                let k = (checks.len() - 1) as usize;
                if !checks.last().0 {
                    Some(SeriesError::OutsideDir(k))
                } else if !checks.last().1 {
                    Some(SeriesError::NotFound(k))
                } else {
                    None
                }
            },
        }
    }
}

/// The (inside, exists) flags of a list of checks.
pub open spec fn check_flags(checks: Seq<EntryCheck>) -> Seq<(bool, bool)> {
    checks.map_values(|c: EntryCheck| (c.inside, c.exists))
}

/// The text of the path `dir` joined with `path` by `std::path::Path::join`.
pub uninterp spec fn joined_path(dir: Seq<char>, path: Seq<char>) -> Seq<char>;

/// Whether `std::path::Path::starts_with` finds the path `base` at the
/// start of the path `path`, whole component by whole component.
pub uninterp spec fn path_has_prefix(path: Seq<char>, base: Seq<char>) -> bool;

/// The text of what `std::path::Path::strip_prefix` leaves of the path
/// `path` once the path `base` is taken off its front.
pub uninterp spec fn path_after_prefix(path: Seq<char>, base: Seq<char>) -> Seq<char>;

/// `std::path::Path::join` of `dir` and `path`, as text (`to_string_lossy`,
/// which changes nothing of a path joined from two texts). The contract
/// names the result, which depends on the two texts alone under the path
/// rules of the platform the crate is built for, and says nothing more.
#[verifier::external_body]
fn join_path(dir: &str, path: &str) -> (res: String)
    ensures
        res@ == joined_path(dir@, path@),
{
    std::path::Path::new(dir).join(path).to_string_lossy().into_owned()
}

/// `std::path::Path::starts_with`: whether `base` is a prefix of `path`,
/// by whole components. The contract names the result.
#[verifier::external_body]
fn path_starts_with(path: &str, base: &str) -> (res: bool)
    ensures
        res == path_has_prefix(path@, base@),
{
    std::path::Path::new(path).starts_with(base)
}

/// `std::path::Path::strip_prefix`, as text: as its documentation says, it
/// fails when `base` is not a prefix of `path` (`starts_with` is false) and
/// otherwise gives the rest of the path; that rest is named.
#[verifier::external_body]
fn strip_path_prefix(path: &str, base: &str) -> (res: Option<String>)
    ensures
        (res is Some) == path_has_prefix(path@, base@),
        res matches Some(r) ==> r@ == path_after_prefix(path@, base@),
{
    match std::path::Path::new(path).strip_prefix(base) {
        Ok(rest) => Some(rest.to_string_lossy().into_owned()),
        Err(_) => None,
    }
}

/// Where the series entry `entry` points: the entry joined to the patches
/// directory.
pub open spec fn entry_target(patches_dir: Seq<char>, entry: Seq<char>) -> Seq<char> {
    joined_path(patches_dir, entry)
}

/// The entry, joined to the patches directory, stays inside it.
pub open spec fn entry_inside(patches_dir: Seq<char>, entry: Seq<char>) -> bool {
    path_has_prefix(entry_target(patches_dir, entry), patches_dir)
}

/// The name that the series keeps for the entry: its target relative to
/// the patches directory.
pub open spec fn entry_relative(patches_dir: Seq<char>, entry: Seq<char>) -> Seq<char> {
    path_after_prefix(entry_target(patches_dir, entry), patches_dir)
}

/// The file that the series entry `entry` points to: the entry joined to
/// the patches directory.
pub fn entry_path(patches_dir: &str, entry: &str) -> (res: String)
    ensures
        res@ == entry_target(patches_dir@, entry@),
{
    join_path(patches_dir, entry)
}

/// The path `path` relative to the patches directory, or `None` when it
/// does not lie inside it.
pub fn relative_path(patches_dir: &str, path: &str) -> (res: Option<String>)
    ensures
        (res is Some) == path_has_prefix(path@, patches_dir@),
        res matches Some(r) ==> r@ == path_after_prefix(path@, patches_dir@),
{
    strip_path_prefix(path, patches_dir)
}

/// Checks a series entry: whether, joined to the patches directory, it
/// stays inside it, and the name the series keeps for it; `exists` says
/// whether its file is on disk, which the caller looks up. An entry that
/// leads out of the directory keeps its own text as its name.
pub fn check_entry(patches_dir: &str, entry: &str, exists: bool) -> (res: EntryCheck)
    ensures
        res.inside == entry_inside(patches_dir@, entry@),
        res.exists == exists,
        res.inside ==> res.relative@ == entry_relative(patches_dir@, entry@),
        !res.inside ==> res.relative@ == entry@,
{
    let target = join_path(patches_dir, entry);
    let inside = path_starts_with(target.as_str(), patches_dir);
    let relative = match strip_path_prefix(target.as_str(), patches_dir) {
        Some(r) => r,
        None => {
            let mut r = String::new();
            push_str(&mut r, entry);
            r
        },
    };
    EntryCheck { inside, exists, relative }
}

/// The name the series keeps for a patch file pushed as `path`: its path
/// relative to the patches directory when it lies inside it, else the path
/// itself.
pub open spec fn pushed_name(patches_dir: Seq<char>, path: Seq<char>) -> Seq<char> {
    if path_has_prefix(path, patches_dir) {
        path_after_prefix(path, patches_dir)
    } else {
        path
    }
}

/// The file of a series entry: the name joined to the patches directory
/// when the name is relative to it, else the name itself.
pub open spec fn entry_file(patches_dir: Seq<char>, name: Seq<char>, relative: bool) -> Seq<char> {
    if relative {
        joined_path(patches_dir, name)
    } else {
        name
    }
}

/// The ordered list of patch files of a series. Each is kept by its name
/// relative to the patches directory, or, for a file pushed from outside
/// that directory, by its own path, which the series file cannot list.
pub struct PatchSeries {
    patches_dir: String,
    patches: VecDeque<(String, bool)>,
}

impl View for PatchSeries {
    type V = Seq<Seq<char>>;

    closed spec fn view(&self) -> Seq<Seq<char>> {
        self.patches@.map_values(|p: (String, bool)| p.0@)
    }
}

impl PatchSeries {
    /// The directory that the entries are relative to.
    pub closed spec fn dir(&self) -> Seq<char> {
        self.patches_dir@
    }

    /// For each entry, whether its name is relative to the patches
    /// directory (and so can be listed in the series file).
    pub closed spec fn relative(&self) -> Seq<bool> {
        self.patches@.map_values(|p: (String, bool)| p.1)
    }

    /// Builds the series from the entries of a series file and the checks
    /// of each entry, in the same order. The first entry that leads out of
    /// the patches directory, or whose file is missing, is reported; an
    /// entry is checked for leaving the directory before its file is
    /// looked for.
    pub fn new(patches_dir: String, checks: Vec<EntryCheck>) -> (res: Result<PatchSeries, SeriesError>)
        ensures
            match first_failure(check_flags(checks@)) {
                Some(e) => res == Err::<PatchSeries, SeriesError>(e),
                None => res matches Ok(series) && series.dir() == patches_dir@ && series@
                    == checks@.map_values(|c: EntryCheck| c.relative@) && series.relative()
                    == Seq::new(checks@.len(), |j: int| true),
            },
    {
        let mut patches: VecDeque<(String, bool)> = VecDeque::new();
        let n = checks.len();
        let mut i: usize = 0;
        while i < n
            invariant
                n == checks@.len(),
                0 <= i <= n,
                first_failure(check_flags(checks@.take(i as int))) is None,
                patches@.map_values(|p: (String, bool)| p.0@) == checks@.take(i as int).map_values(
                    |c: EntryCheck| c.relative@,
                ),
                patches@.map_values(|p: (String, bool)| p.1) == Seq::new(i as nat, |j: int| true),
            decreases n - i,
        {
            let ghost prefix = checks@.take(i as int);
            let ghost next = checks@.take(i + 1);
            assert(next.drop_last() =~= prefix);
            assert(check_flags(next).drop_last() =~= check_flags(prefix));
            assert(check_flags(next).last() == (checks@[i as int].inside, checks@[i as int].exists));
            assert(check_flags(checks@).take(i + 1) =~= check_flags(next));
            let c = &checks[i];
            if !c.inside {
                proof { lemma_first_failure_prefix(check_flags(checks@), i as int + 1); }
                return Err(SeriesError::OutsideDir(i));
            }
            if !c.exists {
                proof { lemma_first_failure_prefix(check_flags(checks@), i as int + 1); }
                return Err(SeriesError::NotFound(i));
            }
            let ghost before = patches@;
            patches.push_back((c.relative.clone(), true));
            assert(next.map_values(|c: EntryCheck| c.relative@) =~= prefix.map_values(
                |c: EntryCheck| c.relative@,
            ).push(checks@[i as int].relative@));
            assert(patches@.map_values(|p: (String, bool)| p.0@) =~= next.map_values(
                |c: EntryCheck| c.relative@,
            ));
            assert forall|j: int| 0 <= j <= i implies #[trigger] patches@[j].1 by {
                if j < i {
                    assert(patches@[j] == before[j]);
                    assert(before.map_values(|p: (String, bool)| p.1)[j] == before[j].1);
                }
            }
            assert(patches@.map_values(|p: (String, bool)| p.1) =~= Seq::new(
                (i + 1) as nat,
                |j: int| true,
            ));
            i = i + 1;
        }
        assert(checks@.take(n as int) =~= checks@);
        assert(Seq::new(n as nat, |j: int| true) =~= Seq::new(checks@.len(), |j: int| true));
        Ok(PatchSeries { patches_dir, patches })
    }
}

/// The (inside, exists) flags of the entries of a series file, each with
/// whether its file is on disk.
pub open spec fn listed_flags(patches_dir: Seq<char>, listed: Seq<(String, bool)>) -> Seq<(bool, bool)> {
    listed.map_values(|l: (String, bool)| (entry_inside(patches_dir, l.0@), l.1))
}

impl PatchSeries {
    /// Builds the series from the entries of a series file, in order, each
    /// with whether its file is on disk: every entry is joined to the
    /// patches directory and must stay inside it, then its file must exist;
    /// the first entry that fails is reported. The series keeps each entry
    /// relative to the patches directory.
    pub fn from_entries(patches_dir: String, listed: &Vec<(String, bool)>) -> (res: Result<PatchSeries, SeriesError>)
        ensures
            match first_failure(listed_flags(patches_dir@, listed@)) {
                Some(e) => res == Err::<PatchSeries, SeriesError>(e),
                None => res matches Ok(series) && series.dir() == patches_dir@ && series@
                    == listed@.map_values(|l: (String, bool)| entry_relative(patches_dir@, l.0@))
                    && series.relative() == Seq::new(listed@.len(), |j: int| true),
            },
    {
        let mut checks: Vec<EntryCheck> = Vec::new();
        let n = listed.len();
        let mut i: usize = 0;
        while i < n
            invariant
                n == listed@.len(),
                0 <= i <= n,
                checks@.len() == i,
                forall|j: int| 0 <= j < i ==> {
                    &&& (#[trigger] checks@[j]).inside == entry_inside(patches_dir@, listed@[j].0@)
                    &&& checks@[j].exists == listed@[j].1
                    &&& checks@[j].inside ==> checks@[j].relative@ == entry_relative(
                        patches_dir@,
                        listed@[j].0@,
                    )
                },
            decreases n - i,
        {
            let c = check_entry(patches_dir.as_str(), listed[i].0.as_str(), listed[i].1);
            checks.push(c);
            i = i + 1;
        }
        assert(check_flags(checks@) =~= listed_flags(patches_dir@, listed@));
        let ghost flags = listed_flags(patches_dir@, listed@);
        let res = PatchSeries::new(patches_dir, checks);
        proof {
            if first_failure(flags) is None {
                lemma_no_failure_all_inside(flags);
                assert(checks@.map_values(|c: EntryCheck| c.relative@) =~= listed@.map_values(
                    |l: (String, bool)| entry_relative(patches_dir@, l.0@),
                )) by {
                    assert forall|j: int| 0 <= j < n implies checks@[j].inside by {
                        assert(flags[j].0 == checks@[j].inside);
                    }
                }
            }
        }
        res
    }
}

/// Where no check fails, every entry stays inside the directory.
proof fn lemma_no_failure_all_inside(flags: Seq<(bool, bool)>)
    requires
        first_failure(flags) is None,
    ensures
        forall|j: int| 0 <= j < flags.len() ==> (#[trigger] flags[j]).0 && flags[j].1,
    decreases flags.len(),
{
    if flags.len() > 0 {
        lemma_no_failure_all_inside(flags.drop_last());
        assert forall|j: int| 0 <= j < flags.len() implies (#[trigger] flags[j]).0 && flags[j].1 by {
            if j < flags.len() - 1 {
                assert(flags.drop_last()[j] == flags[j]);
            }
        }
    }
}

/// A failure found in a prefix of the checks is the failure of the whole.
proof fn lemma_first_failure_prefix(flags: Seq<(bool, bool)>, len: int)
    requires
        0 <= len <= flags.len(),
        first_failure(flags.take(len)) is Some,
    ensures
        first_failure(flags) == first_failure(flags.take(len)),
    decreases flags.len() - len,
{
    if len < flags.len() {
        assert(flags.take(len + 1).drop_last() =~= flags.take(len));
        lemma_first_failure_prefix(flags, len + 1);
    } else {
        assert(flags.take(len) =~= flags);
    }
}

impl PatchSeries {
    /// Appends the patch file at `path` to the end of the series; `exists`
    /// says whether the file is on disk, and a missing file is refused. A
    /// file inside the patches directory is kept by its name relative to the
    /// directory; one outside it, by its path.
    pub fn push_patch(&mut self, path: String, exists: bool) -> (res: Result<(), SeriesError>)
        ensures
            exists ==> res is Ok && final(self)@ == old(self)@.push(pushed_name(old(self).dir(), path@))
                && final(self).relative() == old(self).relative().push(
                path_has_prefix(path@, old(self).dir()),
            ),
            !exists ==> res == Err::<(), SeriesError>(SeriesError::PushMissing) && final(self)@
                == old(self)@ && final(self).relative() == old(self).relative(),
            final(self).dir() == old(self).dir(),
    {
        if !exists {
            return Err(SeriesError::PushMissing);
        }
        let entry = match relative_path(self.patches_dir.as_str(), path.as_str()) {
            Some(r) => (r, true),
            None => (path, false),
        };
        let ghost before = self.patches@;
        self.patches.push_back(entry);
        assert(self.patches@.map_values(|p: (String, bool)| p.0@) =~= before.map_values(
            |p: (String, bool)| p.0@,
        ).push(entry.0@));
        assert(self.patches@.map_values(|p: (String, bool)| p.1) =~= before.map_values(
            |p: (String, bool)| p.1,
        ).push(entry.1));
        Ok(())
    }

    /// Takes the first patch off the series and gives the path of its file,
    /// or `None` when the series is empty.
    pub fn consume_patch(&mut self) -> (res: Option<String>)
        ensures
            old(self)@.len() == 0 ==> res is None && final(self)@ == old(self)@,
            old(self)@.len() > 0 ==> (res matches Some(p) && p@ == entry_file(
                old(self).dir(),
                old(self)@[0],
                old(self).relative()[0],
            ) && final(self)@ == old(self)@.drop_first() && final(self).relative() == old(
                self,
            ).relative().drop_first()),
            final(self).dir() == old(self).dir(),
    {
        let ghost before = self.patches@;
        match self.patches.pop_front() {
            None => None,
            Some((name, relative)) => {
                assert(self.patches@.map_values(|p: (String, bool)| p.0@) =~= before.map_values(
                    |p: (String, bool)| p.0@,
                ).drop_first());
                assert(self.patches@.map_values(|p: (String, bool)| p.1) =~= before.map_values(
                    |p: (String, bool)| p.1,
                ).drop_first());
                if relative {
                    Some(entry_path(self.patches_dir.as_str(), name.as_str()))
                } else {
                    Some(name)
                }
            },
        }
    }

    /// The number of patch files in the series.
    pub fn len(&self) -> (res: usize)
        ensures
            res == self@.len(),
    {
        self.patches.len()
    }

    /// The name of the patch file at position `i`.
    pub fn get(&self, i: usize) -> (res: &String)
        requires
            i < self@.len(),
        ensures
            res@ == self@[i as int],
    {
        &self.patches[i].0
    }

    /// The path of the patch file at position `i`.
    pub fn file(&self, i: usize) -> (res: String)
        requires
            i < self@.len(),
        ensures
            res@ == entry_file(self.dir(), self@[i as int], self.relative()[i as int]),
    {
        let (name, relative) = &self.patches[i];
        if *relative {
            entry_path(self.patches_dir.as_str(), name.as_str())
        } else {
            let mut out = String::new();
            push_str(&mut out, name.as_str());
            out
        }
    }

    /// The directory that the patch files are relative to.
    pub fn patches_dir(&self) -> (res: &String)
        ensures
            res@ == self.dir(),
    {
        &self.patches_dir
    }

    /// The content to write to the series file: each patch file, relative
    /// to the patches directory, followed by a newline. A patch file kept by
    /// a path outside the directory cannot be listed: the first such one is
    /// reported as `OutsideDir` with its position.
    pub fn series_content(&self) -> (res: Result<String, SeriesError>)
        ensures
            (res is Ok) == (forall|k: int| 0 <= k < self@.len() ==> #[trigger] self.relative()[k]),
            res matches Ok(t) ==> t@ == series_text(self@),
            res matches Err(e) ==> exists|k: int|
                0 <= k < self@.len() && !#[trigger] self.relative()[k] && e == SeriesError::OutsideDir(
                    k as usize,
                ) && forall|j: int| 0 <= j < k ==> self.relative()[j],
    {
        let mut out = String::new();
        let n = self.patches.len();
        let mut i: usize = 0;
        let ghost names = self@;
        let ghost rel = self.relative();
        assert(names.take(0) =~= Seq::<Seq<char>>::empty());
        while i < n
            invariant
                n == names.len(),
                n == rel.len(),
                names == self@,
                rel == self.relative(),
                0 <= i <= n,
                out@ == series_text(names.take(i as int)),
                forall|j: int| 0 <= j < i ==> rel[j],
            decreases n - i,
        {
            let (p, relative) = &self.patches[i];
            assert(p@ == names[i as int]);
            assert(*relative == rel[i as int]);
            if !*relative {
                return Err(SeriesError::OutsideDir(i));
            }
            let pv = chars_of(p.as_str());
            push_range(&mut out, &pv, 0, pv.len());
            push_char(&mut out, '\n');
            assert(names.take(i + 1).drop_last() =~= names.take(i as int));
            assert(pv@.subrange(0, pv@.len() as int) =~= pv@);
            assert(out@ =~= series_text(names.take(i as int)) + names[i as int] + seq!['\n']);
            i = i + 1;
        }
        assert(names.take(n as int) =~= names);
        Ok(out)
    }
}

proof fn lemma_pieces_append(t: Seq<char>, x: Seq<char>)
    requires
        forall|k: int| 0 <= k < x.len() ==> x[k] != '\n',
    ensures
        newline_pieces(t + x) == newline_pieces(t).update(
            newline_pieces(t).len() - 1,
            newline_pieces(t).last() + x,
        ),
    decreases x.len(),
{
    lemma_pieces_nonempty(t);
    let p = newline_pieces(t);
    if x.len() == 0 {
        assert(t + x =~= t);
        assert(p.last() + x =~= p.last());
        assert(p.update(p.len() - 1, p.last()) =~= p);
    } else {
        let y = x.drop_last();
        lemma_pieces_append(t, y);
        assert((t + x).drop_last() =~= t + y);
        assert((t + x).last() == x.last());
        assert((p.last() + y).push(x.last()) =~= p.last() + x);
        let q = newline_pieces(t + y);
        assert(q.len() == p.len());
        assert(q.last() == p.last() + y);
        assert(q.update(q.len() - 1, q.last().push(x.last())) =~= p.update(
            p.len() - 1,
            p.last() + x,
        ));
    }
}

proof fn lemma_pieces_of_text(names: Seq<Seq<char>>)
    requires
        forall|k: int| 0 <= k < names.len() ==> #[trigger] is_listable(names[k]),
    ensures
        newline_pieces(series_text(names)) == names.push(Seq::<char>::empty()),
    decreases names.len(),
{
    if names.len() == 0 {
        assert(newline_pieces(Seq::<char>::empty()) =~= seq![Seq::<char>::empty()]);
        assert(names.push(Seq::<char>::empty()) =~= seq![Seq::<char>::empty()]);
    } else {
        let init = names.drop_last();
        let x = names.last();
        assert(is_listable(names[names.len() - 1]));
        assert forall|k: int| 0 <= k < init.len() implies #[trigger] is_listable(init[k]) by {
            assert(init[k] == names[k]);
        }
        lemma_pieces_of_text(init);
        let t = series_text(init);
        lemma_pieces_append(t, x);
        let tx = t + x;
        let full = series_text(names);
        assert(full =~= tx.push('\n'));
        assert(full.drop_last() =~= tx);
        assert(Seq::<char>::empty() + x =~= x);
        assert(init.push(Seq::<char>::empty()).update(init.len() as int, x) =~= names);
        assert(names.push(Seq::<char>::empty()).drop_last() =~= names);
    }
}

proof fn lemma_kept_listable(names: Seq<Seq<char>>)
    requires
        forall|k: int| 0 <= k < names.len() ==> #[trigger] is_listable(names[k]),
    ensures
        kept_entries(names) == names,
    decreases names.len(),
{
    if names.len() > 0 {
        let init = names.drop_last();
        assert(is_listable(names[names.len() - 1]));
        assert forall|k: int| 0 <= k < init.len() implies #[trigger] is_listable(init[k]) by {
            assert(init[k] == names[k]);
        }
        lemma_kept_listable(init);
        assert(init.push(names.last()) =~= names);
    }
}

/// Writing a series and reading it back gives the same entries, provided
/// each entry can be listed (not empty, no newline, no white space at
/// either end).
pub proof fn lemma_series_text_roundtrip(names: Seq<Seq<char>>)
    requires
        forall|k: int| 0 <= k < names.len() ==> #[trigger] is_listable(names[k]),
    ensures
        series_entries(series_text(names)) == names,
{
    lemma_pieces_of_text(names);
    let ps = names.push(Seq::<char>::empty());
    assert(ps.drop_last() =~= names);
    assert(trim(Seq::<char>::empty()) =~= Seq::<char>::empty()) by {
        assert(Seq::<char>::empty().skip(0) =~= Seq::<char>::empty());
    }
    lemma_kept_listable(names);
}

proof fn lemma_pieces_no_newline(s: Seq<char>)
    ensures
        forall|i: int, k: int|
            0 <= i < newline_pieces(s).len() && 0 <= k < newline_pieces(s)[i].len() ==> #[trigger] newline_pieces(s)[i][k] != '\n',
    decreases s.len(),
{
    if s.len() > 0 {
        let t = s.drop_last();
        lemma_pieces_no_newline(t);
        lemma_pieces_nonempty(t);
        let p = newline_pieces(t);
        let q = newline_pieces(s);
        assert forall|i: int, k: int| 0 <= i < q.len() && 0 <= k < q[i].len() implies #[trigger] q[i][k] != '\n' by {
            if s.last() == '\n' {
                if i < p.len() {
                    assert(q[i] == p[i]);
                }
            } else {
                if i < p.len() - 1 {
                    assert(q[i] == p[i]);
                } else {
                    assert(q[i] == p.last().push(s.last()));
                    if k < p.last().len() {
                        assert(q[i][k] == p[p.len() - 1][k]);
                    }
                }
            }
        }
    }
}

proof fn lemma_kept_entries_listable(pieces: Seq<Seq<char>>)
    requires
        forall|i: int, k: int| 0 <= i < pieces.len() && 0 <= k < pieces[i].len() ==> #[trigger] pieces[i][k] != '\n',
    ensures
        forall|i: int| 0 <= i < kept_entries(pieces).len() ==> #[trigger] is_listable(kept_entries(pieces)[i]),
    decreases pieces.len(),
{
    if pieces.len() > 0 {
        let init = pieces.drop_last();
        assert forall|i: int, k: int| 0 <= i < init.len() && 0 <= k < init[i].len() implies #[trigger] init[i][k] != '\n' by {
            assert(init[i] == pieces[i]);
        }
        lemma_kept_entries_listable(init);
        let x = pieces.last();
        let t = trim(x);
        lemma_trim_idempotent(x);
        let a = choose|a: int| 0 <= a && a + t.len() <= x.len() && t == #[trigger] x.subrange(a, a + t.len());
        assert forall|k: int| 0 <= k < t.len() implies t[k] != '\n' by {
            assert(t[k] == x[a + k]);
            assert(pieces[pieces.len() - 1][a + k] != '\n');
        }
        let kept = kept_entries(pieces);
        assert forall|i: int| 0 <= i < kept.len() implies #[trigger] is_listable(kept[i]) by {
            if i < kept_entries(init).len() {
                assert(kept[i] == kept_entries(init)[i]);
            }
        }
    }
}

/// The entries read from any series file can be listed again: writing them
/// and reading the result gives the same entries.
pub proof fn lemma_series_reload(content: Seq<char>)
    ensures
        series_entries(series_text(series_entries(content))) == series_entries(content),
{
    lemma_pieces_no_newline(content);
    lemma_kept_entries_listable(newline_pieces(content));
    lemma_series_text_roundtrip(series_entries(content));
}

/// Checks that all pass give no failure.
proof fn lemma_all_pass(flags: Seq<(bool, bool)>)
    requires
        forall|j: int| 0 <= j < flags.len() ==> (#[trigger] flags[j]).0 && flags[j].1,
    ensures
        first_failure(flags) is None,
    decreases flags.len(),
{
    if flags.len() > 0 {
        let init = flags.drop_last();
        assert forall|j: int| 0 <= j < init.len() implies (#[trigger] init[j]).0 && init[j].1 by {
            assert(init[j] == flags[j]);
        }
        lemma_all_pass(init);
        assert(flags.last() == flags[flags.len() - 1]);
    }
}

/// Saving a series and loading the saved file again gives back the same
/// series: the file lists exactly the series' names, and when each of those
/// is found on disk, `from_entries` checks them all through and keeps the
/// same names. This holds when every patch file is kept relative to the
/// patches directory and each name is one that the series file and the
/// directory give back unchanged: listable, and, joined to the directory,
/// inside it and taken back relative to it as the same name.
pub proof fn lemma_series_save_reload(ps: PatchSeries, reloaded: Seq<(String, bool)>)
    requires
        forall|k: int| 0 <= k < ps@.len() ==> #[trigger] ps.relative()[k],
        forall|k: int|
            0 <= k < ps@.len() ==> #[trigger] is_listable(ps@[k]) && entry_inside(ps.dir(), ps@[k])
                && entry_relative(ps.dir(), ps@[k]) == ps@[k],
        reloaded.len() == series_entries(series_text(ps@)).len(),
        forall|k: int|
            0 <= k < reloaded.len() ==> (#[trigger] reloaded[k]).0@ == series_entries(
                series_text(ps@),
            )[k] && reloaded[k].1,
    ensures
        series_entries(series_text(ps@)) == ps@,
        first_failure(listed_flags(ps.dir(), reloaded)) is None,
        reloaded.map_values(|l: (String, bool)| entry_relative(ps.dir(), l.0@)) == ps@,
{
    let names = ps@;
    assert forall|k: int| 0 <= k < names.len() implies #[trigger] is_listable(names[k]) by {
        assert(is_listable(ps@[k]));
    }
    lemma_series_text_roundtrip(names);
    let flags = listed_flags(ps.dir(), reloaded);
    assert forall|j: int| 0 <= j < flags.len() implies (#[trigger] flags[j]).0 && flags[j].1 by {
        assert(reloaded[j].0@ == names[j]);
        assert(is_listable(ps@[j]));
    }
    lemma_all_pass(flags);
    assert forall|j: int| 0 <= j < names.len() implies reloaded.map_values(
        |l: (String, bool)| entry_relative(ps.dir(), l.0@),
    )[j] == names[j] by {
        assert(reloaded[j].0@ == names[j]);
        assert(is_listable(ps@[j]));
    }
    assert(reloaded.map_values(|l: (String, bool)| entry_relative(ps.dir(), l.0@)) =~= names);
}

} // verus!

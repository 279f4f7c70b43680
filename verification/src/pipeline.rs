//! The run: file contents go in one by one, manifest rows and finished
//! archives come out.

use vstd::prelude::*;
use crate::archive::{entry_attributes, stored, zip_image, ArchiveWriter, ENTRY_LIMIT};
use crate::entry::FileEntry;
use crate::error::PackError;
use crate::manifest::{
    csv_record, header_line, lemma_manifest_grows, manifest_bytes, ManifestRow,
};
use crate::naming::{archive_name, archive_name_of};
use crate::partition::{
    divide_files, group_count, group_len, groups_of, lemma_group_bounds,
    lemma_group_count_is_ceiling, lemma_group_count_unique, lemma_groups_flatten,
    lemma_position_of_slot, lemma_slot_of_position, nested_view,
};

verus! {

/// The two counters of a run: groups whose archive is finished, and files
/// that are in their archive and in the manifest.
#[derive(Clone, Copy, Debug, PartialEq, Eq, Structural)]
pub struct Progress {
    pub groups: usize,
    pub files: usize,
}

/// A finished archive: its file name and its bytes.
#[derive(Clone, Debug, PartialEq, Eq)]
pub struct Archive {
    pub name: String,
    pub image: Vec<u8>,
}

/// What one accepted file gives: its manifest row, the row's encoded line,
/// the archive if this file was the last of its group, and the counters
/// after it.
#[derive(Clone, Debug, PartialEq, Eq)]
pub struct Step {
    pub row: ManifestRow,
    pub line: Vec<u8>,
    pub archive: Option<Archive>,
    pub progress: Progress,
}

/// The manifest row of the file at position `m`: the archive of its group,
/// and its name.
pub open spec fn row_at(base: Seq<char>, files: Seq<FileEntry>, k: nat, m: int) -> (
    Seq<char>,
    Seq<char>,
) {
    (archive_name_of(base, (m / (k as int)) as nat), files[m].name@)
}

/// The rows of a whole run, in the order of the files.
pub open spec fn rows_of(base: Seq<char>, files: Seq<FileEntry>, k: nat) -> Seq<
    (Seq<char>, Seq<char>),
> {
    Seq::new(files.len(), |m: int| row_at(base, files, k, m))
}

/// The first `count` entries of the archive of group `i`: the files of the
/// group in their order, each with the content supplied for it.
pub open spec fn archive_entries(
    files: Seq<FileEntry>,
    data: Seq<Seq<u8>>,
    k: nat,
    i: int,
    count: nat,
) -> Seq<(Seq<char>, (u16, u32, u16, u16), Seq<u8>)> {
    Seq::new(count, |j: int| stored(files[i * k + j].name@, data[i * k + j]))
}

/// The entries of every archive of a whole run.
pub open spec fn archives_of(files: Seq<FileEntry>, data: Seq<Seq<u8>>, k: nat) -> Seq<
    Seq<(Seq<char>, (u16, u32, u16, u16), Seq<u8>)>,
> {
    Seq::new(
        group_count(files.len(), k),
        |i: int| archive_entries(files, data, k, i, group_len(files.len(), k, i)),
    )
}

/// Number of groups that are finished once `written` of `n` files are in.
pub open spec fn completed(n: nat, k: nat, written: nat) -> nat {
    if written >= n {
        group_count(n, k)
    } else {
        written / k
    }
}

/// Number of entries in the archive that is still open once `written` of
/// `n` files are in.
pub open spec fn open_entries(n: nat, k: nat, written: nat) -> nat {
    if written >= n {
        0
    } else {
        written % k
    }
}

/// Whether the file at position `m` is the last of its group.
pub open spec fn closes_group(n: nat, k: nat, m: int) -> bool {
    m + 1 == n || (m + 1) % (k as int) == 0
}

/// How the counters move when the file at slot `item` of group `g` goes in.
proof fn lemma_step(n: nat, k: nat, g: int, item: int)
    requires
        k > 0,
        0 <= g < group_count(n, k),
        0 <= item < group_len(n, k, g),
    ensures
        0 <= g * k + item < n,
        (g * k + item) / (k as int) == g,
        item + 1 == group_len(n, k, g) <==> closes_group(n, k, g * k + item),
        item + 1 == group_len(n, k, g) ==> completed(n, k, (g * k + item + 1) as nat) == g + 1
            && open_entries(n, k, (g * k + item + 1) as nat) == 0,
        item + 1 < group_len(n, k, g) ==> completed(n, k, (g * k + item + 1) as nat) == g
            && open_entries(n, k, (g * k + item + 1) as nat) == item + 1,
{
    let m = g * k + item;
    lemma_position_of_slot(n, k, g, item);
    lemma_group_bounds(n, k, g);
    if item + 1 == group_len(n, k, g) {
        if g + 1 < group_count(n, k) {
            assert((g + 1) * k == g * k + k) by (nonlinear_arith);
            lemma_group_bounds(n, k, g + 1);
            vstd::arithmetic::div_mod::lemma_fundamental_div_mod_converse(
                m + 1,
                k as int,
                g + 1,
                0,
            );
        }
    } else {
        vstd::arithmetic::div_mod::lemma_fundamental_div_mod_converse(
            m + 1,
            k as int,
            g,
            item + 1,
        );
    }
}

/// A run in progress. It holds the groups, the archive that is open, and
/// how far the run has come. Files are accepted in the order of the list;
/// the caller reads each one and hands its content in.
pub struct Packer {
    base: String,
    groups: Vec<Vec<FileEntry>>,
    group: usize,
    item: usize,
    written: usize,
    total: usize,
    writer: ArchiveWriter,
    files: Ghost<Seq<FileEntry>>,
    chunk: Ghost<nat>,
    supplied: Ghost<Seq<Seq<u8>>>,
}

impl Packer {
    /// The files of the run, in the order in which they were matched.
    pub closed spec fn files(&self) -> Seq<FileEntry> {
        self.files@
    }

    /// The base name of the destination.
    pub closed spec fn base(&self) -> Seq<char> {
        self.base@
    }

    /// The largest number of files in one archive.
    pub closed spec fn chunk(&self) -> nat {
        self.chunk@
    }

    /// The number of files accepted so far.
    pub closed spec fn written(&self) -> nat {
        self.written as nat
    }

    /// The contents accepted so far, in order.
    pub closed spec fn supplied(&self) -> Seq<Seq<u8>> {
        self.supplied@
    }

    /// The run is consistent: the groups are those of the files, the
    /// counters agree with the number of files accepted, and the open
    /// archive is ready for the next entry and holds exactly the files of
    /// the current group accepted so far, in order, with the contents
    /// supplied for them.
    #[verifier::type_invariant]
    spec fn wf(&self) -> bool {
        let n = self.files@.len();
        let k = self.chunk@;
        &&& k > 0
        &&& n == self.total
        &&& nested_view(self.groups@) == groups_of(self.files@, k)
        &&& self.supplied@.len() == self.written
        &&& self.written <= n
        &&& self.group == completed(n, k, self.written as nat)
        &&& self.item == open_entries(n, k, self.written as nat)
        &&& self.writer.usable()
        &&& self.writer.entries() == archive_entries(
            self.files@,
            self.supplied@,
            k,
            self.group as int,
            self.item as nat,
        )
    }

    /// A run over `files`, at most `file_count` of them per archive, for a
    /// destination whose base name is `base`. A `file_count` of zero is
    /// refused.
    pub fn new(files: Vec<FileEntry>, base: String, file_count: usize) -> (res: Result<
        Packer,
        PackError,
    >)
        ensures
            file_count == 0 ==> (res matches Err(e) && e == PackError::InvalidChunkSize),
            file_count > 0 ==> (res matches Ok(packer) && packer.files() == files@ && packer.base()
                == base@ && packer.chunk() == file_count && packer.written() == 0
                && packer.supplied() == Seq::<Seq<u8>>::empty()),
    {
        let ghost all = files@;
        let ghost k = file_count as nat;
        let total = files.len();
        match divide_files(files, file_count) {
            Err(e) => Err(e),
            Ok(groups) => {
                let writer = ArchiveWriter::new();
                proof {
                    lemma_group_count_is_ceiling(all.len(), k);
                    vstd::arithmetic::div_mod::lemma_basic_div(0, k as int);
                    vstd::arithmetic::div_mod::lemma_small_mod(0, k);
                    assert(writer.entries() =~= archive_entries(
                        all,
                        Seq::<Seq<u8>>::empty(),
                        k,
                        0,
                        0,
                    ));
                }
                Ok(
                    Packer {
                        base,
                        groups,
                        group: 0,
                        item: 0,
                        written: 0,
                        total,
                        writer,
                        files: Ghost(all),
                        chunk: Ghost(k),
                        supplied: Ghost(Seq::empty()),
                    },
                )
            },
        }
    }

    /// The file whose content is wanted next, or `None` once every file
    /// has been accepted.
    pub fn pending(&self) -> (next: Option<&FileEntry>)
        ensures
            self.written() <= self.files().len(),
            self.supplied().len() == self.written(),
            self.chunk() > 0,
            self.written() < self.files().len() ==> next == Some(
                &self.files()[self.written() as int],
            ),
            self.written() == self.files().len() ==> next is None,
    {
        proof {
            use_type_invariant(self);
            assert(nested_view(self.groups@).len() == self.groups.len());
            if self.written < self.files@.len() {
                self.lemma_cursor();
            }
        }
        if self.group < self.groups.len() {
            Some(&self.groups[self.group][self.item])
        } else {
            None
        }
    }

    /// The name of the archive that the pending file begins, or `None`
    /// where that file goes into an archive already begun or no file is
    /// pending.
    pub fn opens(&self) -> (name: Option<String>)
        ensures
            name is Some <==> self.written() < self.files().len() && open_entries(
                self.files().len(),
                self.chunk(),
                self.written(),
            ) == 0,
            name matches Some(text) ==> text@ == archive_name_of(
                self.base(),
                completed(self.files().len(), self.chunk(), self.written()),
            ),
    {
        proof {
            use_type_invariant(self);
            assert(nested_view(self.groups@).len() == self.groups.len());
            if self.written < self.files@.len() {
                self.lemma_cursor();
            }
        }
        if self.group < self.groups.len() && self.item == 0 {
            Some(archive_name(self.base.as_str(), self.group))
        } else {
            None
        }
    }

    /// The counters as they will stand at the end of the run: the number
    /// of archives and the number of files.
    pub fn totals(&self) -> (totals: Progress)
        ensures
            totals.files == self.files().len(),
            totals.groups == group_count(self.files().len(), self.chunk()),
    {
        proof {
            use_type_invariant(self);
            assert(nested_view(self.groups@).len() == self.groups.len());
        }
        Progress { groups: self.groups.len(), files: self.total }
    }

    /// The counters as they stand.
    pub fn progress(&self) -> (progress: Progress)
        ensures
            progress.files == self.written(),
            progress.groups == completed(self.files().len(), self.chunk(), self.written()),
    {
        proof {
            use_type_invariant(self);
        }
        Progress { groups: self.group, files: self.written }
    }

    /// Where the cursor stands while files are left.
    proof fn lemma_cursor(&self)
        requires
            self.wf(),
            self.written < self.files@.len(),
        ensures
            self.groups.len() == group_count(self.files@.len(), self.chunk@),
            self.group < self.groups.len(),
            self.item < self.groups[self.group as int].len(),
            self.written == self.group * self.chunk@ + self.item,
            self.groups[self.group as int]@[self.item as int] == self.files@[self.written as int],
            self.groups[self.group as int].len() == group_len(
                self.files@.len(),
                self.chunk@,
                self.group as int,
            ),
    {
        let n = self.files@.len();
        let k = self.chunk@;
        lemma_slot_of_position(n, k, self.written as int);
        lemma_group_bounds(n, k, self.group as int);
        assert(nested_view(self.groups@).len() == group_count(n, k));
        assert(self.groups[self.group as int]@ == nested_view(self.groups@)[self.group as int]);
    }

    /// Takes the content of the pending file. The file becomes the next
    /// entry of the open archive and gets its manifest row; if it is the
    /// last of its group, the archive is closed and handed out, and the run
    /// comes back one file further. Content of more than `ENTRY_LIMIT`
    /// bytes is refused: then the run comes back as it was, with the open
    /// archive and all that it holds, so that `abort` can still close it.
    pub fn accept(self, data: &[u8]) -> (res: Result<(Packer, Step), (Packer, PackError)>)
        requires
            self.written() < self.files().len(),
        ensures
            res is Ok <==> data@.len() <= ENTRY_LIMIT,
            res matches Err((run, e)) ==> run == self && e == PackError::Archive,
            res matches Ok((next, step)) ==> ({
                let files = self.files();
                let base = self.base();
                let k = self.chunk();
                let m = self.written() as int;
                let i = m / (k as int);
                &&& next.files() == files
                &&& next.base() == base
                &&& next.chunk() == k
                &&& next.written() == m + 1
                &&& next.supplied() == self.supplied().push(data@)
                &&& step.row@ == row_at(base, files, k, m)
                &&& step.line@ == csv_record(step.row@.0, step.row@.1)
                &&& step.archive is Some <==> closes_group(files.len(), k, m)
                &&& step.archive matches Some(archive) ==> archive.name@ == archive_name_of(
                    base,
                    i as nat,
                ) && archive.image@ == zip_image(
                    archive_entries(files, next.supplied(), k, i, group_len(files.len(), k, i)),
                )
                &&& step.progress.files == m + 1
                &&& step.progress.groups == completed(files.len(), k, (m + 1) as nat)
            }),
    {
        if data.len() > ENTRY_LIMIT {
            return Err((self, PackError::Archive));
        }
        let ghost n = self.files@.len();
        let ghost k = self.chunk@;
        let ghost g = self.group as int;
        proof {
            use_type_invariant(&self);
            self.lemma_cursor();
            lemma_step(n, k, g, self.item as int);
        }
        let name = self.groups[self.group][self.item].name.clone();
        let size = self.groups[self.group].len();
        let Packer { base, groups, group, item, written, total, writer, files, chunk, supplied } =
            self;
        let mut writer = writer;
        writer.add(name.as_str(), data).unwrap();
        let row = ManifestRow::new(archive_name(base.as_str(), group), name);
        let line = row.line().unwrap();
        let ghost fed = supplied@.push(data@);
        assert(writer.entries() =~= archive_entries(files@, fed, k, g, (item + 1) as nat));
        if item + 1 == size {
            let image = writer.finish().unwrap();
            let archive = Archive { name: archive_name(base.as_str(), group), image };
            let fresh = ArchiveWriter::new();
            assert(fresh.entries() =~= archive_entries(files@, fed, k, g + 1, 0));
            let progress = Progress { groups: group + 1, files: written + 1 };
            let next = Packer {
                base,
                groups,
                group: group + 1,
                item: 0,
                written: written + 1,
                total,
                writer: fresh,
                files,
                chunk,
                supplied: Ghost(fed),
            };
            Ok((next, Step { row, line, archive: Some(archive), progress }))
        } else {
            let progress = Progress { groups: group, files: written + 1 };
            let next = Packer {
                base,
                groups,
                group,
                item: item + 1,
                written: written + 1,
                total,
                writer,
                files,
                chunk,
                supplied: Ghost(fed),
            };
            Ok((next, Step { row, line, archive: None, progress }))
        }
    }

    /// Ends the run where it stands. The archive that is open, if it holds
    /// any entry, is closed with the entries it has and handed out, so that
    /// every manifest row written so far names an archive that holds its
    /// file. Nothing is handed out only where no entry is open.
    pub fn abort(self) -> (res: Result<Option<Archive>, PackError>)
        ensures
            res is Ok,
            res matches Ok(None) <==> open_entries(
                self.files().len(),
                self.chunk(),
                self.written(),
            ) == 0,
            res matches Ok(Some(archive)) ==> ({
                let n = self.files().len();
                let k = self.chunk();
                let i = completed(n, k, self.written());
                &&& archive.name@ == archive_name_of(self.base(), i)
                &&& archive.image@ == zip_image(
                    archive_entries(
                        self.files(),
                        self.supplied(),
                        k,
                        i as int,
                        open_entries(n, k, self.written()),
                    ),
                )
            }),
    {
        proof {
            use_type_invariant(&self);
        }
        if self.item == 0 {
            return Ok(None);
        }
        let name = archive_name(self.base.as_str(), self.group);
        match self.writer.finish() {
            Ok(image) => Ok(Some(Archive { name, image })),
            Err(e) => Err(e),
        }
    }
}

/// How the counters move with the file at position `m`: it lies in group
/// `m / k`; if it is the last of that group, one more group is finished
/// and no archive is open, else the open archive has one more entry.
pub proof fn lemma_progress(n: nat, k: nat, m: int)
    requires
        k > 0,
        0 <= m < n,
    ensures
        completed(n, k, m as nat) == m / (k as int),
        completed(n, k, m as nat) < group_count(n, k),
        closes_group(n, k, m) ==> completed(n, k, (m + 1) as nat) == m / (k as int) + 1
            && open_entries(n, k, (m + 1) as nat) == 0 && (m / (k as int)) * k + group_len(
            n,
            k,
            m / (k as int),
        ) == m + 1,
        !closes_group(n, k, m) ==> completed(n, k, (m + 1) as nat) == m / (k as int)
            && open_entries(n, k, (m + 1) as nat) == open_entries(n, k, m as nat) + 1,
{
    lemma_slot_of_position(n, k, m);
    lemma_step(n, k, m / (k as int), m % (k as int));
}

/// The archives of a run: there are `n / k` of them, rounded up, and
/// archive `i` holds `k` entries or, if fewer files are left, the
/// `n - i * k` that remain.
pub proof fn lemma_archive_sizes(files: Seq<FileEntry>, data: Seq<Seq<u8>>, k: nat)
    requires
        k > 0,
    ensures
        archives_of(files, data, k).len() == group_count(files.len(), k),
        group_count(files.len(), k) * k >= files.len(),
        group_count(files.len(), k) > 0 ==> (group_count(files.len(), k) - 1) * k < files.len(),
        files.len() == 0 ==> archives_of(files, data, k).len() == 0,
        forall|i: int|
            0 <= i < group_count(files.len(), k) ==> (#[trigger] archives_of(
                files,
                data,
                k,
            )[i]).len() == vstd::math::min(k as int, files.len() - i * k),
{
    lemma_group_count_is_ceiling(files.len(), k);
    assert forall|i: int| 0 <= i < group_count(files.len(), k) implies (#[trigger] archives_of(
        files,
        data,
        k,
    )[i]).len() == vstd::math::min(k as int, files.len() - i * k) by {
        lemma_group_bounds(files.len(), k, i);
    }
}

/// Entries keep the order of the files: within archive `i`, the entry at
/// slot `a` is the file at position `i * k + a` with its content, so an
/// entry that comes earlier in the archive comes earlier in the list.
pub proof fn lemma_archive_keeps_order(
    files: Seq<FileEntry>,
    data: Seq<Seq<u8>>,
    k: nat,
    i: int,
    a: int,
    b: int,
)
    requires
        k > 0,
        0 <= i < group_count(files.len(), k),
        0 <= a < b < archives_of(files, data, k)[i].len(),
    ensures
        0 <= i * k + a < i * k + b < files.len(),
        archives_of(files, data, k)[i][a] == stored(files[i * k + a].name@, data[i * k + a]),
        archives_of(files, data, k)[i][b] == stored(files[i * k + b].name@, data[i * k + b]),
{
    lemma_position_of_slot(files.len(), k, i, a);
    lemma_position_of_slot(files.len(), k, i, b);
}

/// An archive holds its group and nothing else: archive `i` has as many
/// entries as group `i` has files, and its entry at slot `j` bears the name
/// of the file at slot `j` of the group, the fixed attributes (stored,
/// with the fixed permissions and date), and the content supplied for that
/// file.
pub proof fn lemma_archive_holds_its_group(
    files: Seq<FileEntry>,
    data: Seq<Seq<u8>>,
    k: nat,
    i: int,
    j: int,
)
    requires
        k > 0,
        0 <= i < group_count(files.len(), k),
        0 <= j < groups_of(files, k)[i].len(),
    ensures
        archives_of(files, data, k)[i].len() == groups_of(files, k)[i].len(),
        archives_of(files, data, k)[i][j] == stored(
            groups_of(files, k)[i][j].name@,
            data[i * k + j],
        ),
        archives_of(files, data, k)[i][j].1 == entry_attributes(),
{
    lemma_group_bounds(files.len(), k, i);
}

/// The pairs of archive name and entry name that archive `i` holds.
pub open spec fn archive_pairs(
    base: Seq<char>,
    i: int,
    entries: Seq<(Seq<char>, (u16, u32, u16, u16), Seq<u8>)>,
) -> Seq<(Seq<char>, Seq<char>)> {
    Seq::new(entries.len(), |j: int| (archive_name_of(base, i as nat), entries[j].0))
}

/// The pairs of archive name and entry name that the archives hold, archive
/// by archive.
pub open spec fn archived_pairs(
    base: Seq<char>,
    archives: Seq<Seq<(Seq<char>, (u16, u32, u16, u16), Seq<u8>)>>,
) -> Seq<(Seq<char>, Seq<char>)> {
    Seq::new(archives.len(), |i: int| archive_pairs(base, i, archives[i])).flatten()
}

/// The manifest agrees with the archives. A finished run has one row per
/// file; every row names one of the archives of the run; and the rows are
/// the pairs of archive name and entry name that the archives hold, in the
/// same order and so also as multisets.
pub proof fn lemma_manifest_matches_archives(
    base: Seq<char>,
    files: Seq<FileEntry>,
    data: Seq<Seq<u8>>,
    k: nat,
)
    requires
        k > 0,
    ensures
        rows_of(base, files, k).len() == files.len(),
        forall|m: int|
            0 <= m < files.len() ==> (#[trigger] rows_of(base, files, k)[m]).0 == archive_name_of(
                base,
                (m / (k as int)) as nat,
            ) && 0 <= m / (k as int) < group_count(files.len(), k),
        rows_of(base, files, k) == archived_pairs(base, archives_of(files, data, k)),
        rows_of(base, files, k).to_multiset() == archived_pairs(
            base,
            archives_of(files, data, k),
        ).to_multiset(),
{
    let rows = rows_of(base, files, k);
    let n = files.len();
    assert forall|m: int| 0 <= m < n implies (#[trigger] rows[m]).0 == archive_name_of(
        base,
        (m / (k as int)) as nat,
    ) && 0 <= m / (k as int) < group_count(n, k) by {
        lemma_slot_of_position(n, k, m);
    }
    let archives = archives_of(files, data, k);
    let held = Seq::new(archives.len(), |i: int| archive_pairs(base, i, archives[i]));
    assert(held =~= groups_of(rows, k)) by {
        assert forall|i: int| 0 <= i < held.len() implies held[i] =~= groups_of(rows, k)[i] by {
            lemma_group_bounds(n, k, i);
            assert forall|j: int| 0 <= j < held[i].len() implies held[i][j] == groups_of(
                rows,
                k,
            )[i][j] by {
                lemma_position_of_slot(n, k, i, j);
            }
        }
    }
    lemma_groups_flatten(rows, k);
}

/// A run that stops early leaves a complete result for the files it took.
/// After `w` files, the rows written are the rows of a whole run over the
/// first `w` files; the finished archives are the first archives of that
/// run; and the open archive, if it has entries, is its last one. So the
/// manifest agrees with the archives at every point of a run, as
/// `lemma_manifest_matches_archives` says of a finished one.
pub proof fn lemma_interrupted_run(
    base: Seq<char>,
    files: Seq<FileEntry>,
    data: Seq<Seq<u8>>,
    k: nat,
    w: nat,
)
    requires
        k > 0,
        w <= files.len(),
        w <= data.len(),
    ensures
        rows_of(base, files, k).take(w as int) == rows_of(base, files.take(w as int), k),
        group_count(w, k) == completed(files.len(), k, w) + if open_entries(files.len(), k, w)
            > 0 {
            1nat
        } else {
            0nat
        },
        forall|i: int|
            0 <= i < completed(files.len(), k, w) ==> #[trigger] archives_of(
                files.take(w as int),
                data.take(w as int),
                k,
            )[i] == archives_of(files, data, k)[i],
        open_entries(files.len(), k, w) > 0 ==> archives_of(
            files.take(w as int),
            data.take(w as int),
            k,
        )[completed(files.len(), k, w) as int] == archive_entries(
            files,
            data,
            k,
            completed(files.len(), k, w) as int,
            open_entries(files.len(), k, w),
        ),
{
    let n = files.len();
    let head = files.take(w as int);
    let fed = data.take(w as int);
    assert(rows_of(base, files, k).take(w as int) =~= rows_of(base, head, k));
    lemma_group_count_is_ceiling(w, k);
    if w == n {
        assert forall|i: int| 0 <= i < group_count(n, k) implies #[trigger] archives_of(
            head,
            fed,
            k,
        )[i] == archives_of(files, data, k)[i] by {
            lemma_group_bounds(n, k, i);
            assert(archives_of(head, fed, k)[i] =~= archives_of(files, data, k)[i]);
        }
    } else {
        let q = (w as int) / (k as int);
        let r = (w as int) % (k as int);
        lemma_slot_of_position(n, k, w as int);
        assert((q + 1) * k == q * k + k) by (nonlinear_arith);
        assert((q - 1) * k == q * k - k) by (nonlinear_arith);
        if r == 0 {
            lemma_group_count_unique(w, k, q as nat);
        } else {
            lemma_group_count_unique(w, k, (q + 1) as nat);
        }
        assert forall|i: int| 0 <= i < q implies #[trigger] archives_of(head, fed, k)[i]
            == archives_of(files, data, k)[i] by {
            lemma_group_bounds(w, k, i);
            lemma_group_bounds(n, k, i);
            assert(i * k + k <= q * k) by (nonlinear_arith)
                requires
                    i + 1 <= q,
                    k > 0,
            ;
            assert(archives_of(head, fed, k)[i] =~= archives_of(files, data, k)[i]);
        }
        if r > 0 {
            lemma_group_bounds(w, k, q);
            assert(archives_of(head, fed, k)[q] =~= archive_entries(files, data, k, q, r as nat));
        }
    }
}

/// A file together with its content.
#[derive(Clone, Debug, PartialEq, Eq)]
pub struct Source {
    pub entry: FileEntry,
    pub content: Vec<u8>,
}

/// The files of `sources`, in order.
pub open spec fn entries_of(sources: Seq<Source>) -> Seq<FileEntry> {
    Seq::new(sources.len(), |i: int| sources[i].entry)
}

/// The contents of `sources`, in order.
pub open spec fn contents_of(sources: Seq<Source>) -> Seq<Seq<u8>> {
    Seq::new(sources.len(), |i: int| sources[i].content@)
}

/// The outcome of a whole run: the archives in the order of their groups,
/// and the encoded manifest.
#[derive(Clone, Debug, PartialEq, Eq)]
pub struct Packed {
    pub archives: Vec<Archive>,
    pub manifest: Vec<u8>,
}

/// Whether every content is one that an entry takes.
pub open spec fn all_fit(data: Seq<Seq<u8>>) -> bool {
    forall|i: int| 0 <= i < data.len() ==> (#[trigger] data[i]).len() <= ENTRY_LIMIT
}

/// Packs files whose contents are at hand, all in one go: the archives of
/// every group and the complete manifest. A `file_count` of zero is
/// refused, and so is a list with a content of more than `ENTRY_LIMIT`
/// bytes; both are found before anything is packed, so a refusal leaves
/// nothing half done. Every other input is packed.
pub fn pack_all(sources: &Vec<Source>, base: String, file_count: usize) -> (res: Result<
    Packed,
    PackError,
>)
    ensures
        res is Ok <==> file_count > 0 && all_fit(contents_of(sources@)),
        res matches Err(e) ==> e == if file_count == 0 {
            PackError::InvalidChunkSize
        } else {
            PackError::Archive
        },
        res matches Ok(packed) ==> ({
            let files = entries_of(sources@);
            let data = contents_of(sources@);
            let k = file_count as nat;
            &&& packed.manifest@ == manifest_bytes(rows_of(base@, files, k))
            &&& packed.archives.len() == group_count(files.len(), k)
            &&& forall|i: int|
                0 <= i < packed.archives.len() ==> (#[trigger] packed.archives[i]).name@
                    == archive_name_of(base@, i as nat) && packed.archives[i].image@ == zip_image(
                    archives_of(files, data, k)[i],
                )
        }),
{
    if file_count == 0 {
        return Err(PackError::InvalidChunkSize);
    }
    let n = sources.len();
    let mut seen: usize = 0;
    while seen < n
        invariant
            n == sources.len(),
            file_count > 0,
            seen <= n,
            forall|i: int|
                0 <= i < seen ==> (#[trigger] contents_of(sources@)[i]).len() <= ENTRY_LIMIT,
        decreases n - seen,
    {
        if sources[seen].content.len() > ENTRY_LIMIT {
            assert(contents_of(sources@)[seen as int].len() > ENTRY_LIMIT);
            return Err(PackError::Archive);
        }
        seen = seen + 1;
    }
    let ghost files = entries_of(sources@);
    let ghost data = contents_of(sources@);
    let ghost k = file_count as nat;
    let ghost name = base@;
    let mut list: Vec<FileEntry> = Vec::new();
    let mut copied: usize = 0;
    while copied < n
        invariant
            n == sources.len(),
            copied <= n,
            list@ == entries_of(sources@).take(copied as int),
        decreases n - copied,
    {
        list.push(sources[copied].entry.duplicate());
        copied = copied + 1;
        assert(list@ =~= entries_of(sources@).take(copied as int));
    }
    assert(list@ =~= files);
    let mut packer = match Packer::new(list, base, file_count) {
        Ok(packer) => packer,
        Err(e) => {
            return Err(e);
        },
    };
    let mut manifest = match header_line() {
        Ok(line) => line,
        Err(e) => {
            return Err(e);
        },
    };
    let mut archives: Vec<Archive> = Vec::new();
    let mut done: usize = 0;
    proof {
        lemma_manifest_grows(Seq::empty(), (Seq::empty(), Seq::empty()));
        assert(rows_of(name, files, k).take(0) =~= Seq::<(Seq<char>, Seq<char>)>::empty());
        assert(data.take(0) =~= Seq::<Seq<u8>>::empty());
        lemma_group_count_is_ceiling(n as nat, k);
        vstd::arithmetic::div_mod::lemma_basic_div(0, k as int);
    }
    while done < n
        invariant
            n == sources.len(),
            files == entries_of(sources@),
            data == contents_of(sources@),
            k == file_count,
            k > 0,
            all_fit(data),
            done <= n,
            packer.files() == files,
            packer.base() == name,
            packer.chunk() == k,
            packer.written() == done,
            packer.supplied() == data.take(done as int),
            manifest@ == manifest_bytes(rows_of(name, files, k).take(done as int)),
            archives.len() == completed(n as nat, k, done as nat),
            forall|i: int|
                0 <= i < archives.len() ==> (#[trigger] archives[i]).name@ == archive_name_of(
                    name,
                    i as nat,
                ) && archives[i].image@ == zip_image(archives_of(files, data, k)[i]),
        decreases n - done,
    {
        let ghost m = done as int;
        let ghost i = m / (k as int);
        let ghost rows = rows_of(name, files, k);
        assert(data[m] == sources[m].content@);
        let (next, step) = match packer.accept(sources[done].content.as_slice()) {
            Ok(pair) => pair,
            Err((_, e)) => {
                return Err(e);
            },
        };
        packer = next;
        proof {
            lemma_progress(n as nat, k, m);
            lemma_manifest_grows(rows.take(m), rows[m]);
            assert(rows.take(m + 1) =~= rows.take(m).push(rows[m]));
            assert(data.take(m + 1) =~= data.take(m).push(data[m]));
        }
        let mut line = step.line;
        manifest.append(&mut line);
        match step.archive {
            Some(archive) => {
                proof {
                    lemma_group_bounds(n as nat, k, i);
                    assert(archive_entries(
                        files,
                        packer.supplied(),
                        k,
                        i,
                        group_len(n as nat, k, i),
                    ) =~= archives_of(files, data, k)[i]);
                }
                archives.push(archive);
            },
            None => {},
        }
        done = done + 1;
    }
    proof {
        assert(rows_of(name, files, k).take(n as int) =~= rows_of(name, files, k));
    }
    Ok(Packed { archives, manifest })
}

} // verus!

//! A mod's files grouped into releases, as the registry lists them: the rows
//! of the listing come ordered so that a release's files, and a file's loader
//! targets, are contiguous, and each run becomes one release, one file, one
//! list of targets.
use vstd::prelude::*;
use crate::text::{copy_strings, owned, texts};

verus! {

/// One row of the listing: a release, one of its files, and one loader the
/// file targets (`None` for a file with no target recorded). The file's
/// Minecraft versions come already decoded, in listing order.
pub struct FileTargetRow {
    pub release_id: i64,
    pub version_number: String,
    pub channel: String,
    pub release_source: String,
    pub file_id: i64,
    pub version: String,
    pub sha1: String,
    pub size_bytes: i64,
    pub file_source: String,
    pub filename: Option<String>,
    pub mc_versions: Vec<String>,
    pub modrinth_version_id: Option<String>,
    pub modrinth_project_id: Option<String>,
    pub target: Option<String>,
}

/// One file of a release, with every loader it targets.
pub struct FileRow {
    pub file_id: i64,
    pub version: String,
    pub targets: Vec<String>,
    pub mc_versions: Vec<String>,
    pub sha1: String,
    pub size_bytes: i64,
    pub filename: Option<String>,
    pub source: String,
    /// Whether the mirror's cache holds the file; the listing does not know,
    /// and says no.
    pub cached: bool,
    pub modrinth_version_id: Option<String>,
    pub modrinth_project_id: Option<String>,
}

/// One release of a mod, with its files.
pub struct ReleaseRow {
    pub release_id: i64,
    pub version_number: String,
    pub channel: String,
    pub source: String,
    pub files: Vec<FileRow>,
}

/// An optional text as plain characters.
pub open spec fn opt_view(o: Option<String>) -> Option<Seq<char>> {
    match o {
        Some(s) => Some(s@),
        None => None,
    }
}

/// A listing row as plain values.
pub struct RowModel {
    pub release_id: i64,
    pub version_number: Seq<char>,
    pub channel: Seq<char>,
    pub release_source: Seq<char>,
    pub file_id: i64,
    pub version: Seq<char>,
    pub sha1: Seq<char>,
    pub size_bytes: i64,
    pub file_source: Seq<char>,
    pub filename: Option<Seq<char>>,
    pub mc_versions: Seq<Seq<char>>,
    pub modrinth_version_id: Option<Seq<char>>,
    pub modrinth_project_id: Option<Seq<char>>,
    pub target: Option<Seq<char>>,
}

/// A file as plain values.
pub struct FileModel {
    pub file_id: i64,
    pub version: Seq<char>,
    pub targets: Seq<Seq<char>>,
    pub mc_versions: Seq<Seq<char>>,
    pub sha1: Seq<char>,
    pub size_bytes: i64,
    pub filename: Option<Seq<char>>,
    pub source: Seq<char>,
    pub cached: bool,
    pub modrinth_version_id: Option<Seq<char>>,
    pub modrinth_project_id: Option<Seq<char>>,
}

/// A release as plain values.
pub struct ReleaseModel {
    pub release_id: i64,
    pub version_number: Seq<char>,
    pub channel: Seq<char>,
    pub source: Seq<char>,
    pub files: Seq<FileModel>,
}

impl View for FileTargetRow {
    type V = RowModel;

    open spec fn view(&self) -> RowModel {
        RowModel {
            release_id: self.release_id,
            version_number: self.version_number@,
            channel: self.channel@,
            release_source: self.release_source@,
            file_id: self.file_id,
            version: self.version@,
            sha1: self.sha1@,
            size_bytes: self.size_bytes,
            file_source: self.file_source@,
            filename: opt_view(self.filename),
            mc_versions: texts(self.mc_versions@),
            modrinth_version_id: opt_view(self.modrinth_version_id),
            modrinth_project_id: opt_view(self.modrinth_project_id),
            target: opt_view(self.target),
        }
    }
}

impl View for FileRow {
    type V = FileModel;

    open spec fn view(&self) -> FileModel {
        FileModel {
            file_id: self.file_id,
            version: self.version@,
            targets: texts(self.targets@),
            mc_versions: texts(self.mc_versions@),
            sha1: self.sha1@,
            size_bytes: self.size_bytes,
            filename: opt_view(self.filename),
            source: self.source@,
            cached: self.cached,
            modrinth_version_id: opt_view(self.modrinth_version_id),
            modrinth_project_id: opt_view(self.modrinth_project_id),
        }
    }
}

impl View for ReleaseRow {
    type V = ReleaseModel;

    open spec fn view(&self) -> ReleaseModel {
        ReleaseModel {
            release_id: self.release_id,
            version_number: self.version_number@,
            channel: self.channel@,
            source: self.source@,
            files: self.files@.map_values(|f: FileRow| f@),
        }
    }
}

/// The target a row adds to its file, if it names one.
pub open spec fn with_target(targets: Seq<Seq<char>>, target: Option<Seq<char>>) -> Seq<Seq<char>> {
    match target {
        Some(t) => targets.push(t),
        None => targets,
    }
}

/// The file a row starts.
pub open spec fn file_of(row: RowModel) -> FileModel {
    FileModel {
        file_id: row.file_id,
        version: row.version,
        targets: with_target(Seq::empty(), row.target),
        mc_versions: row.mc_versions,
        sha1: row.sha1,
        size_bytes: row.size_bytes,
        filename: row.filename,
        source: row.file_source,
        cached: false,
        modrinth_version_id: row.modrinth_version_id,
        modrinth_project_id: row.modrinth_project_id,
    }
}

/// The releases after one more row: a row of another release than the last
/// starts a release; a row of another file than the release's last starts
/// a file in it; any other row only adds its target to that file.
pub open spec fn add_row(out: Seq<ReleaseModel>, row: RowModel) -> Seq<ReleaseModel> {
    if out.len() == 0 || out.last().release_id != row.release_id {
        out.push(
            ReleaseModel {
                release_id: row.release_id,
                version_number: row.version_number,
                channel: row.channel,
                source: row.release_source,
                files: seq![file_of(row)],
            },
        )
    } else {
        let rel = out.last();
        if rel.files.len() == 0 || rel.files.last().file_id != row.file_id {
            out.update(out.len() - 1, ReleaseModel { files: rel.files.push(file_of(row)), ..rel })
        } else {
            let f = rel.files.last();
            out.update(
                out.len() - 1,
                ReleaseModel {
                    files: rel.files.update(
                        rel.files.len() - 1,
                        FileModel { targets: with_target(f.targets, row.target), ..f },
                    ),
                    ..rel
                },
            )
        }
    }
}

/// The releases a listing's rows group into, read in order.
pub open spec fn grouped(rows: Seq<RowModel>) -> Seq<ReleaseModel>
    decreases rows.len(),
{
    if rows.len() == 0 {
        Seq::empty()
    } else {
        add_row(grouped(rows.drop_last()), rows.last())
    }
}

fn copy_opt(o: &Option<String>) -> (r: Option<String>)
    ensures
        opt_view(r) == opt_view(*o),
{
    match o {
        Some(s) => Some(s.clone()),
        None => None,
    }
}

fn start_file(row: &FileTargetRow) -> (f: FileRow)
    ensures
        f@ == file_of(row@),
{
    let mut targets: Vec<String> = Vec::new();
    if let Some(t) = &row.target {
        targets.push(t.clone());
    }
    let f = FileRow {
        file_id: row.file_id,
        version: row.version.clone(),
        targets,
        mc_versions: copy_strings(&row.mc_versions, 0),
        sha1: row.sha1.clone(),
        size_bytes: row.size_bytes,
        filename: copy_opt(&row.filename),
        source: row.file_source.clone(),
        cached: false,
        modrinth_version_id: copy_opt(&row.modrinth_version_id),
        modrinth_project_id: copy_opt(&row.modrinth_project_id),
    };
    proof {
        assert(texts(f.targets@) =~= with_target(Seq::empty(), row@.target));
        assert(texts(row.mc_versions@).skip(0) =~= texts(row.mc_versions@));
    }
    f
}

/// Group a mod's listing rows into its releases, each with its files and
/// each file with its targets, keeping the order the rows came in.
pub fn group_releases(rows: &Vec<FileTargetRow>) -> (r: Vec<ReleaseRow>)
    ensures
        r@.map_values(|x: ReleaseRow| x@) == grouped(rows@.map_values(|x: FileTargetRow| x@)),
{
    let ghost rv = rows@.map_values(|x: FileTargetRow| x@);
    let mut out: Vec<ReleaseRow> = Vec::new();
    let mut i: usize = 0;
    proof {
        assert(rv.take(0) =~= Seq::<RowModel>::empty());
        assert(out@.map_values(|x: ReleaseRow| x@) =~= Seq::<ReleaseModel>::empty());
    }
    while i < rows.len()
        invariant
            i <= rows@.len(),
            rv == rows@.map_values(|x: FileTargetRow| x@),
            out@.map_values(|x: ReleaseRow| x@) == grouped(rv.take(i as int)),
        decreases rows@.len() - i,
    {
        let row = &rows[i];
        let ghost before = out@.map_values(|x: ReleaseRow| x@);
        let ghost rm = row@;
        proof {
            assert(rv.take(i + 1).drop_last() =~= rv.take(i as int));
            assert(rv.take(i + 1).last() == rm);
            assert(grouped(rv.take(i + 1)) == add_row(before, rm));
        }
        let n = out.len();
        if n == 0 || out[n - 1].release_id != row.release_id {
            let file = start_file(row);
            let mut files: Vec<FileRow> = Vec::new();
            files.push(file);
            let rel = ReleaseRow {
                release_id: row.release_id,
                version_number: row.version_number.clone(),
                channel: row.channel.clone(),
                source: row.release_source.clone(),
                files,
            };
            proof {
                assert(rel@.files =~= seq![file_of(rm)]);
            }
            out.push(rel);
            proof {
                assert(out@.map_values(|x: ReleaseRow| x@) =~= before.push(rel@));
            }
        } else {
            let mut rel = out.pop().unwrap();
            let ghost rel0 = rel@;
            proof {
                assert(out@.map_values(|x: ReleaseRow| x@) =~= before.drop_last());
                assert(before.last() == rel0);
            }
            let m = rel.files.len();
            if m == 0 || rel.files[m - 1].file_id != row.file_id {
                let file = start_file(row);
                let ghost fs = rel.files@;
                rel.files.push(file);
                proof {
                    assert(rel.files@.map_values(|f: FileRow| f@) =~= fs.map_values(|f: FileRow| f@).push(
                        file_of(rm),
                    ));
                    assert(rel@ == ReleaseModel { files: rel0.files.push(file_of(rm)), ..rel0 });
                }
            } else {
                let mut f = rel.files.pop().unwrap();
                let ghost f0 = f@;
                let ghost fs = rel.files@;
                if let Some(t) = &row.target {
                    let ghost ts = f.targets@;
                    f.targets.push(t.clone());
                    proof {
                        assert(texts(f.targets@) =~= texts(ts).push(t@));
                    }
                }
                proof {
                    assert(f@ == FileModel { targets: with_target(f0.targets, rm.target), ..f0 });
                }
                rel.files.push(f);
                proof {
                    assert(fs.map_values(|g: FileRow| g@) =~= rel0.files.drop_last());
                    assert(rel0.files.last() == f0);
                    assert(rel.files@.map_values(|g: FileRow| g@) =~= rel0.files.update(
                        rel0.files.len() - 1,
                        FileModel { targets: with_target(f0.targets, rm.target), ..f0 },
                    ));
                }
            }
            out.push(rel);
            proof {
                assert(out@.map_values(|x: ReleaseRow| x@) =~= before.update(before.len() - 1, rel@));
            }
        }
        i += 1;
    }
    proof {
        assert(rv.take(rows@.len() as int) =~= rv);
    }
    out
}

} // verus!

verus! {

/// Where the file with content hash `sha1` sits among a mod's releases: the
/// first release holding it, and its place among that release's files.
pub fn find_file(releases: &Vec<ReleaseRow>, sha1: &str) -> (r: Option<(usize, usize)>)
    ensures
        match r {
            Some((i, j)) => {
                &&& i < releases@.len()
                &&& j < releases@[i as int].files@.len()
                &&& releases@[i as int].files@[j as int].sha1@ == sha1@
                &&& forall|a: int, b: int|
                    0 <= a < releases@.len() && 0 <= b < releases@[a].files@.len() && (a < i || (a == i
                        && b < j)) ==> releases@[a].files@[b].sha1@ != sha1@
            },
            None => forall|a: int, b: int|
                0 <= a < releases@.len() && 0 <= b < releases@[a].files@.len() ==> releases@[a].files@[b].sha1@
                    != sha1@,
        },
{
    let want = owned(sha1);
    let mut i: usize = 0;
    while i < releases.len()
        invariant
            i <= releases@.len(),
            want@ == sha1@,
            forall|a: int, b: int|
                0 <= a < i && 0 <= b < releases@[a].files@.len() ==> releases@[a].files@[b].sha1@ != sha1@,
        decreases releases@.len() - i,
    {
        let files = &releases[i].files;
        let mut j: usize = 0;
        while j < files.len()
            invariant
                i < releases@.len(),
                j <= files@.len(),
                want@ == sha1@,
                *files == releases@[i as int].files,
                forall|a: int, b: int|
                    0 <= a < i && 0 <= b < releases@[a].files@.len() ==> releases@[a].files@[b].sha1@ != sha1@,
                forall|b: int| 0 <= b < j ==> files@[b].sha1@ != sha1@,
            decreases files@.len() - j,
        {
            if files[j].sha1 == want {
                return Some((i, j));
            }
            j += 1;
        }
        i += 1;
    }
    None
}

} // verus!

verus! {

/// How many releases a listing's rows name: one for the first row and one
/// more each time a row's release differs from the row before.
pub open spec fn release_runs(rows: Seq<RowModel>) -> nat
    decreases rows.len(),
{
    if rows.len() == 0 {
        0
    } else {
        release_runs(rows.drop_last()) + if rows.len() == 1 || rows.last().release_id != rows[rows.len() - 2].release_id {
            1nat
        } else {
            0nat
        }
    }
}

/// How many files a listing's rows name: one for the first row and one
/// more each time a row's release or file differs from the row before.
pub open spec fn file_runs(rows: Seq<RowModel>) -> nat
    decreases rows.len(),
{
    if rows.len() == 0 {
        0
    } else {
        file_runs(rows.drop_last()) + if rows.len() == 1 || rows.last().release_id != rows[rows.len() - 2].release_id
            || rows.last().file_id != rows[rows.len() - 2].file_id {
            1nat
        } else {
            0nat
        }
    }
}

/// How many rows name a loader target.
pub open spec fn targeted_rows(rows: Seq<RowModel>) -> nat
    decreases rows.len(),
{
    if rows.len() == 0 {
        0
    } else {
        targeted_rows(rows.drop_last()) + if rows.last().target is Some { 1nat } else { 0nat }
    }
}

/// The files of a list of releases, counted.
pub open spec fn files_total(rels: Seq<ReleaseModel>) -> nat
    decreases rels.len(),
{
    if rels.len() == 0 {
        0
    } else {
        files_total(rels.drop_last()) + rels.last().files.len()
    }
}

/// The targets of a list of files, counted.
pub open spec fn file_targets(files: Seq<FileModel>) -> nat
    decreases files.len(),
{
    if files.len() == 0 {
        0
    } else {
        file_targets(files.drop_last()) + files.last().targets.len()
    }
}

/// The targets of a list of releases, counted.
pub open spec fn targets_total(rels: Seq<ReleaseModel>) -> nat
    decreases rels.len(),
{
    if rels.len() == 0 {
        0
    } else {
        targets_total(rels.drop_last()) + file_targets(rels.last().files)
    }
}

/// Grouping loses and invents nothing: the listing holds one release for
/// each run of rows of one release, one file for each run of rows of one
/// file, and every loader target a row names, once; and the last release
/// and file are those of the last row.
pub proof fn law_grouping_keeps_every_release_file_and_target(rows: Seq<RowModel>)
    ensures
        grouped(rows).len() == release_runs(rows),
        files_total(grouped(rows)) == file_runs(rows),
        targets_total(grouped(rows)) == targeted_rows(rows),
        rows.len() > 0 ==> grouped(rows).len() > 0 && grouped(rows).last().release_id == rows.last().release_id
            && grouped(rows).last().files.len() > 0 && grouped(rows).last().files.last().file_id == rows.last().file_id,
    decreases rows.len(),
{
    if rows.len() > 0 {
        let before = rows.drop_last();
        let row = rows.last();
        law_grouping_keeps_every_release_file_and_target(before);
        let out = grouped(before);
        assert(grouped(rows) == add_row(out, row));
        if before.len() > 0 {
            assert(before.last() == rows[rows.len() - 2]);
        }
        let nf = file_of(row);
        assert(file_targets(seq![nf]) == nf.targets.len()) by {
            assert(seq![nf].drop_last() =~= Seq::<FileModel>::empty());
            assert(file_targets(Seq::<FileModel>::empty()) == 0);
            assert(seq![nf].last() == nf);
        }
        if out.len() == 0 || out.last().release_id != row.release_id {
            let g = grouped(rows);
            assert(g.drop_last() =~= out);
        } else {
            let rel = out.last();
            let g = grouped(rows);
            assert(g.drop_last() =~= out.drop_last());
            if rel.files.len() == 0 || rel.files.last().file_id != row.file_id {
                assert(g.last().files.drop_last() =~= rel.files);
            } else {
                let f = rel.files.last();
                let nfs = rel.files.update(rel.files.len() - 1, FileModel { targets: with_target(f.targets, row.target), ..f });
                assert(g.last().files == nfs);
                assert(nfs.drop_last() =~= rel.files.drop_last());
            }
        }
    }
}

} // verus!

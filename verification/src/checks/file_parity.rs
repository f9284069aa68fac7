//! The file-parity check: compute the union of the file paths relative to
//! their folders, report every union member a folder lacks, and group the
//! files that share a relative path into buckets of cross-folder peers.

use vstd::prelude::*;

verus! {

use core::cmp::Ordering;
use vstd::string::StringExecFns;
use crate::io::File;
use crate::natural_sort::{compare_lex, lemma_lex_antisym, lemma_lex_equal_is_identity, lemma_lex_self, lemma_lex_trans, lex_cmp};
use crate::checks::entry_parity::view_strings;

/// Relies on pathdiff::diff_paths: how a path is written relative to a
/// base is a pure function of the two paths alone.
pub uninterp spec fn diff_path_of(path: Seq<char>, base: Seq<char>) -> Option<Seq<char>>;

/// Relies on pathdiff::diff_paths to write `path` relative to `base`.
#[verifier::external_body]
fn rel_path_raw(path: &str, base: &str) -> (r: Option<String>)
    ensures
        match diff_path_of(path@, base@) {
            Some(s) => r matches Some(rs) && rs@ == s,
            None => r is None,
        },
{
    pathdiff::diff_paths(path, base).and_then(|p| p.into_os_string().into_string().ok())
}

/// The path of a file relative to its folder; a path that cannot be
/// written relative to the folder stands for itself.
pub open spec fn rel_of(path: Seq<char>, base: Seq<char>) -> Seq<char> {
    match diff_path_of(path, base) {
        Some(s) => s,
        None => path,
    }
}

fn rel_path(path: &String, base: &String) -> (r: String)
    ensures
        r@ == rel_of(path@, base@),
{
    match rel_path_raw(path.as_str(), base.as_str()) {
        Some(s) => s,
        None => path.clone(),
    }
}

/// Insert a relative path into a sorted list without duplicates: it goes
/// before the first entry it does not follow, unless it is already there.
pub open spec fn insert_rel(u: Seq<Seq<char>>, s: Seq<char>) -> Seq<Seq<char>>
    decreases u,
{
    if u.len() == 0 {
        seq![s]
    } else if lex_cmp(u[0], s, 0) == Ordering::Equal {
        u
    } else if lex_cmp(u[0], s, 0) == Ordering::Less {
        seq![u[0]] + insert_rel(u.subrange(1, u.len() as int), s)
    } else {
        seq![s] + u
    }
}

/// The union after the files of one folder, from index `j` on, are added.
pub open spec fn folder_rels_fold(
    u: Seq<Seq<char>>,
    folder: Seq<char>,
    files: Seq<File>,
    j: int,
) -> Seq<Seq<char>>
    decreases files.len() - j,
{
    if j < 0 || j >= files.len() {
        u
    } else {
        folder_rels_fold(insert_rel(u, rel_of(files[j].0@, folder)), folder, files, j + 1)
    }
}

/// The union after the folders from index `i` on are added.
pub open spec fn union_fold(
    u: Seq<Seq<char>>,
    folders: Seq<(String, Vec<File>)>,
    i: int,
) -> Seq<Seq<char>>
    decreases folders.len() - i,
{
    if i < 0 || i >= folders.len() {
        u
    } else {
        union_fold(folder_rels_fold(u, folders[i].0@, folders[i].1@, 0), folders, i + 1)
    }
}

/// Whether some file of the folder has the given relative path.
pub open spec fn folder_has_rel(files: Seq<File>, folder: Seq<char>, s: Seq<char>) -> bool {
    exists|m: int| 0 <= m < files.len() && rel_of(files[m].0@, folder) == s
}

/// The report for one union member a folder lacks.
pub open spec fn not_found_msg(rel: Seq<char>, folder: Seq<char>) -> Seq<char> {
    "[NOT FOUND] File \""@ + rel + "\" not found in folder \""@ + folder + "\""@
}

/// The reports of one folder: one per union member, in union order, that
/// none of the folder's files carries.
pub open spec fn folder_missing(
    u: Seq<Seq<char>>,
    folder: Seq<char>,
    files: Seq<File>,
    j: int,
) -> Seq<Seq<char>>
    decreases u.len() - j,
{
    if j < 0 || j >= u.len() {
        Seq::empty()
    } else {
        (if folder_has_rel(files, folder, u[j]) {
            Seq::<Seq<char>>::empty()
        } else {
            seq![not_found_msg(u[j], folder)]
        }) + folder_missing(u, folder, files, j + 1)
    }
}

/// The reports of every folder from index `i` on, in folder order.
pub open spec fn errors_fold(
    u: Seq<Seq<char>>,
    folders: Seq<(String, Vec<File>)>,
    i: int,
) -> Seq<Seq<char>>
    decreases folders.len() - i,
{
    if i < 0 || i >= folders.len() {
        Seq::empty()
    } else {
        folder_missing(u, folders[i].0@, folders[i].1@, 0) + errors_fold(u, folders, i + 1)
    }
}

/// The paths of a list of files.
pub open spec fn view_files(s: Seq<File>) -> Seq<Seq<char>>
    decreases s,
{
    if s.len() == 0 {
        Seq::empty()
    } else {
        seq![s[0].0@] + view_files(s.subrange(1, s.len() as int))
    }
}

/// The path list of a file list has one path per file.
pub proof fn lemma_view_files_index(s: Seq<File>)
    ensures
        view_files(s).len() == s.len(),
        forall|i: int| 0 <= i < s.len() ==> view_files(s)[i] == s[i].0@,
    decreases s.len(),
{
    if s.len() > 0 {
        lemma_view_files_index(s.subrange(1, s.len() as int));
    }
}

/// The files of one folder, from index `j` on, whose relative path is `p`.
pub open spec fn folder_bucket(
    folder: Seq<char>,
    files: Seq<File>,
    p: Seq<char>,
    j: int,
) -> Seq<Seq<char>>
    decreases files.len() - j,
{
    if j < 0 || j >= files.len() {
        Seq::empty()
    } else {
        (if rel_of(files[j].0@, folder) == p {
            seq![files[j].0@]
        } else {
            Seq::<Seq<char>>::empty()
        }) + folder_bucket(folder, files, p, j + 1)
    }
}

/// The paths of every file across the folders whose relative path is `p`,
/// in folder order, each folder's files in their own order.
pub open spec fn bucket_fold(folders: Seq<(String, Vec<File>)>, p: Seq<char>, i: int) -> Seq<
    Seq<char>,
>
    decreases folders.len() - i,
{
    if i < 0 || i >= folders.len() {
        Seq::empty()
    } else {
        folder_bucket(folders[i].0@, folders[i].1@, p, 0) + bucket_fold(folders, p, i + 1)
    }
}

/// A scan that passed every entry before `idx` and stopped at `idx` finds
/// where the insertion lands.
proof fn lemma_insert_rel_at(u: Seq<Seq<char>>, s: Seq<char>, idx: int)
    requires
        0 <= idx <= u.len(),
        forall|k: int| 0 <= k < idx ==> lex_cmp(u[k], s, 0) == Ordering::Less,
        idx < u.len() ==> lex_cmp(u[idx], s, 0) != Ordering::Less,
    ensures
        insert_rel(u, s) == if idx < u.len() && lex_cmp(u[idx], s, 0) == Ordering::Equal {
            u
        } else {
            u.insert(idx, s)
        },
    decreases idx,
{
    if idx == 0 {
        if !(u.len() > 0 && lex_cmp(u[0], s, 0) == Ordering::Equal) {
            if u.len() == 0 {
                assert(insert_rel(u, s) =~= u.insert(0, s));
            } else {
                assert(seq![s] + u =~= u.insert(0, s));
            }
        }
    } else {
        let tail = u.subrange(1, u.len() as int);
        lemma_insert_rel_at(tail, s, idx - 1);
        if idx < u.len() && lex_cmp(u[idx], s, 0) == Ordering::Equal {
            assert(tail[idx - 1] == u[idx]);
            assert(seq![u[0]] + tail =~= u);
        } else {
            assert(seq![u[0]] + tail.insert(idx - 1, s) =~= u.insert(idx, s));
        }
    }
}

/// Insert one relative path into the sorted union.
fn insert_rel_exec(u: &mut Vec<String>, s: String)
    ensures
        view_strings(final(u)@) == insert_rel(view_strings(old(u)@), s@),
{
    let ghost uv = view_strings(u@);
    proof {
        crate::checks::entry_parity::lemma_view_strings_index(u@);
    }
    let mut idx: usize = 0;
    while idx < u.len() && matches!(compare_lex(u[idx].as_str(), s.as_str()), Ordering::Less)
        invariant
            0 <= idx <= u@.len(),
            uv == view_strings(u@),
            uv.len() == u@.len(),
            forall|m: int| 0 <= m < u@.len() ==> uv[m] == u@[m]@,
            forall|k: int| 0 <= k < idx ==> lex_cmp(uv[k], s@, 0) == Ordering::Less,
        decreases u@.len() - idx,
    {
        idx += 1;
    }
    if idx < u.len() && matches!(compare_lex(u[idx].as_str(), s.as_str()), Ordering::Equal) {
        proof {
            lemma_insert_rel_at(uv, s@, idx as int);
        }
    } else {
        proof {
            lemma_insert_rel_at(uv, s@, idx as int);
        }
        let ghost upre = u@;
        u.insert(idx, s);
        proof {
            crate::checks::entry_parity::lemma_view_strings_index(upre);
            crate::checks::entry_parity::lemma_view_strings_index(u@);
            assert(view_strings(u@) =~= uv.insert(idx as int, s@));
        }
    }
}

/// Whether some file of the folder has the given relative path.
fn folder_contains(files: &Vec<File>, folder: &String, s: &String) -> (r: bool)
    ensures
        r == folder_has_rel(files@, folder@, s@),
{
    let mut m: usize = 0;
    while m < files.len()
        invariant
            0 <= m <= files@.len(),
            forall|k: int| 0 <= k < m ==> rel_of(files@[k].0@, folder@) != s@,
        decreases files@.len() - m,
    {
        let rel = rel_path(files[m].path(), folder);
        if matches!(compare_lex(rel.as_str(), s.as_str()), Ordering::Equal) {
            proof {
                lemma_lex_equal_is_identity(rel@, s@);
            }
            return true;
        }
        proof {
            lemma_lex_self(rel@, 0);
        }
        m += 1;
    }
    false
}

/// The sorted union of the relative paths across the folders.
fn build_union(files: &Vec<(String, Vec<File>)>) -> (u: Vec<String>)
    ensures
        view_strings(u@) == union_fold(Seq::empty(), files@, 0),
{
    let ghost target = union_fold(Seq::empty(), files@, 0);
    let mut u: Vec<String> = Vec::new();
    let mut fi: usize = 0;
    proof {
        crate::checks::entry_parity::lemma_view_strings_index(u@);
        assert(view_strings(u@) =~= Seq::<Seq<char>>::empty());
    }
    while fi < files.len()
        invariant
            0 <= fi <= files@.len(),
            target == union_fold(Seq::empty(), files@, 0),
            target == union_fold(view_strings(u@), files@, fi as int),
        decreases files@.len() - fi,
    {
        let folder = &files[fi].0;
        let flist = &files[fi].1;
        let mut j: usize = 0;
        while j < flist.len()
            invariant
                0 <= j <= flist@.len(),
                0 <= fi < files@.len(),
                folder@ == files@[fi as int].0@,
                flist@ == files@[fi as int].1@,
                target == union_fold(
                    folder_rels_fold(view_strings(u@), folder@, flist@, j as int),
                    files@,
                    fi as int + 1,
                ),
            decreases flist@.len() - j,
        {
            let rel = rel_path(flist[j].path(), folder);
            insert_rel_exec(&mut u, rel);
            j += 1;
        }
        fi += 1;
    }
    u
}

/// Find every folder and union member pair where the folder lacks the
/// member, in folder order and union order, rendered as reports.
fn build_errors(files: &Vec<(String, Vec<File>)>, u: &Vec<String>) -> (r: Vec<String>)
    ensures
        view_strings(r@) == errors_fold(view_strings(u@), files@, 0),
{
    let ghost uv = view_strings(u@);
    let ghost target = errors_fold(uv, files@, 0);
    let mut r: Vec<String> = Vec::new();
    let mut fi: usize = 0;
    proof {
        crate::checks::entry_parity::lemma_view_strings_index(r@);
        crate::checks::entry_parity::lemma_view_strings_index(u@);
        assert(view_strings(r@) + errors_fold(uv, files@, 0) =~= target);
    }
    while fi < files.len()
        invariant
            0 <= fi <= files@.len(),
            uv == view_strings(u@),
            uv.len() == u@.len(),
            forall|m: int| 0 <= m < u@.len() ==> uv[m] == u@[m]@,
            target == errors_fold(uv, files@, 0),
            view_strings(r@) + errors_fold(uv, files@, fi as int) == target,
        decreases files@.len() - fi,
    {
        let folder = &files[fi].0;
        let flist = &files[fi].1;
        let mut uj: usize = 0;
        while uj < u.len()
            invariant
                0 <= uj <= u@.len(),
                0 <= fi < files@.len(),
                folder@ == files@[fi as int].0@,
                flist@ == files@[fi as int].1@,
                uv == view_strings(u@),
                uv.len() == u@.len(),
                forall|m: int| 0 <= m < u@.len() ==> uv[m] == u@[m]@,
                target == errors_fold(uv, files@, 0),
                view_strings(r@) + folder_missing(uv, folder@, flist@, uj as int) + errors_fold(
                    uv,
                    files@,
                    fi as int + 1,
                ) == target,
            decreases u@.len() - uj,
        {
            let ghost rpre = r@;
            if !folder_contains(flist, folder, &u[uj]) {
                let mut m = "[NOT FOUND] File \"".to_owned();
                m.append(u[uj].as_str());
                m.append("\" not found in folder \"");
                m.append(folder.as_str());
                m.append("\"");
                proof {
                    assert(m@ =~= not_found_msg(uv[uj as int], folder@));
                }
                r.push(m);
            }
            proof {
                crate::checks::entry_parity::lemma_view_strings_index(rpre);
                crate::checks::entry_parity::lemma_view_strings_index(r@);
                assert(view_strings(r@) + folder_missing(uv, folder@, flist@, uj as int + 1)
                    + errors_fold(uv, files@, fi as int + 1) =~= target);
            }
            uj += 1;
        }
        fi += 1;
    }
    proof {
        assert(errors_fold(uv, files@, fi as int) =~= Seq::<Seq<char>>::empty());
        assert(view_strings(r@) =~= target);
    }
    r
}

/// Collect, for every union member in order, the files across the folders
/// that carry it as their relative path.
fn build_groups(files: &Vec<(String, Vec<File>)>, u: &Vec<String>) -> (r: Vec<Vec<File>>)
    ensures
        r@.len() == u@.len(),
        forall|i: int|
            0 <= i < u@.len() ==> view_files(r@[i]@) == bucket_fold(files@, u@[i]@, 0),
{
    let mut r: Vec<Vec<File>> = Vec::new();
    let mut ui: usize = 0;
    while ui < u.len()
        invariant
            0 <= ui <= u@.len(),
            r@.len() == ui,
            forall|i: int|
                0 <= i < ui ==> #[trigger] view_files(r@[i]@) == bucket_fold(files@, u@[i]@, 0),
        decreases u@.len() - ui,
    {
        let p = &u[ui];
        let ghost target = bucket_fold(files@, p@, 0);
        let mut g: Vec<File> = Vec::new();
        let mut fi: usize = 0;
        proof {
            lemma_view_files_index(g@);
            assert(view_files(g@) + bucket_fold(files@, p@, 0) =~= target);
        }
        while fi < files.len()
            invariant
                0 <= fi <= files@.len(),
                0 <= ui < u@.len(),
                p@ == u@[ui as int]@,
                target == bucket_fold(files@, p@, 0),
                view_files(g@) + bucket_fold(files@, p@, fi as int) == target,
            decreases files@.len() - fi,
        {
            let folder = &files[fi].0;
            let flist = &files[fi].1;
            let mut j: usize = 0;
            while j < flist.len()
                invariant
                    0 <= j <= flist@.len(),
                    0 <= fi < files@.len(),
                    0 <= ui < u@.len(),
                    p@ == u@[ui as int]@,
                    folder@ == files@[fi as int].0@,
                    flist@ == files@[fi as int].1@,
                    target == bucket_fold(files@, p@, 0),
                    view_files(g@) + folder_bucket(folder@, flist@, p@, j as int) + bucket_fold(
                        files@,
                        p@,
                        fi as int + 1,
                    ) == target,
                decreases flist@.len() - j,
            {
                let ghost gpre = g@;
                let rel = rel_path(flist[j].path(), folder);
                if matches!(compare_lex(rel.as_str(), p.as_str()), Ordering::Equal) {
                    proof {
                        lemma_lex_equal_is_identity(rel@, p@);
                    }
                    g.push(flist[j].clone());
                } else {
                    proof {
                        lemma_lex_self(rel@, 0);
                    }
                }
                proof {
                    lemma_view_files_index(gpre);
                    lemma_view_files_index(g@);
                    assert(view_files(g@) + folder_bucket(folder@, flist@, p@, j as int + 1)
                        + bucket_fold(files@, p@, fi as int + 1) =~= target);
                }
                j += 1;
            }
            fi += 1;
        }
        proof {
            assert(bucket_fold(files@, p@, fi as int) =~= Seq::<Seq<char>>::empty());
            assert(view_files(g@) =~= target);
        }
        r.push(g);
        ui += 1;
    }
    r
}

/// Check the file inventories across the folders: report every file that
/// some folder lacks, and group the files that share a relative path into
/// buckets, one per member of the sorted union of relative paths.
pub fn file_parity(files: Vec<(String, Vec<File>)>) -> (r: (Vec<Vec<File>>, Vec<String>))
    ensures
        ({
            let u = union_fold(Seq::empty(), files@, 0);
            &&& view_strings(r.1@) == errors_fold(u, files@, 0)
            &&& r.0@.len() == u.len()
            &&& forall|i: int|
                0 <= i < u.len() ==> view_files(r.0@[i]@) == bucket_fold(files@, u[i], 0)
        }),
{
    let u = build_union(&files);
    let errors = build_errors(&files, &u);
    let groups = build_groups(&files, &u);
    proof {
        crate::checks::entry_parity::lemma_view_strings_index(u@);
    }
    (groups, errors)
}

} // verus!

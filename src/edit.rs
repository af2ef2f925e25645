//! Structural edits of a container's entry list: add, delete, rename, merge. Each
//! one either succeeds whole or fails with the container as it was.

use vstd::prelude::*;

use crate::container::{
    Container, ContainerView, Entry, EntryView, entries_view, stamps_match,
    valid_entry, wf_view,
};
use crate::error::PackError;
use crate::path::{
    copy_path, copy_segments, copy_units, has_prefix, is_valid_path, path_view, paths_equal,
    starts_with, valid_path,
};

verus! {

/// Some entry of `es` has exactly the path `p`.
pub open spec fn path_taken(es: Seq<EntryView>, p: Seq<Seq<u16>>) -> bool {
    exists|i: int| 0 <= i < es.len() && (#[trigger] es[i]).path == p
}

/// Some entry of `es` lies at or under `prefix`.
pub open spec fn prefix_matches(es: Seq<EntryView>, prefix: Seq<Seq<u16>>) -> bool {
    exists|i: int| 0 <= i < es.len() && has_prefix((#[trigger] es[i]).path, prefix)
}

/// The timestamp a new entry gets: zero where the index records timestamps.
pub open spec fn new_stamp(stamped: bool) -> Option<u32> {
    if stamped {
        Some(0)
    } else {
        None
    }
}

/// The timestamp an entry carries into a container, kept where the index records them.
pub open spec fn carried_stamp(ts: Option<u32>, stamped: bool) -> Option<u32> {
    if stamped {
        Some(
            match ts {
                Some(t) => t,
                None => 0,
            },
        )
    } else {
        None
    }
}

/// An entry's path after renaming the last segment of `prefix` to `name`.
pub open spec fn renamed_path(p: Seq<Seq<u16>>, prefix: Seq<Seq<u16>>, name: Seq<u16>) -> Seq<
    Seq<u16>,
> {
    p.update(prefix.len() - 1, name)
}

pub open spec fn rename_entry(e: EntryView, prefix: Seq<Seq<u16>>, name: Seq<u16>) -> EntryView {
    if has_prefix(e.path, prefix) {
        EntryView { path: renamed_path(e.path, prefix, name), timestamp: e.timestamp, data: e.data }
    } else {
        e
    }
}

/// The entries after renaming everything at or under `prefix`.
pub open spec fn spec_rename(es: Seq<EntryView>, prefix: Seq<Seq<u16>>, name: Seq<u16>) -> Seq<
    EntryView,
> {
    es.map_values(|e: EntryView| rename_entry(e, prefix, name))
}

/// A renamed entry would land on the path of an entry that is not renamed.
pub open spec fn rename_collides(es: Seq<EntryView>, prefix: Seq<Seq<u16>>, name: Seq<u16>) -> bool {
    exists|i: int, j: int|
        0 <= i < es.len() && 0 <= j < es.len() && has_prefix((#[trigger] es[i]).path, prefix)
            && !has_prefix((#[trigger] es[j]).path, prefix) && renamed_path(es[i].path, prefix, name)
            == es[j].path
}

/// The entries left after deleting everything at or under `prefix`.
pub open spec fn spec_delete(es: Seq<EntryView>, prefix: Seq<Seq<u16>>) -> Seq<EntryView> {
    es.filter(|e: EntryView| !has_prefix(e.path, prefix))
}

/// Where a merged entry lands: `dest`, then the entry's path from the last segment
/// of `source` on (the whole path when `source` is empty).
pub open spec fn merged_path(p: Seq<Seq<u16>>, source: Seq<Seq<u16>>, dest: Seq<Seq<u16>>) -> Seq<
    Seq<u16>,
> {
    if source.len() == 0 {
        dest + p
    } else {
        dest + p.skip(source.len() - 1)
    }
}

/// One step of a merge: the entry of the other container is copied when it lies
/// under `source` and its new path is valid, free, and countable.
pub open spec fn merge_step(
    acc: Seq<EntryView>,
    e: EntryView,
    source: Seq<Seq<u16>>,
    dest: Seq<Seq<u16>>,
    stamped: bool,
) -> Seq<EntryView> {
    let p = merged_path(e.path, source, dest);
    if !has_prefix(e.path, source) || !valid_path(p) || acc.len() >= u32::MAX || path_taken(acc, p) {
        acc
    } else {
        acc.push(EntryView { path: p, timestamp: carried_stamp(e.timestamp, stamped), data: e.data })
    }
}

/// The entries after merging `others`, one by one in their order, into `acc`.
pub open spec fn spec_merge(
    acc: Seq<EntryView>,
    others: Seq<EntryView>,
    source: Seq<Seq<u16>>,
    dest: Seq<Seq<u16>>,
    stamped: bool,
) -> Seq<EntryView>
    decreases others.len(),
{
    if others.len() == 0 {
        acc
    } else {
        merge_step(
            spec_merge(acc, others.drop_last(), source, dest, stamped),
            others.last(),
            source,
            dest,
            stamped,
        )
    }
}

/// How many entries a merge copied and how many it left out.
#[derive(Debug, Clone, Copy, PartialEq, Eq, Structural)]
pub struct MergeReport {
    pub added: usize,
    pub skipped: usize,
}

/// Adding a valid entry whose path is free keeps the paths unique.
pub proof fn lemma_add_keeps_paths_unique(c: ContainerView, e: EntryView)
    requires
        wf_view(c),
        c.entries.len() < u32::MAX,
        valid_entry(e),
        !path_taken(c.entries, e.path),
    ensures
        wf_view(ContainerView { header: c.header, entries: c.entries.push(e) }),
{
    let es = c.entries.push(e);
    assert forall|i: int| 0 <= i < es.len() implies valid_entry(#[trigger] es[i]) by {
        if i < c.entries.len() {
            assert(es[i] == c.entries[i]);
        }
    }
    assert forall|i: int, j: int|
        0 <= i < es.len() && 0 <= j < es.len() && i != j implies (#[trigger] es[i]).path != (
        #[trigger] es[j]).path by {
        if i < c.entries.len() && j < c.entries.len() {
            assert(es[i] == c.entries[i] && es[j] == c.entries[j]);
        } else if i < c.entries.len() {
            assert(es[i] == c.entries[i]);
        } else {
            assert(es[j] == c.entries[j]);
        }
    }
}

proof fn lemma_remove_wf(c: ContainerView, k: int)
    requires
        wf_view(c),
        0 <= k < c.entries.len(),
    ensures
        wf_view(ContainerView { header: c.header, entries: c.entries.remove(k) }),
        stamps_match(c) ==> stamps_match(
            ContainerView { header: c.header, entries: c.entries.remove(k) },
        ),
{
    let es = c.entries.remove(k);
    assert forall|i: int| 0 <= i < es.len() implies valid_entry(#[trigger] es[i]) by {
        if i < k {
            assert(es[i] == c.entries[i]);
        } else {
            assert(es[i] == c.entries[i + 1]);
        }
    }
    assert forall|i: int, j: int|
        0 <= i < es.len() && 0 <= j < es.len() && i != j implies (#[trigger] es[i]).path != (
        #[trigger] es[j]).path by {
        let i2 = if i < k {
            i
        } else {
            i + 1
        };
        let j2 = if j < k {
            j
        } else {
            j + 1
        };
        assert(es[i] == c.entries[i2] && es[j] == c.entries[j2]);
    }
    if stamps_match(c) {
        assert forall|i: int| 0 <= i < es.len() implies ((#[trigger] es[i]).timestamp is Some
            <==> c.header.index_has_timestamp) by {
            if i < k {
                assert(es[i] == c.entries[i]);
            } else {
                assert(es[i] == c.entries[i + 1]);
            }
        }
    }
}

/// Renaming keeps the entries valid and their paths apart, when no renamed entry
/// lands on an entry that is not renamed.
pub proof fn lemma_rename_keeps_paths_unique(c: ContainerView, prefix: Seq<Seq<u16>>, name: Seq<u16>)
    requires
        wf_view(c),
        prefix.len() > 0,
        0 < name.len() <= u16::MAX,
        !rename_collides(c.entries, prefix, name),
    ensures
        wf_view(ContainerView { header: c.header, entries: spec_rename(c.entries, prefix, name) }),
{
    let es = c.entries;
    let rs = spec_rename(es, prefix, name);
    let k = prefix.len() - 1;
    assert forall|i: int| 0 <= i < rs.len() implies valid_entry(#[trigger] rs[i]) by {
        assert(valid_entry(es[i]));
        if has_prefix(es[i].path, prefix) {
            let p = renamed_path(es[i].path, prefix, name);
            assert forall|m: int| 0 <= m < p.len() implies 0 < (#[trigger] p[m]).len()
                <= u16::MAX by {
                if m != k {
                    assert(p[m] == es[i].path[m]);
                }
            }
        }
    }
    assert forall|i: int, j: int|
        0 <= i < rs.len() && 0 <= j < rs.len() && i != j implies (#[trigger] rs[i]).path != (
        #[trigger] rs[j]).path by {
        let a = es[i];
        let b = es[j];
        assert(a.path != b.path);
        if has_prefix(a.path, prefix) && has_prefix(b.path, prefix) {
            if rs[i].path == rs[j].path {
                assert(a.path.len() == b.path.len());
                assert forall|m: int| 0 <= m < a.path.len() implies a.path[m] == b.path[m] by {
                    if m == k {
                        assert(a.path.take(prefix.len() as int)[m] == prefix[m]);
                        assert(b.path.take(prefix.len() as int)[m] == prefix[m]);
                    } else {
                        assert(rs[i].path[m] == a.path[m]);
                        assert(rs[j].path[m] == b.path[m]);
                    }
                }
                assert(a.path =~= b.path);
            }
        } else if has_prefix(a.path, prefix) {
            assert(rs[j] == b);
            assert(!rename_collides(es, prefix, name));
        } else if has_prefix(b.path, prefix) {
            assert(rs[i] == a);
            assert(!rename_collides(es, prefix, name));
        }
    }
}

/// Deleting a file or a folder keeps the remaining entries valid and their paths
/// apart.
pub proof fn lemma_delete_keeps_paths_unique(c: ContainerView, prefix: Seq<Seq<u16>>)
    requires
        wf_view(c),
    ensures
        wf_view(ContainerView { header: c.header, entries: spec_delete(c.entries, prefix) }),
    decreases c.entries.len(),
{
    let es = c.entries;
    let keep = |e: EntryView| !has_prefix(e.path, prefix);
    if es.len() == 0 {
        assert(spec_delete(es, prefix) =~= Seq::<EntryView>::empty());
    } else {
        let init = es.drop_last();
        let e = es.last();
        let c0 = ContainerView { header: c.header, entries: init };
        assert forall|i: int| 0 <= i < init.len() implies valid_entry(#[trigger] init[i]) by {
            assert(init[i] == es[i]);
        }
        assert forall|i: int, j: int|
            0 <= i < init.len() && 0 <= j < init.len() && i != j implies (#[trigger] init[i]).path
            != (#[trigger] init[j]).path by {
            assert(init[i] == es[i] && init[j] == es[j]);
        }
        lemma_delete_keeps_paths_unique(c0, prefix);
        assert(es =~= init.push(e));
        init.lemma_filter_push(e, keep);
        let f0 = spec_delete(init, prefix);
        if keep(e) {
            assert(!path_taken(f0, e.path)) by {
                if path_taken(f0, e.path) {
                    let k = choose|k: int| 0 <= k < f0.len() && (#[trigger] f0[k]).path == e.path;
                    assert(f0.contains(f0[k]));
                    init.lemma_filter_contains_rev(keep, f0[k]);
                    let m = choose|m: int| 0 <= m < init.len() && init[m] == f0[k];
                    assert(es[m] == init[m]);
                    assert(es[es.len() - 1] == e);
                }
            }
            assert(valid_entry(es[es.len() - 1]));
            lemma_add_keeps_paths_unique(ContainerView { header: c.header, entries: f0 }, e);
        }
    }
}

/// Merging entries of a valid container into a valid one keeps the entries valid
/// and their paths apart: a copy whose path is taken is left out.
pub proof fn lemma_merge_keeps_paths_unique(
    c: ContainerView,
    others: Seq<EntryView>,
    source: Seq<Seq<u16>>,
    dest: Seq<Seq<u16>>,
    stamped: bool,
)
    requires
        wf_view(c),
        wf_view(ContainerView { header: c.header, entries: others }),
    ensures
        wf_view(
            ContainerView {
                header: c.header,
                entries: spec_merge(c.entries, others, source, dest, stamped),
            },
        ),
    decreases others.len(),
{
    if others.len() > 0 {
        let init = others.drop_last();
        assert forall|i: int| 0 <= i < init.len() implies valid_entry(#[trigger] init[i]) by {
            assert(init[i] == others[i]);
        }
        assert forall|i: int, j: int|
            0 <= i < init.len() && 0 <= j < init.len() && i != j implies (#[trigger] init[i]).path
            != (#[trigger] init[j]).path by {
            assert(init[i] == others[i] && init[j] == others[j]);
        }
        lemma_merge_keeps_paths_unique(c, init, source, dest, stamped);
        let acc = spec_merge(c.entries, init, source, dest, stamped);
        let e = others.last();
        assert(valid_entry(others[others.len() - 1]));
        let p = merged_path(e.path, source, dest);
        if has_prefix(e.path, source) && valid_path(p) && acc.len() < u32::MAX && !path_taken(acc, p) {
            lemma_add_keeps_paths_unique(
                ContainerView { header: c.header, entries: acc },
                EntryView { path: p, timestamp: carried_stamp(e.timestamp, stamped), data: e.data },
            );
        }
    }
}

impl Container {
    /// The index of the entry with exactly the path `p`, if there is one.
    pub fn position(&self, p: &Vec<Vec<u16>>) -> (r: Option<usize>)
        ensures
            match r {
                Some(i) => i < self@.entries.len() && self@.entries[i as int].path == path_view(
                    p@,
                ),
                None => !path_taken(self@.entries, path_view(p@)),
            },
    {
        let ghost es = self@.entries;
        let mut i: usize = 0;
        while i < self.entries.len()
            invariant
                es == self@.entries,
                i <= es.len(),
                forall|k: int| 0 <= k < i ==> (#[trigger] es[k]).path != path_view(p@),
            decreases es.len() - i,
        {
            assert(es[i as int] == self.entries@[i as int]@);
            if paths_equal(&self.entries[i].path, p) {
                return Some(i);
            }
            i = i + 1;
        }
        None
    }

    /// Whether some entry lies at or under `prefix`.
    pub fn has_entries_under(&self, prefix: &Vec<Vec<u16>>) -> (r: bool)
        ensures
            r == prefix_matches(self@.entries, path_view(prefix@)),
    {
        let ghost es = self@.entries;
        let mut i: usize = 0;
        while i < self.entries.len()
            invariant
                es == self@.entries,
                i <= es.len(),
                forall|k: int| 0 <= k < i ==> !has_prefix((#[trigger] es[k]).path, path_view(prefix@)),
            decreases es.len() - i,
        {
            assert(es[i as int] == self.entries@[i as int]@);
            if starts_with(&self.entries[i].path, prefix) {
                return true;
            }
            i = i + 1;
        }
        false
    }

    /// Adds an entry at the end. Fails with `DuplicatePath`, changing nothing, when
    /// an entry already has that path. The new entry's timestamp is zero where the
    /// index records timestamps.
    pub fn add(&mut self, path: Vec<Vec<u16>>, data: Vec<u8>) -> (r: Result<(), PackError>)
        requires
            wf_view(old(self)@),
            old(self)@.entries.len() < u32::MAX,
            valid_path(path_view(path@)),
            data@.len() <= u32::MAX,
        ensures
            wf_view(final(self)@),
            stamps_match(old(self)@) ==> stamps_match(final(self)@),
            path_taken(old(self)@.entries, path_view(path@)) ==> r == Err::<(), PackError>(
                PackError::DuplicatePath,
            ) && final(self)@ == old(self)@,
            !path_taken(old(self)@.entries, path_view(path@)) ==> r == Ok::<(), PackError>(())
                && final(self)@ == (ContainerView {
                    header: old(self)@.header,
                    entries: old(self)@.entries.push(
                        EntryView {
                            path: path_view(path@),
                            timestamp: new_stamp(old(self)@.header.index_has_timestamp),
                            data: data@,
                        },
                    ),
                }),
    {
        if self.position(&path).is_some() {
            return Err(PackError::DuplicatePath);
        }
        let timestamp = if self.header.index_has_timestamp {
            Some(0)
        } else {
            None
        };
        let e = Entry { path, timestamp, data };
        proof {
            lemma_add_keeps_paths_unique(self@, e@);
            assert(entries_view(self.entries@.push(e)) =~= entries_view(self.entries@).push(e@));
        }
        self.entries.push(e);
        Ok(())
    }

    /// Deletes the entry with the path `prefix`, or every entry under the folder
    /// `prefix`, keeping the order of the rest; returns how many were deleted. Fails
    /// with `NotFound`, changing nothing, when no entry matches.
    pub fn delete(&mut self, prefix: &Vec<Vec<u16>>) -> (r: Result<usize, PackError>)
        requires
            wf_view(old(self)@),
        ensures
            wf_view(final(self)@),
            stamps_match(old(self)@) ==> stamps_match(final(self)@),
            !prefix_matches(old(self)@.entries, path_view(prefix@)) ==> r == Err::<
                usize,
                PackError,
            >(PackError::NotFound) && final(self)@ == old(self)@,
            prefix_matches(old(self)@.entries, path_view(prefix@)) ==> r is Ok && final(self)@.header == old(self)@.header && final(self)@.entries == spec_delete(
                old(self)@.entries,
                path_view(prefix@),
            ) && r->Ok_0 == old(self)@.entries.len() - final(self)@.entries.len(),
    {
        if !self.has_entries_under(prefix) {
            return Err(PackError::NotFound);
        }
        let ghost pv = path_view(prefix@);
        let ghost orig = self@.entries;
        let ghost keep = |e: EntryView| !has_prefix(e.path, pv);
        let mut i: usize = 0;
        let ghost mut j: int = 0;
        let mut removed: usize = 0;
        let total = self.entries.len();
        while i < self.entries.len()
            invariant
                orig == old(self)@.entries,
                orig.len() == total,
                pv == path_view(prefix@),
                keep == (|e: EntryView| !has_prefix(e.path, pv)),
                self@.header == old(self)@.header,
                wf_view(self@),
                stamps_match(old(self)@) ==> stamps_match(self@),
                0 <= i <= j <= orig.len(),
                i <= self@.entries.len(),
                self@.entries.take(i as int) == orig.take(j).filter(keep),
                self@.entries.skip(i as int) == orig.skip(j),
                removed == j - i,
            decreases self@.entries.len() - i,
        {
            let ghost es = self@.entries;
            assert(es[i as int] == self.entries@[i as int]@);
            assert(es.skip(i as int).len() == orig.skip(j).len());
            assert(es.skip(i + 1) =~= es.skip(i as int).skip(1));
            assert(orig.skip(j + 1) =~= orig.skip(j).skip(1));
            assert(orig[j] == es[i as int]) by {
                assert(orig.skip(j)[0] == es.skip(i as int)[0]);
            }
            proof {
                assert(orig.take(j + 1) =~= orig.take(j).push(orig[j]));
                orig.take(j).lemma_filter_push(orig[j], keep);
            }
            if starts_with(&self.entries[i].path, prefix) {
                proof {
                    lemma_remove_wf(self@, i as int);
                }
                let _removed = self.entries.remove(i);
                proof {
                    let nv = self@.entries;
                    assert(nv =~= es.remove(i as int));
                    assert(nv.take(i as int) =~= es.take(i as int));
                    assert(nv.skip(i as int) =~= orig.skip(j + 1));
                    j = j + 1;
                }
                removed = removed + 1;
            } else {
                proof {
                    assert(es.take(i + 1) =~= es.take(i as int).push(es[i as int]));
                    assert(es.skip(i + 1) =~= orig.skip(j + 1));
                    j = j + 1;
                }
                i = i + 1;
            }
        }
        proof {
            assert(self@.entries.skip(i as int).len() == 0);
            assert(j == orig.len());
            assert(orig.take(j) =~= orig);
            assert(self@.entries.take(i as int) =~= self@.entries);
        }
        Ok(removed)
    }

    /// Renames the last segment of `prefix` to `name` in the entry with that path,
    /// or in every entry under that folder. Fails with `NotFound` when no entry
    /// matches, and with `DuplicatePath` when a renamed entry would take the path of
    /// another entry; either way nothing changes.
    pub fn rename(&mut self, prefix: &Vec<Vec<u16>>, name: Vec<u16>) -> (r: Result<(), PackError>)
        requires
            wf_view(old(self)@),
            path_view(prefix@).len() > 0,
            0 < name@.len() <= u16::MAX,
        ensures
            wf_view(final(self)@),
            stamps_match(old(self)@) ==> stamps_match(final(self)@),
            !prefix_matches(old(self)@.entries, path_view(prefix@)) ==> r == Err::<(), PackError>(
                PackError::NotFound,
            ) && final(self)@ == old(self)@,
            prefix_matches(old(self)@.entries, path_view(prefix@)) && rename_collides(
                old(self)@.entries,
                path_view(prefix@),
                name@,
            ) ==> r == Err::<(), PackError>(PackError::DuplicatePath) && final(self)@ == old(self)@,
            prefix_matches(old(self)@.entries, path_view(prefix@)) && !rename_collides(
                old(self)@.entries,
                path_view(prefix@),
                name@,
            ) ==> r == Ok::<(), PackError>(()) && final(self)@ == (ContainerView {
                header: old(self)@.header,
                entries: spec_rename(old(self)@.entries, path_view(prefix@), name@),
            }),
    {
        if !self.has_entries_under(prefix) {
            return Err(PackError::NotFound);
        }
        let ghost pv = path_view(prefix@);
        let ghost es = self@.entries;
        let k = prefix.len() - 1;
        let n = self.entries.len();
        let mut i: usize = 0;
        while i < n
            invariant
                es == self@.entries,
                self@ == old(self)@,
                wf_view(old(self)@),
                pv == path_view(prefix@),
                n == es.len(),
                k == pv.len() - 1,
                i <= n,
                forall|a: int, b: int|
                    0 <= a < i && 0 <= b < n && has_prefix(es[a].path, pv) && !has_prefix(
                        es[b].path,
                        pv,
                    ) ==> renamed_path(#[trigger] es[a].path, pv, name@) != (#[trigger] es[b]).path,
            decreases n - i,
        {
            assert(es[i as int] == self.entries@[i as int]@);
            if starts_with(&self.entries[i].path, prefix) {
                let mut p = copy_path(&self.entries[i].path);
                p.remove(k);
                p.insert(k, copy_units(name.as_slice()));
                assert(path_view(p@) =~= renamed_path(es[i as int].path, pv, name@));
                let mut j: usize = 0;
                while j < n
                    invariant
                        es == self@.entries,
                        self@ == old(self)@,
                        wf_view(old(self)@),
                        pv == path_view(prefix@),
                        n == es.len(),
                        i < n,
                        j <= n,
                        has_prefix(es[i as int].path, pv),
                        path_view(p@) == renamed_path(es[i as int].path, pv, name@),
                        forall|b: int|
                            0 <= b < j && !has_prefix(es[b].path, pv) ==> path_view(p@) != (
                            #[trigger] es[b]).path,
                    decreases n - j,
                {
                    assert(es[j as int] == self.entries@[j as int]@);
                    if !starts_with(&self.entries[j].path, prefix) && paths_equal(
                        &p,
                        &self.entries[j].path,
                    ) {
                        assert(rename_collides(es, pv, name@));
                        return Err(PackError::DuplicatePath);
                    }
                    j = j + 1;
                }
            }
            i = i + 1;
        }
        assert(!rename_collides(es, pv, name@));
        proof {
            lemma_rename_keeps_paths_unique(self@, pv, name@);
        }
        let mut i: usize = 0;
        while i < n
            invariant
                es == old(self)@.entries,
                pv == path_view(prefix@),
                n == es.len(),
                k == pv.len() - 1,
                0 < name@.len() <= u16::MAX,
                i <= n,
                self@.header == old(self)@.header,
                self@.entries.len() == n,
                forall|a: int| 0 <= a < i ==> #[trigger] self@.entries[a] == rename_entry(
                    es[a],
                    pv,
                    name@,
                ),
                forall|a: int| i <= a < n ==> #[trigger] self@.entries[a] == es[a],
            decreases n - i,
        {
            let ghost before = self.entries@;
            assert(self@.entries[i as int] == before[i as int]@);
            if starts_with(&self.entries[i].path, prefix) {
                let mut e = self.entries.remove(i);
                e.path.remove(k);
                e.path.insert(k, copy_units(name.as_slice()));
                proof {
                    assert(path_view(e.path@) =~= renamed_path(es[i as int].path, pv, name@));
                }
                self.entries.insert(i, e);
                proof {
                    assert(self.entries@ =~= before.update(i as int, e));
                    assert(e@ == rename_entry(es[i as int], pv, name@));
                }
            } else {
                assert(before[i as int]@ == rename_entry(es[i as int], pv, name@));
            }
            proof {
                assert forall|a: int| 0 <= a < n implies #[trigger] self@.entries[a] == (if a
                    < i + 1 {
                    rename_entry(es[a], pv, name@)
                } else {
                    es[a]
                }) by {
                    assert(self@.entries[a] == self.entries@[a]@);
                    if a != i {
                        assert(self.entries@[a] == before[a]);
                        assert(entries_view(before)[a] == before[a]@);
                    }
                }
            }
            i = i + 1;
        }
        assert(self@.entries =~= spec_rename(es, pv, name@));
        Ok(())
    }

    /// Copies the entry `source`, or every entry under the folder `source`, from
    /// `other` into this container, at the end and in `other`'s order. Each copy's
    /// path is `dest` followed by its path from the last segment of `source` on. A
    /// copy whose path is taken (or invalid) is skipped and counted, and the rest
    /// go on. Fails with `NotFound`, changing nothing, when no entry of `other`
    /// matches.
    pub fn merge_from(
        &mut self,
        other: &Container,
        source: &Vec<Vec<u16>>,
        dest: &Vec<Vec<u16>>,
    ) -> (r: Result<MergeReport, PackError>)
        requires
            wf_view(old(self)@),
            wf_view(other@),
        ensures
            wf_view(final(self)@),
            final(self)@.header == old(self)@.header,
            stamps_match(old(self)@) ==> stamps_match(final(self)@),
            !prefix_matches(other@.entries, path_view(source@)) ==> r == Err::<
                MergeReport,
                PackError,
            >(PackError::NotFound) && final(self)@ == old(self)@,
            prefix_matches(other@.entries, path_view(source@)) ==> r is Ok && final(
                self)@.entries == spec_merge(
                old(self)@.entries,
                other@.entries,
                path_view(source@),
                path_view(dest@),
                old(self)@.header.index_has_timestamp,
            ) && r->Ok_0.added == final(self)@.entries.len() - old(self)@.entries.len()
                && r->Ok_0.added + r->Ok_0.skipped == other@.entries.filter(
                |e: EntryView| has_prefix(e.path, path_view(source@)),
            ).len(),
    {
        if !other.has_entries_under(source) {
            return Err(PackError::NotFound);
        }
        let ghost sv = path_view(source@);
        let ghost dv = path_view(dest@);
        let ghost os = other@.entries;
        let ghost under = |e: EntryView| has_prefix(e.path, sv);
        let stamped = self.header.index_has_timestamp;
        let cut: usize = if source.len() == 0 {
            0
        } else {
            source.len() - 1
        };
        let n = other.entries.len();
        let mut added: usize = 0;
        let mut skipped: usize = 0;
        let mut i: usize = 0;
        assert(os.take(0) =~= Seq::<EntryView>::empty());
        while i < n
            invariant
                n == os.len(),
                os == other@.entries,
                wf_view(other@),
                sv == path_view(source@),
                dv == path_view(dest@),
                under == (|e: EntryView| has_prefix(e.path, sv)),
                stamped == self.header.index_has_timestamp,
                cut == (if sv.len() == 0 {
                    0
                } else {
                    sv.len() - 1
                }),
                i <= n,
                self@.header == old(self)@.header,
                wf_view(self@),
                stamps_match(old(self)@) ==> stamps_match(self@),
                self@.entries == spec_merge(old(self)@.entries, os.take(i as int), sv, dv, stamped),
                added == self@.entries.len() - old(self)@.entries.len(),
                added + skipped == os.take(i as int).filter(under).len(),
                added + skipped <= i,
            decreases n - i,
        {
            let ghost acc = self@.entries;
            let e = &other.entries[i];
            assert(os[i as int] == e@);
            proof {
                assert(os.take(i + 1).drop_last() =~= os.take(i as int));
                assert(os.take(i + 1) =~= os.take(i as int).push(os[i as int]));
                os.take(i as int).lemma_filter_push(os[i as int], under);
                assert(valid_entry(os[i as int]));
            }
            if starts_with(&e.path, source) {
                let mut p = copy_path(dest);
                let mut tail = copy_segments(&e.path, cut, e.path.len());
                proof {
                    assert(path_view(p@ + tail@) =~= path_view(p@) + path_view(tail@));
                    if sv.len() == 0 {
                        assert(path_view(e.path@).subrange(0, e.path@.len() as int) =~= e@.path);
                    } else {
                        assert(path_view(e.path@).subrange(cut as int, e.path@.len() as int)
                            =~= e@.path.skip(cut as int));
                    }
                }
                p.append(&mut tail);
                let ghost pv = merged_path(e@.path, sv, dv);
                assert(path_view(p@) == pv);
                if is_valid_path(&p) && self.entries.len() < 0xFFFF_FFFF && self.position(
                    &p,
                ).is_none() {
                    let timestamp = if stamped {
                        match e.timestamp {
                            Some(t) => Some(t),
                            None => Some(0),
                        }
                    } else {
                        None
                    };
                    let data = vstd::slice::slice_to_vec(e.data.as_slice());
                    let ne = Entry { path: p, timestamp, data };
                    proof {
                        lemma_add_keeps_paths_unique(self@, ne@);
                        assert(entries_view(self.entries@.push(ne)) =~= entries_view(
                            self.entries@,
                        ).push(ne@));
                    }
                    self.entries.push(ne);
                    added = added + 1;
                } else {
                    skipped = skipped + 1;
                }
            }
            i = i + 1;
        }
        assert(os.take(n as int) =~= os);
        Ok(MergeReport { added, skipped })
    }
}

} // verus!

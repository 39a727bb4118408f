//! The decisions of a filesystem scan. The walk itself (reading directories
//! and metadata) is the caller's; a `Scanner` decides what each directory
//! entry becomes in the catalog and which directories to read next.
use vstd::prelude::*;

use crate::catalog::{
    copy_bytes, media_kind, object_id, object_id_text, path_hash, spec_media_kind, stable_os_hash,
    Catalog, CatalogScan, Entry, EntryKind, EntryKindView, EntryView, ScanError, fingerprint_of,
};
use crate::config::{Config, MediaCategory, ShareConfig};
use crate::tokens::{lossy_string, utf8_lossy};

verus! {

/// What the filesystem reports about one directory entry.
#[derive(Debug)]
pub struct DirEntryInfo {
    /// The entry's name, as the operating system's bytes.
    pub file_name: Vec<u8>,
    /// The name, decoded lossily.
    pub title: String,
    /// The name without its extension, decoded lossily, when it has a stem.
    pub stem: Option<String>,
    /// The full path, as the operating system's bytes.
    pub path: Vec<u8>,
    /// The path relative to the share root, as the operating system's bytes.
    pub relative: Vec<u8>,
    pub is_symlink: bool,
    pub is_dir: bool,
    pub is_file: bool,
    pub size: u64,
    pub modified_seconds: u64,
    /// How long ago the entry was last modified, in whole seconds, when the
    /// modification time is known and not in the future.
    pub age_seconds: Option<u64>,
}

/// A directory waiting to be read: its path and its object ID.
#[derive(Debug)]
pub struct PendingDirectory {
    pub path: Vec<u8>,
    pub id: String,
}

/// The state of a scan over the shares of one configuration.
#[derive(Debug)]
pub struct Scanner {
    catalog: Catalog,
    recursive: bool,
    follow_symlinks: bool,
    include_hidden: bool,
    minimum_age_seconds: u64,
    unsettled_files: usize,
    root_hash: u64,
    media: Vec<MediaCategory>,
    pending: Vec<PendingDirectory>,
    visited: Vec<Vec<u8>>,
}

/// Whether a name marks a hidden entry: it starts with a dot.
pub open spec fn hidden_name(name: Seq<u8>) -> bool {
    name.len() > 0 && name[0] == 46u8
}

/// `is_hidden`: a leading `.` hides a name.
pub fn is_hidden(name: &[u8]) -> (r: bool)
    ensures
        r == hidden_name(name@),
{
    name.len() > 0 && name[0] == 46u8
}

/// A file is settled when no minimum age applies or when it is known to be at
/// least that old.
pub open spec fn settled(age: Option<u64>, minimum_age: u64) -> bool {
    minimum_age == 0 || (age matches Some(a) && a >= minimum_age)
}

pub fn is_settled(age: Option<u64>, minimum_age: u64) -> (r: bool)
    ensures
        r == settled(age, minimum_age),
{
    minimum_age == 0 || match age {
        Some(a) => a >= minimum_age,
        None => false,
    }
}

/// Where the last `.` of a name is.
pub open spec fn last_dot(name: Seq<u8>) -> Option<int>
    decreases name.len(),
{
    if name.len() == 0 {
        None
    } else if name.last() == 46u8 {
        Some(name.len() - 1)
    } else {
        last_dot(name.drop_last())
    }
}

/// The stem of a file name, as `Path::file_stem` gives it: the name before
/// its last `.`, or the whole name when it has no `.`, starts with its only
/// `.`, or is `..`.
pub open spec fn stem_bytes(name: Seq<u8>) -> Seq<u8> {
    if name == seq![46u8, 46u8] {
        name
    } else {
        match last_dot(name) {
            Some(i) => if i > 0 {
                name.take(i)
            } else {
                name
            },
            None => name,
        }
    }
}

proof fn lemma_last_dot(name: Seq<u8>, k: int)
    requires
        -1 <= k < name.len(),
        forall|j: int| k < j < name.len() ==> name[j] != 46u8,
        k >= 0 ==> name[k] == 46u8,
    ensures
        last_dot(name) == (if k >= 0 { Some(k) } else { None::<int> }),
    decreases name.len(),
{
    if name.len() > 0 && k < name.len() - 1 {
        let t = name.drop_last();
        assert forall|j: int| k < j < t.len() implies t[j] != 46u8 by {
            assert(t[j] == name[j]);
        }
        if k >= 0 {
            assert(t[k] == name[k]);
        }
        lemma_last_dot(t, k);
    }
}

/// The title and stem of a directory entry's name, decoded lossily: an
/// item is titled by its stem, a container by its whole name. An empty name
/// has no stem.
pub fn entry_titles(file_name: &[u8]) -> (r: (String, Option<String>))
    ensures
        r.0@ == utf8_lossy(file_name@),
        match r.1 {
            Some(stem) => file_name@.len() > 0 && stem@ == utf8_lossy(stem_bytes(file_name@)),
            None => file_name@.len() == 0,
        },
{
    let title = lossy_string(file_name);
    let n = file_name.len();
    if n == 0 {
        return (title, None);
    }
    if n == 2 && file_name[0] == 46u8 && file_name[1] == 46u8 {
        assert(file_name@ =~= seq![46u8, 46u8]);
        let stem = lossy_string(file_name);
        return (title, Some(stem));
    }
    proof {
        if file_name@ == seq![46u8, 46u8] {
            assert(file_name@[0] == 46u8 && file_name@[1] == 46u8);
        }
    }
    let mut e: usize = n;
    while e > 0 && file_name[e - 1] != 46u8
        invariant
            e <= n == file_name@.len(),
            forall|j: int| e <= j < n ==> file_name@[j] != 46u8,
        decreases e,
    {
        e = e - 1;
    }
    proof {
        lemma_last_dot(file_name@, e - 1);
    }
    let stem = if e > 1 {
        let head = vstd::slice::slice_subrange(file_name, 0, e - 1);
        assert(head@ =~= file_name@.take(e - 1));
        lossy_string(head)
    } else {
        lossy_string(file_name)
    };
    (title, Some(stem))
}

/// What a directory entry becomes.
pub ghost enum Plan {
    /// Nothing: a hidden name, an unfollowed link, a directory in a
    /// non-recursive scan, or a file that is not published media.
    Skip,
    /// A published media file that was modified too recently.
    Unsettled,
    /// A new catalog entry.
    Insert(EntryView),
}

impl Scanner {
    pub closed spec fn spec_catalog(&self) -> Catalog {
        self.catalog
    }

    pub closed spec fn spec_unsettled(&self) -> usize {
        self.unsettled_files
    }

    pub closed spec fn spec_root_hash(&self) -> u64 {
        self.root_hash
    }

    pub closed spec fn spec_media(&self) -> Seq<MediaCategory> {
        self.media@
    }

    pub closed spec fn spec_options(&self) -> (bool, bool, bool, u64) {
        (self.recursive, self.follow_symlinks, self.include_hidden, self.minimum_age_seconds)
    }

    /// The directories still to be read, last one first.
    pub closed spec fn spec_pending(&self) -> Seq<(Seq<u8>, Seq<char>)> {
        self.pending@.map_values(|d: PendingDirectory| (d.path@, d.id@))
    }

    pub closed spec fn spec_visited(&self) -> Seq<Seq<u8>> {
        self.visited@.map_values(|v: Vec<u8>| v@)
    }

    pub closed spec fn inv(&self) -> bool {
        &&& self.catalog.wf()
        &&& forall|k: int|
            0 <= k < self.pending@.len() ==> self.catalog.may_have_children(
                (#[trigger] self.pending@[k]).id@,
            )
    }

    /// The entry a directory entry becomes, following the scan rules in
    /// order: links are skipped unless followed; a directory becomes a
    /// container when the scan is recursive; a regular file whose extension
    /// names a category the share publishes becomes an item once settled.
    pub open spec fn plan(&self, parent_id: Seq<char>, info: &DirEntryInfo) -> Plan {
        let (recursive, follow, _, minimum_age) = self.spec_options();
        if info.is_symlink && !follow {
            Plan::Skip
        } else if info.is_dir {
            if !recursive {
                Plan::Skip
            } else {
                Plan::Insert(
                    EntryView {
                        id: object_id_text('d', self.spec_root_hash(), info.relative@),
                        parent_id,
                        title: info.title@,
                        path: info.path@,
                        kind: EntryKindView::Container,
                        size: 0,
                        modified_seconds: info.modified_seconds,
                    },
                )
            }
        } else if info.is_file && spec_media_kind(info.path@) is Some && self.spec_media().contains(
            spec_media_kind(info.path@)->0.category,
        ) {
            if !settled(info.age_seconds, minimum_age) {
                Plan::Unsettled
            } else {
                Plan::Insert(
                    EntryView {
                        id: object_id_text('f', self.spec_root_hash(), info.relative@),
                        parent_id,
                        title: match info.stem {
                            Some(s) => s@,
                            None => info.title@,
                        },
                        path: info.path@,
                        kind: EntryKindView::Media(spec_media_kind(info.path@)->0@),
                        size: info.size,
                        modified_seconds: info.modified_seconds,
                    },
                )
            }
        } else {
            Plan::Skip
        }
    }

    /// A scanner with an empty catalog, applying the configuration's scanner
    /// options and publishing only files at least `minimum_age_seconds` old.
    pub fn new(config: &Config, minimum_age_seconds: u64) -> (r: Scanner)
        ensures
            r.inv(),
            r.spec_catalog().entry_views().len() == 0,
            forall|x: Seq<char>| r.spec_catalog().spec_entry(x) is None,
            r.spec_unsettled() == 0,
            r.spec_catalog().spec_file_count() == 0,
            r.spec_catalog().browse_shaped(),
            r.spec_pending().len() == 0,
            r.spec_options() == (
                config.scanner.recursive,
                config.scanner.follow_symlinks,
                config.scanner.include_hidden,
                minimum_age_seconds,
            ),
    {
        let r = Scanner {
            catalog: Catalog::empty(),
            recursive: config.scanner.recursive,
            follow_symlinks: config.scanner.follow_symlinks,
            include_hidden: config.scanner.include_hidden,
            minimum_age_seconds,
            unsettled_files: 0,
            root_hash: 0,
            media: Vec::new(),
            pending: Vec::new(),
            visited: Vec::new(),
        };
        proof {
            assert(r.spec_pending() =~= Seq::empty());

        }
        r
    }

    /// Starts a share whose canonical root is `root`: adds the share's
    /// container under the root object and queues the root directory.
    pub fn begin_share(&mut self, share: &ShareConfig, root: &[u8], modified_seconds: u64) -> (r:
        Result<(), ScanError>)
        requires
            old(self).inv(),
        ensures
            final(self).inv(),
            final(self).spec_root_hash() == path_hash(root@),
            final(self).spec_media() == share.media@,
            final(self).spec_options() == old(self).spec_options(),
            final(self).spec_unsettled() == old(self).spec_unsettled(),
            final(self).spec_catalog().spec_file_count() == old(self).spec_catalog().spec_file_count(),
            final(self).spec_visited().len() == 0,
            old(self).spec_catalog().browse_shaped() ==> final(self).spec_catalog().browse_shaped(),
            ({
                let e = EntryView {
                    id: object_id_text('d', path_hash(root@), Seq::empty()),
                    parent_id: crate::catalog::ROOT_ID@,
                    title: share.name@,
                    path: root@,
                    kind: EntryKindView::Container,
                    size: 0,
                    modified_seconds,
                };
                match r {
                    Ok(()) => {
                        &&& old(self).spec_catalog().spec_entry(e.id) is None
                        &&& forall|x: Seq<char>| #[trigger]
                            final(self).spec_catalog().spec_entry(x) == (if x == e.id {
                                Some(e)
                            } else {
                                old(self).spec_catalog().spec_entry(x)
                            })
                        &&& forall|p: Seq<char>| #[trigger]
                            final(self).spec_catalog().spec_child_ids(p)
                                == old(self).spec_catalog().lists_after_insert(e, p)
                        &&& final(self).spec_pending() == seq![(root@, e.id)]
                    },
                    Err(err) => {
                        &&& old(self).spec_catalog().spec_entry(e.id) is Some
                        &&& err is IdCollision
                    },
                }
            }),
    {
        let root_hash = stable_os_hash(root);
        let empty: Vec<u8> = Vec::new();
        let root_id = object_id('d', root_hash, empty.as_slice());
        let path = vstd::slice::slice_to_vec(root);
        let entry = Entry {
            id: root_id.clone(),
            parent_id: String::from_str(crate::catalog::ROOT_ID),
            title: share.name.clone(),
            path,
            kind: EntryKind::Container,
            size: 0,
            modified_seconds,
        };
        self.root_hash = root_hash;
        self.media = share.media.clone();
        assert(self.media@ =~= share.media@);
        self.visited = Vec::new();
        self.pending = Vec::new();
        let r = self.catalog.insert_entry(entry);
        if r.is_ok() {
            self.pending.push(PendingDirectory { path: vstd::slice::slice_to_vec(root), id: root_id });
            assert(self.spec_pending() =~= seq![(root@, object_id_text('d', path_hash(root@), Seq::empty()))]);
        }
        assert(self.spec_visited() =~= Seq::empty());
        r
    }

    /// The next directory to read, if any.
    pub fn next_directory(&mut self) -> (r: Option<PendingDirectory>)
        requires
            old(self).inv(),
        ensures
            final(self).inv(),
            final(self).spec_catalog() == old(self).spec_catalog(),
            final(self).spec_unsettled() == old(self).spec_unsettled(),
            final(self).spec_root_hash() == old(self).spec_root_hash(),
            final(self).spec_media() == old(self).spec_media(),
            final(self).spec_options() == old(self).spec_options(),
            final(self).spec_visited() == old(self).spec_visited(),
            r matches Some(d) ==> old(self).spec_catalog().may_have_children(d.id@),
            match r {
                Some(d) => old(self).spec_pending().len() > 0 && (d.path@, d.id@)
                    == old(self).spec_pending().last() && final(self).spec_pending()
                    == old(self).spec_pending().drop_last(),
                None => old(self).spec_pending().len() == 0 && final(self).spec_pending()
                    == old(self).spec_pending(),
            },
    {
        let r = self.pending.pop();
        assert(self.spec_pending() =~= old(self).spec_pending().take(self.pending@.len() as int));
        r
    }

    /// Records that the canonical directory `canonical` is being read; false
    /// when it was read before during this share (a link cycle or a second
    /// link to the same directory).
    pub fn first_visit(&mut self, canonical: &[u8]) -> (r: bool)
        requires
            old(self).inv(),
        ensures
            final(self).inv(),
            final(self).spec_catalog() == old(self).spec_catalog(),
            final(self).spec_unsettled() == old(self).spec_unsettled(),
            final(self).spec_root_hash() == old(self).spec_root_hash(),
            final(self).spec_media() == old(self).spec_media(),
            final(self).spec_options() == old(self).spec_options(),
            final(self).spec_pending() == old(self).spec_pending(),
            r == !old(self).spec_visited().contains(canonical@),
            final(self).spec_visited() == (if r {
                old(self).spec_visited().push(canonical@)
            } else {
                old(self).spec_visited()
            }),
    {
        let ghost vs = self.spec_visited();
        let mut i: usize = 0;
        while i < self.visited.len()
            invariant
                self.inv(),
                vs == self.visited@.map_values(|v: Vec<u8>| v@),
                i <= vs.len(),
                forall|k: int| 0 <= k < i ==> vs[k] != canonical@,
            decreases vs.len() - i,
        {
            let same = match crate::order::compare_bytes(self.visited[i].as_slice(), canonical) {
                crate::order::Order::Same => true,
                _ => false,
            };
            if same {
                assert(vs[i as int] == canonical@);
                return false;
            }
            i = i + 1;
        }
        self.visited.push(vstd::slice::slice_to_vec(canonical));
        assert(self.spec_visited() =~= vs.push(canonical@));
        true
    }

    /// Whether an entry with this name is considered at all.
    pub fn wants(&self, file_name: &[u8]) -> (r: bool)
        ensures
            r == (self.spec_options().2 || !hidden_name(file_name@)),
    {
        self.include_hidden || !is_hidden(file_name)
    }

    /// Applies the scan rules to one directory entry found in the directory
    /// `parent_id`: a new container is also queued for reading.
    pub fn add(&mut self, parent_id: &String, info: DirEntryInfo) -> (r: Result<(), ScanError>)
        requires
            old(self).inv(),
            old(self).spec_unsettled() < usize::MAX,
            old(self).spec_catalog().spec_file_count() < usize::MAX,
        ensures
            final(self).inv(),
            final(self).spec_root_hash() == old(self).spec_root_hash(),
            final(self).spec_media() == old(self).spec_media(),
            final(self).spec_options() == old(self).spec_options(),
            final(self).spec_visited() == old(self).spec_visited(),
            old(self).spec_catalog().browse_shaped() && old(self).spec_catalog().may_have_children(
                parent_id@,
            ) ==> final(self).spec_catalog().browse_shaped(),
            match old(self).plan(parent_id@, &info) {
                Plan::Skip => r is Ok && final(self).spec_catalog() == old(self).spec_catalog()
                    && final(self).spec_unsettled() == old(self).spec_unsettled()
                    && final(self).spec_pending() == old(self).spec_pending(),
                Plan::Unsettled => r is Ok && final(self).spec_catalog() == old(
                    self,
                ).spec_catalog() && final(self).spec_unsettled() == old(self).spec_unsettled() + 1
                    && final(self).spec_pending() == old(self).spec_pending(),
                Plan::Insert(e) => {
                    &&& final(self).spec_unsettled() == old(self).spec_unsettled()
                    &&& (r is Ok <==> old(self).spec_catalog().spec_entry(e.id) is None)
                    &&& r is Ok ==> {
                        &&& forall|x: Seq<char>| #[trigger]
                            final(self).spec_catalog().spec_entry(x) == (if x == e.id {
                                Some(e)
                            } else {
                                old(self).spec_catalog().spec_entry(x)
                            })
                        &&& forall|p: Seq<char>| #[trigger]
                            final(self).spec_catalog().spec_child_ids(p)
                                == old(self).spec_catalog().lists_after_insert(e, p)
                        &&& final(self).spec_pending() == (if e.kind is Container {
                            old(self).spec_pending().push((e.path, e.id))
                        } else {
                            old(self).spec_pending()
                        })
                    }
                    &&& final(self).spec_catalog().spec_file_count() == (if e.kind is Container {
                        old(self).spec_catalog().spec_file_count() as int
                    } else {
                        old(self).spec_catalog().spec_file_count() + 1
                    })
                    &&& final(self).spec_catalog().spec_total_bytes() == (if e.kind is Container {
                        old(self).spec_catalog().spec_total_bytes() as int
                    } else if old(self).spec_catalog().spec_total_bytes() + e.size > u64::MAX {
                        u64::MAX as int
                    } else {
                        old(self).spec_catalog().spec_total_bytes() + e.size
                    })
                    &&& r matches Err(err) ==> err is IdCollision
                },
            },
    {
        if info.is_symlink && !self.follow_symlinks {
            return Ok(());
        }
        if info.is_dir {
            if !self.recursive {
                return Ok(());
            }
            let id = object_id('d', self.root_hash, info.relative.as_slice());
            let path = copy_bytes(&info.path);
            let entry = Entry {
                id: id.clone(),
                parent_id: parent_id.clone(),
                title: info.title,
                path: info.path,
                kind: EntryKind::Container,
                size: 0,
                modified_seconds: info.modified_seconds,
            };
            let r = self.catalog.insert_entry(entry);
            if r.is_ok() {
                self.pending.push(PendingDirectory { path, id });
                assert(self.spec_pending() =~= old(self).spec_pending().push(
                    (info.path@, object_id_text('d', old(self).spec_root_hash(), info.relative@)),
                ));
            }
            return r;
        }
        if !info.is_file {
            return Ok(());
        }
        let kind = match media_kind(info.path.as_slice()) {
            Some(k) => k,
            None => {
                return Ok(());
            },
        };
        if !self.publishes(kind.category) {
            return Ok(());
        }
        if !is_settled(info.age_seconds, self.minimum_age_seconds) {
            self.unsettled_files = self.unsettled_files + 1;
            return Ok(());
        }
        let title = match info.stem {
            Some(stem) => stem,
            None => info.title,
        };
        let id = object_id('f', self.root_hash, info.relative.as_slice());
        let ghost before = self.catalog;
        self.catalog.record_file(info.size);
        let ghost counted = self.catalog;
        let entry = Entry {
            id,
            parent_id: parent_id.clone(),
            title,
            path: info.path,
            kind: EntryKind::Media(kind),
            size: info.size,
            modified_seconds: info.modified_seconds,
        };
        proof {
            assert forall|x: Seq<char>| #[trigger] counted.spec_entry(x) == before.spec_entry(x) by {
            }
            assert forall|p: Seq<char>| #[trigger] counted.spec_child_ids(p) == before.spec_child_ids(p) by {
            }
            assert forall|p: Seq<char>| #[trigger] counted.lists_after_insert(entry@, p)
                == before.lists_after_insert(entry@, p) by {
            }
        }
        self.catalog.insert_entry(entry)
    }

    fn publishes(&self, category: MediaCategory) -> (r: bool)
        ensures
            r == self.spec_media().contains(category),
    {
        let mut i: usize = 0;
        while i < self.media.len()
            invariant
                i <= self.media@.len(),
                forall|k: int| 0 <= k < i ==> self.media@[k] != category,
            decreases self.media@.len() - i,
        {
            if self.media[i] == category {
                assert(self.media@[i as int] == category);
                return true;
            }
            i = i + 1;
        }
        false
    }

    /// The number of media files withheld so far because they were too recent.
    pub fn unsettled_files(&self) -> (r: usize)
        ensures
            r == self.spec_unsettled(),
    {
        self.unsettled_files
    }

    /// The number of media files published so far.
    pub fn file_count(&self) -> (r: usize)
        ensures
            r == self.spec_catalog().spec_file_count(),
    {
        self.catalog.file_count()
    }

    /// Ends the scan: child lists in browse order and the update ID set to the
    /// content fingerprint.
    pub fn finish(self) -> (r: CatalogScan)
        requires
            self.inv(),
        ensures
            r.catalog.wf(),
            r.unsettled_files == self.spec_unsettled(),
            r.catalog.entry_views() == self.spec_catalog().entry_views(),
            r.catalog.spec_update_id() == fingerprint_of(self.spec_catalog().entry_views()),
            r.catalog.sealed(),
            r.catalog.spec_file_count() == self.spec_catalog().spec_file_count(),
            r.catalog.spec_total_bytes() == self.spec_catalog().spec_total_bytes(),
            self.spec_catalog().browse_shaped() ==> r.catalog.browse_shaped(),
            forall|p: Seq<char>|
                (#[trigger] r.catalog.spec_child_ids(p) is Some)
                    == self.spec_catalog().spec_child_ids(p) is Some,
            forall|p: Seq<char>|
                #![trigger r.catalog.spec_child_ids(p)]
                r.catalog.spec_child_ids(p) is Some ==> {
                    let l = r.catalog.spec_child_ids(p)->0;
                    &&& l.to_multiset() == self.spec_catalog().spec_child_ids(p)->0.to_multiset()
                    &&& crate::order::sorted_by(
                        l,
                        |x: Seq<char>, y: Seq<char>|
                            crate::catalog::child_lt(r.catalog.entry_views(), x, y),
                    )
                },
    {
        let mut catalog = self.catalog;
        catalog.seal();
        CatalogScan { catalog, unsettled_files: self.unsettled_files }
    }
}

} // verus!

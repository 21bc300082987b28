use vstd::prelude::*;
use vstd::string::StringSliceAdditionalSpecFns;
use crate::paths::{contains_bytes, join, join_spec, parent, parent_spec, same_bytes, views};

verus! {

/// A parsed configuration file: its optional display name, its optional
/// workspace folder inside the container, and where it was read from.
pub struct ConfigRecord {
    pub file_name: Vec<u8>,
    pub name: Option<String>,
    pub workspace_folder: Option<String>,
}

/// What is known of the file system: the paths that are directories, and
/// the configuration files that exist, each with what it holds.
pub struct FsSnapshot {
    pub dirs: Vec<Vec<u8>>,
    pub files: Vec<ConfigRecord>,
}

/// Index of the last record read from `p`, or -1.
pub open spec fn file_index(files: Seq<ConfigRecord>, p: Seq<u8>) -> int
    decreases files.len(),
{
    if files.len() == 0 {
        -1
    } else if files.last().file_name@ == p {
        files.len() - 1
    } else {
        file_index(files.drop_last(), p)
    }
}

impl FsSnapshot {
    pub open spec fn has_dir_path(&self, p: Seq<u8>) -> bool {
        exists|i: int| 0 <= i < self.dirs@.len() && (#[trigger] self.dirs@[i])@ == p
    }

    pub open spec fn has_file_path(&self, p: Seq<u8>) -> bool {
        file_index(self.files@, p) >= 0
    }

    /// The record read from `p`; meaningful where `has_file_path(p)`.
    pub open spec fn record_at(&self, p: Seq<u8>) -> ConfigRecord {
        self.files@[file_index(self.files@, p)]
    }

    /// A snapshot that knows of nothing.
    pub fn new() -> (r: FsSnapshot)
        ensures
            r.dirs@.len() == 0,
            r.files@.len() == 0,
    {
        FsSnapshot { dirs: Vec::new(), files: Vec::new() }
    }

    /// Records that `p` is a directory.
    pub fn add_dir(&mut self, p: Vec<u8>)
        ensures
            final(self).dirs@ == old(self).dirs@.push(p),
            final(self).files@ == old(self).files@,
    {
        self.dirs.push(p);
    }

    /// Records the configuration file `c`.
    pub fn add_file(&mut self, c: ConfigRecord)
        ensures
            final(self).files@ == old(self).files@.push(c),
            final(self).dirs@ == old(self).dirs@,
    {
        self.files.push(c);
    }

    /// Whether `p` is a known directory.
    pub fn is_dir(&self, p: &[u8]) -> (r: bool)
        ensures
            r == self.has_dir_path(p@),
    {
        let mut i: usize = 0;
        while i < self.dirs.len()
            invariant
                i <= self.dirs@.len(),
                forall|j: int| 0 <= j < i ==> (#[trigger] self.dirs@[j])@ != p@,
            decreases self.dirs@.len() - i,
        {
            if same_bytes(self.dirs[i].as_slice(), p) {
                return true;
            }
            i = i + 1;
        }
        false
    }

    /// The record of the configuration file `p`, if it is a known file.
    pub fn file_at(&self, p: &[u8]) -> (r: Option<&ConfigRecord>)
        ensures
            r is Some == self.has_file_path(p@),
            r matches Some(c) ==> *c == self.record_at(p@),
    {
        let mut i: usize = self.files.len();
        assert(self.files@.subrange(0, i as int) =~= self.files@);
        while i > 0
            invariant
                i <= self.files@.len(),
                file_index(self.files@, p@) == file_index(self.files@.subrange(0, i as int), p@),
            decreases i,
        {
            let ghost q = self.files@.subrange(0, i as int);
            if same_bytes(self.files[i - 1].file_name.as_slice(), p) {
                assert(q.last() == self.files@[i - 1]);
                return Some(&self.files[i - 1]);
            }
            assert(q.drop_last() =~= self.files@.subrange(0, i - 1));
            i = i - 1;
        }
        None
    }
}

/// What to look for when walking up: the directory `dir`, and optionally a
/// directory `stop` whose presence ends the walk.
pub struct FindOptions<'a> {
    pub dir: &'a str,
    pub stop: Option<&'a str>,
}

/// Whether `pth` holds a directory named `dir`.
pub fn has_dir(pth: &[u8], dir: &str, fs: &FsSnapshot) -> (r: bool)
    ensures
        r == fs.has_dir_path(join_spec(pth@, dir.spec_bytes())),
{
    let p = join(pth, dir.as_bytes());
    fs.is_dir(p.as_slice())
}

/// The outcome of the upward walk from `p`: at each level, first the marker
/// `dir`, then the `stop` directory, then the parent level.
pub open spec fn find_up(p: Seq<u8>, dir: Seq<u8>, stop: Option<Seq<u8>>, fs: FsSnapshot) -> Option<
    Seq<u8>,
>
    decreases p.len(),
{
    if fs.has_dir_path(join_spec(p, dir)) {
        Some(join_spec(p, dir))
    } else if stop matches Some(s) && fs.has_dir_path(join_spec(p, s)) {
        None
    } else {
        match parent_spec(p) {
            None => None,
            Some(q) => if q.len() < p.len() {
                find_up(q, dir, stop, fs)
            } else {
                None
            },
        }
    }
}

pub open spec fn stop_bytes(stop: Option<&str>) -> Option<Seq<u8>> {
    match stop {
        Some(s) => Some(s.spec_bytes()),
        None => None,
    }
}

/// A parent is always shorter than its child.
pub proof fn lemma_parent_shorter(p: Seq<u8>)
    ensures
        parent_spec(p) matches Some(q) ==> q.len() < p.len(),
{
    crate::paths::lemma_last_sep_bounds(p);
    if p.len() == 1 && p[0] == crate::paths::SEP {
        assert(p =~= seq![crate::paths::SEP]);
    }
}

/// Looks for the directory `opts.dir`, starting at `pth` and going up one
/// parent at a time; gives up where `opts.stop` is found first or at the root.
/// Every step is to a shorter path, so the walk ends.
pub fn find_dir_up(pth: &[u8], opts: FindOptions, fs: &FsSnapshot) -> (r: Option<Vec<u8>>)
    ensures
        r matches Some(d) ==> find_up(pth@, opts.dir.spec_bytes(), stop_bytes(opts.stop), *fs)
            == Some(d@),
        r is None ==> find_up(pth@, opts.dir.spec_bytes(), stop_bytes(opts.stop), *fs) is None,
{
    let ghost dir = opts.dir.spec_bytes();
    let ghost stop = stop_bytes(opts.stop);
    let mut root: Vec<u8> = crate::paths::copy_bytes(pth);
    loop
        invariant
            find_up(root@, dir, stop, *fs) == find_up(pth@, dir, stop, *fs),
            dir == opts.dir.spec_bytes(),
            stop == stop_bytes(opts.stop),
        decreases root@.len(),
    {
        let dc = join(root.as_slice(), opts.dir.as_bytes());
        if fs.is_dir(dc.as_slice()) {
            return Some(dc);
        }
        match opts.stop {
            Some(stop_dir) => {
                if has_dir(root.as_slice(), stop_dir, fs) {
                    return None;
                }
            },
            None => {},
        }
        proof {
            lemma_parent_shorter(root@);
        }
        match parent(root.as_slice()) {
            None => {
                return None;
            },
            Some(q) => {
                root = q;
            },
        }
    }
}

/// `init`, then the files `name` of the subdirectories of `dir` among `dirs`,
/// in order, each one that exists and is not listed yet.
pub open spec fn collect_matches(
    dirs: Seq<Vec<u8>>,
    dir: Seq<u8>,
    name: Seq<u8>,
    fs: FsSnapshot,
    init: Seq<Seq<u8>>,
) -> Seq<Seq<u8>>
    decreases dirs.len(),
{
    if dirs.len() == 0 {
        init
    } else {
        let rest = collect_matches(dirs.drop_last(), dir, name, fs, init);
        let d = dirs.last()@;
        let f = join_spec(d, name);
        if parent_spec(d) == Some(dir) && fs.has_file_path(f) && !rest.contains(f) {
            rest.push(f)
        } else {
            rest
        }
    }
}

/// The file `name` in `dir` itself, if it exists.
pub open spec fn own_match(dir: Seq<u8>, name: Seq<u8>, fs: FsSnapshot) -> Seq<Seq<u8>> {
    if fs.has_file_path(join_spec(dir, name)) {
        seq![join_spec(dir, name)]
    } else {
        Seq::empty()
    }
}

/// The files named `name` in `dir` itself and in each of its immediate
/// subdirectories, each once; nothing where `dir` is not a directory.
pub open spec fn files_matching_spec(dir: Seq<u8>, name: Seq<u8>, fs: FsSnapshot) -> Seq<Seq<u8>> {
    if !fs.has_dir_path(dir) {
        Seq::empty()
    } else {
        collect_matches(fs.dirs@, dir, name, fs, own_match(dir, name, fs))
    }
}

proof fn lemma_collect(
    dirs: Seq<Vec<u8>>,
    dir: Seq<u8>,
    name: Seq<u8>,
    fs: FsSnapshot,
    init: Seq<Seq<u8>>,
)
    requires
        init.no_duplicates(),
        forall|i: int| 0 <= i < init.len() ==> fs.has_file_path(#[trigger] init[i]),
    ensures
        collect_matches(dirs, dir, name, fs, init).no_duplicates(),
        collect_matches(dirs, dir, name, fs, init).len() >= init.len(),
        collect_matches(dirs, dir, name, fs, init).subrange(0, init.len() as int) == init,
        forall|i: int|
            0 <= i < collect_matches(dirs, dir, name, fs, init).len() ==> fs.has_file_path(
                #[trigger] collect_matches(dirs, dir, name, fs, init)[i],
            ),
    decreases dirs.len(),
{
    if dirs.len() > 0 {
        lemma_collect(dirs.drop_last(), dir, name, fs, init);
        let rest = collect_matches(dirs.drop_last(), dir, name, fs, init);
        let all = collect_matches(dirs, dir, name, fs, init);
        let f = join_spec(dirs.last()@, name);
        if all != rest {
            assert(all == rest.push(f));
            assert forall|i: int, j: int| 0 <= i < all.len() && 0 <= j < all.len() && i != j
                implies all[i] != all[j] by {
                if i < rest.len() && j < rest.len() {
                    assert(all[i] == rest[i] && all[j] == rest[j]);
                } else if i < rest.len() {
                    assert(all[i] == rest[i]);
                } else {
                    assert(all[j] == rest[j]);
                }
            }
            assert forall|i: int| 0 <= i < all.len() implies fs.has_file_path(#[trigger] all[i]) by {
                if i < rest.len() {
                    assert(all[i] == rest[i]);
                }
            }
            assert(all.subrange(0, init.len() as int) =~= rest.subrange(0, init.len() as int));
        }
    } else {
        assert(init.subrange(0, init.len() as int) =~= init);
    }
}

/// Every file that the search reports is a known file, each is reported
/// once, and the file in `dir` itself, if any, comes first.
pub proof fn lemma_matches_exist(dir: Seq<u8>, name: Seq<u8>, fs: FsSnapshot)
    ensures
        forall|i: int|
            0 <= i < files_matching_spec(dir, name, fs).len() ==> fs.has_file_path(
                #[trigger] files_matching_spec(dir, name, fs)[i],
            ),
        files_matching_spec(dir, name, fs).no_duplicates(),
        fs.has_dir_path(dir) && fs.has_file_path(join_spec(dir, name)) ==> files_matching_spec(
            dir,
            name,
            fs,
        ).len() > 0 && files_matching_spec(dir, name, fs)[0] == join_spec(dir, name),
{
    if fs.has_dir_path(dir) {
        let init = own_match(dir, name, fs);
        lemma_collect(fs.dirs@, dir, name, fs, init);
        if init.len() > 0 {
            let all = files_matching_spec(dir, name, fs);
            assert(all.subrange(0, 1)[0] == all[0]);
        }
    } else {
        assert(files_matching_spec(dir, name, fs) =~= Seq::<Seq<u8>>::empty());
    }
}

fn same_parent(d: &[u8], dir: &[u8]) -> (r: bool)
    ensures
        r == (parent_spec(d@) == Some(dir@)),
{
    match parent(d) {
        None => false,
        Some(q) => same_bytes(q.as_slice(), dir),
    }
}

/// Searches `dir` and its immediate subdirectories (one level only) for
/// files named `file_name`, reporting each file once.
pub fn files_matching(dir: &[u8], file_name: &str, fs: &FsSnapshot) -> (r: Vec<Vec<u8>>)
    ensures
        views(r@) == files_matching_spec(dir@, file_name.spec_bytes(), *fs),
        views(r@).no_duplicates(),
{
    let ghost name = file_name.spec_bytes();
    proof {
        lemma_matches_exist(dir@, name, *fs);
    }
    let mut res: Vec<Vec<u8>> = Vec::new();
    if !fs.is_dir(dir) {
        assert(views(res@) =~= Seq::<Seq<u8>>::empty());
        return res;
    }
    let own = join(dir, file_name.as_bytes());
    if fs.file_at(own.as_slice()).is_some() {
        res.push(own);
    }
    let ghost first = views(res@);
    assert(first =~= own_match(dir@, name, *fs));
    assert(fs.dirs@.subrange(0, 0) =~= Seq::<Vec<u8>>::empty());
    let mut i: usize = 0;
    while i < fs.dirs.len()
        invariant
            i <= fs.dirs@.len(),
            name == file_name.spec_bytes(),
            first == own_match(dir@, name, *fs),
            views(res@) == collect_matches(fs.dirs@.subrange(0, i as int), dir@, name, *fs, first),
        decreases fs.dirs@.len() - i,
    {
        let d = &fs.dirs[i];
        assert(fs.dirs@.subrange(0, i + 1).drop_last() =~= fs.dirs@.subrange(0, i as int));
        if same_parent(d.as_slice(), dir) {
            let c = join(d.as_slice(), file_name.as_bytes());
            if fs.file_at(c.as_slice()).is_some() && !contains_bytes(&res, c.as_slice()) {
                let ghost before = views(res@);
                res.push(c);
                assert(views(res@) =~= before.push(c@));
            }
        }
        i = i + 1;
    }
    assert(fs.dirs@.subrange(0, fs.dirs@.len() as int) =~= fs.dirs@);
    res
}

} // verus!
